use vstd::prelude::*;
use crate::cell::{CellTypes, cell_char};
use crate::grid::Board;
use crate::search::{all_shaped, is_ignored};
use crate::text::{decimal, digit_char, digit_of, joined, texts, join_with, string_of, push_decimal, push_char, push_str};

verus! {

/// How many of the boards have a bomb at `(x, y)`.
pub open spec fn bomb_tally(ps: Seq<Board>, x: int, y: int) -> nat
    decreases ps.len(),
{
    if ps.len() == 0 {
        0
    } else {
        bomb_tally(ps.drop_last(), x, y) + if ps.last().at(x, y) == CellTypes::Bomb {
            1nat
        } else {
            0nat
        }
    }
}

/// How many of the boards leave `(x, y)` covered.
pub open spec fn clear_tally(ps: Seq<Board>, x: int, y: int) -> nat
    decreases ps.len(),
{
    if ps.len() == 0 {
        0
    } else {
        clear_tally(ps.drop_last(), x, y) + if ps.last().at(x, y) == CellTypes::Covered {
            1nat
        } else {
            0nat
        }
    }
}

/// Nothing new is learned at `(x, y)`: no completion decides it, it is
/// ignored, or it is a bomb already and every completion agrees.
pub open spec fn keeps_base(base: Board, ps: Seq<Board>, ign: Seq<(usize, usize)>, x: int, y: int) -> bool {
    let b = bomb_tally(ps, x, y);
    let n = clear_tally(ps, x, y);
    ||| b == 0 && n == 0
    ||| ign.contains((x as usize, y as usize))
    ||| b > 0 && n == 0 && base.at(x, y) == CellTypes::Bomb
}

/// Every completion agrees on `(x, y)`, and that is news.
pub open spec fn is_sure(base: Board, ps: Seq<Board>, ign: Seq<(usize, usize)>, x: int, y: int) -> bool {
    let b = bomb_tally(ps, x, y);
    let n = clear_tally(ps, x, y);
    !keeps_base(base, ps, ign, x, y) && (b == 0 || n == 0)
}

/// The completions disagree on `(x, y)`.
pub open spec fn is_uncertain(base: Board, ps: Seq<Board>, ign: Seq<(usize, usize)>, x: int, y: int) -> bool {
    !keeps_base(base, ps, ign, x, y) && bomb_tally(ps, x, y) > 0 && clear_tally(ps, x, y) > 0
}

/// The character shown for `(x, y)`: the cell as `base` has it, `#` for a certain
/// bomb, `O` for a certain safe cell, `?` for an uncertain one.
pub open spec fn shown(base: Board, ps: Seq<Board>, ign: Seq<(usize, usize)>, x: int, y: int) -> char {
    let b = bomb_tally(ps, x, y);
    let n = clear_tally(ps, x, y);
    if keeps_base(base, ps, ign, x, y) {
        cell_char(base.at(x, y))
    } else if n == 0 {
        '#'
    } else if b == 0 {
        'O'
    } else {
        '?'
    }
}

/// The shown characters, row by row.
pub open spec fn shown_rows(base: Board, ps: Seq<Board>, ign: Seq<(usize, usize)>) -> Seq<Seq<char>> {
    Seq::new(
        base.height as nat,
        |y: int| Seq::new(base.width as nat, |x: int| shown(base, ps, ign, x, y)),
    )
}

/// Some cell among the first `n` in row-major order is certain.
pub open spec fn sure_upto(base: Board, ps: Seq<Board>, ign: Seq<(usize, usize)>, n: int) -> bool
    decreases n,
{
    if n <= 0 {
        false
    } else {
        sure_upto(base, ps, ign, n - 1) || is_sure(base, ps, ign, (n - 1) % (base.width as int), (n - 1) / (base.width as int))
    }
}

/// The chance that `(x, y)` is safe, as numerator and denominator: the
/// share of completions that leave it clear for an uncertain cell, else 0.
pub open spec fn odds(base: Board, ps: Seq<Board>, ign: Seq<(usize, usize)>, x: int, y: int) -> (nat, nat) {
    if is_uncertain(base, ps, ign, x, y) {
        (clear_tally(ps, x, y), bomb_tally(ps, x, y) + clear_tally(ps, x, y))
    } else {
        (0, 1)
    }
}

/// Row-major index of the first cell, among the first `n`, of highest odds.
pub open spec fn best_upto(base: Board, ps: Seq<Board>, ign: Seq<(usize, usize)>, n: int) -> int
    decreases n,
{
    if n <= 1 {
        0
    } else {
        let w = base.width as int;
        let k = best_upto(base, ps, ign, n - 1);
        let p = odds(base, ps, ign, k % w, k / w);
        let q = odds(base, ps, ign, (n - 1) % w, (n - 1) / w);
        if q.0 * p.1 > p.0 * q.1 {
            n - 1
        } else {
            k
        }
    }
}

/// `num / den` in hundredths, rounded to nearest, ties to even.
pub open spec fn hundredths(num: nat, den: nat) -> nat {
    let q = (num * 10000) / den;
    let r = (num * 10000) % den;
    if 2 * r > den || (2 * r == den && q % 2 == 1) {
        q + 1
    } else {
        q
    }
}

/// `num / den` as a percentage with two decimals.
pub open spec fn percent_text(num: nat, den: nat) -> Seq<char> {
    let c = hundredths(num, den);
    decimal(c / 100) + seq!['.', digit_char((c / 10) % 10), digit_char(c % 10)]
}

/// The report: with some certain cell, the shown grid and a key; otherwise
/// the shown grid with the best guess marked `@`, and its chance of being safe.
pub open spec fn report(base: Board, ps: Seq<Board>, ign: Seq<(usize, usize)>) -> Seq<char> {
    let w = base.width as int;
    let h = base.height as int;
    let rows = shown_rows(base, ps, ign);
    if sure_upto(base, ps, ign, w * h) {
        "Guaranteed cells:\n"@ + joined(rows, "\n"@) + "\n\nKey:\n\t'#' - Guaranteed bomb\n\t'O' - Guaranteed safe\n"@
    } else {
        let k = best_upto(base, ps, ign, w * h);
        let (bx, by) = (k % w, k / w);
        let marked = rows.update(by, rows[by].update(bx, '@'));
        let o = odds(base, ps, ign, bx, by);
        joined(marked, "\n"@) + "\n\nCell marked '@' is most likely to be empty with a chance of "@
            + percent_text(o.0, o.1) + "% - No cells are definitively a bomb or safe\n"@
    }
}

/// Counts the boards with a bomb at `(x, y)` and those leaving it covered.
fn tally(ps: &[Board], w: usize, h: usize, x: usize, y: usize) -> (r: (usize, usize))
    requires
        all_shaped(ps@, w, h),
        x < w,
        y < h,
    ensures
        r.0 as nat == bomb_tally(ps@, x as int, y as int),
        r.1 as nat == clear_tally(ps@, x as int, y as int),
        r.0 + r.1 <= ps@.len(),
        r.0 + r.1 <= usize::MAX,
{
    let mut bombs: usize = 0;
    let mut clear: usize = 0;
    let mut i: usize = 0;
    while i < ps.len()
        invariant
            all_shaped(ps@, w, h),
            x < w,
            y < h,
            i <= ps@.len(),
            bombs as nat == bomb_tally(ps@.take(i as int), x as int, y as int),
            clear as nat == clear_tally(ps@.take(i as int), x as int, y as int),
            bombs + clear <= i,
        decreases ps@.len() - i,
    {
        assert(ps@.take(i + 1).drop_last() =~= ps@.take(i as int));
        let c = ps[i].get(x, y);
        if c == CellTypes::Bomb {
            bombs = bombs + 1;
        } else if c == CellTypes::Covered {
            clear = clear + 1;
        }
        i = i + 1;
    }
    assert(ps@.take(ps@.len() as int) =~= ps@);
    (bombs, clear)
}

/// A share of at most one is at most 10000 hundredths.
pub proof fn lemma_hundredths_bound(num: nat, den: nat)
    requires
        num <= den,
        den >= 1,
    ensures
        hundredths(num, den) <= 10000,
{
    let q = (num * 10000) / den;
    let r = (num * 10000) % den;
    vstd::arithmetic::div_mod::lemma_div_is_ordered((num * 10000) as int, (den * 10000) as int, den as int);
    vstd::arithmetic::div_mod::lemma_div_by_multiple(10000, den as int);
    vstd::arithmetic::mul::lemma_mul_is_commutative(den as int, 10000);
    vstd::arithmetic::div_mod::lemma_fundamental_div_mod((num * 10000) as int, den as int);
    if q == 10000 {
        assert(num * 10000 == den * 10000 + r);
        assert(r == 0) by (nonlinear_arith)
            requires
                num * 10000 == den * 10000 + r,
                num <= den,
                0 <= r < den,
        ;
    }
}

/// Appends `num / den` as a percentage with two decimals.
fn push_percent(s: &mut String, num: usize, den: usize)
    requires
        den >= 1,
        num <= den,
    ensures
        final(s)@ == old(s)@ + percent_text(num as nat, den as nat),
{
    let scaled: u128 = num as u128 * 10000;
    let q: u128 = scaled / den as u128;
    let r: u128 = scaled % den as u128;
    let c: u128 = if 2 * r > den as u128 || (2 * r == den as u128 && q % 2 == 1) {
        q + 1
    } else {
        q
    };
    assert(c == hundredths(num as nat, den as nat));
    proof {
        lemma_hundredths_bound(num as nat, den as nat);
    }
    push_decimal(s, (c / 100) as usize);
    push_char(s, '.');
    push_char(s, digit_of(((c / 10) % 10) as usize));
    push_char(s, digit_of((c % 10) as usize));
    assert(final(s)@ =~= old(s)@ + percent_text(num as nat, den as nat));
}

/// The characters of each row.
pub open spec fn char_rows(v: Seq<Vec<char>>) -> Seq<Seq<char>> {
    v.map_values(|r: Vec<char>| r@)
}

/// A copy of `row` with the character at `i` replaced by `@`.
fn marked_copy(row: &Vec<char>, i: usize) -> (r: Vec<char>)
    requires
        i < row@.len(),
    ensures
        r@ == row@.update(i as int, '@'),
{
    let mut out: Vec<char> = Vec::new();
    let mut j: usize = 0;
    while j < row.len()
        invariant
            i < row@.len(),
            j <= row@.len(),
            out@ == row@.update(i as int, '@').take(j as int),
        decreases row@.len() - j,
    {
        out.push(if j == i { '@' } else { row[j] });
        assert(out@ =~= row@.update(i as int, '@').take(j + 1));
        j = j + 1;
    }
    assert(out@ =~= row@.update(i as int, '@'));
    out
}

/// Each row as a string.
fn to_texts(rows: &Vec<Vec<char>>) -> (r: Vec<String>)
    ensures
        texts(r@) == char_rows(rows@),
{
    let mut out: Vec<String> = Vec::new();
    let mut j: usize = 0;
    while j < rows.len()
        invariant
            j <= rows@.len(),
            out@.len() == j,
            texts(out@) == char_rows(rows@.take(j as int)),
        decreases rows@.len() - j,
    {
        let t = string_of(&rows[j]);
        assert(t@ == rows@[j as int]@);
        let ghost before = out@;
        out.push(t);
        assert(out@ == before.push(t));
        assert forall|i: int| 0 <= i < j + 1 implies #[trigger] texts(out@)[i] == char_rows(rows@.take(j + 1))[i] by {
            if i < j {
                assert(texts(before)[i] == char_rows(rows@.take(j as int))[i]);
            } else {
                assert(texts(out@)[i] == out@[i]@);
                assert(char_rows(rows@.take(j + 1))[i] == rows@.take(j + 1)[i]@);
            }
        }
        assert(texts(out@) =~= char_rows(rows@.take(j + 1)));
        j = j + 1;
    }
    assert(rows@.take(rows@.len() as int) =~= rows@);
    out
}

impl Board {
    /// Summarises the completions found for `base`. Each cell is shown as in
    /// `base` when nothing new is learned about it, as `#` when every
    /// completion has a bomb there, as `O` when every completion leaves it
    /// clear, and as `?` otherwise. When no cell is certain, the first cell
    /// (row by row) with the highest share of completions leaving it clear
    /// is marked `@` and that share is reported as a percentage.
    pub fn compile_guaranteed(base: &Board, possibilities: &[Board], ignore: &Vec<(usize, usize)>) -> (r: String)
        requires
            base.wf(),
            all_shaped(possibilities@, base.width, base.height),
        ensures
            r@ == report(*base, possibilities@, ignore@),
    {
        let ghost ps = possibilities@;
        let ghost ign = ignore@;
        let ghost w = base.width as int;
        let ghost h = base.height as int;
        let mut rows: Vec<Vec<char>> = Vec::new();
        let mut found = false;
        let mut bx: usize = 0;
        let mut by: usize = 0;
        let mut bnum: usize = 0;
        let mut bden: usize = 1;
        let mut y: usize = 0;
        while y < base.height
            invariant
                base.wf(),
                all_shaped(ps, base.width, base.height),
                ps == possibilities@,
                ign == ignore@,
                w == base.width,
                h == base.height,
                y <= h,
                rows@.len() == y,
                forall|j: int| 0 <= j < y ==> (#[trigger] rows@[j])@ == shown_rows(*base, ps, ign)[j],
                found == sure_upto(*base, ps, ign, y * w),
                y > 0 ==> best_upto(*base, ps, ign, y * w) == by * w + bx,
                bx < w,
                by < h,
                y > 0 ==> (bnum as nat, bden as nat) == odds(*base, ps, ign, bx as int, by as int),
            decreases h - y,
        {
            let mut row: Vec<char> = Vec::new();
            let mut x: usize = 0;
            while x < base.width
                invariant
                    base.wf(),
                    all_shaped(ps, base.width, base.height),
                    ps == possibilities@,
                    ign == ignore@,
                    w == base.width,
                    h == base.height,
                    y < h,
                    x <= w,
                    rows@.len() == y,
                    forall|j: int| 0 <= j < y ==> (#[trigger] rows@[j])@ == shown_rows(*base, ps, ign)[j],
                    row@ == shown_rows(*base, ps, ign)[y as int].take(x as int),
                    found == sure_upto(*base, ps, ign, y * w + x),
                    y * w + x > 0 ==> best_upto(*base, ps, ign, y * w + x) == by * w + bx,
                    bx < w,
                    by < h,
                    y * w + x > 0 ==> (bnum as nat, bden as nat) == odds(*base, ps, ign, bx as int, by as int),
                decreases w - x,
            {
                let ghost n = y * w + x;
                assert(n % w == x && n / w == y) by {
                    vstd::arithmetic::div_mod::lemma_fundamental_div_mod_converse(n, w, y as int, x as int);
                    vstd::arithmetic::mul::lemma_mul_is_commutative(y as int, w);
                }
                let (b, c) = tally(possibilities, base.width, base.height, x, y);
                assert(((x as int) as usize, (y as int) as usize) == (x, y));
                proof {
                    if n > 0 {
                        let k = by * w + bx;
                        vstd::arithmetic::div_mod::lemma_fundamental_div_mod_converse(k, w, by as int, bx as int);
                        vstd::arithmetic::mul::lemma_mul_is_commutative(by as int, w);
                    }
                }
                let base_cell = base.get(x, y);
                let keep = (b == 0 && c == 0) || is_ignored(ignore, x, y) || (b > 0 && c == 0
                    && base_cell == CellTypes::Bomb);
                let ch = if keep {
                    base_cell.char()
                } else if c == 0 {
                    found = true;
                    '#'
                } else if b == 0 {
                    found = true;
                    'O'
                } else {
                    '?'
                };
                let (qn, qd): (usize, usize) = if !keep && b > 0 && c > 0 {
                    (c, b + c)
                } else {
                    (0, 1)
                };
                let better = if x == 0 && y == 0 {
                    true
                } else {
                    proof {
                        vstd::arithmetic::mul::lemma_mul_upper_bound(qn as int, usize::MAX as int, bden as int, usize::MAX as int);
                        vstd::arithmetic::mul::lemma_mul_upper_bound(bnum as int, usize::MAX as int, qd as int, usize::MAX as int);
                        assert(usize::MAX as int * usize::MAX as int <= u128::MAX) by (nonlinear_arith)
                            requires usize::MAX <= u64::MAX;
                    }
                    (qn as u128) * (bden as u128) > (bnum as u128) * (qd as u128)
                };
                assert((qn as nat, qd as nat) == odds(*base, ps, ign, x as int, y as int));
                assert(n > 0 ==> (better <==> qn * bden > bnum * qd));
                if better {
                    bx = x;
                    by = y;
                    bnum = qn;
                    bden = qd;
                }
                row.push(ch);
                assert(row@ =~= shown_rows(*base, ps, ign)[y as int].take(x + 1));
                x = x + 1;
            }
            assert(row@ =~= shown_rows(*base, ps, ign)[y as int]);
            rows.push(row);
            proof {
                vstd::arithmetic::mul::lemma_mul_is_distributive_add_other_way(w, y as int, 1);
            }
            y = y + 1;
        }
        assert(char_rows(rows@) =~= shown_rows(*base, ps, ign));
        proof {
            vstd::arithmetic::mul::lemma_mul_is_commutative(h, w);
            let k = by * w + bx;
            vstd::arithmetic::div_mod::lemma_fundamental_div_mod_converse(k, w, by as int, bx as int);
            vstd::arithmetic::mul::lemma_mul_is_commutative(by as int, w);
        }
        let mut out = String::new();
        if found {
            let lines = to_texts(&rows);
            push_str(&mut out, "Guaranteed cells:\n");
            let body = join_with(&lines, "\n");
            push_str(&mut out, body.as_str());
            push_str(&mut out, "\n\nKey:\n\t'#' - Guaranteed bomb\n\t'O' - Guaranteed safe\n");
            assert(out@ =~= report(*base, ps, ign));
        } else {
            let marked = marked_copy(&rows[by], bx);
            rows.set(by, marked);
            assert(char_rows(rows@) =~= shown_rows(*base, ps, ign).update(by as int, shown_rows(*base, ps, ign)[by as int].update(bx as int, '@')));
            let lines = to_texts(&rows);
            let body = join_with(&lines, "\n");
            push_str(&mut out, body.as_str());
            push_str(&mut out, "\n\nCell marked '@' is most likely to be empty with a chance of ");
            push_percent(&mut out, bnum, bden);
            push_str(&mut out, "% - No cells are definitively a bomb or safe\n");
            assert(out@ =~= report(*base, ps, ign));
        }
        out
    }
}

} // verus!
