use vstd::prelude::*;
use crate::cell::CellTypes;
use crate::grid::{covered_around, col_of, row_of, rect, count_slots, slot_in, slot_x, slot_y, fill_around, is_neighbor, slot_of};
use crate::validate::{validate_upto, validation, consistent, is_numbered, required_at, lemma_col_row};
use crate::propagate::{propagation, propagate_upto, is_revealed};
use crate::grid::set_at;
use crate::search::{search_upto, search_step, SearchState};
use crate::cell::{cell_char, cell_of_char};
use crate::text::decimal;
use crate::parse::{take_line, byte_len, lines_of, parse_lines, parse_row, parsed, render, row_chars, scan_lines, strip_cr,
    ParseState};

verus! {

/// The numbered cell at `(x, y)` neither has too many bomb neighbours nor
/// needs more bombs than it has covered neighbours.
pub open spec fn cell_ok(g: Seq<Seq<CellTypes>>, w: int, h: int, x: int, y: int) -> bool {
    is_numbered(g, x, y) ==> 0 <= required_at(g, w, h, x, y) <= covered_around(g, w, h, x, y)
}

/// Every numbered cell has exactly as many bomb neighbours as its number.
pub open spec fn all_met(g: Seq<Seq<CellTypes>>, w: int, h: int) -> bool {
    forall|x: int, y: int| 0 <= x < w && 0 <= y < h && #[trigger] is_numbered(g, x, y) ==> required_at(g, w, h, x, y) == 0
}

proof fn lemma_validate_prefix(g: Seq<Seq<CellTypes>>, w: int, h: int, n: int)
    requires
        n >= 0,
        h >= 1,
    ensures
        (validate_upto(g, w, h, n) is Ok) <==> (forall|k: int| 0 <= k < n ==> #[trigger] cell_ok(g, w, h, col_of(h, k), row_of(h, k))),
        validate_upto(g, w, h, n) is Ok ==> validate_upto(g, w, h, n)->Ok_0 >= 0,
        validate_upto(g, w, h, n) is Ok ==> forall|k: int| 0 <= k < n && #[trigger] is_numbered(g, col_of(h, k), row_of(h, k))
            ==> required_at(g, w, h, col_of(h, k), row_of(h, k)) <= validate_upto(g, w, h, n)->Ok_0,
    decreases n,
{
    if n > 0 {
        lemma_validate_prefix(g, w, h, n - 1);
        let x = col_of(h, n - 1);
        let y = row_of(h, n - 1);
        if validate_upto(g, w, h, n - 1) is Ok && !cell_ok(g, w, h, x, y) {
            assert(!(forall|k: int| 0 <= k < n ==> #[trigger] cell_ok(g, w, h, col_of(h, k), row_of(h, k))));
        }
        if !(validate_upto(g, w, h, n - 1) is Ok) {
            let k0 = choose|k: int| 0 <= k < n - 1 && !#[trigger] cell_ok(g, w, h, col_of(h, k), row_of(h, k));
            assert(!cell_ok(g, w, h, col_of(h, k0), row_of(h, k0)));
        }
    }
}

/// The validator succeeds exactly when every numbered cell is consistent,
/// and then its total is not negative.
pub proof fn lemma_validation_ok_iff_consistent(g: Seq<Seq<CellTypes>>, w: int, h: int)
    requires
        w >= 1,
        h >= 1,
    ensures
        (validation(g, w, h) is Ok) <==> consistent(g, w, h),
        validation(g, w, h) is Ok ==> validation(g, w, h)->Ok_0 >= 0,
{
    lemma_validate_prefix(g, w, h, w * h);
    if validation(g, w, h) is Ok {
        assert forall|x: int, y: int| 0 <= x < w && 0 <= y < h && #[trigger] is_numbered(g, x, y) implies 0
            <= required_at(g, w, h, x, y) <= covered_around(g, w, h, x, y) by {
            let k = x * h + y;
            lemma_index_in_range(w, h, x, y);
            assert(cell_ok(g, w, h, col_of(h, k), row_of(h, k)));
        }
    }
    if consistent(g, w, h) {
        assert forall|k: int| 0 <= k < w * h implies #[trigger] cell_ok(g, w, h, col_of(h, k), row_of(h, k)) by {
            lemma_col_row(h, k);
            vstd::arithmetic::div_mod::lemma_div_is_ordered(k, w * h - 1, h);
            vstd::arithmetic::div_mod::lemma_div_multiples_vanish(w, h);
            vstd::arithmetic::mul::lemma_mul_is_commutative(w, h);
            vstd::arithmetic::div_mod::lemma_div_by_multiple_is_strongly_ordered(k, w * h, w, h);
        }
    }
}

/// When the validator's total is 0, every numbered cell has exactly as
/// many bomb neighbours as its number.
pub proof fn lemma_zero_total_all_met(g: Seq<Seq<CellTypes>>, w: int, h: int)
    requires
        w >= 1,
        h >= 1,
        validation(g, w, h) == Ok::<int, Seq<char>>(0),
    ensures
        all_met(g, w, h),
{
    lemma_validate_prefix(g, w, h, w * h);
    assert forall|x: int, y: int| 0 <= x < w && 0 <= y < h && #[trigger] is_numbered(g, x, y) implies required_at(
        g,
        w,
        h,
        x,
        y,
    ) == 0 by {
        let k = x * h + y;
        lemma_index_in_range(w, h, x, y);
        assert(cell_ok(g, w, h, col_of(h, k), row_of(h, k)));
        assert(is_numbered(g, col_of(h, k), row_of(h, k)));
    }
}

pub proof fn lemma_index_in_range(w: int, h: int, x: int, y: int)
    requires
        0 <= x < w,
        0 <= y < h,
    ensures
        0 <= x * h + y < w * h,
        col_of(h, x * h + y) == x,
        row_of(h, x * h + y) == y,
{
    vstd::arithmetic::div_mod::lemma_fundamental_div_mod_converse(x * h + y, h, x, y);
    vstd::arithmetic::mul::lemma_mul_inequality(x + 1, w, h);
    vstd::arithmetic::mul::lemma_mul_is_distributive_add_other_way(h, x, 1);
    vstd::arithmetic::mul::lemma_mul_nonnegative(x, h);
}

proof fn lemma_no_slot_holds(g: Seq<Seq<CellTypes>>, w: int, h: int, x: int, y: int, k: int, c: CellTypes, s: int)
    requires
        count_slots(g, w, h, x, y, k, c) == 0,
        0 <= s < k,
        slot_in(w, h, x, y, s),
    ensures
        g[slot_y(y, s)][slot_x(x, s)] != c,
    decreases k,
{
    if s < k - 1 {
        lemma_no_slot_holds(g, w, h, x, y, k - 1, c, s);
    }
}

/// Filling around a cell with no covered neighbour changes nothing.
proof fn lemma_fill_nothing(g: Seq<Seq<CellTypes>>, w: int, h: int, x: int, y: int, c: CellTypes)
    requires
        rect(g, w, h),
        0 <= x < w,
        0 <= y < h,
        covered_around(g, w, h, x, y) == 0,
    ensures
        fill_around(g, x, y, c) == g,
{
    assert forall|j: int, i: int| 0 <= j < h && 0 <= i < w && is_neighbor(x, y, i, j) implies g[j][i]
        != CellTypes::Covered by {
        let s = slot_of(x, y, i, j);
        assert(slot_x(x, s) == i && slot_y(y, s) == j);
        lemma_no_slot_holds(g, w, h, x, y, 9, CellTypes::Covered, s);
    }
    assert forall|j: int| 0 <= j < h implies #[trigger] fill_around(g, x, y, c)[j] == g[j] by {
        assert(fill_around(g, x, y, c)[j] =~= g[j]);
    }
    assert(fill_around(g, x, y, c) =~= g);
}

proof fn lemma_unchanged_prefix(g: Seq<Seq<CellTypes>>, w: int, h: int, n: int)
    requires
        rect(g, w, h),
        w >= 1,
        h >= 1,
        0 <= n <= w * h,
        !propagate_upto(g, w, h, n).1,
    ensures
        propagate_upto(g, w, h, n).0 == g,
    decreases n,
{
    if n > 0 {
        lemma_unchanged_prefix(g, w, h, n - 1);
        let x = col_of(h, n - 1);
        let y = row_of(h, n - 1);
        lemma_col_row(h, n - 1);
        vstd::arithmetic::div_mod::lemma_div_by_multiple_is_strongly_ordered(n - 1, w * h, w, h);
        vstd::arithmetic::div_mod::lemma_div_multiples_vanish(w, h);
        vstd::arithmetic::mul::lemma_mul_is_commutative(w, h);
        if is_revealed(g, x, y) {
            let req = required_at(g, w, h, x, y);
            let cov = covered_around(g, w, h, x, y) as int;
            if req == cov {
                lemma_fill_nothing(g, w, h, x, y, CellTypes::Bomb);
            } else if req == 0 {
                lemma_fill_nothing(g, w, h, x, y, CellTypes::Value(0));
            }
        }
    }
}

/// A forcing pass that reports no change leaves the grid as it was, so a
/// further pass reports no change either.
pub proof fn lemma_propagation_fixed_point(g: Seq<Seq<CellTypes>>, w: int, h: int)
    requires
        rect(g, w, h),
        w >= 1,
        h >= 1,
        !propagation(g, w, h).1,
    ensures
        propagation(g, w, h).0 == g,
        !propagation(propagation(g, w, h).0, w, h).1,
{
    vstd::arithmetic::mul::lemma_mul_nonnegative(w, h);
    lemma_unchanged_prefix(g, w, h, w * h);
}

/// The open board `b` is `g` with the covered cell of column-major index
/// `k` below `n` made a bomb, and that cell is not on `ignore`.
pub open spec fn speculates_at(g: Seq<Seq<CellTypes>>, h: int, ignore: Seq<(usize, usize)>, b: Seq<Seq<CellTypes>>, k: int, n: int) -> bool {
    &&& 0 <= k < n
    &&& g[row_of(h, k)][col_of(h, k)] == CellTypes::Covered
    &&& b == set_at(g, col_of(h, k), row_of(h, k), CellTypes::Bomb)
    &&& !ignore.contains((col_of(h, k) as usize, row_of(h, k) as usize))
}

/// What holds of a search pass over the first `n` cells that started with
/// the ignore list `ign0`.
pub open spec fn pass_facts(g: Seq<Seq<CellTypes>>, w: int, h: int, ign0: Seq<(usize, usize)>, st: SearchState, n: int) -> bool {
    &&& st.1.len() >= ign0.len()
    &&& st.1.take(ign0.len() as int) == ign0
    &&& forall|i: int| 0 <= i < st.2.len() ==> validation(#[trigger] st.2[i], w, h) == Ok::<int, Seq<char>>(0)
    &&& forall|i: int| 0 <= i < st.3.len() ==> #[trigger] speculated(g, h, st.1, st.3[i], n)
    &&& forall|i: int| 0 <= i < st.2.len() ==> #[trigger] speculated(g, h, st.1, st.2[i], n)
}

/// The open board `b` speculates on some cell below index `n` that is not on `ignore`.
pub open spec fn speculated(g: Seq<Seq<CellTypes>>, h: int, ignore: Seq<(usize, usize)>, b: Seq<Seq<CellTypes>>, n: int) -> bool {
    exists|k: int| #[trigger] speculates_at(g, h, ignore, b, k, n)
}

proof fn lemma_search_prefix(
    g: Seq<Seq<CellTypes>>,
    w: int,
    h: int,
    cur: int,
    st0: SearchState,
    n: int,
)
    requires
        w >= 1,
        h >= 1,
        w <= usize::MAX,
        h <= usize::MAX,
        0 <= n <= w * h,
        st0.2.len() == 0,
        st0.3.len() == 0,
    ensures
        pass_facts(g, w, h, st0.1, search_upto(g, w, h, cur, st0, n), n),
    decreases n,
{
    if n == 0 {
        assert(st0.1.take(st0.1.len() as int) =~= st0.1);
        assert(search_upto(g, w, h, cur, st0, n) == st0);
    } else {
        lemma_search_prefix(g, w, h, cur, st0, n - 1);
        let prev = search_upto(g, w, h, cur, st0, n - 1);
        let st = search_upto(g, w, h, cur, st0, n);
        let m = n - 1;
        let x = col_of(h, m);
        let y = row_of(h, m);
        lemma_col_row(h, m);
        vstd::arithmetic::div_mod::lemma_div_by_multiple_is_strongly_ordered(m, w * h, w, h);
        vstd::arithmetic::div_mod::lemma_div_multiples_vanish(w, h);
        vstd::arithmetic::mul::lemma_mul_is_commutative(w, h);
        assert(st == search_step(g, w, h, cur, prev, x, y));
        assert(st.1 == prev.1 || st.1 == prev.1.push((x as usize, y as usize)));
        if st.1.len() > prev.1.len() {
            assert(st.1 == prev.1.push((x as usize, y as usize)));
            assert(st.1.take(st0.1.len() as int) =~= prev.1.take(st0.1.len() as int));
        }
        assert forall|i: int| 0 <= i < st.3.len() implies #[trigger] speculated(g, h, st.1, st.3[i], n) by {
            if i < prev.3.len() {
                assert(st.3[i] == prev.3[i]);
                assert(speculated(g, h, prev.1, prev.3[i], n - 1));
                let k = choose|k: int| #[trigger] speculates_at(g, h, prev.1, prev.3[i], k, n - 1);
                lemma_col_row(h, k);
                vstd::arithmetic::div_mod::lemma_div_by_multiple_is_strongly_ordered(k, w * h, w, h);
                if st.1.len() > prev.1.len() {
                    if (col_of(h, k) as usize, row_of(h, k) as usize) == (x as usize, y as usize) {
                        assert(k == col_of(h, k) * h + row_of(h, k));
                        assert(m == x * h + y);
                        assert(false);
                    }
                    assert(!st.1.contains((col_of(h, k) as usize, row_of(h, k) as usize)));
                }
                assert(speculates_at(g, h, st.1, st.3[i], k, n));
            } else {
                assert(speculates_at(g, h, st.1, st.3[i], m, n));
            }
        }
        assert forall|i: int| 0 <= i < st.2.len() implies #[trigger] speculated(g, h, st.1, st.2[i], n) by {
            if i < prev.2.len() {
                assert(st.2[i] == prev.2[i]);
                assert(speculated(g, h, prev.1, prev.2[i], n - 1));
                let k = choose|k: int| #[trigger] speculates_at(g, h, prev.1, prev.2[i], k, n - 1);
                lemma_col_row(h, k);
                vstd::arithmetic::div_mod::lemma_div_by_multiple_is_strongly_ordered(k, w * h, w, h);
                if st.1.len() > prev.1.len() {
                    if (col_of(h, k) as usize, row_of(h, k) as usize) == (x as usize, y as usize) {
                        assert(k == col_of(h, k) * h + row_of(h, k));
                        assert(m == x * h + y);
                        assert(false);
                    }
                    assert(!st.1.contains((col_of(h, k) as usize, row_of(h, k) as usize)));
                }
                assert(speculates_at(g, h, st.1, st.2[i], k, n));
            } else {
                assert(speculates_at(g, h, st.1, st.2[i], m, n));
            }
        }
        assert forall|i: int| 0 <= i < st.2.len() implies validation(#[trigger] st.2[i], w, h) == Ok::<int, Seq<char>>(0) by {
            if i < prev.2.len() {
                assert(st.2[i] == prev.2[i]);
            }
        }
        assert(st.1.len() >= st0.1.len());
        assert(st.1.take(st0.1.len() as int) == st0.1);
        assert(pass_facts(g, w, h, st0.1, st, n));
    }
}

/// Every solved completion of a search pass passes the validator with
/// total 0, so each of its numbered cells has exactly as many bomb
/// neighbours as its number.
pub proof fn lemma_solved_are_complete(
    g: Seq<Seq<CellTypes>>,
    w: int,
    h: int,
    cur: int,
    visited: Set<u64>,
    ignore: Seq<(usize, usize)>,
)
    requires
        w >= 1,
        h >= 1,
        w <= usize::MAX,
        h <= usize::MAX,
    ensures
        ({
            let solved = search_upto(g, w, h, cur, (visited, ignore, Seq::empty(), Seq::empty()), w * h).2;
            forall|i: int| 0 <= i < solved.len() ==> validation(#[trigger] solved[i], w, h) == Ok::<int, Seq<char>>(0)
                && all_met(solved[i], w, h)
        }),
{
    vstd::arithmetic::mul::lemma_mul_nonnegative(w, h);
    let st0: SearchState = (visited, ignore, Seq::empty(), Seq::empty());
    lemma_search_prefix(g, w, h, cur, st0, w * h);
    let solved = search_upto(g, w, h, cur, st0, w * h).2;
    assert forall|i: int| 0 <= i < solved.len() implies validation(#[trigger] solved[i], w, h) == Ok::<int, Seq<char>>(0)
        && all_met(solved[i], w, h) by {
        lemma_zero_total_all_met(solved[i], w, h);
    }
}

/// `b` is `g` with one covered cell, not on `ignore`, made a bomb.
pub open spec fn one_bomb_off(g: Seq<Seq<CellTypes>>, w: int, h: int, ignore: Seq<(usize, usize)>, b: Seq<Seq<CellTypes>>) -> bool {
    exists|x: int, y: int|
        0 <= x < w && 0 <= y < h && g[y][x] == CellTypes::Covered && b == #[trigger] set_at(g, x, y, CellTypes::Bomb)
            && !ignore.contains((x as usize, y as usize))
}

/// Over a search pass the ignore list only grows, and every board it yields,
/// open or solved, is the searched grid with one covered cell made a bomb,
/// a cell that is not on the ignore list the pass leaves.
pub proof fn lemma_ignore_grows_and_is_avoided(
    g: Seq<Seq<CellTypes>>,
    w: int,
    h: int,
    cur: int,
    visited: Set<u64>,
    ignore: Seq<(usize, usize)>,
)
    requires
        w >= 1,
        h >= 1,
        w <= usize::MAX,
        h <= usize::MAX,
    ensures
        ({
            let st = search_upto(g, w, h, cur, (visited, ignore, Seq::empty(), Seq::empty()), w * h);
            &&& st.1.len() >= ignore.len()
            &&& st.1.take(ignore.len() as int) == ignore
            &&& forall|i: int| 0 <= i < st.3.len() ==> #[trigger] one_bomb_off(g, w, h, st.1, st.3[i])
            &&& forall|i: int| 0 <= i < st.2.len() ==> #[trigger] one_bomb_off(g, w, h, st.1, st.2[i])
        }),
{
    vstd::arithmetic::mul::lemma_mul_nonnegative(w, h);
    let st0: SearchState = (visited, ignore, Seq::empty(), Seq::empty());
    lemma_search_prefix(g, w, h, cur, st0, w * h);
    let st = search_upto(g, w, h, cur, st0, w * h);
    assert forall|i: int| 0 <= i < st.3.len() implies #[trigger] one_bomb_off(g, w, h, st.1, st.3[i]) by {
        assert(speculated(g, h, st.1, st.3[i], w * h));
        let k = choose|k: int| #[trigger] speculates_at(g, h, st.1, st.3[i], k, w * h);
        lemma_col_row(h, k);
        vstd::arithmetic::div_mod::lemma_div_by_multiple_is_strongly_ordered(k, w * h, w, h);
        vstd::arithmetic::div_mod::lemma_div_multiples_vanish(w, h);
        vstd::arithmetic::mul::lemma_mul_is_commutative(w, h);
        assert(0 <= col_of(h, k) < w);
        assert(st.3[i] == set_at(g, col_of(h, k), row_of(h, k), CellTypes::Bomb));
        assert(!st.1.contains((col_of(h, k) as usize, row_of(h, k) as usize)));
        assert(g[row_of(h, k)][col_of(h, k)] == CellTypes::Covered);
    }
    assert forall|i: int| 0 <= i < st.2.len() implies #[trigger] one_bomb_off(g, w, h, st.1, st.2[i]) by {
        assert(speculated(g, h, st.1, st.2[i], w * h));
        let k = choose|k: int| #[trigger] speculates_at(g, h, st.1, st.2[i], k, w * h);
        lemma_col_row(h, k);
        vstd::arithmetic::div_mod::lemma_div_by_multiple_is_strongly_ordered(k, w * h, w, h);
        vstd::arithmetic::div_mod::lemma_div_multiples_vanish(w, h);
        vstd::arithmetic::mul::lemma_mul_is_commutative(w, h);
        assert(0 <= col_of(h, k) < w);
        assert(st.2[i] == set_at(g, col_of(h, k), row_of(h, k), CellTypes::Bomb));
        assert(!st.1.contains((col_of(h, k) as usize, row_of(h, k) as usize)));
        assert(g[row_of(h, k)][col_of(h, k)] == CellTypes::Covered);
    }
    assert(st.1.len() >= ignore.len());
    assert(st.1.take(ignore.len() as int) == ignore);
}

/// A cell that a character of the input can stand for: covered, a bomb,
/// or a number from 0 to 8.
pub open spec fn writable(c: CellTypes) -> bool {
    match c {
        CellTypes::Value(v) => v <= 8,
        _ => true,
    }
}

/// `g` is a non-empty rectangle of writable cells.
pub open spec fn writable_grid(g: Seq<Seq<CellTypes>>, w: int) -> bool {
    &&& w >= 1
    &&& g.len() >= 1
    &&& rect(g, w, g.len() as int)
    &&& forall|y: int, x: int| 0 <= y < g.len() && 0 <= x < w ==> writable(#[trigger] g[y][x])
}

proof fn lemma_cell_char_reads_back(c: CellTypes)
    requires
        writable(c),
    ensures
        cell_of_char(cell_char(c)) == Some(c),
        (cell_char(c) as u32) < 0x80,
        cell_char(c) != '\n',
        cell_char(c) != '\r',
{
    if let CellTypes::Value(v) = c {
        if v > 0 {
            assert(decimal(v as nat) == seq![crate::text::digit_char(v as nat)]);
        }
    }
}

proof fn lemma_row_reads_back(r: Seq<CellTypes>)
    requires
        forall|x: int| 0 <= x < r.len() ==> writable(#[trigger] r[x]),
    ensures
        parse_row(row_chars(r)) == Ok::<Seq<CellTypes>, char>(r),
        byte_len(row_chars(r)) == r.len(),
        forall|i: int| 0 <= i < r.len() ==> #[trigger] row_chars(r)[i] != '\n' && row_chars(r)[i] != '\r',
    decreases r.len(),
{
    if r.len() == 0 {
        assert(row_chars(r) =~= Seq::<char>::empty());
        assert(r =~= Seq::<CellTypes>::empty());
    } else {
        lemma_row_reads_back(r.drop_last());
        assert(row_chars(r).drop_last() =~= row_chars(r.drop_last()));
        assert(row_chars(r).last() == cell_char(r.last()));
        lemma_cell_char_reads_back(r.last());
        assert(r.drop_last().push(r.last()) =~= r);
        assert forall|i: int| 0 <= i < r.len() implies #[trigger] row_chars(r)[i] != '\n' && row_chars(r)[i] != '\r' by {
            lemma_cell_char_reads_back(r[i]);
        }
    }
}

proof fn lemma_scan_plain(a: Seq<char>, b: Seq<char>)
    requires
        forall|i: int| 0 <= i < b.len() ==> b[i] != '\n',
    ensures
        scan_lines(a + b) == (scan_lines(a).0, scan_lines(a).1 + b),
    decreases b.len(),
{
    if b.len() == 0 {
        assert(a + b =~= a);
        assert(scan_lines(a).1 + b =~= scan_lines(a).1);
    } else {
        lemma_scan_plain(a, b.drop_last());
        assert((a + b).drop_last() =~= a + b.drop_last());
        assert(scan_lines(a).1 + b.drop_last() + seq![b.last()] =~= scan_lines(a).1 + b);
    }
}

proof fn lemma_scan_render(g: Seq<Seq<CellTypes>>, w: int)
    requires
        writable_grid(g, w),
    ensures
        scan_lines(render(g)) == (g.drop_last().map_values(|r: Seq<CellTypes>| row_chars(r)), row_chars(g.last())),
    decreases g.len(),
{
    let lines = g.map_values(|r: Seq<CellTypes>| row_chars(r));
    let last = row_chars(g.last());
    lemma_row_reads_back(g.last());
    if g.len() == 1 {
        assert(render(g) == last);
        lemma_scan_plain(Seq::empty(), last);
        assert(Seq::<char>::empty() + last =~= last);
        assert(g.drop_last().map_values(|r: Seq<CellTypes>| row_chars(r)) =~= Seq::<Seq<char>>::empty());
        assert(Seq::<char>::empty() + last =~= last);
    } else {
        let g1 = g.drop_last();
        assert(writable_grid(g1, w));
        lemma_scan_render(g1, w);
        lemma_row_reads_back(g1.last());
        let lines1 = g1.map_values(|r: Seq<CellTypes>| row_chars(r));
        assert(lines.drop_last() =~= lines1);
        reveal_strlit("\n");
        let a = render(g1) + "\n"@;
        assert(render(g) == a + last);
        assert(a.drop_last() =~= render(g1));
        let prev = scan_lines(render(g1));
        assert(strip_cr(prev.1) == prev.1);
        assert(scan_lines(a) == (prev.0.push(prev.1), Seq::<char>::empty()));
        assert(prev.0.push(prev.1) =~= lines1);
        lemma_scan_plain(a, last);
        assert(Seq::<char>::empty() + last =~= last);
    }
}

proof fn lemma_parse_rows(g: Seq<Seq<CellTypes>>, w: int)
    requires
        w >= 1,
        rect(g, w, g.len() as int),
        forall|y: int, x: int| 0 <= y < g.len() && 0 <= x < w ==> writable(#[trigger] g[y][x]),
    ensures
        parse_lines(g.map_values(|r: Seq<CellTypes>| row_chars(r))) == Ok::<ParseState, Seq<char>>(
            (g, if g.len() > 0 { Some(w as nat) } else { None }),
        ),
    decreases g.len(),
{
    if g.len() > 0 {
        let g1 = g.drop_last();
        lemma_parse_rows(g1, w);
        let lines = g.map_values(|r: Seq<CellTypes>| row_chars(r));
        assert(lines.drop_last() =~= g1.map_values(|r: Seq<CellTypes>| row_chars(r)));
        lemma_row_reads_back(g.last());
        assert(g.last() == g[g.len() - 1]);
        assert(g.last().len() == w);
        assert(lines.last() == row_chars(g.last()));
        assert(g1.push(g.last()) =~= g);
        let st = parse_lines(lines.drop_last())->Ok_0;
        assert(parse_lines(lines) == take_line(st, lines.last()));
        assert(byte_len(lines.last()) == w);
        assert(parse_row(lines.last()) == Ok::<Seq<CellTypes>, char>(g.last()));
        assert(take_line(st, lines.last()) == Ok::<ParseState, Seq<char>>((g1.push(g.last()), Some(w as nat))));
    } else {
        assert(g.map_values(|r: Seq<CellTypes>| row_chars(r)) =~= Seq::<Seq<char>>::empty());
        assert(g =~= Seq::<Seq<CellTypes>>::empty());
    }
}

/// Rendering a rectangle of cells that the input can write (numbers 0 to
/// 8) and parsing the text gives back the same rows and width; so for text
/// written that way, parsing and then rendering gives back the text.
pub proof fn lemma_parse_render_round_trip(g: Seq<Seq<CellTypes>>, w: int)
    requires
        writable_grid(g, w),
    ensures
        parsed(render(g)) == Ok::<(Seq<Seq<CellTypes>>, nat), Seq<char>>((g, w as nat)),
        render(parsed(render(g))->Ok_0.0) == render(g),
{
    lemma_scan_render(g, w);
    lemma_row_reads_back(g.last());
    let lines = g.map_values(|r: Seq<CellTypes>| row_chars(r));
    assert(g.drop_last().map_values(|r: Seq<CellTypes>| row_chars(r)).push(row_chars(g.last())) =~= lines);
    assert(row_chars(g.last()).len() == w);
    assert(lines_of(render(g)) == lines);
    lemma_parse_rows(g, w);
}

/// A set of `u64` values is finite and has at most 2^64 elements.
pub proof fn lemma_hashes_bounded(s: Set<u64>)
    ensures
        s.finite(),
        s.len() <= 0x1_0000_0000_0000_0000,
{
    let all = vstd::set_lib::set_int_range(0, 0x1_0000_0000_0000_0000);
    vstd::set_lib::lemma_int_range(0, 0x1_0000_0000_0000_0000);
    let f = |i: int| i as u64;
    let u = all.map(f);
    vstd::set_lib::lemma_map_size_bound(all, u, f);
    assert forall|v: u64| s.contains(v) implies u.contains(v) by {
        assert(all.contains(v as int));
        assert(f(v as int) == v);
    }
    vstd::set_lib::lemma_len_subset(s, u);
}

/// Over a search pass from an empty list of open boards, each open board
/// added a new hash to the visited set, and each passed the validator.
pub proof fn lemma_search_growth(g: Seq<Seq<CellTypes>>, w: int, h: int, cur: int, st0: SearchState, n: int)
    requires
        st0.0.finite(),
        st0.3.len() == 0,
        n >= 0,
    ensures
        search_upto(g, w, h, cur, st0, n).0.finite(),
        st0.0.subset_of(search_upto(g, w, h, cur, st0, n).0),
        search_upto(g, w, h, cur, st0, n).0.len() >= st0.0.len() + search_upto(g, w, h, cur, st0, n).3.len(),
        forall|i: int| 0 <= i < search_upto(g, w, h, cur, st0, n).3.len()
            ==> validation(#[trigger] search_upto(g, w, h, cur, st0, n).3[i], w, h) is Ok,
    decreases n,
{
    if n > 0 {
        lemma_search_growth(g, w, h, cur, st0, n - 1);
        let prev = search_upto(g, w, h, cur, st0, n - 1);
        let st = search_upto(g, w, h, cur, st0, n);
        assert(st == search_step(g, w, h, cur, prev, col_of(h, n - 1), row_of(h, n - 1)));
        if st.0 != prev.0 {
            let cand = set_at(g, col_of(h, n - 1), row_of(h, n - 1), CellTypes::Bomb);
            let hv = crate::search::grid_hash(cand);
            assert(st.0 == prev.0.insert(hv) && !prev.0.contains(hv));
            assert(st.0.len() == prev.0.len() + 1);
        }
        assert forall|i: int| 0 <= i < st.3.len() implies validation(#[trigger] st.3[i], w, h) is Ok by {
            if i < prev.3.len() {
                assert(st.3[i] == prev.3[i]);
            }
        }
    }
}

} // verus!
