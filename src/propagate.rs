use vstd::prelude::*;
use crate::cell::CellTypes;
use crate::grid::{Board, covered_around, col_of, row_of, fill_around, rect, count_slots, slot_in, slot_x,
    slot_y, slot_of, is_neighbor};
use crate::laws::{lemma_index_in_range, lemma_propagation_fixed_point};
use crate::validate::{required_at, lemma_col_row};

verus! {

/// The cell at `(x, y)` is revealed (holds a number, zero included).
pub open spec fn is_revealed(g: Seq<Seq<CellTypes>>, x: int, y: int) -> bool {
    g[y][x] is Value
}

/// One forcing step at the revealed cell `(x, y)`: when the bombs it still
/// needs equal its covered neighbours, they all become bombs; when it needs
/// none, they all become revealed zeros. Also says whether a cell changed.
pub open spec fn force_step(g: Seq<Seq<CellTypes>>, w: int, h: int, x: int, y: int) -> (
    Seq<Seq<CellTypes>>,
    bool,
) {
    if is_revealed(g, x, y) {
        let req = required_at(g, w, h, x, y);
        let cov = covered_around(g, w, h, x, y) as int;
        if req == cov {
            (fill_around(g, x, y, CellTypes::Bomb), cov > 0)
        } else if req == 0 {
            (fill_around(g, x, y, CellTypes::Value(0)), cov > 0)
        } else {
            (g, false)
        }
    } else {
        (g, false)
    }
}

/// The forcing pass over the first `n` cells in column-major order, each
/// step seeing the grid as the steps before it left it.
pub open spec fn propagate_upto(g: Seq<Seq<CellTypes>>, w: int, h: int, n: int) -> (
    Seq<Seq<CellTypes>>,
    bool,
)
    decreases n,
{
    if n <= 0 {
        (g, false)
    } else {
        let prev = propagate_upto(g, w, h, n - 1);
        let step = force_step(prev.0, w, h, col_of(h, n - 1), row_of(h, n - 1));
        (step.0, prev.1 || step.1)
    }
}

/// One full forcing pass: the grid it leaves and whether it changed a cell.
pub open spec fn propagation(g: Seq<Seq<CellTypes>>, w: int, h: int) -> (Seq<Seq<CellTypes>>, bool) {
    propagate_upto(g, w, h, w * h)
}

impl Board {
    /// One forcing pass over every revealed cell, column by column. Returns
    /// whether any cell changed.
    pub fn complete_solvable(&mut self) -> (changed: bool)
        requires
            old(self).wf(),
        ensures
            final(self).wf(),
            final(self).width == old(self).width,
            final(self).height == old(self).height,
            final(self).grid() == propagation(old(self).grid(), old(self).width as int, old(self).height as int).0,
            changed == propagation(old(self).grid(), old(self).width as int, old(self).height as int).1,
    {
        let ghost g0 = self.grid();
        let ghost w = self.width as int;
        let ghost h = self.height as int;
        let mut change_made = false;
        let mut x: usize = 0;
        while x < self.width
            invariant
                self.wf(),
                w == self.width,
                h == self.height,
                x <= w,
                (self.grid(), change_made) == propagate_upto(g0, w, h, x * h),
            decreases w - x,
        {
            let mut y: usize = 0;
            while y < self.height
                invariant
                    self.wf(),
                    w == self.width,
                    h == self.height,
                    x < w,
                    y <= h,
                    (self.grid(), change_made) == propagate_upto(g0, w, h, x * h + y),
                decreases h - y,
            {
                proof {
                    lemma_col_row(h, x * h + y);
                }
                assert(col_of(h, x * h + y) == x && row_of(h, x * h + y) == y) by {
                    vstd::arithmetic::div_mod::lemma_fundamental_div_mod_converse(x * h + y, h, x as int, y as int);
                }
                if let CellTypes::Value(v) = self.get(x, y) {
                    let (bombs, covered) = self.count_around(x, y);
                    let required: i32 = v as i32 - bombs as i32;
                    if required == covered as i32 {
                        self.fill_neighbors(x, y, CellTypes::Bomb);
                        if covered > 0 {
                            change_made = true;
                        }
                    } else if required == 0 {
                        self.fill_neighbors(x, y, CellTypes::Value(0));
                        if covered > 0 {
                            change_made = true;
                        }
                    }
                }
                y = y + 1;
            }
            proof {
                vstd::arithmetic::mul::lemma_mul_is_distributive_add_other_way(h, x as int, 1);
            }
            x = x + 1;
        }
        change_made
    }
}

/// How many of the first `n` cells, in column-major order, are covered.
pub open spec fn covered_upto(g: Seq<Seq<CellTypes>>, h: int, n: int) -> nat
    decreases n,
{
    if n <= 0 {
        0
    } else {
        covered_upto(g, h, n - 1) + if g[row_of(h, n - 1)][col_of(h, n - 1)] == CellTypes::Covered {
            1nat
        } else {
            0nat
        }
    }
}

/// Number of covered cells of the board.
pub open spec fn covered_count(g: Seq<Seq<CellTypes>>, w: int, h: int) -> nat {
    covered_upto(g, h, w * h)
}

/// Every cell covered in `g2` is covered in `g1`.
pub open spec fn no_new_covered(g2: Seq<Seq<CellTypes>>, g1: Seq<Seq<CellTypes>>, w: int, h: int) -> bool {
    forall|x: int, y: int| 0 <= x < w && 0 <= y < h && #[trigger] g2[y][x] == CellTypes::Covered ==> g1[y][x] == CellTypes::Covered
}

/// Some cell covered in `g1` is no longer covered in `g2`.
pub open spec fn some_uncovered(g2: Seq<Seq<CellTypes>>, g1: Seq<Seq<CellTypes>>, w: int, h: int) -> bool {
    exists|x: int, y: int| 0 <= x < w && 0 <= y < h && g1[y][x] == CellTypes::Covered && #[trigger] g2[y][x] != CellTypes::Covered
}

proof fn lemma_count_shrinks(g2: Seq<Seq<CellTypes>>, g1: Seq<Seq<CellTypes>>, w: int, h: int, n: int)
    requires
        w >= 1,
        h >= 1,
        0 <= n <= w * h,
        no_new_covered(g2, g1, w, h),
    ensures
        covered_upto(g2, h, n) <= covered_upto(g1, h, n),
        (exists|k: int| 0 <= k < n && g1[row_of(h, k)][col_of(h, k)] == CellTypes::Covered
            && #[trigger] g2[row_of(h, k)][col_of(h, k)] != CellTypes::Covered) ==> covered_upto(g2, h, n) < covered_upto(g1, h, n),
    decreases n,
{
    if n > 0 {
        lemma_count_shrinks(g2, g1, w, h, n - 1);
        lemma_col_row(h, n - 1);
        vstd::arithmetic::div_mod::lemma_div_by_multiple_is_strongly_ordered(n - 1, w * h, w, h);
        vstd::arithmetic::div_mod::lemma_div_multiples_vanish(w, h);
        vstd::arithmetic::mul::lemma_mul_is_commutative(w, h);
        let x = col_of(h, n - 1);
        let y = row_of(h, n - 1);
        assert(g2[y][x] == CellTypes::Covered ==> g1[y][x] == CellTypes::Covered);
        if exists|k: int| 0 <= k < n && g1[row_of(h, k)][col_of(h, k)] == CellTypes::Covered
            && #[trigger] g2[row_of(h, k)][col_of(h, k)] != CellTypes::Covered {
            let k = choose|k: int| 0 <= k < n && g1[row_of(h, k)][col_of(h, k)] == CellTypes::Covered
                && #[trigger] g2[row_of(h, k)][col_of(h, k)] != CellTypes::Covered;
            if k < n - 1 {
                assert(covered_upto(g2, h, n - 1) < covered_upto(g1, h, n - 1));
            }
        }
    }
}

proof fn lemma_some_slot_holds(g: Seq<Seq<CellTypes>>, w: int, h: int, x: int, y: int, k: int, c: CellTypes) -> (s: int)
    requires
        count_slots(g, w, h, x, y, k, c) > 0,
    ensures
        0 <= s < k,
        slot_in(w, h, x, y, s),
        g[slot_y(y, s)][slot_x(x, s)] == c,
    decreases k,
{
    if count_slots(g, w, h, x, y, k - 1, c) > 0 {
        lemma_some_slot_holds(g, w, h, x, y, k - 1, c)
    } else {
        k - 1
    }
}

proof fn lemma_fill_shrinks(g: Seq<Seq<CellTypes>>, w: int, h: int, x: int, y: int, c: CellTypes)
    requires
        rect(g, w, h),
        0 <= x < w,
        0 <= y < h,
        c != CellTypes::Covered,
    ensures
        rect(fill_around(g, x, y, c), w, h),
        no_new_covered(fill_around(g, x, y, c), g, w, h),
        covered_around(g, w, h, x, y) > 0 ==> some_uncovered(fill_around(g, x, y, c), g, w, h),
{
    let g2 = fill_around(g, x, y, c);
    if covered_around(g, w, h, x, y) > 0 {
        let s = lemma_some_slot_holds(g, w, h, x, y, 9, CellTypes::Covered);
        let i = slot_x(x, s);
        let j = slot_y(y, s);
        assert(is_neighbor(x, y, i, j) && slot_of(x, y, i, j) == s);
        assert(g2[j][i] == c);
    }
}

proof fn lemma_pass_shrinks(g: Seq<Seq<CellTypes>>, w: int, h: int, n: int)
    requires
        rect(g, w, h),
        w >= 1,
        h >= 1,
        0 <= n <= w * h,
    ensures
        rect(propagate_upto(g, w, h, n).0, w, h),
        no_new_covered(propagate_upto(g, w, h, n).0, g, w, h),
        propagate_upto(g, w, h, n).1 ==> some_uncovered(propagate_upto(g, w, h, n).0, g, w, h),
    decreases n,
{
    if n > 0 {
        lemma_pass_shrinks(g, w, h, n - 1);
        let prev = propagate_upto(g, w, h, n - 1);
        lemma_col_row(h, n - 1);
        vstd::arithmetic::div_mod::lemma_div_by_multiple_is_strongly_ordered(n - 1, w * h, w, h);
        vstd::arithmetic::div_mod::lemma_div_multiples_vanish(w, h);
        vstd::arithmetic::mul::lemma_mul_is_commutative(w, h);
        let x = col_of(h, n - 1);
        let y = row_of(h, n - 1);
        let g1 = prev.0;
        if is_revealed(g1, x, y) {
            let req = required_at(g1, w, h, x, y);
            let cov = covered_around(g1, w, h, x, y) as int;
            if req == cov {
                lemma_fill_shrinks(g1, w, h, x, y, CellTypes::Bomb);
            } else if req == 0 {
                lemma_fill_shrinks(g1, w, h, x, y, CellTypes::Value(0));
            }
        }
        let g2 = propagate_upto(g, w, h, n).0;
        if propagate_upto(g, w, h, n).1 {
            if prev.1 {
                let (a, b) = choose|a: int, b: int| 0 <= a < w && 0 <= b < h && g[b][a] == CellTypes::Covered
                    && #[trigger] g1[b][a] != CellTypes::Covered;
                if g2[b][a] == CellTypes::Covered {
                    assert(g1[b][a] == CellTypes::Covered);
                }
                assert(some_uncovered(g2, g, w, h));
            } else {
                let (a, b) = choose|a: int, b: int| 0 <= a < w && 0 <= b < h && g1[b][a] == CellTypes::Covered
                    && #[trigger] g2[b][a] != CellTypes::Covered;
                assert(g[b][a] == CellTypes::Covered);
                assert(some_uncovered(g2, g, w, h));
            }
        }
    }
}

/// A forcing pass that changes something leaves fewer covered cells.
proof fn lemma_pass_count(g: Seq<Seq<CellTypes>>, w: int, h: int)
    requires
        rect(g, w, h),
        w >= 1,
        h >= 1,
    ensures
        covered_count(propagation(g, w, h).0, w, h) <= covered_count(g, w, h),
        propagation(g, w, h).1 ==> covered_count(propagation(g, w, h).0, w, h) < covered_count(g, w, h),
{
    vstd::arithmetic::mul::lemma_mul_nonnegative(w, h);
    lemma_pass_shrinks(g, w, h, w * h);
    let g2 = propagation(g, w, h).0;
    if propagation(g, w, h).1 {
        let (a, b) = choose|a: int, b: int| 0 <= a < w && 0 <= b < h && g[b][a] == CellTypes::Covered
            && #[trigger] g2[b][a] != CellTypes::Covered;
        lemma_index_in_range(w, h, a, b);
        let k = a * h + b;
        assert(g2[row_of(h, k)][col_of(h, k)] != CellTypes::Covered);
    }
    lemma_count_shrinks(g2, g, w, h, w * h);
}

impl Board {
    /// Repeats the forcing pass until it changes nothing.
    pub fn propagate_to_fixed_point(&mut self)
        requires
            old(self).wf(),
        ensures
            final(self).wf(),
            final(self).width == old(self).width,
            final(self).height == old(self).height,
            !propagation(final(self).grid(), final(self).width as int, final(self).height as int).1,
    {
        let ghost w = self.width as int;
        let ghost h = self.height as int;
        let ghost g0 = self.grid();
        proof {
            if !propagation(g0, w, h).1 {
                lemma_propagation_fixed_point(g0, w, h);
            }
        }
        let mut changed = self.complete_solvable();
        while changed
            invariant
                self.wf(),
                w == self.width,
                h == self.height,
                !changed ==> !propagation(self.grid(), w, h).1,
            decreases covered_count(self.grid(), w, h) + if changed { 1nat } else { 0nat },
        {
            let ghost before = self.grid();
            proof {
                lemma_pass_count(before, w, h);
                if !propagation(before, w, h).1 {
                    lemma_propagation_fixed_point(before, w, h);
                }
            }
            changed = self.complete_solvable();
        }
    }
}

} // verus!
