use vstd::prelude::*;
use crate::cell::CellTypes;
use crate::grid::{Board, bombs_around, covered_around, col_of, row_of};
use crate::text::{decimal, push_decimal, push_str};

verus! {

/// Bombs still owed by the cell at `(x, y)`: its number minus its bomb
/// neighbours (zero for a cell that holds no number).
pub open spec fn required_at(g: Seq<Seq<CellTypes>>, w: int, h: int, x: int, y: int) -> int {
    match g[y][x] {
        CellTypes::Value(v) => v - bombs_around(g, w, h, x, y),
        _ => 0,
    }
}

/// The cell at `(x, y)` holds a positive number.
pub open spec fn is_numbered(g: Seq<Seq<CellTypes>>, x: int, y: int) -> bool {
    match g[y][x] {
        CellTypes::Value(v) => v > 0,
        _ => false,
    }
}

/// Message for a cell with more bomb neighbours than its number.
pub open spec fn over_message(x: int, y: int, excess: int) -> Seq<char> {
    "Cell at position ["@ + decimal(x as nat) + ", "@ + decimal(y as nat) + "] has "@ + decimal(
        excess as nat,
    ) + " bombs more than it should have"@
}

/// Message for a cell that needs more bombs than it has covered neighbours.
pub open spec fn unsat_message(x: int, y: int, required: int, slack: int) -> Seq<char> {
    "Cell at position ["@ + decimal(x as nat) + ", "@ + decimal(y as nat) + "] requires "@
        + decimal(required as nat) + " bomb(s) however only "@ + decimal(slack as nat)
        + " cell(s) can contain bombs"@
}

/// Checks the cell at `(x, y)`, given the total `t` of the cells before it.
pub open spec fn check_cell(g: Seq<Seq<CellTypes>>, w: int, h: int, x: int, y: int, t: int) -> Result<
    int,
    Seq<char>,
> {
    if is_numbered(g, x, y) {
        let req = required_at(g, w, h, x, y);
        let slack = covered_around(g, w, h, x, y) as int;
        if req < 0 {
            Err(over_message(x, y, -req))
        } else if slack < req {
            Err(unsat_message(x, y, req, slack))
        } else {
            Ok(t + req)
        }
    } else {
        Ok(t)
    }
}

/// The validator run over the first `n` cells in column-major order
/// (columns left to right, each column top to bottom).
pub open spec fn validate_upto(g: Seq<Seq<CellTypes>>, w: int, h: int, n: int) -> Result<int, Seq<char>>
    decreases n,
{
    if n <= 0 {
        Ok(0)
    } else {
        match validate_upto(g, w, h, n - 1) {
            Err(e) => Err(e),
            Ok(t) => check_cell(g, w, h, col_of(h, n - 1), row_of(h, n - 1), t),
        }
    }
}

/// The validator over the whole board: the first inconsistent cell's
/// message, or the sum of what every numbered cell still requires.
pub open spec fn validation(g: Seq<Seq<CellTypes>>, w: int, h: int) -> Result<int, Seq<char>> {
    validate_upto(g, w, h, w * h)
}

/// Every numbered cell has no more bomb neighbours than its number, and
/// enough covered neighbours for the bombs it still needs.
pub open spec fn consistent(g: Seq<Seq<CellTypes>>, w: int, h: int) -> bool {
    forall|x: int, y: int|
        0 <= x < w && 0 <= y < h && #[trigger] is_numbered(g, x, y) ==> 0 <= required_at(g, w, h, x, y)
            <= covered_around(g, w, h, x, y)
}

/// Once the validator has failed on a prefix of the cells, it fails with
/// the same message on every longer prefix.
pub proof fn lemma_error_sticks(g: Seq<Seq<CellTypes>>, w: int, h: int, n: int, m: int)
    requires
        n <= m,
        validate_upto(g, w, h, n) is Err,
    ensures
        validate_upto(g, w, h, m) == validate_upto(g, w, h, n),
    decreases m - n,
{
    if n < m {
        lemma_error_sticks(g, w, h, n, m - 1);
    }
}

pub proof fn lemma_col_row(h: int, n: int)
    requires
        h >= 1,
        n >= 0,
    ensures
        n == col_of(h, n) * h + row_of(h, n),
        0 <= row_of(h, n) < h,
        col_of(h, n) >= 0,
{
    vstd::arithmetic::div_mod::lemma_fundamental_div_mod(n, h);
    vstd::arithmetic::mul::lemma_mul_is_commutative(n / h, h);
}

impl Board {
    /// Checks every numbered cell. On success returns the sum, over all
    /// cells holding a positive number, of the bombs each still needs.
    pub fn validate_board(&self) -> (r: Result<usize, String>)
        requires
            self.wf(),
        ensures
            match validation(self.grid(), self.width as int, self.height as int) {
                Ok(t) => r is Ok && r->Ok_0 as int == t,
                Err(e) => r is Err && r->Err_0@ == e,
            },
    {
        let ghost g = self.grid();
        let ghost w = self.width as int;
        let ghost h = self.height as int;
        let mut total: usize = 0;
        let mut x: usize = 0;
        while x < self.width
            invariant
                self.wf(),
                g == self.grid(),
                w == self.width,
                h == self.height,
                x <= w,
                validate_upto(g, w, h, x * h) == Ok::<int, Seq<char>>(total as int),
                total <= 8 * (x * h),
            decreases w - x,
        {
            let mut y: usize = 0;
            while y < self.height
                invariant
                    self.wf(),
                    g == self.grid(),
                    w == self.width,
                    h == self.height,
                    x < w,
                    y <= h,
                    validate_upto(g, w, h, x * h + y) == Ok::<int, Seq<char>>(total as int),
                    total <= 8 * (x * h + y),
                decreases h - y,
            {
                proof {
                    lemma_col_row(h, x * h + y);
                    vstd::arithmetic::div_mod::lemma_div_multiples_vanish_fancy(x as int, y as int, h);
                    vstd::arithmetic::div_mod::lemma_mod_multiples_vanish(x as int, y as int, h);
                    vstd::arithmetic::mul::lemma_mul_is_distributive_add_other_way(h, x as int, 1);
                    vstd::arithmetic::mul::lemma_mul_inequality(x as int + 1, w, h);
                }
                assert(col_of(h, x * h + y) == x && row_of(h, x * h + y) == y) by {
                    vstd::arithmetic::div_mod::lemma_fundamental_div_mod_converse(x * h + y, h, x as int, y as int);
                }
                let cell = self.get(x, y);
                let v: u8 = match cell {
                    CellTypes::Value(v) => v,
                    _ => 0,
                };
                if v > 0 {
                    let (bombs, slack) = self.count_around(x, y);
                    let required: i32 = v as i32 - bombs as i32;
                    if required < 0 {
                        let mut msg = String::new();
                        push_str(&mut msg, "Cell at position [");
                        push_decimal(&mut msg, x);
                        push_str(&mut msg, ", ");
                        push_decimal(&mut msg, y);
                        push_str(&mut msg, "] has ");
                        push_decimal(&mut msg, (-required) as usize);
                        push_str(&mut msg, " bombs more than it should have");
                        assert(msg@ =~= over_message(x as int, y as int, -required));
                        proof {
                            lemma_error_sticks(g, w, h, x * h + y + 1, w * h);
                        }
                        return Err(msg);
                    }
                    if (slack as i32) < required {
                        let mut msg = String::new();
                        push_str(&mut msg, "Cell at position [");
                        push_decimal(&mut msg, x);
                        push_str(&mut msg, ", ");
                        push_decimal(&mut msg, y);
                        push_str(&mut msg, "] requires ");
                        push_decimal(&mut msg, required as usize);
                        push_str(&mut msg, " bomb(s) however only ");
                        push_decimal(&mut msg, slack as usize);
                        push_str(&mut msg, " cell(s) can contain bombs");
                        assert(msg@ =~= unsat_message(x as int, y as int, required as int, slack as int));
                        proof {
                            lemma_error_sticks(g, w, h, x * h + y + 1, w * h);
                        }
                        return Err(msg);
                    }
                    proof {
                        vstd::arithmetic::mul::lemma_mul_inequality(x * h + y + 1, w * h, 8);
                    }
                    total = total + required as usize;
                }
                y = y + 1;
            }
            proof {
                vstd::arithmetic::mul::lemma_mul_is_distributive_add_other_way(h, x as int, 1);
            }
            x = x + 1;
        }
        Ok(total)
    }
}

} // verus!
