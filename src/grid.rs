use vstd::prelude::*;
use crate::cell::CellTypes;

verus! {

/// A rectangular Minesweeper board, stored row by row.
#[derive(Debug, Clone)]
pub struct Board {
    pub board: Vec<Vec<CellTypes>>,
    pub width: usize,
    pub height: usize,
}

/// The largest number of cells a board may hold, so that the sum of the
/// demands of all numbered cells (each at most eight) fits in a `usize`.
pub const MAX_CELLS: usize = usize::MAX / 8;

/// `g` has `h` rows of `w` cells each.
pub open spec fn rect(g: Seq<Seq<CellTypes>>, w: int, h: int) -> bool {
    &&& g.len() == h
    &&& forall|y: int| 0 <= y < h ==> #[trigger] g[y].len() == w
}

/// `(i, j)` is one of the up to eight cells at Chebyshev distance 1 from `(x, y)`.
pub open spec fn is_neighbor(x: int, y: int, i: int, j: int) -> bool {
    &&& -1 <= i - x <= 1
    &&& -1 <= j - y <= 1
    &&& !(i == x && j == y)
}

/// Column of the neighbour slot `k` (0..9, row by row, 4 being the centre).
pub open spec fn slot_x(x: int, k: int) -> int {
    x + k % 3 - 1
}

/// Row of the neighbour slot `k`.
pub open spec fn slot_y(y: int, k: int) -> int {
    y + k / 3 - 1
}

/// Slot `k` around `(x, y)` is a neighbour inside a `w` by `h` board.
pub open spec fn slot_in(w: int, h: int, x: int, y: int, k: int) -> bool {
    &&& k != 4
    &&& 0 <= slot_x(x, k) < w
    &&& 0 <= slot_y(y, k) < h
}

/// How many of the first `k` neighbour slots of `(x, y)` hold `c`.
pub open spec fn count_slots(
    g: Seq<Seq<CellTypes>>,
    w: int,
    h: int,
    x: int,
    y: int,
    k: int,
    c: CellTypes,
) -> nat
    decreases k,
{
    if k <= 0 {
        0
    } else {
        count_slots(g, w, h, x, y, k - 1, c) + if slot_in(w, h, x, y, k - 1) && g[slot_y(y, k - 1)][slot_x(x, k - 1)] == c {
            1nat
        } else {
            0nat
        }
    }
}

/// Number of neighbours of `(x, y)` that are bombs.
pub open spec fn bombs_around(g: Seq<Seq<CellTypes>>, w: int, h: int, x: int, y: int) -> nat {
    count_slots(g, w, h, x, y, 9, CellTypes::Bomb)
}

/// Number of neighbours of `(x, y)` that are covered.
pub open spec fn covered_around(g: Seq<Seq<CellTypes>>, w: int, h: int, x: int, y: int) -> nat {
    count_slots(g, w, h, x, y, 9, CellTypes::Covered)
}

/// Column of the `n`-th cell in column-major order.
pub open spec fn col_of(h: int, n: int) -> int {
    n / h
}

/// Row of the `n`-th cell in column-major order.
pub open spec fn row_of(h: int, n: int) -> int {
    n % h
}

/// Slot number of `(i, j)` seen from `(x, y)`: 0..9, row by row.
pub open spec fn slot_of(x: int, y: int, i: int, j: int) -> int {
    (j - y + 1) * 3 + (i - x + 1)
}

/// `g` with every covered neighbour of `(x, y)` in a slot below `k` set to `c`.
pub open spec fn fill_slots(g: Seq<Seq<CellTypes>>, x: int, y: int, c: CellTypes, k: int) -> Seq<
    Seq<CellTypes>,
> {
    Seq::new(
        g.len(),
        |j: int|
            Seq::new(
                g[j].len(),
                |i: int|
                    if is_neighbor(x, y, i, j) && slot_of(x, y, i, j) < k && g[j][i]
                        == CellTypes::Covered {
                        c
                    } else {
                        g[j][i]
                    },
            ),
    )
}

/// `g` with every covered neighbour of `(x, y)` set to `c`.
pub open spec fn fill_around(g: Seq<Seq<CellTypes>>, x: int, y: int, c: CellTypes) -> Seq<
    Seq<CellTypes>,
> {
    fill_slots(g, x, y, c, 9)
}

/// `g` with the cell at `(x, y)` replaced by `c`.
pub open spec fn set_at(g: Seq<Seq<CellTypes>>, x: int, y: int, c: CellTypes) -> Seq<Seq<CellTypes>> {
    g.update(y, g[y].update(x, c))
}

impl Board {
    /// The cells, row by row.
    pub open spec fn grid(&self) -> Seq<Seq<CellTypes>> {
        self.board@.map_values(|r: Vec<CellTypes>| r@)
    }

    /// A non-empty rectangle of `width` by `height` cells, small enough that
    /// the validator's total fits in a `usize`.
    pub open spec fn wf(&self) -> bool {
        &&& self.width >= 1
        &&& self.height >= 1
        &&& self.width * self.height <= MAX_CELLS
        &&& rect(self.grid(), self.width as int, self.height as int)
    }

    /// The cell at column `x`, row `y`.
    pub open spec fn at(&self, x: int, y: int) -> CellTypes {
        self.grid()[y][x]
    }

    pub(crate) fn get(&self, x: usize, y: usize) -> (c: CellTypes)
        requires
            self.wf(),
            x < self.width,
            y < self.height,
        ensures
            c == self.at(x as int, y as int),
    {
        assert(self.grid()[y as int] == self.board@[y as int]@);
        self.board[y][x]
    }

    /// Replaces the cell at `(x, y)` by `c`.
    pub(crate) fn set_cell(&mut self, x: usize, y: usize, c: CellTypes)
        requires
            old(self).wf(),
            x < old(self).width,
            y < old(self).height,
        ensures
            final(self).wf(),
            final(self).width == old(self).width,
            final(self).height == old(self).height,
            final(self).grid() == set_at(old(self).grid(), x as int, y as int, c),
    {
        let ghost g = self.grid();
        let mut row: Vec<CellTypes> = Vec::new();
        let mut i: usize = 0;
        while i < self.width
            invariant
                self.wf(),
                g == self.grid(),
                x < self.width,
                y < self.height,
                i <= self.width,
                row@ == g[y as int].update(x as int, c).take(i as int),
            decreases self.width - i,
        {
            let cell = if i == x {
                c
            } else {
                self.get(i, y)
            };
            row.push(cell);
            assert(row@ =~= g[y as int].update(x as int, c).take(i + 1));
            i = i + 1;
        }
        assert(row@ =~= g[y as int].update(x as int, c));
        self.board.set(y, row);
        assert(self.grid() =~= set_at(g, x as int, y as int, c));
    }

    /// Sets every covered neighbour of `(x, y)` to `c`.
    pub(crate) fn fill_neighbors(&mut self, x: usize, y: usize, c: CellTypes)
        requires
            old(self).wf(),
            x < old(self).width,
            y < old(self).height,
        ensures
            final(self).wf(),
            final(self).width == old(self).width,
            final(self).height == old(self).height,
            final(self).grid() == fill_around(old(self).grid(), x as int, y as int, c),
    {
        let ghost g = self.grid();
        let ghost w = self.width as int;
        let ghost h = self.height as int;
        assert(g =~~= fill_slots(g, x as int, y as int, c, 0));
        let mut k: usize = 0;
        while k < 9
            invariant
                self.wf(),
                w == self.width,
                h == self.height,
                rect(g, w, h),
                x < w,
                y < h,
                k <= 9,
                self.grid() == fill_slots(g, x as int, y as int, c, k as int),
            decreases 9 - k,
        {
            let dx = k % 3;
            let dy = k / 3;
            let inside = k != 4 && (dx != 0 || x > 0) && (dx != 2 || x + 1 < self.width) && (dy != 0
                || y > 0) && (dy != 2 || y + 1 < self.height);
            if inside {
                let nx = x + dx - 1;
                let ny = y + dy - 1;
                assert(slot_of(x as int, y as int, nx as int, ny as int) == k);
                if self.get(nx, ny) == CellTypes::Covered {
                    self.set_cell(nx, ny, c);
                }
                assert(self.grid() =~~= fill_slots(g, x as int, y as int, c, k + 1));
            } else {
                assert(self.grid() =~~= fill_slots(g, x as int, y as int, c, k + 1));
            }
            k = k + 1;
        }
    }

    /// Counts the bomb and the covered neighbours of `(x, y)`.
    pub(crate) fn count_around(&self, x: usize, y: usize) -> (r: (u8, u8))
        requires
            self.wf(),
            x < self.width,
            y < self.height,
        ensures
            r.0 as nat == bombs_around(self.grid(), self.width as int, self.height as int, x as int, y as int),
            r.1 as nat == covered_around(self.grid(), self.width as int, self.height as int, x as int, y as int),
            r.0 <= 8,
            r.1 <= 8,
    {
        let ghost g = self.grid();
        let ghost w = self.width as int;
        let ghost h = self.height as int;
        let mut bombs: u8 = 0;
        let mut covered: u8 = 0;
        let mut k: usize = 0;
        while k < 9
            invariant
                self.wf(),
                g == self.grid(),
                w == self.width,
                h == self.height,
                x < w,
                y < h,
                k <= 9,
                bombs as nat == count_slots(g, w, h, x as int, y as int, k as int, CellTypes::Bomb),
                covered as nat == count_slots(g, w, h, x as int, y as int, k as int, CellTypes::Covered),
                bombs + covered <= if k > 4 { k - 1 } else { k as int },
            decreases 9 - k,
        {
            let dx = k % 3;
            let dy = k / 3;
            let inside = k != 4 && (dx != 0 || x > 0) && (dx != 2 || x + 1 < self.width) && (dy != 0
                || y > 0) && (dy != 2 || y + 1 < self.height);
            assert(inside == slot_in(w, h, x as int, y as int, k as int));
            if inside {
                let nx = x + dx - 1;
                let ny = y + dy - 1;
                match self.get(nx, ny) {
                    CellTypes::Bomb => {
                        bombs = bombs + 1;
                    },
                    CellTypes::Covered => {
                        covered = covered + 1;
                    },
                    _ => {},
                }
            }
            k = k + 1;
        }
        (bombs, covered)
    }
}

} // verus!
