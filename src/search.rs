use vstd::prelude::*;
use std::collections::{HashSet, VecDeque};
use std::collections::hash_map::DefaultHasher;
use std::hash::Hasher;
use vstd::std_specs::hash::DefaultHasherAdditionalSpecFns;
use crate::cell::CellTypes;
use crate::grid::{Board, col_of, row_of, set_at};
use crate::validate::{validation, lemma_col_row};
use crate::laws::{all_met, lemma_hashes_bounded, lemma_search_growth, lemma_solved_are_complete};

verus! {

broadcast use vstd::std_specs::hash::group_hash_axioms;

/// Identifier of a cell's state: its number, 9 for covered, 10 for a bomb.
pub open spec fn cell_id(c: CellTypes) -> u8 {
    match c {
        CellTypes::Value(v) => v,
        CellTypes::Covered => 9,
        CellTypes::Bomb => 10,
    }
}

/// The single-byte writes that hash one row.
pub open spec fn row_writes(r: Seq<CellTypes>) -> Seq<Seq<u8>> {
    r.map_values(|c: CellTypes| seq![cell_id(c)])
}

/// The single-byte writes that hash a grid, row by row.
pub open spec fn grid_writes(g: Seq<Seq<CellTypes>>) -> Seq<Seq<u8>>
    decreases g.len(),
{
    if g.len() == 0 {
        Seq::empty()
    } else {
        grid_writes(g.drop_last()) + row_writes(g.last())
    }
}

/// The content hash of a grid.
pub open spec fn grid_hash(g: Seq<Seq<CellTypes>>) -> u64 {
    DefaultHasher::spec_finish(grid_writes(g))
}

/// What one search pass has produced so far: the visited hashes, the
/// ignored coordinates, the solved completions and the open boards.
pub type SearchState = (Set<u64>, Seq<(usize, usize)>, Seq<Seq<Seq<CellTypes>>>, Seq<Seq<Seq<CellTypes>>>);

/// The search step at `(x, y)` of grid `g`, whose validator total is `cur`.
pub open spec fn search_step(g: Seq<Seq<CellTypes>>, w: int, h: int, cur: int, st: SearchState, x: int, y: int) -> SearchState {
    let (visited, ignore, solved, open) = st;
    if ignore.contains((x as usize, y as usize)) || g[y][x] != CellTypes::Covered {
        st
    } else {
        let cand = set_at(g, x, y, CellTypes::Bomb);
        let hv = grid_hash(cand);
        if visited.contains(hv) {
            st
        } else {
            let visited = visited.insert(hv);
            match validation(cand, w, h) {
                Err(_) => (visited, ignore, solved, open),
                Ok(t) => if t == 0 {
                    (visited, ignore, solved.push(cand), open)
                } else if t == cur {
                    (visited, ignore.push((x as usize, y as usize)), solved, open)
                } else {
                    (visited, ignore, solved, open.push(cand))
                },
            }
        }
    }
}

/// The search steps over the first `n` cells in column-major order.
pub open spec fn search_upto(g: Seq<Seq<CellTypes>>, w: int, h: int, cur: int, st: SearchState, n: int) -> SearchState
    decreases n,
{
    if n <= 0 {
        st
    } else {
        search_step(g, w, h, cur, search_upto(g, w, h, cur, st, n - 1), col_of(h, n - 1), row_of(h, n - 1))
    }
}

/// The grids of a sequence of boards.
pub open spec fn grids_of(v: Seq<Board>) -> Seq<Seq<Seq<CellTypes>>> {
    v.map_values(|b: Board| b.grid())
}

/// Every board is well formed, `w` wide and `h` high.
pub open spec fn all_shaped(v: Seq<Board>, w: usize, h: usize) -> bool {
    forall|i: int| 0 <= i < v.len() ==> (#[trigger] v[i]).wf() && v[i].width == w && v[i].height == h
}

/// Whether `(x, y)` is in the ignore list.
pub fn is_ignored(ignore: &Vec<(usize, usize)>, x: usize, y: usize) -> (r: bool)
    ensures
        r == ignore@.contains((x, y)),
{
    let mut i: usize = 0;
    while i < ignore.len()
        invariant
            i <= ignore@.len(),
            forall|j: int| 0 <= j < i ==> ignore@[j] != (x, y),
        decreases ignore@.len() - i,
    {
        if ignore[i].0 == x && ignore[i].1 == y {
            return true;
        }
        i = i + 1;
    }
    false
}

impl Board {
    /// A copy of this board.
    pub fn copy(&self) -> (r: Board)
        requires
            self.wf(),
        ensures
            r.wf(),
            r.width == self.width,
            r.height == self.height,
            r.grid() == self.grid(),
    {
        let mut rows: Vec<Vec<CellTypes>> = Vec::new();
        let mut y: usize = 0;
        while y < self.height
            invariant
                self.wf(),
                y <= self.height,
                rows@.len() == y,
                forall|j: int| 0 <= j < y ==> (#[trigger] rows@[j])@ == self.grid()[j],
            decreases self.height - y,
        {
            let mut row: Vec<CellTypes> = Vec::new();
            let mut x: usize = 0;
            while x < self.width
                invariant
                    self.wf(),
                    y < self.height,
                    x <= self.width,
                    row@ == self.grid()[y as int].take(x as int),
                decreases self.width - x,
            {
                row.push(self.get(x, y));
                assert(row@ =~= self.grid()[y as int].take(x + 1));
                x = x + 1;
            }
            assert(row@ =~= self.grid()[y as int]);
            rows.push(row);
            y = y + 1;
        }
        let r = Board { board: rows, width: self.width, height: self.height };
        assert(r.grid() =~= self.grid());
        r
    }

    /// The state identifier of every cell, row by row, fed one byte at a time
    /// into the standard library's default hasher.
    pub fn get_hash(&self) -> (r: u64)
        requires
            self.wf(),
        ensures
            r == grid_hash(self.grid()),
    {
        let ghost g = self.grid();
        let mut hasher = DefaultHasher::new();
        let mut y: usize = 0;
        while y < self.height
            invariant
                self.wf(),
                g == self.grid(),
                y <= self.height,
                hasher@ == grid_writes(g.take(y as int)),
            decreases self.height - y,
        {
            let mut x: usize = 0;
            while x < self.width
                invariant
                    self.wf(),
                    g == self.grid(),
                    y < self.height,
                    x <= self.width,
                    hasher@ == grid_writes(g.take(y as int)) + row_writes(g[y as int].take(x as int)),
                decreases self.width - x,
            {
                let id = self.get(x, y).id();
                let bytes: [u8; 1] = [id];
                hasher.write(&bytes);
                assert(bytes@ =~= seq![id]);
                assert(hasher@ =~= grid_writes(g.take(y as int)) + row_writes(g[y as int].take(x + 1)));
                x = x + 1;
            }
            assert(g.take(y + 1).drop_last() =~= g.take(y as int));
            assert(g[y as int].take(self.width as int) =~= g[y as int]);
            assert(hasher@ =~= grid_writes(g.take(y + 1)));
            y = y + 1;
        }
        assert(g.take(self.height as int) =~= g);
        hasher.finish()
    }

    /// Expands this board by one speculative bomb on each covered cell that
    /// is not ignored, column by column. A candidate whose hash was seen
    /// before is dropped; otherwise its hash is recorded and the validator
    /// decides: an inconsistent candidate is dropped, one with total 0 is a
    /// solved completion, one whose total equals this board's marks its
    /// coordinate as ignored, and any other is a new open board.
    /// Returns the solved completions and the open boards.
    pub fn get_possible_boards(&self, visited: &mut HashSet<u64>, ignore: &mut Vec<(usize, usize)>) -> (r: (
        Vec<Board>,
        Vec<Board>,
    ))
        requires
            self.wf(),
            validation(self.grid(), self.width as int, self.height as int) is Ok,
        ensures
            ({
                let w = self.width as int;
                let h = self.height as int;
                let cur = validation(self.grid(), w, h)->Ok_0;
                let st = search_upto(self.grid(), w, h, cur, (old(visited)@, old(ignore)@, Seq::empty(), Seq::empty()), w * h);
                &&& final(visited)@ == st.0
                &&& final(ignore)@ == st.1
                &&& grids_of(r.0@) == st.2
                &&& grids_of(r.1@) == st.3
            }),
            all_shaped(r.0@, self.width, self.height),
            all_shaped(r.1@, self.width, self.height),
    {
        let ghost g = self.grid();
        let ghost w = self.width as int;
        let ghost h = self.height as int;
        let ghost st0: SearchState = (visited@, ignore@, Seq::empty(), Seq::empty());
        let current_satisfied = match self.validate_board() {
            Ok(t) => t,
            Err(_) => 0,
        };
        let ghost cur = current_satisfied as int;
        let mut solved_boards: Vec<Board> = Vec::new();
        let mut open_boards: Vec<Board> = Vec::new();
        assert(grids_of(solved_boards@) =~= Seq::empty());
        assert(grids_of(open_boards@) =~= Seq::empty());
        let mut x: usize = 0;
        while x < self.width
            invariant
                self.wf(),
                g == self.grid(),
                w == self.width,
                h == self.height,
                x <= w,
                validation(g, w, h) == Ok::<int, Seq<char>>(cur),
                cur == current_satisfied as int,
                ({
                    let st = search_upto(g, w, h, cur, st0, x * h);
                    &&& visited@ == st.0
                    &&& ignore@ == st.1
                    &&& grids_of(solved_boards@) == st.2
                    &&& grids_of(open_boards@) == st.3
                }),
                all_shaped(solved_boards@, self.width, self.height),
                all_shaped(open_boards@, self.width, self.height),
            decreases w - x,
        {
            let mut y: usize = 0;
            while y < self.height
                invariant
                    self.wf(),
                    g == self.grid(),
                    w == self.width,
                    h == self.height,
                    x < w,
                    y <= h,
                    validation(g, w, h) == Ok::<int, Seq<char>>(cur),
                    cur == current_satisfied as int,
                    ({
                        let st = search_upto(g, w, h, cur, st0, x * h + y);
                        &&& visited@ == st.0
                        &&& ignore@ == st.1
                        &&& grids_of(solved_boards@) == st.2
                        &&& grids_of(open_boards@) == st.3
                    }),
                    all_shaped(solved_boards@, self.width, self.height),
                    all_shaped(open_boards@, self.width, self.height),
                decreases h - y,
            {
                proof {
                    lemma_col_row(h, x * h + y);
                }
                assert(col_of(h, x * h + y) == x && row_of(h, x * h + y) == y) by {
                    vstd::arithmetic::div_mod::lemma_fundamental_div_mod_converse(x * h + y, h, x as int, y as int);
                }
                let ghost prev = search_upto(g, w, h, cur, st0, x * h + y);
                assert(((x as int) as usize, (y as int) as usize) == (x, y));
                assert(search_upto(g, w, h, cur, st0, x * h + y + 1) == search_step(g, w, h, cur, prev, x as int, y as int));
                if !is_ignored(ignore, x, y) && self.get(x, y) == CellTypes::Covered {
                    let mut new_board = self.copy();
                    new_board.set_cell(x, y, CellTypes::Bomb);
                    let ghost cand = new_board.grid();
                    assert(cand == set_at(g, x as int, y as int, CellTypes::Bomb));
                    let hash = new_board.get_hash();
                    if !visited.contains(&hash) {
                        visited.insert(hash);
                        match new_board.validate_board() {
                            Ok(remaining) => {
                                if remaining == 0 {
                                    let ghost before = solved_boards@;
                                    solved_boards.push(new_board);
                                    assert(grids_of(solved_boards@) =~= grids_of(before).push(cand));
                                } else if remaining == current_satisfied {
                                    ignore.push((x, y));
                                } else {
                                    let ghost before = open_boards@;
                                    open_boards.push(new_board);
                                    assert(grids_of(open_boards@) =~= grids_of(before).push(cand));
                                }
                            },
                            Err(_) => {},
                        }
                    }
                }
                y = y + 1;
            }
            proof {
                vstd::arithmetic::mul::lemma_mul_is_distributive_add_other_way(h, x as int, 1);
            }
            x = x + 1;
        }
        (solved_boards, open_boards)
    }
}

/// The state of a whole search: visited hashes, ignored coordinates,
/// solved completions and the queue of open boards, first in first out.
pub type DriveState = (Set<u64>, Seq<(usize, usize)>, Seq<Seq<Seq<CellTypes>>>, Seq<Seq<Seq<CellTypes>>>);

/// Expands the board at the front of the queue: its solved completions are
/// added to the results, and its open boards join the back of the queue.
pub open spec fn drive_step(w: int, h: int, st: DriveState) -> DriveState {
    if st.3.len() == 0 {
        st
    } else {
        let b = st.3[0];
        let cur = validation(b, w, h)->Ok_0;
        let r = search_upto(b, w, h, cur, (st.0, st.1, Seq::empty(), Seq::empty()), w * h);
        (r.0, r.1, st.2 + r.2, st.3.drop_first() + r.3)
    }
}

/// The search state after `n` expansions.
pub open spec fn drive(w: int, h: int, st: DriveState, n: nat) -> DriveState
    decreases n,
{
    if n == 0 {
        st
    } else {
        drive_step(w, h, drive(w, h, st, (n - 1) as nat))
    }
}

/// The search state that a search from `g` starts in.
pub open spec fn drive_start(g: Seq<Seq<CellTypes>>) -> DriveState {
    (Set::empty(), Seq::empty(), Seq::empty(), seq![g])
}

impl Board {
    /// Breadth-first search from `start`: expands boards from a queue until
    /// it is empty. Returns every solved completion found and the final
    /// list of ignored coordinates.
    pub fn search(start: &Board) -> (r: (Vec<Board>, Vec<(usize, usize)>))
        requires
            start.wf(),
            validation(start.grid(), start.width as int, start.height as int) is Ok,
        ensures
            all_shaped(r.0@, start.width, start.height),
            forall|i: int| 0 <= i < r.0@.len() ==> validation(#[trigger] r.0@[i].grid(), start.width as int, start.height as int)
                == Ok::<int, Seq<char>>(0),
            exists|n: nat| {
                let d = #[trigger] drive(start.width as int, start.height as int, drive_start(start.grid()), n);
                &&& d.3.len() == 0
                &&& d.2 == grids_of(r.0@)
                &&& d.1 == r.1@
            },
    {
        let ghost w = start.width as int;
        let ghost h = start.height as int;
        let ghost init = drive_start(start.grid());
        let mut visited: HashSet<u64> = HashSet::new();
        let mut ignore: Vec<(usize, usize)> = Vec::new();
        let mut solved: Vec<Board> = Vec::new();
        let mut queue: VecDeque<Board> = VecDeque::new();
        queue.push_back(start.copy());
        let ghost mut n: nat = 0;
        assert(grids_of(solved@) =~= Seq::empty());
        assert(grids_of(queue@) =~= seq![start.grid()]);
        proof {
            lemma_hashes_bounded(visited@);
        }
        while queue.len() > 0
            invariant
                w == start.width,
                h == start.height,
                w >= 1,
                h >= 1,
                w * h <= crate::grid::MAX_CELLS,
                drive(w, h, init, n) == (visited@, ignore@, grids_of(solved@), grids_of(queue@)),
                all_shaped(solved@, start.width, start.height),
                all_shaped(queue@, start.width, start.height),
                forall|i: int| 0 <= i < solved@.len() ==> validation(#[trigger] solved@[i].grid(), w, h) == Ok::<int, Seq<char>>(0),
                forall|i: int| 0 <= i < queue@.len() ==> validation(#[trigger] queue@[i].grid(), w, h) is Ok,
                visited@.finite(),
                visited@.len() <= 0x1_0000_0000_0000_0000,
            decreases 2 * (0x1_0000_0000_0000_0000 - visited@.len()) + queue@.len(),
        {
            let ghost q0 = queue@;
            let ghost v0 = visited@;
            let ghost sv0 = solved@;
            let b = match queue.pop_front() {
                Some(b) => b,
                None => {
                    return (solved, ignore);
                },
            };
            assert(q0.len() > 0 && b == q0[0]);
            let ghost cur = validation(b.grid(), w, h)->Ok_0;
            let (mut s, o) = b.get_possible_boards(&mut visited, &mut ignore);
            proof {
                let st0: SearchState = (v0, drive(w, h, init, n).1, Seq::empty(), Seq::empty());
                lemma_search_growth(b.grid(), w, h, cur, st0, w * h);
                lemma_solved_are_complete(b.grid(), w, h, cur, v0, drive(w, h, init, n).1);
                lemma_hashes_bounded(visited@);
                assert(grids_of(q0).drop_first() =~= grids_of(queue@));
                assert forall|j: int| 0 <= j < o@.len() implies validation(#[trigger] o@[j].grid(), w, h) is Ok by {
                    assert(grids_of(o@)[j] == o@[j].grid());
                }
                assert forall|j: int| 0 <= j < queue@.len() implies validation(#[trigger] queue@[j].grid(), w, h) is Ok by {
                    assert(queue@[j] == q0[j + 1]);
                }
            }
            let ghost s0 = s@;
            solved.append(&mut s);
            assert forall|j: int| 0 <= j < solved@.len() implies validation(#[trigger] solved@[j].grid(), w, h) == Ok::<int, Seq<char>>(0) by {
                if j < sv0.len() {
                    assert(solved@[j] == sv0[j]);
                } else {
                    assert(solved@[j] == s0[j - sv0.len()]);
                    assert(grids_of(s0)[j - sv0.len()] == s0[j - sv0.len()].grid());
                }
            }
            let mut i: usize = 0;
            while i < o.len()
                invariant
                    i <= o@.len(),
                    q0.len() > 0,
                    all_shaped(o@, start.width, start.height),
                    all_shaped(queue@, start.width, start.height),
                    queue@.len() == q0.len() - 1 + i,
                    grids_of(queue@) == grids_of(q0).drop_first() + grids_of(o@).take(i as int),
                    forall|j: int| 0 <= j < o@.len() ==> validation(#[trigger] o@[j].grid(), w, h) is Ok,
                    forall|j: int| 0 <= j < queue@.len() ==> validation(#[trigger] queue@[j].grid(), w, h) is Ok,
                decreases o@.len() - i,
            {
                let c = o[i].copy();
                let ghost before = queue@;
                queue.push_back(c);
                assert(queue@ == before.push(c));
                assert forall|j: int| 0 <= j < queue@.len() implies #[trigger] grids_of(queue@)[j] == (grids_of(q0).drop_first() + grids_of(o@).take(i + 1))[j] by {
                    if j < before.len() {
                        assert(grids_of(queue@)[j] == grids_of(before)[j]);
                    } else {
                        assert(grids_of(queue@)[j] == c.grid());
                        assert(grids_of(o@)[i as int] == o@[i as int].grid());
                    }
                }
                assert(grids_of(queue@) =~= grids_of(q0).drop_first() + grids_of(o@).take(i + 1));
                i = i + 1;
            }
            assert(grids_of(o@).take(o@.len() as int) =~= grids_of(o@));
            assert(grids_of(solved@) =~= grids_of(sv0) + grids_of(s0));
            proof {
                n = n + 1;
            }
        }
        proof {
            assert(drive(w, h, init, n).3.len() == 0);
        }
        (solved, ignore)
    }
}

} // verus!
