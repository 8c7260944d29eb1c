use vstd::prelude::*;
use vstd::string::StrSliceExecFns;
use crate::cell::{CellTypes, cell_of_char, cell_char, unrecognised_message};
use crate::grid::{Board, MAX_CELLS};
use crate::text::{decimal, joined, push_char, push_decimal, push_str};

verus! {

/// Bytes taken by a character in UTF-8.
pub open spec fn utf8_width(c: char) -> nat {
    if (c as u32) < 0x80 {
        1
    } else if (c as u32) < 0x800 {
        2
    } else if (c as u32) < 0x10000 {
        3
    } else {
        4
    }
}

/// Bytes taken by a text in UTF-8.
pub open spec fn byte_len(s: Seq<char>) -> nat
    decreases s.len(),
{
    if s.len() == 0 {
        0
    } else {
        byte_len(s.drop_last()) + utf8_width(s.last())
    }
}

/// `l` without one trailing carriage return.
pub open spec fn strip_cr(l: Seq<char>) -> Seq<char> {
    if l.len() > 0 && l.last() == '\r' {
        l.drop_last()
    } else {
        l
    }
}

/// The lines ended by a newline so far, and the text after the last newline.
pub open spec fn scan_lines(s: Seq<char>) -> (Seq<Seq<char>>, Seq<char>)
    decreases s.len(),
{
    if s.len() == 0 {
        (Seq::empty(), Seq::empty())
    } else {
        let (ls, cur) = scan_lines(s.drop_last());
        if s.last() == '\n' {
            (ls.push(strip_cr(cur)), Seq::empty())
        } else {
            (ls, cur.push(s.last()))
        }
    }
}

/// The lines of a text: split at each `\n` (dropping a `\r` just before
/// it), with no empty line after a final newline.
pub open spec fn lines_of(s: Seq<char>) -> Seq<Seq<char>> {
    let (ls, cur) = scan_lines(s);
    if cur.len() > 0 {
        ls.push(cur)
    } else {
        ls
    }
}

/// The cells of a line, or its first character that stands for no cell.
pub open spec fn parse_row(l: Seq<char>) -> Result<Seq<CellTypes>, char>
    decreases l.len(),
{
    if l.len() == 0 {
        Ok(Seq::empty())
    } else {
        match parse_row(l.drop_last()) {
            Err(c) => Err(c),
            Ok(r) => match cell_of_char(l.last()) {
                Some(c) => Ok(r.push(c)),
                None => Err(l.last()),
            },
        }
    }
}

/// Message for a line whose length differs from the first line's.
pub open spec fn width_message(expected: nat, found: nat) -> Seq<char> {
    "Irregular line width - expected "@ + decimal(expected) + " found "@ + decimal(found)
}

/// Rows read so far, and the width in bytes of the first non-blank line.
pub type ParseState = (Seq<Seq<CellTypes>>, Option<nat>);

/// Reads one more line: a blank line is skipped; otherwise its length must
/// match the first line's and each character must stand for a cell.
pub open spec fn take_line(st: ParseState, l: Seq<char>) -> Result<ParseState, Seq<char>> {
    if l.len() == 0 {
        Ok(st)
    } else {
        let n = byte_len(l);
        if st.1 is Some && st.1->0 != n {
            Err(width_message(st.1->0, n))
        } else {
            match parse_row(l) {
                Err(c) => Err(unrecognised_message(c)),
                Ok(r) => Ok((st.0.push(r), Some(n))),
            }
        }
    }
}

/// Reads the lines in order, stopping at the first error.
pub open spec fn parse_lines(ls: Seq<Seq<char>>) -> Result<ParseState, Seq<char>>
    decreases ls.len(),
{
    if ls.len() == 0 {
        Ok((Seq::empty(), None))
    } else {
        match parse_lines(ls.drop_last()) {
            Err(e) => Err(e),
            Ok(st) => take_line(st, ls.last()),
        }
    }
}

/// The rows and the width read from a text, or the message of its error.
pub open spec fn parsed(s: Seq<char>) -> Result<(Seq<Seq<CellTypes>>, nat), Seq<char>> {
    match parse_lines(lines_of(s)) {
        Err(e) => Err(e),
        Ok(st) => if st.0.len() == 0 {
            Err("Empty input"@)
        } else {
            Ok((st.0, st.1->0))
        },
    }
}

/// The characters of a row.
pub open spec fn row_chars(r: Seq<CellTypes>) -> Seq<char> {
    r.map_values(|c: CellTypes| cell_char(c))
}

/// A grid as text: one line per row, with no final newline.
pub open spec fn render(g: Seq<Seq<CellTypes>>) -> Seq<char> {
    joined(g.map_values(|r: Seq<CellTypes>| row_chars(r)), "\n"@)
}

pub proof fn lemma_byte_len_bounds(s: Seq<char>)
    ensures
        s.len() <= byte_len(s) <= 4 * s.len(),
    decreases s.len(),
{
    if s.len() > 0 {
        lemma_byte_len_bounds(s.drop_last());
    }
}

/// A line that parses is ASCII, so its length in bytes is its length.
pub proof fn lemma_parsed_row_len(l: Seq<char>)
    requires
        parse_row(l) is Ok,
    ensures
        byte_len(l) == l.len(),
        parse_row(l)->Ok_0.len() == l.len(),
    decreases l.len(),
{
    if l.len() > 0 {
        lemma_parsed_row_len(l.drop_last());
    }
}

pub proof fn lemma_row_error_sticks(l: Seq<char>, n: int)
    requires
        0 <= n <= l.len(),
        parse_row(l.take(n)) is Err,
    ensures
        parse_row(l) == parse_row(l.take(n)),
    decreases l.len() - n,
{
    if n < l.len() {
        assert(l.take(n + 1).drop_last() =~= l.take(n));
        lemma_row_error_sticks(l, n + 1);
    } else {
        assert(l.take(n) =~= l);
    }
}

pub proof fn lemma_parse_error_sticks(ls: Seq<Seq<char>>, extra: Seq<Seq<char>>)
    requires
        parse_lines(ls) is Err,
    ensures
        parse_lines(ls + extra) == parse_lines(ls),
    decreases extra.len(),
{
    if extra.len() == 0 {
        assert(ls + extra =~= ls);
    } else {
        lemma_parse_error_sticks(ls, extra.drop_last());
        assert((ls + extra).drop_last() =~= ls + extra.drop_last());
    }
}

/// The lines ended so far stay the first lines of the whole text.
pub proof fn lemma_scan_prefix(s: Seq<char>, i: int)
    requires
        0 <= i <= s.len(),
    ensures
        scan_lines(s.take(i)).0.len() <= lines_of(s).len(),
        lines_of(s).take(scan_lines(s.take(i)).0.len() as int) == scan_lines(s.take(i)).0,
    decreases s.len() - i,
{
    if i == s.len() {
        assert(s.take(i) =~= s);
        assert(lines_of(s).take(scan_lines(s).0.len() as int) =~= scan_lines(s).0);
    } else {
        lemma_scan_prefix(s, i + 1);
        assert(s.take(i + 1).drop_last() =~= s.take(i));
        let a = scan_lines(s.take(i)).0;
        let b = scan_lines(s.take(i + 1)).0;
        assert(b.take(a.len() as int) =~= a);
        assert(lines_of(s).take(a.len() as int) =~= lines_of(s).take(b.len() as int).take(a.len() as int));
    }
}

/// The parse state held by the rows read so far and the width found.
pub open spec fn state_of(rows: Seq<Vec<CellTypes>>, width: Option<usize>) -> ParseState {
    (
        rows.map_values(|r: Vec<CellTypes>| r@),
        match width {
            Some(v) => Some(v as nat),
            None => None,
        },
    )
}

/// The width found so far, or zero.
pub open spec fn width_or_zero(width: Option<usize>) -> int {
    match width {
        Some(v) => v as int,
        None => 0,
    }
}

/// Every row read so far is as long as the width found.
pub open spec fn rows_even(rows: Seq<Vec<CellTypes>>, width: Option<usize>) -> bool {
    &&& rows.len() > 0 ==> width is Some
    &&& width is Some ==> width_or_zero(width) >= 1
    &&& forall|j: int| 0 <= j < rows.len() ==> (#[trigger] rows[j])@.len() == width_or_zero(width)
}

fn char_width(c: char) -> (r: usize)
    ensures
        r == utf8_width(c),
{
    let v = c as u32;
    if v < 0x80 {
        1
    } else if v < 0x800 {
        2
    } else if v < 0x10000 {
        3
    } else {
        4
    }
}

/// The cells of one line, or the message for its first unknown character.
fn read_row(line: &Vec<char>) -> (r: Result<Vec<CellTypes>, String>)
    ensures
        match parse_row(line@) {
            Ok(row) => r is Ok && r->Ok_0@ == row,
            Err(c) => r is Err && r->Err_0@ == unrecognised_message(c),
        },
{
    let mut row: Vec<CellTypes> = Vec::new();
    let mut k: usize = 0;
    assert(line@.take(0) =~= Seq::<char>::empty());
    while k < line.len()
        invariant
            k <= line@.len(),
            parse_row(line@.take(k as int)) == Ok::<Seq<CellTypes>, char>(row@),
        decreases line@.len() - k,
    {
        assert(line@.take(k + 1).drop_last() =~= line@.take(k as int));
        match CellTypes::from_char(line[k]) {
            Ok(c) => {
                row.push(c);
            },
            Err(e) => {
                proof {
                    lemma_row_error_sticks(line@, k + 1);
                }
                return Err(e);
            },
        }
        k = k + 1;
    }
    assert(line@.take(line@.len() as int) =~= line@);
    Ok(row)
}

/// Reads one line into `rows`, checking its width against `width`.
fn read_line(rows: &mut Vec<Vec<CellTypes>>, width: &mut Option<usize>, line: &Vec<char>, bytes: usize) -> (r: Result<(), String>)
    requires
        bytes as nat == byte_len(line@),
        rows_even(old(rows)@, *old(width)),
    ensures
        match take_line(state_of(old(rows)@, *old(width)), line@) {
            Ok(st) => r is Ok && state_of(final(rows)@, *final(width)) == st,
            Err(e) => r is Err && r->Err_0@ == e,
        },
        r is Ok ==> rows_even(final(rows)@, *final(width)),
        r is Ok ==> final(rows)@.len() * width_or_zero(*final(width)) <= old(rows)@.len() * width_or_zero(*old(width)) + line@.len(),
{
    if line.len() == 0 {
        return Ok(());
    }
    match *width {
        Some(w) => {
            if w != bytes {
                let mut msg = String::new();
                push_str(&mut msg, "Irregular line width - expected ");
                push_decimal(&mut msg, w);
                push_str(&mut msg, " found ");
                push_decimal(&mut msg, bytes);
                assert(msg@ =~= width_message(w as nat, bytes as nat));
                return Err(msg);
            }
        },
        None => {},
    }
    match read_row(line) {
        Ok(row) => {
            proof {
                lemma_parsed_row_len(line@);
            }
            let ghost before = rows@;
            rows.push(row);
            *width = Some(bytes);
            assert(state_of(rows@, *width).0 =~= state_of(before, *old(width)).0.push(parse_row(line@)->Ok_0));
            proof {
                vstd::arithmetic::mul::lemma_mul_is_distributive_add_other_way(line@.len() as int, before.len() as int, 1);
            }
            Ok(())
        },
        Err(e) => Err(e),
    }
}

impl Board {
    /// Reads a board from text. Each non-blank line is a row; `-` is a
    /// revealed zero, `?` covered, `X` or `x` a bomb and `1` to `8` a number.
    /// Fails on a line whose length in bytes differs from the first
    /// non-blank line's, on a character that stands for no cell, and on text
    /// with no non-blank line. The text may hold at most `MAX_CELLS`
    /// characters, which bounds the board's size.
    pub fn from_string(input: String) -> (r: Result<Board, String>)
        requires
            input@.len() <= MAX_CELLS,
        ensures
            match parsed(input@) {
                Ok((g, w)) => r is Ok && r->Ok_0.wf() && r->Ok_0.grid() == g && r->Ok_0.width == w
                    && r->Ok_0.height == g.len(),
                Err(e) => r is Err && r->Err_0@ == e,
            },
    {
        let ghost s = input@;
        let text = input.as_str();
        let n = text.unicode_len();
        let mut rows: Vec<Vec<CellTypes>> = Vec::new();
        let mut width: Option<usize> = None;
        let mut cur: Vec<char> = Vec::new();
        let mut cur_bytes: usize = 0;
        let mut i: usize = 0;
        assert(s.take(0) =~= Seq::<char>::empty());
        assert(state_of(rows@, width).0 =~= Seq::<Seq<CellTypes>>::empty());
        while i < n
            invariant
                s == input@,
                text@ == s,
                n == s.len(),
                n <= MAX_CELLS,
                i <= n,
                cur@ == scan_lines(s.take(i as int)).1,
                cur_bytes == byte_len(cur@),
                cur@.len() <= i,
                parse_lines(scan_lines(s.take(i as int)).0) == Ok::<ParseState, Seq<char>>(state_of(rows@, width)),
                rows_even(rows@, width),
                rows@.len() * width_or_zero(width) <= i - cur@.len(),
            decreases n - i,
        {
            let c = text.get_char(i);
            let ghost ls = scan_lines(s.take(i as int)).0;
            assert(s.take(i + 1).drop_last() =~= s.take(i as int));
            if c == '\n' {
                if cur.len() > 0 && cur[cur.len() - 1] == '\r' {
                    let ghost full = cur@;
                    cur.pop();
                    assert(cur@ =~= full.drop_last());
                    cur_bytes = cur_bytes - 1;
                }
                assert(cur@ == strip_cr(scan_lines(s.take(i as int)).1));
                assert(ls.push(cur@).drop_last() =~= ls);
                match read_line(&mut rows, &mut width, &cur, cur_bytes) {
                    Ok(()) => {},
                    Err(e) => {
                        proof {
                            let done = ls.push(cur@);
                            lemma_scan_prefix(s, i + 1);
                            assert(s.take(s.len() as int) =~= s);
                            assert(lines_of(s) =~= done + lines_of(s).skip(done.len() as int));
                            lemma_parse_error_sticks(done, lines_of(s).skip(done.len() as int));
                        }
                        return Err(e);
                    },
                }
                cur = Vec::new();
                cur_bytes = 0;
            } else {
                proof {
                    lemma_byte_len_bounds(cur@);
                    lemma_byte_len_bounds(cur@.push(c));
                    assert(cur@.push(c).drop_last() =~= cur@);
                }
                cur_bytes = cur_bytes + char_width(c);
                cur.push(c);
            }
            i = i + 1;
        }
        assert(s.take(n as int) =~= s);
        let ghost ls = scan_lines(s).0;
        assert(cur@.len() == 0 ==> lines_of(s) == ls);
        assert(cur@.len() > 0 ==> lines_of(s) == ls.push(cur@));
        if cur.len() > 0 {
            assert(ls.push(cur@).drop_last() =~= ls);
            match read_line(&mut rows, &mut width, &cur, cur_bytes) {
                Ok(()) => {},
                Err(e) => {
                    return Err(e);
                },
            }
        }
        if rows.len() == 0 {
            let mut msg = String::new();
            push_str(&mut msg, "Empty input");
            return Err(msg);
        }
        let w = match width {
            Some(w) => w,
            None => 0,
        };
        let height = rows.len();
        let board = Board { board: rows, width: w, height };
        proof {
            assert(board.grid() =~= state_of(board.board@, width).0);
            assert(board.board@[0]@.len() == w);
            vstd::arithmetic::mul::lemma_mul_is_commutative(w as int, height as int);
        }
        Ok(board)
    }

    /// The board as text: one line per row, with no final newline.
    pub fn to_string(&self) -> (r: String)
        requires
            self.wf(),
        ensures
            r@ == render(self.grid()),
    {
        let ghost lines = self.grid().map_values(|r: Seq<CellTypes>| row_chars(r));
        let mut out = String::new();
        let mut y: usize = 0;
        while y < self.height
            invariant
                self.wf(),
                lines == self.grid().map_values(|r: Seq<CellTypes>| row_chars(r)),
                y <= self.height,
                out@ == joined(lines.take(y as int), "\n"@),
            decreases self.height - y,
        {
            let ghost before = out@;
            if y > 0 {
                push_char(&mut out, '\n');
            }
            proof {
                reveal_strlit("\n");
            }
            assert(out@ =~= (if y > 0 { before + "\n"@ } else { before }) + row_chars(self.grid()[y as int]).take(0));
            let mut x: usize = 0;
            while x < self.width
                invariant
                    self.wf(),
                    lines == self.grid().map_values(|r: Seq<CellTypes>| row_chars(r)),
                    y < self.height,
                    x <= self.width,
                    out@ == (if y > 0 { before + "\n"@ } else { before }) + row_chars(self.grid()[y as int]).take(x as int),
                decreases self.width - x,
            {
                push_char(&mut out, self.get(x, y).char());
                assert(row_chars(self.grid()[y as int]).take(x + 1) =~= row_chars(self.grid()[y as int]).take(x as int).push(cell_char(self.at(x as int, y as int))));
                assert(out@ =~= (if y > 0 { before + "\n"@ } else { before }) + row_chars(self.grid()[y as int]).take(x + 1));
                x = x + 1;
            }
            assert(row_chars(self.grid()[y as int]).take(self.width as int) =~= row_chars(self.grid()[y as int]));
            assert(lines.take(y + 1).drop_last() =~= lines.take(y as int));
            assert(out@ =~= joined(lines.take(y + 1), "\n"@));
            y = y + 1;
        }
        assert(lines.take(self.height as int) =~= lines);
        out
    }
}

} // verus!
