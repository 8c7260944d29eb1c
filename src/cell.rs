use vstd::prelude::*;
use crate::text::{decimal, digit_of, push_str};

verus! {

/// The state of one square of the board.
#[derive(Debug, Clone, Copy, PartialEq, Eq, Structural)]
pub enum CellTypes {
    /// Not yet known.
    Covered,
    /// Holds, or is assumed to hold, a mine.
    Bomb,
    /// Revealed, with this many mines among its neighbours.
    Value(u8),
}

/// The cell a character of the input stands for, if any.
pub open spec fn cell_of_char(c: char) -> Option<CellTypes> {
    if c == '-' {
        Some(CellTypes::Value(0))
    } else if c == '?' {
        Some(CellTypes::Covered)
    } else if c == 'X' || c == 'x' {
        Some(CellTypes::Bomb)
    } else if '1' <= c <= '8' {
        Some(CellTypes::Value((c as u32 - '0' as u32) as u8))
    } else {
        None
    }
}

/// The character a cell is shown as: `?`, `x`, `-` for zero, and otherwise
/// the leading digit of its number.
pub open spec fn cell_char(c: CellTypes) -> char {
    match c {
        CellTypes::Covered => '?',
        CellTypes::Bomb => 'x',
        CellTypes::Value(v) => if v == 0 {
            '-'
        } else {
            decimal(v as nat)[0]
        },
    }
}

/// Rust's debug escape of a character, as `char::escape_debug` writes it.
pub uninterp spec fn debug_escape(c: char) -> Seq<char>;

/// Message for a character that stands for no cell.
pub open spec fn unrecognised_message(c: char) -> Seq<char> {
    "Unrecognised character '"@ + debug_escape(c) + "'"@
}

/// Relies on `char::escape_debug`: the escaped text depends on the character alone.
#[verifier::external_body]
fn escape_debug(c: char) -> (r: String)
    ensures
        r@ == debug_escape(c),
{
    c.escape_debug().to_string()
}

impl CellTypes {
    /// The cell for an input character: `-` is a revealed zero, `?` covered,
    /// `X` or `x` a bomb, `1` to `8` a revealed number.
    pub fn from_char(input: char) -> (r: Result<CellTypes, String>)
        ensures
            match cell_of_char(input) {
                Some(c) => r == Ok::<CellTypes, String>(c),
                None => r is Err && r->Err_0@ == unrecognised_message(input),
            },
    {
        if input == '-' {
            Ok(CellTypes::Value(0))
        } else if input == '?' {
            Ok(CellTypes::Covered)
        } else if input == 'X' || input == 'x' {
            Ok(CellTypes::Bomb)
        } else if '1' <= input && input <= '8' {
            Ok(CellTypes::Value((input as u32 - '0' as u32) as u8))
        } else {
            let mut msg = String::new();
            push_str(&mut msg, "Unrecognised character '");
            let escaped = escape_debug(input);
            push_str(&mut msg, escaped.as_str());
            push_str(&mut msg, "'");
            Err(msg)
        }
    }

    /// The character this cell is shown as.
    pub fn char(&self) -> (r: char)
        ensures
            r == cell_char(*self),
    {
        match self {
            CellTypes::Covered => '?',
            CellTypes::Bomb => 'x',
            CellTypes::Value(v) => {
                let v = *v;
                if v == 0 {
                    '-'
                } else {
                    proof {
                        reveal_with_fuel(decimal, 3);
                    }
                    if v < 10 {
                        digit_of(v as usize)
                    } else if v < 100 {
                        digit_of((v / 10) as usize)
                    } else {
                        digit_of((v / 100) as usize)
                    }
                }
            },
        }
    }

    /// Identifier of the cell's state: its number, 9 for covered, 10 for a bomb.
    pub fn id(&self) -> (r: u8)
        ensures
            r == crate::search::cell_id(*self),
    {
        match self {
            CellTypes::Value(v) => *v,
            CellTypes::Covered => 9,
            CellTypes::Bomb => 10,
        }
    }
}

} // verus!
