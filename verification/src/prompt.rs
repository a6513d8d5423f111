use vstd::prelude::*;

use crate::tile_pos::{col_letter, row_digit, TilePos};

verus! {

/// Declares std::io::Error so that a `ParseError` can carry the failure of
/// a read from the terminal. Only the surrounding program constructs this
/// variant; nothing in the library inspects the carried error.
#[verifier::external_type_specification]
#[verifier::external_body]
pub struct ExIoError(std::io::Error);

/// The ways reading a move from a line of input can fail.
#[derive(Debug)]
pub enum ParseError {
    /// The input ended before a move was read.
    EndOfInput,
    /// The line does not denote a board position; carries the line.
    InvalidInput(String),
    /// Reading the line itself failed.
    IOError(std::io::Error),
}

/// The column denoted by a letter `A`-`H`, case-insensitive, if any.
pub open spec fn letter_col(c: char) -> Option<int> {
    if 'A' as int <= c as int <= 'H' as int {
        Some(c as int - 'A' as int)
    } else if 'a' as int <= c as int <= 'h' as int {
        Some(c as int - 'a' as int)
    } else {
        None
    }
}

/// The row denoted by a digit `1`-`8`, if any.
pub open spec fn digit_row(c: char) -> Option<int> {
    if '1' as int <= c as int <= '8' as int {
        Some(c as int - '1' as int)
    } else {
        None
    }
}

/// The board position a line of input denotes: exactly two characters
/// before the trailing end-of-line character, a letter `A`-`H` and a digit
/// `1`-`8` in either order, case-insensitive. The letter names the column
/// and the digit the row.
pub open spec fn parsed_move(s: Seq<char>) -> Option<TilePos> {
    if s.len() != 3 {
        None
    } else if letter_col(s[0]) is Some && digit_row(s[1]) is Some {
        Some(
            TilePos {
                row: digit_row(s[1])->0 as usize,
                col: letter_col(s[0])->0 as usize,
            },
        )
    } else if digit_row(s[0]) is Some && letter_col(s[1]) is Some {
        Some(
            TilePos {
                row: digit_row(s[0])->0 as usize,
                col: letter_col(s[1])->0 as usize,
            },
        )
    } else {
        None
    }
}

/// Printing and parsing a position round-trip: a line holding the name of
/// a board position (its column letter and row digit, as `TilePos`'s
/// `to_string` writes them) followed by any end-of-line character denotes
/// exactly that position.
pub proof fn lemma_move_name_roundtrip(p: TilePos, end: char)
    requires
        p.in_bounds(),
    ensures
        parsed_move(seq![col_letter(p.col as int), row_digit(p.row as int), end]) == Some(p),
{
    let s = seq![col_letter(p.col as int), row_digit(p.row as int), end];
    assert(letter_col(s[0]) == Some(p.col as int));
    assert(digit_row(s[1]) == Some(p.row as int));
}

/// Parses a move from a non-empty input line in the format "A1" or "1A",
/// where "A" is the column and "1" is the row, followed by the line's
/// terminating character. The move string is not case-sensitive. A line
/// that denotes no position is returned unchanged inside the error.
pub fn parse_move(line: String) -> (r: Result<TilePos, ParseError>)
    requires
        line@.len() >= 1,
    ensures
        parsed_move(line@) matches Some(p) ==> (r matches Ok(q) && q == p),
        parsed_move(line@) is None ==> (r matches Err(e) && (e matches ParseError::InvalidInput(s)
            && s@ == line@)),
        r matches Ok(q) ==> q.in_bounds(),
{
    let n = line.as_str().unicode_len();
    if n != 3 {
        return Err(ParseError::InvalidInput(line));
    }
    let a = line.as_str().get_char(0) as u32;
    let b = line.as_str().get_char(1) as u32;
    let upper_a = 'A' as u32;
    let upper_h = 'H' as u32;
    let lower_a = 'a' as u32;
    let lower_h = 'h' as u32;
    let one = '1' as u32;
    let eight = '8' as u32;
    if (a >= upper_a && a <= upper_h) && (b >= one && b <= eight) {
        Ok(TilePos { row: (b - one) as usize, col: (a - upper_a) as usize })
    } else if (a >= lower_a && a <= lower_h) && (b >= one && b <= eight) {
        Ok(TilePos { row: (b - one) as usize, col: (a - lower_a) as usize })
    } else if (a >= one && a <= eight) && (b >= upper_a && b <= upper_h) {
        Ok(TilePos { row: (a - one) as usize, col: (b - upper_a) as usize })
    } else if (a >= one && a <= eight) && (b >= lower_a && b <= lower_h) {
        Ok(TilePos { row: (a - one) as usize, col: (b - lower_a) as usize })
    } else {
        Err(ParseError::InvalidInput(line))
    }
}

} // verus!
