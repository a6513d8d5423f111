use vstd::prelude::*;
use vstd::string::StringExecFns;

verus! {

/// The letter naming a board column in the input format: `A` for the first
/// column through `H` for the last.
pub open spec fn col_letter(c: int) -> char {
    if c == 0 {
        'A'
    } else if c == 1 {
        'B'
    } else if c == 2 {
        'C'
    } else if c == 3 {
        'D'
    } else if c == 4 {
        'E'
    } else if c == 5 {
        'F'
    } else if c == 6 {
        'G'
    } else {
        'H'
    }
}

/// The digit naming a board row in the input format: `1` for the first row
/// through `8` for the last.
pub open spec fn row_digit(r: int) -> char {
    if r == 0 {
        '1'
    } else if r == 1 {
        '2'
    } else if r == 2 {
        '3'
    } else if r == 3 {
        '4'
    } else if r == 4 {
        '5'
    } else if r == 5 {
        '6'
    } else if r == 6 {
        '7'
    } else {
        '8'
    }
}

/// Represents the position of a tile on the grid.
#[derive(Debug, Clone, Copy, PartialEq, Eq, Structural)]
pub struct TilePos {
    pub row: usize,
    pub col: usize,
}

impl TilePos {
    /// True when the position lies on the 8x8 board.
    pub open spec fn in_bounds(self) -> bool {
        self.row < 8 && self.col < 8
    }

    /// The row-major index of the position: tiles are numbered 0..64,
    /// row by row.
    pub open spec fn index(self) -> int {
        self.row * 8 + self.col
    }

    /// The name of the position in the input format: the column letter
    /// followed by the row digit, e.g. "A1" for the top-left tile.
    pub fn to_string(&self) -> (r: String)
        requires
            self.in_bounds(),
        ensures
            r@.len() == 2,
            r@[0] == col_letter(self.col as int),
            r@[1] == row_digit(self.row as int),
    {
        let letter: &str = if self.col == 0 {
            "A"
        } else if self.col == 1 {
            "B"
        } else if self.col == 2 {
            "C"
        } else if self.col == 3 {
            "D"
        } else if self.col == 4 {
            "E"
        } else if self.col == 5 {
            "F"
        } else if self.col == 6 {
            "G"
        } else {
            "H"
        };
        proof {
            reveal_strlit("A");
            reveal_strlit("B");
            reveal_strlit("C");
            reveal_strlit("D");
            reveal_strlit("E");
            reveal_strlit("F");
            reveal_strlit("G");
            reveal_strlit("H");
            assert(letter@.len() == 1 && letter@[0] == col_letter(self.col as int));
        }
        let digit: &str = if self.row == 0 {
            "1"
        } else if self.row == 1 {
            "2"
        } else if self.row == 2 {
            "3"
        } else if self.row == 3 {
            "4"
        } else if self.row == 4 {
            "5"
        } else if self.row == 5 {
            "6"
        } else if self.row == 6 {
            "7"
        } else {
            "8"
        };
        proof {
            reveal_strlit("1");
            reveal_strlit("2");
            reveal_strlit("3");
            reveal_strlit("4");
            reveal_strlit("5");
            reveal_strlit("6");
            reveal_strlit("7");
            reveal_strlit("8");
            assert(digit@.len() == 1 && digit@[0] == row_digit(self.row as int));
        }
        let mut name = String::from_str(letter);
        name.append(digit);
        name
    }
}

} // verus!
