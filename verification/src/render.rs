//! The text form of a grid: a header line that numbers the columns, then one
//! line for each row.

use vstd::prelude::*;
use crate::grid::Grid;

verus! {

/// The character for a decimal digit.
pub open spec fn digit(d: int) -> char {
    if d == 0 {
        '0'
    } else if d == 1 {
        '1'
    } else if d == 2 {
        '2'
    } else if d == 3 {
        '3'
    } else if d == 4 {
        '4'
    } else if d == 5 {
        '5'
    } else if d == 6 {
        '6'
    } else if d == 7 {
        '7'
    } else if d == 8 {
        '8'
    } else {
        '9'
    }
}

/// The header up to column `n`: two blanks, then for each column an `r`, the
/// last digit of its index and a blank.
pub open spec fn header_text(n: nat) -> Seq<char>
    decreases n,
{
    if n == 0 {
        seq![' ', ' ']
    } else {
        header_text((n - 1) as nat) + seq!['r', digit((n - 1) % 10), ' ']
    }
}

impl Grid {
    /// Row `y` up to column `n`: a `c`, the last digit of the row's index
    /// and a blank, then each cell's symbol between two blanks.
    pub open spec fn row_text(self, y: int, n: nat) -> Seq<char>
        decreases n,
    {
        if n == 0 {
            seq!['c', digit(y % 10), ' ']
        } else {
            self.row_text(y, (n - 1) as nat) + seq![' '] + self.at((n - 1, y)).glyph() + seq![' ']
        }
    }

    /// The header line and the first `n` rows, each line ended by a line
    /// feed.
    pub open spec fn rows_text(self, n: nat) -> Seq<char>
        decreases n,
    {
        if n == 0 {
            header_text(self.width) + seq!['\n']
        } else {
            self.rows_text((n - 1) as nat) + self.row_text(n - 1, self.width) + seq!['\n']
        }
    }

    /// The whole grid as text.
    pub open spec fn rendered(self) -> Seq<char> {
        self.rows_text(self.height)
    }
}

/// The one-character string for a decimal digit.
pub fn digit_str(d: usize) -> (s: &'static str)
    requires
        d < 10,
    ensures
        s@ == seq![digit(d as int)],
{
    proof {
        reveal_strlit("0");
        reveal_strlit("1");
        reveal_strlit("2");
        reveal_strlit("3");
        reveal_strlit("4");
        reveal_strlit("5");
        reveal_strlit("6");
        reveal_strlit("7");
        reveal_strlit("8");
        reveal_strlit("9");
    }
    if d == 0 {
        "0"
    } else if d == 1 {
        "1"
    } else if d == 2 {
        "2"
    } else if d == 3 {
        "3"
    } else if d == 4 {
        "4"
    } else if d == 5 {
        "5"
    } else if d == 6 {
        "6"
    } else if d == 7 {
        "7"
    } else if d == 8 {
        "8"
    } else {
        "9"
    }
}

} // verus!
