//! The text form of a grid: three-by-three blocks set apart by bars and
//! dividing lines.

use crate::solver::Solver;
use crate::sudoku::Sudoku;
use vstd::prelude::*;

verus! {

/// The character of the decimal digit `d`.
pub open spec fn digit(d: int) -> char {
    if d == 0 {
        '0'
    } else if d == 1 {
        '1'
    } else if d == 2 {
        '2'
    } else if d == 3 {
        '3'
    } else if d == 4 {
        '4'
    } else if d == 5 {
        '5'
    } else if d == 6 {
        '6'
    } else if d == 7 {
        '7'
    } else if d == 8 {
        '8'
    } else {
        '9'
    }
}

/// `value` in decimal, without leading zeros.
pub open spec fn decimal(value: u8) -> Seq<char> {
    if value >= 100 {
        seq![digit(value as int / 100), digit(value as int / 10 % 10), digit(value as int % 10)]
    } else if value >= 10 {
        seq![digit(value as int / 10), digit(value as int % 10)]
    } else {
        seq![digit(value as int)]
    }
}

/// The line between two bands of blocks: a line break, 22 dashes, a line
/// break.
pub open spec fn divider() -> Seq<char> {
    seq!['\n'] + Seq::new(22, |i: int| '-') + seq!['\n']
}

/// What stands before the cell at `index` of the row-major sequence: nothing
/// before the first cell, the divider before every third row, a line break
/// before every other row, a bar and a space before every third column.
pub open spec fn separator(index: int) -> Seq<char> {
    if index == 0 {
        Seq::empty()
    } else if index % 27 == 0 {
        divider()
    } else if index % 9 == 0 {
        seq!['\n']
    } else if index % 3 == 0 {
        seq!['|', ' ']
    } else {
        Seq::empty()
    }
}

/// The text of one cell: two spaces for an empty cell, else the number and a
/// space.
pub open spec fn cell_text(value: u8) -> Seq<char> {
    if value == 0 {
        seq![' ', ' ']
    } else {
        decimal(value) + seq![' ']
    }
}

/// The text of the first `n` cells of `cells`.
pub open spec fn rendered_upto(cells: Seq<u8>, n: int) -> Seq<char>
    decreases n,
{
    if n <= 0 {
        Seq::empty()
    } else {
        rendered_upto(cells, n - 1) + separator(n - 1) + cell_text(cells[n - 1])
    }
}

/// The text of a whole grid.
pub open spec fn rendered(cells: Seq<u8>) -> Seq<char> {
    rendered_upto(cells, 81)
}

/// The text of one decimal digit.
fn digit_text(d: u8) -> (text: &'static str)
    requires
        d < 10,
    ensures
        text@ == seq![digit(d as int)],
{
    proof {
        reveal_strlit("0");
        reveal_strlit("1");
        reveal_strlit("2");
        reveal_strlit("3");
        reveal_strlit("4");
        reveal_strlit("5");
        reveal_strlit("6");
        reveal_strlit("7");
        reveal_strlit("8");
        reveal_strlit("9");
    }
    let text = if d == 0 {
        "0"
    } else if d == 1 {
        "1"
    } else if d == 2 {
        "2"
    } else if d == 3 {
        "3"
    } else if d == 4 {
        "4"
    } else if d == 5 {
        "5"
    } else if d == 6 {
        "6"
    } else if d == 7 {
        "7"
    } else if d == 8 {
        "8"
    } else {
        "9"
    };
    assert(text@ =~= seq![digit(d as int)]);
    text
}

/// Appends `value` in decimal to `text`.
fn append_decimal(text: &mut String, value: u8)
    ensures
        final(text)@ == old(text)@ + decimal(value),
{
    if value >= 100 {
        text.append(digit_text(value / 100));
        text.append(digit_text(value / 10 % 10));
        text.append(digit_text(value % 10));
    } else if value >= 10 {
        text.append(digit_text(value / 10));
        text.append(digit_text(value % 10));
    } else {
        text.append(digit_text(value));
    }
    assert(text@ =~= old(text)@ + decimal(value));
}

impl Sudoku {
    /// The grid as text, cell after cell in row-major order: a filled cell as
    /// its number and a space, an empty cell as two spaces, with a bar before
    /// every third column, a line break before every row but the first, and a
    /// line of dashes before every third row.
    pub fn render(&self) -> (text: String)
        ensures
            text@ == rendered(self@),
    {
        let mut text = String::new();
        for i in 0..81usize
            invariant
                text@ == rendered_upto(self@, i as int),
        {
            let ghost before = text@;
            if i != 0 {
                if i % 27 == 0 {
                    proof {
                        reveal_strlit("\n----------------------\n");
                    }
                    text.append("\n----------------------\n");
                    assert(text@ =~= before + divider());
                } else if i % 9 == 0 {
                    proof {
                        reveal_strlit("\n");
                    }
                    text.append("\n");
                    assert(text@ =~= before + seq!['\n']);
                } else if i % 3 == 0 {
                    proof {
                        reveal_strlit("| ");
                    }
                    text.append("| ");
                    assert(text@ =~= before + seq!['|', ' ']);
                }
            }
            assert(text@ =~= before + separator(i as int));
            let ghost separated = text@;
            let value = self.squares[i];
            if value != 0 {
                append_decimal(&mut text, value);
                proof {
                    reveal_strlit(" ");
                }
                text.append(" ");
                assert(text@ =~= separated + cell_text(value));
            } else {
                proof {
                    reveal_strlit("  ");
                }
                text.append("  ");
                assert(text@ =~= separated + cell_text(value));
            }
        }
        text
    }
}

impl Solver {
    /// The live grid as text.
    pub fn render(&self) -> (text: String)
        ensures
            text@ == rendered(self.sudoku@),
    {
        self.sudoku.render()
    }
}

} // verus!
