//! The grid as text: a box of nine rows, ruled off block by block.

use vstd::prelude::*;
use vstd::string::StringExecFns;
use crate::solvers::backtracking::{Sudoku, EMPTY, SIDE};

verus! {

/// The character of a decimal digit.
pub open spec fn digit_char(d: int) -> char {
    ('0' as int + d) as char
}

/// A number in decimal notation, without leading zeros.
pub open spec fn decimal_text(v: u8) -> Seq<char> {
    if v >= 100 {
        seq![digit_char(v as int / 100), digit_char(v as int / 10 % 10), digit_char(v as int % 10)]
    } else if v >= 10 {
        seq![digit_char(v as int / 10), digit_char(v as int % 10)]
    } else {
        seq![digit_char(v as int)]
    }
}

/// What stands for a cell: a blank for an empty one, else its number.
pub open spec fn cell_text(v: u8) -> Seq<char> {
    if v == 0 {
        seq![' ']
    } else {
        decimal_text(v)
    }
}

/// The first `n` cells of a row, each behind the bar that opens it.
pub open spec fn cells_text(cells: Seq<u8>, row: int, n: int) -> Seq<char>
    decreases n,
{
    if n <= 0 {
        Seq::empty()
    } else {
        cells_text(cells, row, n - 1) + "| "@ + cell_text(cells[row * 9 + n - 1]) + " "@
    }
}

/// The line under a row: a double rule under every third row, a single one
/// under the others.
pub open spec fn rule_text(row: int) -> Seq<char> {
    if row == 8 || (row != 0 && row % 3 == 2) {
        "=====================================\n"@
    } else {
        "|-----------|-----------|-----------|\n"@
    }
}

/// The top rule and the first `n` rows, each with the line under it.
pub open spec fn rows_text(cells: Seq<u8>, n: int) -> Seq<char>
    decreases n,
{
    if n <= 0 {
        "=====================================\n"@
    } else {
        rows_text(cells, n - 1) + cells_text(cells, n - 1, 9) + "|\n"@ + rule_text(n - 1)
    }
}

/// The whole grid as text.
pub open spec fn grid_text(cells: Seq<u8>) -> Seq<char> {
    rows_text(cells, 9)
}

/// Appends one decimal digit.
fn append_digit(text: &mut String, d: u8)
    requires
        d <= 9,
    ensures
        final(text)@ == old(text)@ + seq![digit_char(d as int)],
{
    proof {
        reveal_strlit("0");
        reveal_strlit("1");
        reveal_strlit("2");
        reveal_strlit("3");
        reveal_strlit("4");
        reveal_strlit("5");
        reveal_strlit("6");
        reveal_strlit("7");
        reveal_strlit("8");
        reveal_strlit("9");
    }
    let digit = match d {
        0 => "0",
        1 => "1",
        2 => "2",
        3 => "3",
        4 => "4",
        5 => "5",
        6 => "6",
        7 => "7",
        8 => "8",
        _ => "9",
    };
    assert(digit@ =~= seq![digit_char(d as int)]);
    text.append(digit);
}

/// Appends what stands for a cell.
fn append_cell(text: &mut String, v: u8)
    ensures
        final(text)@ == old(text)@ + cell_text(v),
{
    if v == EMPTY {
        proof {
            reveal_strlit(" ");
        }
        assert(" "@ =~= seq![' ']);
        text.append(" ");
    } else {
        if v >= 100 {
            append_digit(text, v / 100);
        }
        if v >= 10 {
            append_digit(text, v / 10 % 10);
        }
        append_digit(text, v % 10);
        assert(text@ =~= old(text)@ + cell_text(v));
    }
}

impl Sudoku {
    /// Draws the grid: a blank for an empty cell, bars between the cells, a
    /// double rule around the grid and between the bands of blocks.
    pub fn render(&self) -> (text: String)
        ensures
            text@ == grid_text(self@.cells),
    {
        let cells = self.cells();
        let mut text = String::new();
        text.append("=====================================\n");
        assert(text@ =~= rows_text(cells@, 0));
        let mut i: usize = 0;
        while i < SIDE
            invariant
                i <= SIDE,
                cells@.len() == 81,
                text@ == rows_text(cells@, i as int),
            decreases SIDE - i,
        {
            let ghost above = text@;
            let mut j: usize = 0;
            while j < SIDE
                invariant
                    i < SIDE,
                    j <= SIDE,
                    cells@.len() == 81,
                    text@ == above + cells_text(cells@, i as int, j as int),
                decreases SIDE - j,
            {
                let ghost left = text@;
                text.append("| ");
                append_cell(&mut text, cells[SIDE * i + j]);
                text.append(" ");
                assert(text@ =~= above + cells_text(cells@, i as int, j + 1)) by {
                    assert(text@ == left + "| "@ + cell_text(cells@[i * 9 + j]) + " "@);
                }
                j += 1;
            }
            text.append("|\n");
            match i == SIDE - 1 || (i != 0 && i % 3 == 2) {
                false => text.append("|-----------|-----------|-----------|\n"),
                true => text.append("=====================================\n"),
            }
            assert(text@ =~= rows_text(cells@, i + 1));
            i += 1;
        }
        text
    }
}

} // verus!
