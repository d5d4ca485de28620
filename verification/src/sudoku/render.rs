//! Writing a board as text: three bands of three boxed rows.

use vstd::prelude::*;
use vstd::string::StringExecFns;

use crate::sudoku::rules::Grid;
use crate::sudoku::{SudokuCell, SudokuTable};

verus! {

/// The character that shows a cell: a blank for an empty cell, the digit
/// for a digit up to 9, `!` for anything larger.
pub open spec fn cell_char(cell: SudokuCell) -> char {
    match cell {
        SudokuCell::Empty => ' ',
        SudokuCell::Filled(d) => if d <= 9 {
            ('0' as int + d as int) as char
        } else {
            '!'
        },
    }
}

/// Three cells from place `k` on, each between bars.
pub open spec fn group_text(values: Seq<SudokuCell>, k: int) -> Seq<char> {
    "│ "@ + seq![cell_char(values[k])] + " │ "@ + seq![cell_char(values[k + 1])] + " │ "@
        + seq![cell_char(values[k + 2])] + " │"@
}

/// The line that shows the nine cells of a row.
pub open spec fn nums_text(values: Seq<SudokuCell>) -> Seq<char> {
    group_text(values, 0) + " "@ + group_text(values, 3) + " "@ + group_text(values, 6) + "\n"@
}

/// The first row of a band: the upper border, the cells, a rule.
pub open spec fn top_row_text(values: Seq<SudokuCell>) -> Seq<char> {
    "┌───┬───┬───┐ ┌───┬───┬───┐ ┌───┬───┬───┐\n"@ + middle_row_text(values)
}

/// The second row of a band: the cells, a rule.
pub open spec fn middle_row_text(values: Seq<SudokuCell>) -> Seq<char> {
    nums_text(values) + "├───┼───┼───┤ ├───┼───┼───┤ ├───┼───┼───┤\n"@
}

/// The last row of a band: the cells, the lower border.
pub open spec fn bottom_row_text(values: Seq<SudokuCell>) -> Seq<char> {
    nums_text(values) + "└───┴───┴───┘ └───┴───┴───┘ └───┴───┴───┘\n"@
}

/// Band `i` of a board: its rows `3 * i` to `3 * i + 2`.
pub open spec fn band_text(g: Grid, i: int) -> Seq<char> {
    top_row_text(g[3 * i]) + middle_row_text(g[3 * i + 1]) + bottom_row_text(g[3 * i + 2])
}

/// The whole board: its three bands, top to bottom.
pub open spec fn board_text(g: Grid) -> Seq<char> {
    band_text(g, 0) + band_text(g, 1) + band_text(g, 2)
}

impl SudokuCell {
    /// The text that shows this cell: one character.
    pub fn symbol(&self) -> (text: &'static str)
        ensures
            text@ == seq![cell_char(*self)],
    {
        proof {
            reveal_strlit(" ");
            reveal_strlit("0");
            reveal_strlit("1");
            reveal_strlit("2");
            reveal_strlit("3");
            reveal_strlit("4");
            reveal_strlit("5");
            reveal_strlit("6");
            reveal_strlit("7");
            reveal_strlit("8");
            reveal_strlit("9");
            reveal_strlit("!");
        }
        let text = match self {
            SudokuCell::Empty => " ",
            SudokuCell::Filled(0) => "0",
            SudokuCell::Filled(1) => "1",
            SudokuCell::Filled(2) => "2",
            SudokuCell::Filled(3) => "3",
            SudokuCell::Filled(4) => "4",
            SudokuCell::Filled(5) => "5",
            SudokuCell::Filled(6) => "6",
            SudokuCell::Filled(7) => "7",
            SudokuCell::Filled(8) => "8",
            SudokuCell::Filled(9) => "9",
            SudokuCell::Filled(_) => "!",
        };
        assert(text@ =~= seq![cell_char(*self)]);
        text
    }
}

impl SudokuTable {
    /// The board as text, as `board_text` lays it out.
    pub fn render(&self) -> (text: String)
        requires
            self.has_board_shape(),
        ensures
            text@ == board_text(self@),
    {
        let mut out = String::new();
        let mut i: usize = 0;
        while i < 3
            invariant
                i <= 3,
                self.has_board_shape(),
                out@ == if i == 0 {
                    Seq::<char>::empty()
                } else if i == 1 {
                    band_text(self@, 0)
                } else if i == 2 {
                    band_text(self@, 0) + band_text(self@, 1)
                } else {
                    board_text(self@)
                },
            decreases 3 - i,
        {
            let row_start = 3 * i;
            let ghost before = out@;
            let rows = self.contents();
            Self::write_top_row(&mut out, &rows[row_start]);
            Self::write_middle_row(&mut out, &rows[row_start + 1]);
            Self::write_bottom_row(&mut out, &rows[row_start + 2]);
            assert(out@ =~= before + band_text(self@, i as int));
            i += 1;
        }
        out
    }

    /// Adds the first row of a band to `out`.
    fn write_top_row(out: &mut String, values: &Vec<SudokuCell>)
        requires
            values@.len() >= 9,
        ensures
            final(out)@ == old(out)@ + top_row_text(values@),
    {
        out.append("┌───┬───┬───┐ ┌───┬───┬───┐ ┌───┬───┬───┐\n");
        Self::write_middle_row(out, values);
        assert(out@ =~= old(out)@ + top_row_text(values@));
    }

    /// Adds the second row of a band to `out`.
    fn write_middle_row(out: &mut String, values: &Vec<SudokuCell>)
        requires
            values@.len() >= 9,
        ensures
            final(out)@ == old(out)@ + middle_row_text(values@),
    {
        Self::write_row_of_nums(out, values);
        out.append("├───┼───┼───┤ ├───┼───┼───┤ ├───┼───┼───┤\n");
        assert(out@ =~= old(out)@ + middle_row_text(values@));
    }

    /// Adds the line of the nine cells of a row to `out`.
    fn write_row_of_nums(out: &mut String, values: &Vec<SudokuCell>)
        requires
            values@.len() >= 9,
        ensures
            final(out)@ == old(out)@ + nums_text(values@),
    {
        Self::write_group(out, values, 0);
        out.append(" ");
        Self::write_group(out, values, 3);
        out.append(" ");
        Self::write_group(out, values, 6);
        out.append("\n");
        assert(out@ =~= old(out)@ + nums_text(values@));
    }

    /// Adds three cells of a row, each between bars, to `out`.
    fn write_group(out: &mut String, values: &Vec<SudokuCell>, k: usize)
        requires
            k <= 6,
            values@.len() >= 9,
        ensures
            final(out)@ == old(out)@ + group_text(values@, k as int),
    {
        out.append("│ ");
        out.append(values[k].symbol());
        out.append(" │ ");
        out.append(values[k + 1].symbol());
        out.append(" │ ");
        out.append(values[k + 2].symbol());
        out.append(" │");
        assert(out@ =~= old(out)@ + group_text(values@, k as int));
    }

    /// Adds the last row of a band to `out`.
    fn write_bottom_row(out: &mut String, values: &Vec<SudokuCell>)
        requires
            values@.len() >= 9,
        ensures
            final(out)@ == old(out)@ + bottom_row_text(values@),
    {
        Self::write_row_of_nums(out, values);
        out.append("└───┴───┴───┘ └───┴───┴───┘ └───┴───┴───┘\n");
        assert(out@ =~= old(out)@ + bottom_row_text(values@));
    }
}

} // verus!
