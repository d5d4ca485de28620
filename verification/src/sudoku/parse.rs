//! Reading a board from nine lines of text.

use vstd::prelude::*;
use vstd::string::StrSliceExecFns;

use crate::sudoku::rules::{valid_grid, Grid};
use crate::sudoku::{ParseError, SudokuCell, SudokuTable};

verus! {

/// The cell that a character stands for: a digit from `1` to `9` for itself,
/// `X` for an empty cell, nothing for any other character.
pub open spec fn cell_of_char(c: char) -> Option<SudokuCell> {
    if '1' as int <= c as int <= '9' as int {
        Some(SudokuCell::Filled((c as int - '0' as int) as u8))
    } else if c == 'X' {
        Some(SudokuCell::Empty)
    } else {
        None
    }
}

/// Some character of the line stands for no cell.
pub open spec fn has_illegal_char(line: Seq<char>) -> bool {
    exists|i: int| 0 <= i < line.len() && cell_of_char(#[trigger] line[i]) is None
}

/// `i` is the place of the first character of the line that stands for no
/// cell.
pub open spec fn is_first_illegal(line: Seq<char>, i: int) -> bool {
    &&& 0 <= i < line.len()
    &&& cell_of_char(line[i]) is None
    &&& forall|j: int| 0 <= j < i ==> cell_of_char(#[trigger] line[j]) is Some
}

/// Why a line gives no row, if it gives none. The length is looked at
/// first, then the characters from left to right.
pub open spec fn line_error(line: Seq<char>) -> Option<ParseError> {
    if line.len() != 9 {
        Some(ParseError::BadLineLength)
    } else if has_illegal_char(line) {
        Some(ParseError::IllegalCharacter(line[choose|i: int| is_first_illegal(line, i)]))
    } else {
        None
    }
}

/// What one line of text gives: nine cells, or the reason why not.
pub open spec fn row_of_line(line: Seq<char>) -> Result<Seq<SudokuCell>, ParseError> {
    match line_error(line) {
        Some(e) => Err(e),
        None => Ok(Seq::new(9, |i: int| cell_of_char(line[i]).unwrap())),
    }
}

/// The lines that are read for their cells: the first nine, or all of them
/// when there are fewer.
pub open spec fn lines_read(lines: Seq<Seq<char>>) -> int {
    if lines.len() < 9 {
        lines.len() as int
    } else {
        9
    }
}

/// One of the lines read gives no row.
pub open spec fn has_bad_line(lines: Seq<Seq<char>>) -> bool {
    exists|k: int| 0 <= k < lines_read(lines) && row_of_line(#[trigger] lines[k]) is Err
}

/// `k` is the place of the first line that gives no row.
pub open spec fn is_first_bad_line(lines: Seq<Seq<char>>, k: int) -> bool {
    &&& 0 <= k < lines_read(lines)
    &&& row_of_line(lines[k]) is Err
    &&& forall|j: int| 0 <= j < k ==> row_of_line(#[trigger] lines[j]) is Ok
}

/// The rows of nine lines that each give a row.
pub open spec fn rows_of_lines(lines: Seq<Seq<char>>) -> Grid {
    Seq::new(9, |r: int| row_of_line(lines[r]).unwrap())
}

/// What a text gives: a board that breaks no rule, or the reason why not.
/// The first line among the first nine that gives no row decides; then a
/// line too many, then a line too few, then the rules of the game.
pub open spec fn parse_lines(lines: Seq<Seq<char>>) -> Result<Grid, ParseError> {
    if has_bad_line(lines) {
        Err(line_error(lines[choose|k: int| is_first_bad_line(lines, k)]).unwrap())
    } else if lines.len() > 9 {
        Err(ParseError::TooManyLines)
    } else if lines.len() < 9 {
        Err(ParseError::TooFewLines)
    } else if !valid_grid(rows_of_lines(lines)) {
        Err(ParseError::InvalidPuzzle)
    } else {
        Ok(rows_of_lines(lines))
    }
}

/// The text of each line.
pub open spec fn text_of(lines: Seq<String>) -> Seq<Seq<char>> {
    Seq::new(lines.len(), |i: int| lines[i]@)
}

impl SudokuTable {
    /// Reads a board from its lines, top row first.
    pub fn from_string(table_str: Vec<String>) -> (res: Result<SudokuTable, ParseError>)
        ensures
            match res {
                Ok(table) => parse_lines(text_of(table_str@)) == Ok::<Grid, ParseError>(table@)
                    && table.well_formed() && valid_grid(table@),
                Err(e) => parse_lines(text_of(table_str@)) == Err::<Grid, ParseError>(e),
            },
    {
        let ghost lines = text_of(table_str@);
        let mut contents: Vec<Vec<SudokuCell>> = Vec::new();
        let mut i: usize = 0;
        while i < table_str.len() && i < 9
            invariant
                i <= table_str.len(),
                i <= 9,
                lines == text_of(table_str@),
                contents@.len() == i,
                forall|k: int|
                    0 <= k < i ==> row_of_line(#[trigger] lines[k]) == Ok::<
                        Seq<SudokuCell>,
                        ParseError,
                    >(contents@[k]@),
            decreases table_str.len() - i,
        {
            assert(lines[i as int] == table_str@[i as int]@);
            match Self::extract_row_from_line(&table_str[i]) {
                Ok(row) => {
                    contents.push(row);
                },
                Err(e) => {
                    assert(is_first_bad_line(lines, i as int));
                    assert forall|k: int| is_first_bad_line(lines, k) implies k == i by {
                        if k < i {
                            assert(row_of_line(lines[k]) is Ok);
                        }
                    }
                    return Err(e);
                },
            }
            i += 1;
        }
        assert(!has_bad_line(lines));
        if table_str.len() > 9 {
            return Err(ParseError::TooManyLines);
        }
        let result = SudokuTable { contents };
        if result.contents.len() < 9 {
            Err(ParseError::TooFewLines)
        } else {
            assert(result@ =~~= rows_of_lines(lines));
            proof {
                lemma_rows_of_lines_well_formed(lines);
            }
            if !result.is_valid_sudoku() {
                Err(ParseError::InvalidPuzzle)
            } else {
                Ok(result)
            }
        }
    }

    /// Reads the nine cells of one row from its line.
    pub fn extract_row_from_line(line: &String) -> (res: Result<Vec<SudokuCell>, ParseError>)
        ensures
            match res {
                Ok(row) => row_of_line(line@) == Ok::<Seq<SudokuCell>, ParseError>(row@),
                Err(e) => row_of_line(line@) == Err::<Seq<SudokuCell>, ParseError>(e),
            },
    {
        let text = line.as_str();
        if text.unicode_len() != 9 {
            return Err(ParseError::BadLineLength);
        }
        let mut result: Vec<SudokuCell> = Vec::with_capacity(9);
        let mut i: usize = 0;
        while i < 9
            invariant
                i <= 9,
                text@ == line@,
                text@.len() == 9,
                result@.len() == i,
                forall|j: int|
                    0 <= j < i ==> cell_of_char(#[trigger] text@[j]) == Some(result@[j]),
            decreases 9 - i,
        {
            let c = text.get_char(i);
            let extracted_cell = if '1' <= c && c <= '9' {
                SudokuCell::Filled(c as u8 - 48)
            } else if c == 'X' {
                SudokuCell::Empty
            } else {
                proof {
                    assert(is_first_illegal(line@, i as int));
                    assert forall|k: int| is_first_illegal(line@, k) implies k == i by {
                        if k < i {
                            assert(cell_of_char(line@[k]) is Some);
                        }
                    }
                }
                return Err(ParseError::IllegalCharacter(c));
            };
            result.push(extracted_cell);
            i += 1;
        }
        assert(!has_illegal_char(line@));
        assert(result@ =~= Seq::new(9, |i: int| cell_of_char(line@[i]).unwrap()));
        Ok(result)
    }
}

/// Nine lines that each give a row give a well-formed board.
proof fn lemma_rows_of_lines_well_formed(lines: Seq<Seq<char>>)
    requires
        lines.len() == 9,
        !has_bad_line(lines),
    ensures
        crate::sudoku::rules::well_formed_grid(rows_of_lines(lines)),
{
    let g = rows_of_lines(lines);
    assert forall|r: int| 0 <= r < 9 implies (#[trigger] g[r]).len() == 9 by {
        assert(row_of_line(lines[r]) is Ok);
    }
    assert forall|r: int, c: int| crate::sudoku::rules::in_board(r, c) implies
        crate::sudoku::rules::legal_cell(#[trigger] g[r][c]) by {
        assert(row_of_line(lines[r]) is Ok);
    }
}

} // verus!
