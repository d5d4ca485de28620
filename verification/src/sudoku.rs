//! The board: cells, locations and the table that owns the 81 cells.

use vstd::prelude::*;

pub mod laws;
pub mod parse;
pub mod render;
pub mod rules;
pub mod search;
pub mod solver;

use crate::sudoku::rules::{
    board_shaped, box_cells, boxes_valid, col_cells, cols_valid, distinct_digits,
    filled_digits, legal_cell, lemma_filled_digits, lemma_filled_digits_take, row_cells,
    rows_valid, valid_grid, well_formed_grid, Grid,
};

verus! {

/// One of the 81 positions of a board: a row and a column, each in `0..9`.
#[derive(Clone, Copy, Debug, PartialEq, Eq, Structural)]
pub struct CellLocation {
    row: usize,
    col: usize,
}

/// What a position holds: nothing, or a digit from 1 to 9.
#[derive(Clone, Copy, Debug, PartialEq, Eq, Structural)]
pub enum SudokuCell {
    /// No digit yet.
    Empty,
    /// This digit.
    Filled(u8),
}

/// Why a text gives no board.
#[derive(Clone, Copy, Debug, PartialEq, Eq, Structural)]
pub enum ParseError {
    /// A line does not have exactly nine characters.
    BadLineLength,
    /// A character is neither a digit from 1 to 9 nor `X`.
    IllegalCharacter(char),
    /// There are fewer than nine lines.
    TooFewLines,
    /// There are more than nine lines.
    TooManyLines,
    /// A digit stands twice in a row, a column or a box.
    InvalidPuzzle,
}

/// A board of nine rows of nine cells.
#[derive(Debug)]
pub struct SudokuTable {
    contents: Vec<Vec<SudokuCell>>,
}

/// The rows of a nested vector as nested sequences.
pub open spec fn rows_of(v: Seq<Vec<SudokuCell>>) -> Grid {
    Seq::new(v.len(), |i: int| v[i]@)
}

impl CellLocation {
    /// The row of this location.
    pub closed spec fn row_index(self) -> int {
        self.row as int
    }

    /// The column of this location.
    pub closed spec fn col_index(self) -> int {
        self.col as int
    }

    /// Both coordinates lie on the board.
    pub open spec fn in_board(self) -> bool {
        0 <= self.row_index() < 9 && 0 <= self.col_index() < 9
    }

    /// The rank of this location in row-major order.
    pub open spec fn position(self) -> int {
        9 * self.row_index() + self.col_index()
    }

    /// The location at `row` and `column`, or `None` when either is off the board.
    pub fn new(row: usize, col: usize) -> (res: Option<CellLocation>)
        ensures
            res is Some <==> row < 9 && col < 9,
            res matches Some(loc) ==> loc.row_index() == row && loc.col_index() == col
                && loc.in_board(),
    {
        if row < 9 && col < 9 {
            Some(CellLocation { row, col })
        } else {
            None
        }
    }

    /// The row, as a number.
    pub fn row(&self) -> (r: usize)
        ensures
            r == self.row_index(),
    {
        self.row
    }

    /// The column, as a number.
    pub fn col(&self) -> (c: usize)
        ensures
            c == self.col_index(),
    {
        self.col
    }
}

impl View for SudokuTable {
    type V = Grid;

    closed spec fn view(&self) -> Grid {
        rows_of(self.contents@)
    }
}

impl Clone for SudokuTable {
    /// A board of its own that holds the same cells as this one.
    fn clone(&self) -> (res: Self)
        ensures
            res@ == self@,
    {
        let mut rows: Vec<Vec<SudokuCell>> = Vec::new();
        let mut i: usize = 0;
        while i < self.contents.len()
            invariant
                i <= self.contents.len(),
                rows@.len() == i,
                forall|k: int| 0 <= k < i ==> (#[trigger] rows@[k])@ == self.contents@[k]@,
            decreases self.contents.len() - i,
        {
            let row = &self.contents[i];
            let mut copy: Vec<SudokuCell> = Vec::new();
            let mut j: usize = 0;
            while j < row.len()
                invariant
                    j <= row.len(),
                    copy@ == row@.take(j as int),
                decreases row.len() - j,
            {
                copy.push(row[j]);
                assert(row@.take(j + 1) == row@.take(j as int).push(row@[j as int]));
                j += 1;
            }
            assert(row@.take(row.len() as int) == row@);
            rows.push(copy);
            i += 1;
        }
        let res = SudokuTable { contents: rows };
        assert(res@ =~= self@);
        res
    }
}

impl SudokuTable {
    /// Nine rows of nine cells.
    pub open spec fn has_board_shape(&self) -> bool {
        board_shaped(self@)
    }

    /// Nine rows of nine cells, every digit between 1 and 9.
    pub open spec fn well_formed(&self) -> bool {
        well_formed_grid(self@)
    }

    /// The rows of the board.
    pub fn contents(&self) -> (res: &Vec<Vec<SudokuCell>>)
        ensures
            rows_of(res@) == self@,
            res@.len() == self@.len(),
            forall|i: int| 0 <= i < res@.len() ==> (#[trigger] res@[i])@ == self@[i],
    {
        &self.contents
    }

    /// The rows of the board, open to any change: what the caller leaves in
    /// them is the board afterwards.
    pub fn contents_mut(&mut self) -> (res: &mut Vec<Vec<SudokuCell>>)
        ensures
            rows_of(res@) == old(self)@,
            final(self)@ == rows_of(final(res)@),
    {
        &mut self.contents
    }

    /// The cell at `location`.
    pub fn get(&self, location: CellLocation) -> (cell: SudokuCell)
        requires
            self.has_board_shape(),
            location.in_board(),
        ensures
            cell == self@[location.row_index()][location.col_index()],
    {
        self.contents[location.row][location.col]
    }

    /// Puts `cell` at `location` and leaves every other cell as it was. No
    /// rule of the game is checked.
    pub fn set(&mut self, location: CellLocation, cell: SudokuCell)
        requires
            old(self).has_board_shape(),
            location.in_board(),
        ensures
            final(self).has_board_shape(),
            old(self).well_formed() && legal_cell(cell) ==> final(self).well_formed(),
            final(self)@ == old(self)@.update(
                location.row_index(),
                old(self)@[location.row_index()].update(location.col_index(), cell),
            ),
    {
        let ghost before = self.contents@;
        assert(rows_of(before)[location.row as int] == before[location.row as int]@);
        self.contents[location.row][location.col] = cell;
        assert(self@ =~~= old(self)@.update(
            location.row_index(),
            old(self)@[location.row_index()].update(location.col_index(), cell),
        ));
    }

    /// Whether the board breaks no rule of the game.
    pub fn is_valid_sudoku(&self) -> (valid: bool)
        requires
            self.well_formed(),
        ensures
            valid == valid_grid(self@),
    {
        self.are_rows_valid() && self.are_cols_valid() && self.are_3_by_3_cells_valid()
    }

    /// Whether no row holds a digit twice.
    fn are_rows_valid(&self) -> (valid: bool)
        requires
            self.well_formed(),
        ensures
            valid == rows_valid(self@),
    {
        let mut i: usize = 0;
        while i < 9
            invariant
                i <= 9,
                self.well_formed(),
                forall|r: int| 0 <= r < i ==> distinct_digits(#[trigger] row_cells(self@, r)),
            decreases 9 - i,
        {
            let ghost cells = row_cells(self@, i as int);
            let mut row_digits: Vec<u8> = Vec::new();
            let mut j: usize = 0;
            while j < 9
                invariant
                    i < 9,
                    j <= 9,
                    self.well_formed(),
                    cells == row_cells(self@, i as int),
                    row_digits@ == filled_digits(cells.take(j as int)),
                decreases 9 - j,
            {
                proof {
                    lemma_filled_digits_take(cells, j as int);
                }
                if let SudokuCell::Filled(x) = self.contents[i][j] {
                    row_digits.push(x);
                }
                j += 1;
            }
            proof {
                assert(cells.take(9) == cells);
                lemma_filled_digits(cells);
            }
            if !Self::are_distinct_digits(&row_digits) {
                return false;
            }
            i += 1;
        }

        true
    }

    /// Whether no column holds a digit twice.
    fn are_cols_valid(&self) -> (valid: bool)
        requires
            self.well_formed(),
        ensures
            valid == cols_valid(self@),
    {
        let mut j: usize = 0;
        while j < 9
            invariant
                j <= 9,
                self.well_formed(),
                forall|c: int| 0 <= c < j ==> distinct_digits(#[trigger] col_cells(self@, c)),
            decreases 9 - j,
        {
            let ghost cells = col_cells(self@, j as int);
            let mut col_digits: Vec<u8> = Vec::new();
            let mut i: usize = 0;
            while i < 9
                invariant
                    j < 9,
                    i <= 9,
                    self.well_formed(),
                    cells == col_cells(self@, j as int),
                    col_digits@ == filled_digits(cells.take(i as int)),
                decreases 9 - i,
            {
                proof {
                    lemma_filled_digits_take(cells, i as int);
                }
                if let SudokuCell::Filled(x) = self.contents[i][j] {
                    col_digits.push(x);
                }
                i += 1;
            }
            proof {
                assert(cells.take(9) == cells);
                lemma_filled_digits(cells);
            }
            if !Self::are_distinct_digits(&col_digits) {
                return false;
            }
            j += 1;
        }

        true
    }

    /// Whether no 3x3 box holds a digit twice.
    fn are_3_by_3_cells_valid(&self) -> (valid: bool)
        requires
            self.well_formed(),
        ensures
            valid == boxes_valid(self@),
    {
        let mut i: usize = 0;
        while i < 3
            invariant
                i <= 3,
                self.well_formed(),
                forall|br: int, bc: int|
                    0 <= br < i && 0 <= bc < 3 ==> distinct_digits(
                        #[trigger] box_cells(self@, br, bc),
                    ),
            decreases 3 - i,
        {
            let mut j: usize = 0;
            while j < 3
                invariant
                    i < 3,
                    j <= 3,
                    self.well_formed(),
                    forall|br: int, bc: int|
                        0 <= br < i && 0 <= bc < 3 ==> distinct_digits(
                            #[trigger] box_cells(self@, br, bc),
                        ),
                    forall|bc: int|
                        0 <= bc < j ==> distinct_digits(#[trigger] box_cells(self@, i as int, bc)),
                decreases 3 - j,
            {
                proof {
                    lemma_filled_digits(box_cells(self@, i as int, j as int));
                }
                if !Self::are_distinct_digits(&self.get_3_by_3_cell(i, j)) {
                    return false;
                }
                j += 1;
            }
            i += 1;
        }

        true
    }

    /// The digits that stand in the 3x3 box at `row`, `col` (each in
    /// `0..3`), row by row.
    fn get_3_by_3_cell(&self, row: usize, col: usize) -> (digits: Vec<u8>)
        requires
            self.well_formed(),
            row < 3,
            col < 3,
        ensures
            digits@ == filled_digits(box_cells(self@, row as int, col as int)),
    {
        let ghost cells = box_cells(self@, row as int, col as int);
        let mut result: Vec<u8> = Vec::new();

        let mut i: usize = 0;
        while i < 3
            invariant
                i <= 3,
                row < 3,
                col < 3,
                self.well_formed(),
                cells == box_cells(self@, row as int, col as int),
                result@ == filled_digits(cells.take(3 * i)),
            decreases 3 - i,
        {
            let mut j: usize = 0;
            while j < 3
                invariant
                    i < 3,
                    j <= 3,
                    row < 3,
                    col < 3,
                    self.well_formed(),
                    cells == box_cells(self@, row as int, col as int),
                    result@ == filled_digits(cells.take(3 * i + j)),
                decreases 3 - j,
            {
                let table_i = (3 * row) + i;
                let table_j = (3 * col) + j;
                proof {
                    lemma_filled_digits_take(cells, 3 * i + j);
                }
                if let SudokuCell::Filled(x) = self.contents[table_i][table_j] {
                    result.push(x);
                }
                j += 1;
            }
            i += 1;
        }
        assert(cells.take(9) == cells);

        result
    }

    /// Whether no digit comes twice in `digits`, each of which is between 1
    /// and 9.
    fn are_distinct_digits(digits: &[u8]) -> (distinct: bool)
        requires
            forall|k: int| 0 <= k < digits@.len() ==> 1 <= #[trigger] digits@[k] <= 9,
        ensures
            distinct == digits@.no_duplicates(),
    {
        let mut digit_exists = [false;9];

        let mut k: usize = 0;
        while k < digits.len()
            invariant
                k <= digits.len(),
                forall|n: int| 0 <= n < digits@.len() ==> 1 <= #[trigger] digits@[n] <= 9,
                digits@.take(k as int).no_duplicates(),
                forall|v: int|
                    1 <= v <= 9 ==> (#[trigger] digit_exists@[v - 1] <==> digits@.take(
                        k as int,
                    ).contains(v as u8)),
            decreases digits.len() - k,
        {
            let digit = digits[k] as usize - 1;
            let ghost seen = digits@.take(k as int);
            assert(digits@.take(k + 1) == seen.push(digits@[k as int]));
            assert(digit_exists@[(digit + 1) - 1] <==> seen.contains((digit + 1) as u8));

            if digit_exists[digit] {
                proof {
                    let w = choose|w: int| 0 <= w < seen.len() && seen[w] == digits@[k as int];
                    assert(digits@[w] == digits@[k as int]);
                }
                return false;
            } else {
                digit_exists[digit] = true;
            }
            proof {
                let grown = seen.push(digits@[k as int]);
                assert forall|v: int| 1 <= v <= 9 implies (#[trigger] digit_exists@[v - 1]
                    <==> grown.contains(v as u8)) by {
                    if seen.contains(v as u8) {
                        let w = choose|w: int| 0 <= w < seen.len() && seen[w] == v as u8;
                        assert(grown[w] == v as u8);
                    }
                    if v == digit + 1 {
                        assert(grown[k as int] == v as u8);
                    }
                    if grown.contains(v as u8) && v != digit + 1 {
                        let w = choose|w: int| 0 <= w < grown.len() && grown[w] == v as u8;
                        assert(seen[w] == v as u8);
                    }
                }
                assert(grown.no_duplicates()) by {
                    assert forall|a: int, b: int|
                        0 <= a < grown.len() && 0 <= b < grown.len() && a != b implies grown[a]
                        != grown[b] by {
                        if a < k && b < k {
                            assert(seen[a] != seen[b]);
                        } else if a < k {
                            assert(seen[a] == grown[a]);
                        } else if b < k {
                            assert(seen[b] == grown[b]);
                        }
                    }
                }
            }
            k += 1;
        }
        assert(digits@.take(digits@.len() as int) == digits@);

        true
    }
}

} // verus!
