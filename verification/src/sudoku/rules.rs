//! The rules of the game, stated over sequences of rows.

use vstd::prelude::*;

use crate::sudoku::SudokuCell;

verus! {

/// A board as contracts see it: a sequence of rows of cells.
pub type Grid = Seq<Seq<SudokuCell>>;

/// An empty cell, or a digit between 1 and 9.
pub open spec fn legal_cell(cell: SudokuCell) -> bool {
    cell matches SudokuCell::Filled(d) ==> 1 <= d <= 9
}

/// `row` and `col` address a cell of a 9x9 board.
pub open spec fn in_board(row: int, col: int) -> bool {
    0 <= row < 9 && 0 <= col < 9
}

/// Nine rows of nine cells.
pub open spec fn board_shaped(g: Grid) -> bool {
    &&& g.len() == 9
    &&& forall|r: int| 0 <= r < 9 ==> (#[trigger] g[r]).len() == 9
}

/// Nine rows of nine legal cells.
pub open spec fn well_formed_grid(g: Grid) -> bool {
    &&& board_shaped(g)
    &&& forall|r: int, c: int| in_board(r, c) ==> legal_cell(#[trigger] g[r][c])
}

/// Two positions share a row, a column or a 3x3 box.
pub open spec fn same_unit(r1: int, c1: int, r2: int, c2: int) -> bool {
    r1 == r2 || c1 == c2 || (r1 / 3 == r2 / 3 && c1 / 3 == c2 / 3)
}

/// The nine cells of a row, left to right.
pub open spec fn row_cells(g: Grid, row: int) -> Seq<SudokuCell> {
    g[row]
}

/// The nine cells of a column, top to bottom.
pub open spec fn col_cells(g: Grid, col: int) -> Seq<SudokuCell> {
    Seq::new(9, |r: int| g[r][col])
}

/// The nine cells of the 3x3 box at `box_row`, `box_col` (each in `0..3`),
/// row by row.
pub open spec fn box_cells(g: Grid, box_row: int, box_col: int) -> Seq<SudokuCell> {
    Seq::new(9, |k: int| g[3 * box_row + k / 3][3 * box_col + k % 3])
}

/// No digit stands in two of these cells.
pub open spec fn distinct_digits(cells: Seq<SudokuCell>) -> bool {
    forall|i: int, j: int|
        0 <= i < j < cells.len() && cells[i] is Filled ==> cells[i] != cells[j]
}

/// No row holds a digit twice.
pub open spec fn rows_valid(g: Grid) -> bool {
    forall|r: int| 0 <= r < 9 ==> distinct_digits(#[trigger] row_cells(g, r))
}

/// No column holds a digit twice.
pub open spec fn cols_valid(g: Grid) -> bool {
    forall|c: int| 0 <= c < 9 ==> distinct_digits(#[trigger] col_cells(g, c))
}

/// No 3x3 box holds a digit twice.
pub open spec fn boxes_valid(g: Grid) -> bool {
    forall|br: int, bc: int|
        0 <= br < 3 && 0 <= bc < 3 ==> distinct_digits(#[trigger] box_cells(g, br, bc))
}

/// The board breaks no rule: every row, column and box holds each digit at
/// most once. Empty cells are ignored.
pub open spec fn valid_grid(g: Grid) -> bool {
    rows_valid(g) && cols_valid(g) && boxes_valid(g)
}

/// No cell is empty.
pub open spec fn complete_grid(g: Grid) -> bool {
    forall|r: int, c: int| in_board(r, c) ==> #[trigger] g[r][c] is Filled
}

/// `s` keeps every digit that `g` holds.
pub open spec fn extends_grid(s: Grid, g: Grid) -> bool {
    forall|r: int, c: int| in_board(r, c) && g[r][c] is Filled ==> #[trigger] s[r][c] == g[r][c]
}

/// The digits that stand in these cells, in the order of the cells.
pub open spec fn filled_digits(cells: Seq<SudokuCell>) -> Seq<u8>
    decreases cells.len(),
{
    if cells.len() == 0 {
        Seq::empty()
    } else {
        let before = filled_digits(cells.drop_last());
        match cells.last() {
            SudokuCell::Filled(d) => before.push(d),
            SudokuCell::Empty => before,
        }
    }
}

/// The digits of the first `k + 1` cells are those of the first `k`, then
/// the digit of the cell after them, if it has one.
pub proof fn lemma_filled_digits_take(cells: Seq<SudokuCell>, k: int)
    requires
        0 <= k < cells.len(),
    ensures
        filled_digits(cells.take(k + 1)) == match cells[k] {
            SudokuCell::Filled(d) => filled_digits(cells.take(k)).push(d),
            SudokuCell::Empty => filled_digits(cells.take(k)),
        },
{
    assert(cells.take(k + 1).drop_last() == cells.take(k));
}

/// The digits of some cells are exactly the digits that stand in them.
pub proof fn lemma_filled_digits_contains(cells: Seq<SudokuCell>, d: u8)
    ensures
        filled_digits(cells).contains(d) <==> digit_in(cells, d),
    decreases cells.len(),
{
    let digits = filled_digits(cells);
    if cells.len() > 0 {
        let front = cells.drop_last();
        let before = filled_digits(front);
        let n = cells.len() - 1;
        lemma_filled_digits_contains(front, d);
        if digit_in(front, d) {
            let w = choose|w: int|
                0 <= w < front.len() && #[trigger] front[w] == SudokuCell::Filled(d);
            assert(cells[w] == SudokuCell::Filled(d));
            let i = choose|i: int| 0 <= i < before.len() && before[i] == d;
            assert(digits[i] == d);
        }
        if cells.last() == SudokuCell::Filled(d) {
            assert(cells[n] == SudokuCell::Filled(d));
            assert(digits[digits.len() - 1] == d);
        }
        if digits.contains(d) {
            let i = choose|i: int| 0 <= i < digits.len() && digits[i] == d;
            if i < before.len() {
                assert(before[i] == d);
                assert(before.contains(d));
            }
        }
        if digit_in(cells, d) {
            let w = choose|w: int|
                0 <= w < cells.len() && #[trigger] cells[w] == SudokuCell::Filled(d);
            if w < n {
                assert(front[w] == SudokuCell::Filled(d));
            }
        }
    }
}

/// The digits of some cells are legal where the cells are, and come
/// without a repeat exactly when no digit stands in two of the cells.
pub proof fn lemma_filled_digits(cells: Seq<SudokuCell>)
    ensures
        filled_digits(cells).no_duplicates() <==> distinct_digits(cells),
        (forall|k: int| 0 <= k < cells.len() ==> legal_cell(#[trigger] cells[k])) ==> forall|
            n: int,
        | 0 <= n < filled_digits(cells).len() ==> 1 <= #[trigger] filled_digits(cells)[n] <= 9,
    decreases cells.len(),
{
    let digits = filled_digits(cells);
    if cells.len() > 0 {
        let front = cells.drop_last();
        let before = filled_digits(front);
        lemma_filled_digits(front);
        let n = cells.len() - 1;
        if distinct_digits(cells) {
            assert(distinct_digits(front)) by {
                assert forall|i: int, j: int|
                    0 <= i < j < front.len() && front[i] is Filled implies front[i]
                    != front[j] by {
                    assert(cells[i] != cells[j]);
                }
            }
            if let SudokuCell::Filled(d) = cells.last() {
                lemma_filled_digits_contains(front, d);
                if digit_in(front, d) {
                    let w = choose|w: int|
                        0 <= w < front.len() && #[trigger] front[w] == SudokuCell::Filled(d);
                    assert(cells[w] == SudokuCell::Filled(d));
                    assert(cells[w] != cells[n]);
                }
                assert(!before.contains(d));
                assert(digits == before.push(d));
                assert(digits.no_duplicates()) by {
                    assert forall|a: int, b: int|
                        0 <= a < digits.len() && 0 <= b < digits.len() && a != b implies digits[a]
                        != digits[b] by {
                        if a < before.len() && b < before.len() {
                            assert(before[a] != before[b]);
                        } else if a < before.len() {
                            assert(before[a] == digits[a]);
                            assert(before.contains(digits[a]));
                        } else if b < before.len() {
                            assert(before[b] == digits[b]);
                            assert(before.contains(digits[b]));
                        }
                    }
                }
            }
        }
        if digits.no_duplicates() {
            assert(before.no_duplicates()) by {
                assert forall|a: int, b: int|
                    0 <= a < before.len() && 0 <= b < before.len() && a != b implies before[a]
                    != before[b] by {
                    assert(digits[a] != digits[b]);
                }
            }
            assert(distinct_digits(cells)) by {
                assert forall|i: int, j: int|
                    0 <= i < j < cells.len() && cells[i] is Filled implies cells[i]
                    != cells[j] by {
                    if j < n {
                        assert(front[i] != front[j]);
                    } else if let SudokuCell::Filled(d) = cells[i] {
                        if cells[j] == cells[i] {
                            assert(front[i] == SudokuCell::Filled(d));
                            assert(digit_in(front, d));
                            lemma_filled_digits_contains(front, d);
                            let a = choose|a: int| 0 <= a < before.len() && before[a] == d;
                            assert(digits[a] == d);
                            assert(digits[digits.len() - 1] == d);
                        }
                    }
                }
            }
        }
        if forall|k: int| 0 <= k < cells.len() ==> legal_cell(#[trigger] cells[k]) {
            assert forall|k: int| 0 <= k < front.len() implies legal_cell(#[trigger] front[k]) by {
                assert(legal_cell(cells[k]));
            }
            assert(legal_cell(cells[n]));
        }
    }
}

/// The digit `d` stands in one of these cells.
pub open spec fn digit_in(cells: Seq<SudokuCell>, d: u8) -> bool {
    exists|k: int| 0 <= k < cells.len() && #[trigger] cells[k] == SudokuCell::Filled(d)
}

/// The digit `d` already stands in the row, the column or the box of the
/// cell at `row`, `col`.
pub open spec fn digit_seen(g: Grid, row: int, col: int, d: u8) -> bool {
    ||| digit_in(row_cells(g, row), d)
    ||| digit_in(col_cells(g, col), d)
    ||| digit_in(box_cells(g, row / 3, col / 3), d)
}

/// The digits from 1 to `n` that the cell at `row`, `col` may still take,
/// in rising order.
pub open spec fn free_digits_upto(g: Grid, row: int, col: int, n: nat) -> Seq<u8>
    decreases n,
{
    if n == 0 {
        Seq::empty()
    } else {
        let lower = free_digits_upto(g, row, col, (n - 1) as nat);
        if digit_seen(g, row, col, n as u8) {
            lower
        } else {
            lower.push(n as u8)
        }
    }
}

/// The candidate pool of the cell at `row`, `col`: every digit from 1 to 9
/// that stands nowhere in its row, column or box, in rising order.
pub open spec fn candidate_digits(g: Grid, row: int, col: int) -> Seq<u8> {
    free_digits_upto(g, row, col, 9)
}

/// No two cells that share a row, a column or a box hold the same digit.
pub open spec fn no_conflicts(g: Grid) -> bool {
    forall|r1: int, c1: int, r2: int, c2: int|
        #![trigger g[r1][c1], g[r2][c2]]
        in_board(r1, c1) && in_board(r2, c2) && (r1 != r2 || c1 != c2) && same_unit(
            r1,
            c1,
            r2,
            c2,
        ) && g[r1][c1] is Filled ==> g[r1][c1] != g[r2][c2]
}

/// Some cell that shares a row, a column or a box with the cell at `row`,
/// `col` holds the digit `d`.
pub open spec fn digit_near(g: Grid, row: int, col: int, d: u8) -> bool {
    exists|r: int, c: int|
        in_board(r, c) && same_unit(row, col, r, c) && #[trigger] g[r][c] == SudokuCell::Filled(d)
}

/// The place of the cell at `row`, `col` among the nine cells of its box.
pub open spec fn place_in_box(row: int, col: int) -> int {
    3 * (row % 3) + col % 3
}

/// In a board whose rows break no rule, two cells of one row differ when
/// one of them holds a digit.
proof fn lemma_row_pair(g: Grid, r: int, c1: int, c2: int)
    requires
        board_shaped(g),
        rows_valid(g),
        in_board(r, c1),
        in_board(r, c2),
        c1 != c2,
        g[r][c1] is Filled,
    ensures
        g[r][c1] != g[r][c2],
{
    let cells = row_cells(g, r);
    assert(distinct_digits(cells));
    if c1 < c2 {
        assert(cells[c1] != cells[c2]);
    } else if cells[c2] is Filled {
        assert(cells[c2] != cells[c1]);
    }
}

/// In a board whose columns break no rule, two cells of one column differ
/// when one of them holds a digit.
proof fn lemma_col_pair(g: Grid, c: int, r1: int, r2: int)
    requires
        board_shaped(g),
        cols_valid(g),
        in_board(r1, c),
        in_board(r2, c),
        r1 != r2,
        g[r1][c] is Filled,
    ensures
        g[r1][c] != g[r2][c],
{
    let cells = col_cells(g, c);
    assert(distinct_digits(cells));
    assert(cells[r1] == g[r1][c]);
    assert(cells[r2] == g[r2][c]);
    if r1 < r2 {
        assert(cells[r1] != cells[r2]);
    } else if cells[r2] is Filled {
        assert(cells[r2] != cells[r1]);
    }
}

/// The cell at `row`, `col` is the cell at its place in its box.
proof fn lemma_place_in_box(g: Grid, row: int, col: int)
    requires
        in_board(row, col),
    ensures
        0 <= place_in_box(row, col) < 9,
        box_cells(g, row / 3, col / 3)[place_in_box(row, col)] == g[row][col],
        0 <= row / 3 < 3,
        0 <= col / 3 < 3,
{
    let k = place_in_box(row, col);
    assert(k / 3 == row % 3);
    assert(k % 3 == col % 3);
    assert(3 * (row / 3) + k / 3 == row);
    assert(3 * (col / 3) + k % 3 == col);
}

/// In a board whose boxes break no rule, two cells of one box differ when
/// one of them holds a digit.
proof fn lemma_box_pair(g: Grid, r1: int, c1: int, r2: int, c2: int)
    requires
        board_shaped(g),
        boxes_valid(g),
        in_board(r1, c1),
        in_board(r2, c2),
        r1 != r2 || c1 != c2,
        r1 / 3 == r2 / 3,
        c1 / 3 == c2 / 3,
        g[r1][c1] is Filled,
    ensures
        g[r1][c1] != g[r2][c2],
{
    let cells = box_cells(g, r1 / 3, c1 / 3);
    lemma_place_in_box(g, r1, c1);
    lemma_place_in_box(g, r2, c2);
    assert(distinct_digits(cells));
    let k1 = place_in_box(r1, c1);
    let k2 = place_in_box(r2, c2);
    assert(k1 != k2);
    if k1 < k2 {
        assert(cells[k1] != cells[k2]);
    } else if cells[k2] is Filled {
        assert(cells[k2] != cells[k1]);
    }
}

/// A board in which no two cells of one unit hold the same digit breaks no
/// rule.
proof fn lemma_no_conflicts_valid(g: Grid)
    requires
        board_shaped(g),
        no_conflicts(g),
    ensures
        valid_grid(g),
{
    assert forall|r: int| 0 <= r < 9 implies distinct_digits(#[trigger] row_cells(g, r)) by {
        let cells = row_cells(g, r);
        assert forall|i: int, j: int|
            0 <= i < j < cells.len() && cells[i] is Filled implies cells[i] != cells[j] by {
            assert(in_board(r, i) && in_board(r, j) && same_unit(r, i, r, j));
            assert(g[r][i] != g[r][j]);
        }
    }
    assert forall|c: int| 0 <= c < 9 implies distinct_digits(#[trigger] col_cells(g, c)) by {
        let cells = col_cells(g, c);
        assert forall|i: int, j: int|
            0 <= i < j < cells.len() && cells[i] is Filled implies cells[i] != cells[j] by {
            assert(in_board(i, c) && in_board(j, c) && same_unit(i, c, j, c));
            assert(g[i][c] != g[j][c]);
        }
    }
    assert forall|br: int, bc: int| 0 <= br < 3 && 0 <= bc < 3 implies distinct_digits(
        #[trigger] box_cells(g, br, bc),
    ) by {
        let cells = box_cells(g, br, bc);
        assert forall|i: int, j: int|
            0 <= i < j < cells.len() && cells[i] is Filled implies cells[i] != cells[j] by {
            let r1 = 3 * br + i / 3;
            let c1 = 3 * bc + i % 3;
            let r2 = 3 * br + j / 3;
            let c2 = 3 * bc + j % 3;
            assert(in_board(r1, c1) && in_board(r2, c2));
            assert(r1 / 3 == br && r2 / 3 == br && c1 / 3 == bc && c2 / 3 == bc);
            assert(r1 != r2 || c1 != c2);
            assert(same_unit(r1, c1, r2, c2));
            assert(g[r1][c1] != g[r2][c2]);
        }
    }
}

/// A board breaks no rule exactly when no two cells of one unit hold the
/// same digit.
pub proof fn lemma_valid_grid_pairwise(g: Grid)
    requires
        board_shaped(g),
    ensures
        valid_grid(g) <==> no_conflicts(g),
{
    if valid_grid(g) {
        assert forall|r1: int, c1: int, r2: int, c2: int|
            #![trigger g[r1][c1], g[r2][c2]]
            in_board(r1, c1) && in_board(r2, c2) && (r1 != r2 || c1 != c2) && same_unit(
                r1,
                c1,
                r2,
                c2,
            ) && g[r1][c1] is Filled implies g[r1][c1] != g[r2][c2] by {
            if r1 == r2 {
                lemma_row_pair(g, r1, c1, c2);
            } else if c1 == c2 {
                lemma_col_pair(g, c1, r1, r2);
            } else {
                lemma_box_pair(g, r1, c1, r2, c2);
            }
        }
    }
    if no_conflicts(g) {
        lemma_no_conflicts_valid(g);
    }
}

/// A digit stands in the row, the column or the box of a cell exactly when
/// a cell of one of these units holds it.
pub proof fn lemma_digit_seen_near(g: Grid, row: int, col: int, d: u8)
    requires
        board_shaped(g),
        in_board(row, col),
    ensures
        digit_seen(g, row, col, d) <==> digit_near(g, row, col, d),
{
    let in_row = row_cells(g, row);
    let in_col = col_cells(g, col);
    let in_box = box_cells(g, row / 3, col / 3);
    if digit_in(in_row, d) {
        let k = choose|k: int|
            0 <= k < in_row.len() && #[trigger] in_row[k] == SudokuCell::Filled(d);
        assert(in_board(row, k) && same_unit(row, col, row, k));
        assert(g[row][k] == SudokuCell::Filled(d));
    }
    if digit_in(in_col, d) {
        let k = choose|k: int|
            0 <= k < in_col.len() && #[trigger] in_col[k] == SudokuCell::Filled(d);
        assert(in_board(k, col) && same_unit(row, col, k, col));
        assert(g[k][col] == SudokuCell::Filled(d));
    }
    if digit_in(in_box, d) {
        let k = choose|k: int|
            0 <= k < in_box.len() && #[trigger] in_box[k] == SudokuCell::Filled(d);
        let r = 3 * (row / 3) + k / 3;
        let c = 3 * (col / 3) + k % 3;
        assert(in_board(r, c) && same_unit(row, col, r, c));
        assert(g[r][c] == SudokuCell::Filled(d));
    }
    if digit_near(g, row, col, d) {
        let (r, c) = choose|r: int, c: int|
            in_board(r, c) && same_unit(row, col, r, c) && #[trigger] g[r][c] == SudokuCell::Filled(
                d,
            );
        if r == row {
            assert(in_row[c] == SudokuCell::Filled(d));
        } else if c == col {
            assert(in_col[r] == SudokuCell::Filled(d));
        } else {
            assert(in_box[place_in_box(r, c)] == SudokuCell::Filled(d));
        }
    }
}

/// A digit is among the candidates up to `n` exactly when it lies between
/// 1 and `n` and stands nowhere in the units of the cell.
pub proof fn lemma_free_digits_contains(g: Grid, row: int, col: int, n: nat, d: u8)
    requires
        n <= 9,
    ensures
        free_digits_upto(g, row, col, n).contains(d) <==> 1 <= d <= n && !digit_seen(
            g,
            row,
            col,
            d,
        ),
    decreases n,
{
    let pool = free_digits_upto(g, row, col, n);
    if n > 0 {
        let lower = free_digits_upto(g, row, col, (n - 1) as nat);
        lemma_free_digits_contains(g, row, col, (n - 1) as nat, d);
        let top = n as u8;
        if lower.contains(d) {
            let i = choose|i: int| 0 <= i < lower.len() && lower[i] == d;
            assert(pool[i] == d);
        }
        if d == top && !digit_seen(g, row, col, top) {
            assert(pool == lower.push(top));
            assert(pool[pool.len() - 1] == d);
        }
        if pool.contains(d) {
            let i = choose|i: int| 0 <= i < pool.len() && pool[i] == d;
            if i < lower.len() {
                assert(lower[i] == d);
                assert(lower.contains(d));
            }
        }
    }
}

/// The candidates up to `n` are at most `n` digits between 1 and `n`, and
/// they rise.
pub proof fn lemma_free_digits_rise(g: Grid, row: int, col: int, n: nat)
    requires
        n <= 9,
    ensures
        free_digits_upto(g, row, col, n).len() <= n,
        forall|k: int|
            0 <= k < free_digits_upto(g, row, col, n).len() ==> 1 <= #[trigger] free_digits_upto(
                g,
                row,
                col,
                n,
            )[k] <= n,
        forall|i: int, j: int|
            0 <= i < j < free_digits_upto(g, row, col, n).len() ==> free_digits_upto(
                g,
                row,
                col,
                n,
            )[i] < free_digits_upto(g, row, col, n)[j],
    decreases n,
{
    if n > 0 {
        lemma_free_digits_rise(g, row, col, (n - 1) as nat);
        let pool = free_digits_upto(g, row, col, n);
        let lower = free_digits_upto(g, row, col, (n - 1) as nat);
        assert forall|i: int, j: int| 0 <= i < j < pool.len() implies pool[i] < pool[j] by {
            assert(1 <= lower[i] <= n - 1);
            if j < lower.len() {
                assert(lower[i] < lower[j]);
            }
        }
    }
}

/// The candidates up to `n`, when there are any, end with a digit `d`
/// between 1 and `n`, and the candidates before it are the candidates up to
/// `d - 1`.
pub proof fn lemma_free_digits_pop(g: Grid, row: int, col: int, n: nat)
    requires
        n <= 9,
        free_digits_upto(g, row, col, n).len() > 0,
    ensures
        1 <= free_digits_upto(g, row, col, n).last() <= n,
        free_digits_upto(g, row, col, n).drop_last() == free_digits_upto(
            g,
            row,
            col,
            (free_digits_upto(g, row, col, n).last() - 1) as nat,
        ),
    decreases n,
{
    if n > 0 {
        let lower = free_digits_upto(g, row, col, (n - 1) as nat);
        if digit_seen(g, row, col, n as u8) {
            lemma_free_digits_pop(g, row, col, (n - 1) as nat);
        } else {
            assert(free_digits_upto(g, row, col, n) == lower.push(n as u8));
            assert(lower.push(n as u8).drop_last() =~= lower);
        }
    }
}

} // verus!