//! What the search yields: the completions of a board, in the order in which
//! backtracking over the empty cells finds them.

use vstd::prelude::*;

use crate::sudoku::rules::{
    board_shaped, candidate_digits, free_digits_upto, in_board, Grid,
};
use crate::sudoku::SudokuCell;

verus! {

/// The cell of rank `k` in row-major order.
pub open spec fn cell_at(g: Grid, k: int) -> SudokuCell {
    g[k / 9][k % 9]
}

/// The board with the cell of rank `k` replaced.
pub open spec fn with_cell(g: Grid, k: int, cell: SudokuCell) -> Grid {
    g.update(k / 9, g[k / 9].update(k % 9, cell))
}

/// What replacing one cell does to a board.
pub proof fn lemma_with_cell(g: Grid, p: int, x: SudokuCell)
    requires
        board_shaped(g),
        0 <= p < 81,
    ensures
        board_shaped(with_cell(g, p, x)),
        forall|r: int, c: int|
            in_board(r, c) ==> #[trigger] with_cell(g, p, x)[r][c] == if 9 * r + c == p {
                x
            } else {
                g[r][c]
            },
        forall|k: int|
            0 <= k < 81 ==> #[trigger] cell_at(with_cell(g, p, x), k) == if k == p {
                x
            } else {
                cell_at(g, k)
            },
{
    let h = with_cell(g, p, x);
    assert forall|r: int, c: int| in_board(r, c) implies #[trigger] h[r][c] == if 9 * r + c == p {
        x
    } else {
        g[r][c]
    } by {
        if r == p / 9 {
        }
    }
    assert forall|k: int| 0 <= k < 81 implies #[trigger] cell_at(h, k) == if k == p {
        x
    } else {
        cell_at(g, k)
    } by {
        assert(in_board(k / 9, k % 9));
        assert(9 * (k / 9) + k % 9 == k);
    }
}

/// The rank of the first empty cell at or after rank `k`, or 81 when none
/// is left.
pub open spec fn first_empty_from(g: Grid, k: int) -> int
    decreases 81 - k,
{
    if k >= 81 {
        81
    } else if cell_at(g, k) is Empty {
        k
    } else {
        first_empty_from(g, k + 1)
    }
}

/// What `first_empty_from` finds: a rank at or after `k`, with only filled
/// cells between `k` and it, that is 81 or the rank of an empty cell.
pub proof fn lemma_first_empty_from(g: Grid, k: int)
    requires
        0 <= k <= 81,
    ensures
        k <= first_empty_from(g, k) <= 81,
        first_empty_from(g, k) < 81 ==> cell_at(g, first_empty_from(g, k)) is Empty,
        forall|j: int| k <= j < first_empty_from(g, k) ==> #[trigger] cell_at(g, j) is Filled,
    decreases 81 - k,
{
    if k < 81 && !(cell_at(g, k) is Empty) {
        lemma_first_empty_from(g, k + 1);
    }
}

/// The completions found from `g` when every cell before rank `k` is
/// settled: the board itself when no empty cell is left, else what the
/// first empty cell's candidates lead to.
pub open spec fn solutions_from(g: Grid, k: int) -> Seq<Grid>
    decreases 81 - k, 1int, 0nat,
{
    let p = first_empty_from(g, k);
    if 0 <= k <= p < 81 {
        explore(g, p, candidate_digits(g, p / 9, p % 9))
    } else {
        seq![g]
    }
}

/// The completions found by trying the digits of `pool` at the cell of rank
/// `p`, the last digit first.
pub open spec fn explore(g: Grid, p: int, pool: Seq<u8>) -> Seq<Grid>
    decreases 81 - p, 0int, pool.len(),
{
    if pool.len() == 0 || !(0 <= p < 81) {
        Seq::empty()
    } else {
        solutions_from(with_cell(g, p, SudokuCell::Filled(pool.last())), p + 1) + explore(
            g,
            p,
            pool.drop_last(),
        )
    }
}

/// The solutions of `g`: every completion that the search yields, in the
/// order in which it yields them. For a well-formed board that breaks no
/// rule these are the boards that complete it within the rules, each of
/// them once, the one with the larger digit in the first cell that tells two
/// of them apart first; the laws of this crate say so.
pub open spec fn all_solutions(g: Grid) -> Seq<Grid> {
    solutions_from(g, 0)
}

/// The rank of the empty cell number `i` of a board, counted from 0 in
/// row-major order, or 81 when the board has no such cell.
pub open spec fn nth_empty(g: Grid, i: int) -> int
    decreases i,
{
    if i <= 0 {
        first_empty_from(g, 0)
    } else {
        first_empty_from(g, nth_empty(g, i - 1) + 1)
    }
}

/// The board as the search finds it when it comes to the cell of rank `p`:
/// the cells of `board` before that rank, the cells of `puzzle` from there
/// on.
pub open spec fn board_before(puzzle: Grid, board: Grid, p: int) -> Grid {
    Seq::new(
        9,
        |r: int|
            Seq::new(
                9,
                |c: int|
                    if 9 * r + c < p {
                        board[r][c]
                    } else {
                        puzzle[r][c]
                    },
            ),
    )
}

/// The largest digit that is still to be tried at a cell: 9 while the cell
/// is empty, and one less than its digit once it holds one.
pub open spec fn untried_upto(cell: SudokuCell) -> nat {
    match cell {
        SudokuCell::Empty => 9,
        SudokuCell::Filled(d) => if d >= 1 {
            (d - 1) as nat
        } else {
            0
        },
    }
}

/// The level of the search at the cell of rank `p`, when the search over
/// `puzzle` has come to `board`: the rank, and the candidates of the cell
/// that are still to be tried, in rising order.
pub open spec fn level_at(puzzle: Grid, board: Grid, p: int) -> (int, Seq<u8>) {
    (
        p,
        free_digits_upto(
            board_before(puzzle, board, p),
            p / 9,
            p % 9,
            untried_upto(cell_at(board, p)),
        ),
    )
}

/// The `n` levels of the search over `puzzle` that has come to `board`:
/// one for each of the first `n` empty cells of the puzzle.
pub open spec fn levels_on(puzzle: Grid, board: Grid, n: nat) -> Seq<(int, Seq<u8>)> {
    Seq::new(n, |i: int| level_at(puzzle, board, nth_empty(puzzle, i)))
}

/// The empty cells of a board by number: each number gives a rank up to
/// 81; a rank below 81 is that of an empty cell; and every cell between
/// the empty cell before it, or the start of the board, and it holds a
/// digit.
pub proof fn lemma_nth_empty(g: Grid, i: int)
    requires
        0 <= i,
    ensures
        0 <= nth_empty(g, i) <= 81,
        nth_empty(g, i) < 81 ==> cell_at(g, nth_empty(g, i)) is Empty,
        i > 0 && nth_empty(g, i) < 81 ==> nth_empty(g, i - 1) < nth_empty(g, i),
        forall|k: int|
            (if i > 0 {
                nth_empty(g, i - 1)
            } else {
                -1
            }) < k < nth_empty(g, i) ==> #[trigger] cell_at(g, k) is Filled,
    decreases i,
{
    if i > 0 {
        lemma_nth_empty(g, i - 1);
        if nth_empty(g, i - 1) < 81 {
            lemma_first_empty_from(g, nth_empty(g, i - 1) + 1);
        }
    } else {
        lemma_first_empty_from(g, 0);
    }
}

/// Two boards that hold the same cells from rank `k` on have their first
/// empty cell from rank `k` on at the same rank.
pub proof fn lemma_first_empty_agrees(g: Grid, h: Grid, k: int)
    requires
        0 <= k <= 81,
        forall|j: int| k <= j < 81 ==> #[trigger] cell_at(g, j) == cell_at(h, j),
    ensures
        first_empty_from(g, k) == first_empty_from(h, k),
    decreases 81 - k,
{
    if k < 81 {
        assert(cell_at(g, k) == cell_at(h, k));
        if !(cell_at(g, k) is Empty) {
            lemma_first_empty_agrees(g, h, k + 1);
        }
    }
}

/// Two boards that hold the same cells before rank `p` are the same board
/// when the search comes to that rank.
pub proof fn lemma_board_before_keeps(puzzle: Grid, g: Grid, h: Grid, p: int)
    requires
        forall|j: int| 0 <= j < p && j < 81 ==> #[trigger] cell_at(g, j) == cell_at(h, j),
    ensures
        board_before(puzzle, g, p) == board_before(puzzle, h, p),
{
    let a = board_before(puzzle, g, p);
    let b = board_before(puzzle, h, p);
    assert forall|r: int| 0 <= r < 9 implies #[trigger] a[r] == b[r] by {
        assert forall|c: int| 0 <= c < 9 implies #[trigger] a[r][c] == b[r][c] by {
            if 9 * r + c < p {
                assert(cell_at(g, 9 * r + c) == cell_at(h, 9 * r + c));
            }
        }
        assert(a[r] =~= b[r]);
    }
    assert(a =~= b);
}

/// A board that holds the cells of the puzzle from rank `p` on is the board
/// that the search finds when it comes to that rank.
pub proof fn lemma_board_before_self(puzzle: Grid, g: Grid, p: int)
    requires
        board_shaped(g),
        forall|j: int| 0 <= j < 81 && p <= j ==> #[trigger] cell_at(g, j) == cell_at(puzzle, j),
    ensures
        board_before(puzzle, g, p) == g,
{
    let a = board_before(puzzle, g, p);
    assert forall|r: int| 0 <= r < 9 implies #[trigger] a[r] == g[r] by {
        assert forall|c: int| 0 <= c < 9 implies #[trigger] a[r][c] == g[r][c] by {
            if 9 * r + c >= p {
                assert(cell_at(g, 9 * r + c) == cell_at(puzzle, 9 * r + c));
            }
        }
        assert(a[r] =~= g[r]);
    }
    assert(a =~= g);
}

/// Two boards of nine rows of nine cells that hold the same cells are one
/// board.
pub proof fn lemma_same_cells(g: Grid, h: Grid)
    requires
        board_shaped(g),
        board_shaped(h),
        forall|j: int| 0 <= j < 81 ==> #[trigger] cell_at(g, j) == cell_at(h, j),
    ensures
        g == h,
{
    assert forall|r: int| 0 <= r < 9 implies #[trigger] g[r] == h[r] by {
        assert forall|c: int| 0 <= c < 9 implies #[trigger] g[r][c] == h[r][c] by {
            assert(cell_at(g, 9 * r + c) == cell_at(h, 9 * r + c));
        }
        assert(g[r] =~= h[r]);
    }
    assert(g =~= h);
}

} // verus!
