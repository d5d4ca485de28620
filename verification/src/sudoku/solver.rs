//! The solver: backtracking over the empty cells with a stack of its own,
//! one completion per request.

use vstd::prelude::*;

use crate::sudoku::laws::lemma_solutions_complete_the_puzzle;
use crate::sudoku::rules::{
    box_cells, candidate_digits, col_cells, complete_grid, digit_in, digit_seen, extends_grid,
    free_digits_upto, legal_cell, lemma_free_digits_pop, lemma_free_digits_rise, row_cells,
    valid_grid, well_formed_grid, Grid,
};
use crate::sudoku::search::{
    all_solutions, board_before, cell_at, explore, first_empty_from, lemma_board_before_keeps,
    lemma_board_before_self, lemma_first_empty_agrees, lemma_first_empty_from, lemma_nth_empty,
    lemma_same_cells, lemma_with_cell, level_at, levels_on, nth_empty, solutions_from,
    untried_upto, with_cell,
};
use crate::sudoku::{rows_of, CellLocation, SudokuCell, SudokuTable};

verus! {

/// One level of the search: the cell being tried and the digits not yet
/// tried there. Digits leave the pool from its end.
struct RecursionState {
    attempted_cell: CellLocation,
    possible_values: Vec<u8>,
}

/// A search in progress over a board of its own. Each call of `next` hands
/// out the next completion of the board that the solver was made from.
pub struct SudokuSolver {
    table: SudokuTable,
    recursion_stack: Vec<RecursionState>,
    /// The board came without an empty cell and has not been handed out yet.
    complete_input_pending: bool,
    /// The board that the solver was made from.
    puzzle: Ghost<Grid>,
}

/// `rest` is what is left of `all` once some of its first items are gone.
spec fn is_rest_of(rest: Seq<Grid>, all: Seq<Grid>) -> bool {
    rest.len() <= all.len() && rest == all.skip(all.len() - rest.len())
}

/// At most nine digits, each between 1 and 9, in rising order: no digit is
/// tried twice.
spec fn pool_ok(pool: Seq<u8>) -> bool {
    &&& pool.len() <= 9
    &&& forall|k: int| 0 <= k < pool.len() ==> 1 <= #[trigger] pool[k] <= 9
    &&& forall|m: int, n: int| 0 <= m < n < pool.len() ==> pool[m] < pool[n]
}

impl RecursionState {
    /// The cell lies on the board and the pool is in order.
    spec fn well_formed(self) -> bool {
        self.attempted_cell.in_board() && pool_ok(self.possible_values@)
    }

    /// The rank of the cell in row-major order.
    spec fn position(self) -> int {
        self.attempted_cell.position()
    }
}

/// The rank of the cell of the top level, or -1 when there is no level.
spec fn top_rank(frames: Seq<RecursionState>) -> int {
    if frames.len() == 0 {
        -1
    } else {
        frames.last().position()
    }
}

/// The board holds the cells of the puzzle after rank `top` and wherever
/// the puzzle holds a digit.
spec fn agrees_off_levels(puzzle: Grid, g: Grid, top: int) -> bool {
    forall|k: int|
        0 <= k < 81 && (k > top || cell_at(puzzle, k) is Filled) ==> #[trigger] cell_at(g, k)
            == cell_at(puzzle, k)
}

/// Every level is well formed, the levels go down the board (each tries a
/// cell after the cell of the level below it), and the cell of every level
/// below the top one holds a digit. The levels stand on the first empty
/// cells of the puzzle, one each; the pool of each holds the candidates of
/// its cell that are still to be tried; and the board is the puzzle but for
/// the cells of the levels.
spec fn stack_ok(puzzle: Grid, g: Grid, frames: Seq<RecursionState>) -> bool {
    &&& forall|i: int| 0 <= i < frames.len() ==> (#[trigger] frames[i]).well_formed()
    &&& forall|i: int| 0 <= i < frames.len() ==> i <= (#[trigger] frames[i]).position()
    &&& forall|i: int, j: int|
        0 <= i < j < frames.len() ==> (#[trigger] frames[i]).position() < (
        #[trigger] frames[j]).position()
    &&& forall|i: int|
        0 <= i < frames.len() - 1 ==> cell_at(g, (#[trigger] frames[i]).position()) is Filled
    &&& forall|i: int|
        0 <= i < frames.len() ==> (#[trigger] frames[i]).position() == nth_empty(puzzle, i)
    &&& forall|i: int|
        0 <= i < frames.len() ==> (#[trigger] frames[i]).possible_values@ == level_at(
            puzzle,
            g,
            frames[i].position(),
        ).1
    &&& agrees_off_levels(puzzle, g, top_rank(frames))
}

/// The completions that a stack still leads to, in the order of their
/// discovery: what the pool of the top level yields once its cell is
/// cleared, then what the levels below yield.
spec fn pending(g: Grid, frames: Seq<RecursionState>) -> Seq<Grid>
    decreases frames.len(),
{
    if frames.len() == 0 {
        Seq::empty()
    } else {
        let top = frames.last();
        let base = with_cell(g, top.position(), SudokuCell::Empty);
        explore(base, top.position(), top.possible_values@) + pending(base, frames.drop_last())
    }
}

/// The weight of one untried digit, `levels` levels above the deepest one.
spec fn weight(levels: nat) -> nat
    decreases levels,
{
    if levels == 0 {
        1
    } else {
        11 * weight((levels - 1) as nat)
    }
}

/// A bound on the steps that a stack can still take before it is empty.
spec fn work_left(frames: Seq<RecursionState>) -> nat
    decreases frames.len(),
{
    if frames.len() == 0 {
        0
    } else {
        work_left(frames.drop_last()) + 1 + frames.last().possible_values@.len() * weight(
            (81 - frames.len()) as nat,
        )
    }
}

/// Replacing a cell twice is replacing it with the second value.
proof fn lemma_with_cell_twice(g: Grid, k: int, a: SudokuCell, b: SudokuCell)
    requires
        well_formed_grid(g),
        0 <= k < 81,
    ensures
        with_cell(with_cell(g, k, a), k, b) == with_cell(g, k, b),
{
    assert(with_cell(with_cell(g, k, a), k, b) =~~= with_cell(g, k, b));
}

/// Replacing a cell with what it holds changes nothing.
proof fn lemma_with_cell_same(g: Grid, k: int)
    requires
        well_formed_grid(g),
        0 <= k < 81,
    ensures
        with_cell(g, k, cell_at(g, k)) == g,
{
    assert(with_cell(g, k, cell_at(g, k)) =~~= g);
}

impl SudokuSolver {
    /// The board is well formed, the stack is in order over the puzzle and
    /// the board, and what is yet to be handed out is the rest of the
    /// solutions of the puzzle.
    pub closed spec fn well_formed(&self) -> bool {
        &&& well_formed_grid(self.table@)
        &&& well_formed_grid(self.puzzle@)
        &&& stack_ok(self.puzzle@, self.table@, self.recursion_stack@)
        &&& self.complete_input_pending ==> self.recursion_stack@.len() == 0
            && first_empty_from(self.puzzle@, 0) == 81
        &&& is_rest_of(self.remaining(), all_solutions(self.puzzle@))
    }

    /// The board that this solver works on.
    pub closed spec fn board(&self) -> Grid {
        self.table@
    }

    /// The levels of the search, the deepest one last: for each the rank of
    /// its cell in row-major order and the digits not yet tried there.
    pub closed spec fn levels(&self) -> Seq<(int, Seq<u8>)> {
        Seq::new(
            self.recursion_stack@.len(),
            |i: int|
                (
                    self.recursion_stack@[i].position(),
                    self.recursion_stack@[i].possible_values@,
                ),
        )
    }

    /// The board that this solver was made from.
    pub closed spec fn puzzle(&self) -> Grid {
        self.puzzle@
    }

    /// How many solutions this solver has handed out.
    pub open spec fn handed_out(&self) -> int {
        all_solutions(self.puzzle()).len() - self.remaining().len()
    }

    /// The completions that this solver has yet to hand out, the next one
    /// first.
    pub closed spec fn remaining(&self) -> Seq<Grid> {
        if self.complete_input_pending {
            seq![self.table@]
        } else {
            pending(self.table@, self.recursion_stack@)
        }
    }

    /// A solver for `table`, working on a copy of it. The search starts
    /// without a level when `table` has no empty cell, and else with one
    /// level, for the first empty cell in row-major order with its whole
    /// candidate pool. The solver will hand out every solution of `table`,
    /// in the order of `all_solutions`.
    pub fn new(table: &SudokuTable) -> (solver: SudokuSolver)
        requires
            table.well_formed(),
        ensures
            solver.well_formed(),
            solver.puzzle() == table@,
            solver.board() == table@,
            solver.levels() == if first_empty_from(table@, 0) < 81 {
                seq![
                    (
                        first_empty_from(table@, 0),
                        candidate_digits(
                            table@,
                            first_empty_from(table@, 0) / 9,
                            first_empty_from(table@, 0) % 9,
                        ),
                    ),
                ]
            } else {
                Seq::empty()
            },
            solver.remaining() == all_solutions(table@),
    {
        let mut result = SudokuSolver {
            table: table.clone(),
            recursion_stack: Vec::with_capacity(81),
            complete_input_pending: false,
            puzzle: Ghost(table@),
        };
        assert(all_solutions(table@).skip(0) =~= all_solutions(table@));

        match result.next_empty_cell_starting_from(CellLocation { row: 0, col: 0 }) {
            Some(cell) => {
                let initial_state = RecursionState {
                    attempted_cell: cell,
                    possible_values: result.possible_values(cell),
                };
                proof {
                    lemma_free_digits_rise(table@, cell.row_index(), cell.col_index(), 9);
                    lemma_first_empty_from(table@, 0);
                    lemma_with_cell_same(table@, cell.position());
                }
                result.recursion_stack.push(initial_state);
                proof {
                    let frames = result.recursion_stack@;
                    let p = cell.position();
                    assert(frames.drop_last() =~= Seq::<RecursionState>::empty());
                    assert(pending(table@, frames.drop_last()) =~= Seq::<Grid>::empty());
                    assert(pending(table@, frames) =~= explore(
                        table@,
                        p,
                        initial_state.possible_values@,
                    ));
                    assert(p / 9 == cell.row_index() && p % 9 == cell.col_index());
                    assert(result.levels() =~= seq![(p, initial_state.possible_values@)]);
                    lemma_board_before_self(table@, table@, p);
                    assert(stack_ok(table@, table@, frames));
                }
            },
            None => {
                result.complete_input_pending = true;
                assert(result.levels() =~= Seq::<(int, Seq<u8>)>::empty());
                assert(stack_ok(table@, table@, result.recursion_stack@));
            },
        }

        result
    }

    /// Hands out the next solution of the puzzle, or `None` when none is
    /// left. After `None`, every later call gives `None` again. Every board
    /// handed out is well formed, has no empty cell and keeps the digits of
    /// the puzzle; it breaks no rule when the puzzle breaks none.
    ///
    /// After a solution the solver stands on it: its board is the solution,
    /// and it has a level for every empty cell of the puzzle, each with the
    /// candidates below the digit of the solution in its pool. After `None`
    /// the board is the puzzle again and no level is left.
    pub fn next(&mut self) -> (solution: Option<SudokuTable>)
        requires
            old(self).well_formed(),
        ensures
            final(self).well_formed(),
            final(self).puzzle() == old(self).puzzle(),
            final(self).levels() == levels_on(
                old(self).puzzle(),
                final(self).board(),
                final(self).levels().len(),
            ),
            forall|i: int|
                0 <= i < final(self).levels().len() ==> nth_empty(old(self).puzzle(), i) < 81,
            match solution {
                Some(table) => {
                    &&& old(self).remaining().len() > 0
                    &&& table@ == old(self).remaining().first()
                    &&& table@ == all_solutions(old(self).puzzle())[old(self).handed_out()]
                    &&& final(self).remaining() == old(self).remaining().drop_first()
                    &&& table.well_formed()
                    &&& complete_grid(table@)
                    &&& extends_grid(table@, old(self).puzzle())
                    &&& valid_grid(old(self).puzzle()) ==> valid_grid(table@)
                    &&& final(self).board() == table@
                    &&& nth_empty(old(self).puzzle(), final(self).levels().len() as int) == 81
                },
                None => {
                    &&& old(self).remaining().len() == 0
                    &&& final(self).remaining().len() == 0
                    &&& final(self).levels().len() == 0
                    &&& final(self).board() == old(self).puzzle()
                },
            },
    {
        let ghost all = self.remaining();
        proof {
            if all.len() > 0 {
                let found = all_solutions(self.puzzle@);
                let n = found.len() - all.len();
                assert(all.first() == found[n]);
                assert(all.drop_first() =~= found.skip(n + 1));
                lemma_solutions_complete_the_puzzle(self.puzzle@, n);
            }
        }
        if self.complete_input_pending {
            self.complete_input_pending = false;
            proof {
                assert(all.drop_first() =~= Seq::<Grid>::empty());
                lemma_stack_levels(self.puzzle@, self.table@, self.recursion_stack@);
                assert(self.levels() =~= levels_on(self.puzzle@, self.table@, 0));
            }
            return Some(self.table.clone());
        }
        loop
            invariant
                well_formed_grid(self.table@),
                stack_ok(self.puzzle@, self.table@, self.recursion_stack@),
                !self.complete_input_pending,
                self.puzzle@ == old(self).puzzle@,
                well_formed_grid(self.puzzle@),
                is_rest_of(all, all_solutions(self.puzzle@)),
                all.len() > 0 ==> is_rest_of(all.drop_first(), all_solutions(self.puzzle@)),
                all.len() > 0 ==> {
                    &&& all.first() == all_solutions(self.puzzle@)[all_solutions(
                        self.puzzle@,
                    ).len() - all.len()]
                    &&& complete_grid(all.first())
                    &&& extends_grid(all.first(), self.puzzle@)
                    &&& valid_grid(self.puzzle@) ==> valid_grid(all.first())
                },
                all == old(self).remaining(),
                pending(self.table@, self.recursion_stack@) == all,
            decreases work_left(self.recursion_stack@),
        {
            let n = self.recursion_stack.len();
            if n == 0 {
                proof {
                    lemma_same_cells(self.table@, self.puzzle@);
                    assert(self.levels() =~= levels_on(self.puzzle@, self.table@, 0));
                }
                return None;
            }
            let ghost puzzle = self.puzzle@;
            let ghost g = self.table@;
            let ghost frames = self.recursion_stack@;
            let ghost top = frames.last();
            let ghost p = top.position();
            let ghost base = with_cell(g, p, SudokuCell::Empty);
            assert(top.well_formed());
            let tried = Self::try_next_possible_value(
                &mut self.table,
                &mut self.recursion_stack[n - 1],
            );
            match tried {
                Ok(_) => {
                    let ghost frames1 = self.recursion_stack@;
                    let ghost g1 = self.table@;
                    let ghost d = top.possible_values@.last();
                    let ghost pool1 = top.possible_values@.drop_last();
                    proof {
                        lemma_with_cell_twice(g, p, SudokuCell::Empty, SudokuCell::Filled(d));
                        lemma_with_cell_twice(g, p, SudokuCell::Filled(d), SudokuCell::Empty);
                        lemma_first_empty_from(g1, p + 1);
                        assert(frames1.drop_last() =~= frames.drop_last());
                        assert(frames1.last().possible_values@ == pool1);
                        assert(frames1.last().position() == p);
                        lemma_stack_after_try(puzzle, g, frames, g1, frames1);
                        assert(explore(base, p, top.possible_values@) == solutions_from(g1, p + 1)
                            + explore(base, p, pool1));
                        assert(pending(g1, frames1) == explore(base, p, pool1) + pending(
                            base,
                            frames.drop_last(),
                        ));
                    }
                    let presolved = self.presolve_next_empty_cell(&self.recursion_stack[n - 1]);
                    match presolved {
                        Ok(presolved_state) => {
                            self.recursion_stack.push(presolved_state);
                            proof {
                                let frames2 = self.recursion_stack@;
                                let q = presolved_state.position();
                                assert(q / 9 == presolved_state.attempted_cell.row_index());
                                assert(q % 9 == presolved_state.attempted_cell.col_index());
                                assert(frames2.drop_last() =~= frames1);
                                lemma_with_cell_same(g1, q);
                                assert(solutions_from(g1, p + 1) == explore(
                                    g1,
                                    q,
                                    presolved_state.possible_values@,
                                ));
                                assert(pending(g1, frames2) == explore(
                                    g1,
                                    q,
                                    presolved_state.possible_values@,
                                ) + pending(g1, frames1));
                                assert(pending(g1, frames2) =~= all);
                                lemma_stack_after_push(puzzle, g1, frames1, frames2);
                                lemma_work_left_push(frames, frames1, frames2);
                            }
                        },
                        Err(_) => {
                            proof {
                                assert(solutions_from(g1, p + 1) == seq![g1]);
                                assert(all =~= seq![g1] + pending(g1, frames1));
                                assert(all.drop_first() =~= pending(g1, frames1));
                                lemma_stack_levels(puzzle, g1, frames1);
                                assert(self.levels() =~= levels_on(puzzle, g1, frames1.len()));
                                lemma_first_empty_agrees(g1, puzzle, p + 1);
                            }
                            return Some(self.table.clone());
                        },
                    }
                },
                Err(_) => {
                    assert(self.recursion_stack@ =~= frames);
                    proof {
                        lemma_stack_after_clear(puzzle, g, frames);
                    }
                    Self::clear_last_try(&mut self.recursion_stack, &mut self.table);
                    assert(pending(self.table@, self.recursion_stack@) =~= all);
                },
            }
        }
    }

    /// Hands out every solution that is left, in their order, and leaves
    /// the solver with none. This ends only when the search does: a board
    /// with few digits has more solutions than fit in memory.
    pub fn collect_remaining(&mut self) -> (solutions: Vec<SudokuTable>)
        requires
            old(self).well_formed(),
        ensures
            final(self).well_formed(),
            final(self).puzzle() == old(self).puzzle(),
            final(self).remaining().len() == 0,
            final(self).levels().len() == 0,
            final(self).board() == old(self).puzzle(),
            solutions@.len() == old(self).remaining().len(),
            forall|i: int|
                0 <= i < solutions@.len() ==> (#[trigger] solutions@[i])@ == old(
                    self,
                ).remaining()[i] && solutions@[i].well_formed(),
    {
        let mut found: Vec<SudokuTable> = Vec::new();
        loop
            invariant
                self.well_formed(),
                self.puzzle() == old(self).puzzle(),
                found@.len() <= old(self).remaining().len(),
                self.remaining() == old(self).remaining().skip(found@.len() as int),
                forall|i: int|
                    0 <= i < found@.len() ==> (#[trigger] found@[i])@ == old(self).remaining()[i]
                        && found@[i].well_formed(),
            decreases self.remaining().len(),
        {
            let ghost left = self.remaining();
            match self.next() {
                Some(solution) => {
                    found.push(solution);
                    assert(left.drop_first() =~= old(self).remaining().skip(found@.len() as int));
                },
                None => {
                    return found;
                },
            }
        }
    }

    /// The first empty cell at or after `start` in row-major order. The
    /// column of `start` may be 9, which stands for the start of the next
    /// row.
    fn next_empty_cell_starting_from(&self, start: CellLocation) -> (found: Option<CellLocation>)
        requires
            well_formed_grid(self.table@),
            start.row_index() < 9,
            start.col_index() <= 9,
        ensures
            match found {
                Some(cell) => cell.in_board() && cell.position() == first_empty_from(
                    self.table@,
                    start.position(),
                ),
                None => first_empty_from(self.table@, start.position()) == 81,
            },
    {
        let x = start.row;
        let y = start.col;
        let ghost g = self.table@;
        let mut i: usize = x;
        while i < self.table.contents().len()
            invariant
                g == self.table@,
                well_formed_grid(g),
                x <= i <= 9,
                x < 9,
                y <= 9,
                x == start.row_index(),
                y == start.col_index(),
                first_empty_from(g, start.position()) == first_empty_from(
                    g,
                    if i == x {
                        9 * x + y
                    } else {
                        9 * i
                    },
                ),
            decreases 9 - i,
        {
            let starting_col = if i > x {
                0
            } else {
                y
            };
            let mut j: usize = starting_col;
            while j < self.table.contents().len()
                invariant
                    g == self.table@,
                    well_formed_grid(g),
                    i < 9,
                    j <= 9,
                    first_empty_from(g, start.position()) == first_empty_from(g, 9 * i + j),
                decreases 9 - j,
            {
                assert(cell_at(g, 9 * i + j) == g[i as int][j as int]);
                match self.table.contents()[i][j] {
                    SudokuCell::Empty => {
                        return Some(CellLocation { row: i, col: j });
                    },
                    SudokuCell::Filled(_) => {},
                }
                j += 1;
            }
            i += 1;
        }

        None
    }

    /// The candidate pool of the empty cell at `cell`.
    fn possible_values(&self, cell: CellLocation) -> (pool: Vec<u8>)
        requires
            well_formed_grid(self.table@),
            cell.in_board(),
        ensures
            pool@ == candidate_digits(self.table@, cell.row_index(), cell.col_index()),
    {
        let mut existing_digits = [false;9];

        self.mark_existing_row_values_in_array(cell.row, &mut existing_digits);
        self.mark_existing_col_values_in_array(cell.col, &mut existing_digits);
        self.mark_existing_values_spanning_3_by_3_cell_in_array(cell, &mut existing_digits);

        let ghost g = self.table@;
        let ghost row = cell.row_index();
        let ghost col = cell.col_index();
        let mut pool: Vec<u8> = Vec::new();
        let mut d: usize = 0;
        while d < 9
            invariant
                d <= 9,
                forall|v: int|
                    1 <= v <= 9 ==> (#[trigger] existing_digits@[v - 1] <==> digit_seen(
                        g,
                        row,
                        col,
                        v as u8,
                    )),
                pool@ == free_digits_upto(g, row, col, d as nat),
            decreases 9 - d,
        {
            assert(existing_digits@[(d + 1) - 1] <==> digit_seen(g, row, col, (d + 1) as u8));
            if !existing_digits[d] {
                pool.push(d as u8 + 1);
            }
            d += 1;
        }
        pool
    }

    /// Marks the digits that stand in row `row_index`.
    fn mark_existing_row_values_in_array(&self, row_index: usize, mark_array: &mut [bool; 9])
        requires
            well_formed_grid(self.table@),
            row_index < 9,
        ensures
            forall|v: int|
                1 <= v <= 9 ==> (#[trigger] final(mark_array)@[v - 1] <==> old(mark_array)@[v - 1]
                    || digit_in(row_cells(self.table@, row_index as int), v as u8)),
    {
        let ghost cells = row_cells(self.table@, row_index as int);
        let mut j: usize = 0;
        while j < 9
            invariant
                j <= 9,
                row_index < 9,
                well_formed_grid(self.table@),
                cells == row_cells(self.table@, row_index as int),
                forall|v: int|
                    1 <= v <= 9 ==> (#[trigger] mark_array@[v - 1] <==> old(mark_array)@[v - 1]
                        || digit_in(cells.take(j as int), v as u8)),
            decreases 9 - j,
        {
            let row_cell = self.table.contents()[row_index][j];
            proof {
                lemma_digit_in_take(cells, j as int);
            }
            if let SudokuCell::Filled(value) = row_cell {
                let value = value as usize - 1;
                mark_array[value] = true;
            }
            j += 1;
        }
        assert(cells.take(9) == cells);
    }

    /// Marks the digits that stand in column `col_index`.
    fn mark_existing_col_values_in_array(&self, col_index: usize, mark_array: &mut [bool; 9])
        requires
            well_formed_grid(self.table@),
            col_index < 9,
        ensures
            forall|v: int|
                1 <= v <= 9 ==> (#[trigger] final(mark_array)@[v - 1] <==> old(mark_array)@[v - 1]
                    || digit_in(col_cells(self.table@, col_index as int), v as u8)),
    {
        let ghost cells = col_cells(self.table@, col_index as int);
        let mut i: usize = 0;
        while i < 9
            invariant
                i <= 9,
                col_index < 9,
                well_formed_grid(self.table@),
                cells == col_cells(self.table@, col_index as int),
                forall|v: int|
                    1 <= v <= 9 ==> (#[trigger] mark_array@[v - 1] <==> old(mark_array)@[v - 1]
                        || digit_in(cells.take(i as int), v as u8)),
            decreases 9 - i,
        {
            let col_cell = self.table.contents()[i][col_index];
            proof {
                lemma_digit_in_take(cells, i as int);
            }
            if let SudokuCell::Filled(value) = col_cell {
                let value = value as usize - 1;
                mark_array[value] = true;
            }
            i += 1;
        }
        assert(cells.take(9) == cells);
    }

    /// Marks the digits that stand in the 3x3 box of `cell`.
    fn mark_existing_values_spanning_3_by_3_cell_in_array(
        &self,
        cell: CellLocation,
        mark_array: &mut [bool; 9],
    )
        requires
            well_formed_grid(self.table@),
            cell.in_board(),
        ensures
            forall|v: int|
                1 <= v <= 9 ==> (#[trigger] final(mark_array)@[v - 1] <==> old(mark_array)@[v - 1]
                    || digit_in(
                    box_cells(self.table@, cell.row_index() / 3, cell.col_index() / 3),
                    v as u8,
                )),
    {
        let ghost cells = box_cells(self.table@, cell.row_index() / 3, cell.col_index() / 3);
        let inside_cells = Self::cells_inside_3_by_3_cell(Self::index_of_3_by_3_cell(cell));
        let mut k: usize = 0;
        while k < 9
            invariant
                k <= 9,
                cell.in_board(),
                well_formed_grid(self.table@),
                cells == box_cells(self.table@, cell.row_index() / 3, cell.col_index() / 3),
                forall|n: int|
                    0 <= n < 9 ==> (#[trigger] inside_cells@[n]).row_index() == 3 * (
                    cell.row_index() / 3) + n / 3 && inside_cells@[n].col_index() == 3 * (
                    cell.col_index() / 3) + n % 3,
                forall|v: int|
                    1 <= v <= 9 ==> (#[trigger] mark_array@[v - 1] <==> old(mark_array)@[v - 1]
                        || digit_in(cells.take(k as int), v as u8)),
            decreases 9 - k,
        {
            let inside_cell = inside_cells[k];
            proof {
                lemma_digit_in_take(cells, k as int);
            }
            if let SudokuCell::Filled(value) =
                self.table.contents()[inside_cell.row][inside_cell.col] {
                let value = value as usize - 1;
                mark_array[value] = true;
            }
            k += 1;
        }
        assert(cells.take(9) == cells);
    }

    /// The 3x3 box that holds `cell`, as a row and a column of boxes.
    fn index_of_3_by_3_cell(cell: CellLocation) -> (the_box: CellLocation)
        requires
            cell.in_board(),
        ensures
            the_box.row_index() == cell.row_index() / 3,
            the_box.col_index() == cell.col_index() / 3,
    {
        CellLocation { row: cell.row / 3, col: cell.col / 3 }
    }

    /// The nine cells of a 3x3 box, row by row.
    fn cells_inside_3_by_3_cell(the_3_by_3_cell: CellLocation) -> (cells: [CellLocation; 9])
        requires
            the_3_by_3_cell.row_index() < 3,
            the_3_by_3_cell.col_index() < 3,
        ensures
            forall|n: int|
                0 <= n < 9 ==> (#[trigger] cells@[n]).row_index() == 3
                    * the_3_by_3_cell.row_index() + n / 3 && cells@[n].col_index() == 3
                    * the_3_by_3_cell.col_index() + n % 3,
    {
        let top_left_cell = CellLocation {
            row: the_3_by_3_cell.row * 3,
            col: the_3_by_3_cell.col * 3,
        };

        [
            CellLocation { row: top_left_cell.row, col: top_left_cell.col },
            CellLocation { row: top_left_cell.row, col: top_left_cell.col + 1 },
            CellLocation { row: top_left_cell.row, col: top_left_cell.col + 2 },
            CellLocation { row: top_left_cell.row + 1, col: top_left_cell.col },
            CellLocation { row: top_left_cell.row + 1, col: top_left_cell.col + 1 },
            CellLocation { row: top_left_cell.row + 1, col: top_left_cell.col + 2 },
            CellLocation { row: top_left_cell.row + 2, col: top_left_cell.col },
            CellLocation { row: top_left_cell.row + 2, col: top_left_cell.col + 1 },
            CellLocation { row: top_left_cell.row + 2, col: top_left_cell.col + 2 },
        ]
    }

    /// Takes the last digit out of the pool of `last_state` and puts it in
    /// its cell. Fails, and changes nothing, when the pool is empty.
    fn try_next_possible_value(table: &mut SudokuTable, last_state: &mut RecursionState) -> (tried:
        Result<(), ()>)
        requires
            well_formed_grid(old(table)@),
            old(last_state).well_formed(),
        ensures
            final(last_state).attempted_cell == old(last_state).attempted_cell,
            match tried {
                Ok(_) => {
                    &&& old(last_state).possible_values@.len() > 0
                    &&& final(last_state).possible_values@ == old(
                        last_state,
                    ).possible_values@.drop_last()
                    &&& final(table)@ == with_cell(
                        old(table)@,
                        old(last_state).position(),
                        SudokuCell::Filled(old(last_state).possible_values@.last()),
                    )
                    &&& well_formed_grid(final(table)@)
                },
                Err(_) => {
                    &&& old(last_state).possible_values@.len() == 0
                    &&& *final(last_state) == *old(last_state)
                    &&& final(table)@ == old(table)@
                },
            },
    {
        let n = last_state.possible_values.len();
        if n > 0 {
            let next_value = last_state.possible_values[n - 1];
            let x = last_state.attempted_cell.row;
            let y = last_state.attempted_cell.col;
            let rows = table.contents_mut();
            let ghost before = rows@;
            assert(rows_of(before)[x as int] == before[x as int]@);
            rows[x][y] = SudokuCell::Filled(next_value);
            proof {
                assert(rows_of(rows@) =~~= with_cell(
                    rows_of(before),
                    9 * x + y,
                    SudokuCell::Filled(next_value),
                ));
            }
            last_state.possible_values.pop();

            Ok(())
        } else {
            Err(())
        }
    }

    /// The level for the first empty cell after the cell of `last_state`,
    /// with its full candidate pool. Fails when no empty cell is left.
    fn presolve_next_empty_cell(&self, last_state: &RecursionState) -> (presolved: Result<
        RecursionState,
        (),
    >)
        requires
            well_formed_grid(self.table@),
            last_state.attempted_cell.in_board(),
        ensures
            match presolved {
                Ok(state) => {
                    &&& state.well_formed()
                    &&& state.position() == first_empty_from(
                        self.table@,
                        last_state.position() + 1,
                    )
                    &&& state.possible_values@ == candidate_digits(
                        self.table@,
                        state.attempted_cell.row_index(),
                        state.attempted_cell.col_index(),
                    )
                },
                Err(_) => first_empty_from(self.table@, last_state.position() + 1) == 81,
            },
    {
        let x = last_state.attempted_cell.row;
        let y = last_state.attempted_cell.col;
        let empty_cell = self.next_empty_cell_starting_from(CellLocation { row: x, col: y + 1 });
        match empty_cell {
            None => Err(()),
            Some(empty_cell) => {
                proof {
                    lemma_free_digits_rise(
                        self.table@,
                        empty_cell.row_index(),
                        empty_cell.col_index(),
                        9,
                    );
                }
                Ok(
                    RecursionState {
                        attempted_cell: empty_cell,
                        possible_values: self.possible_values(empty_cell),
                    },
                )
            },
        }
    }

    /// Drops the top level of the stack and empties its cell.
    fn clear_last_try(recursion_stack: &mut Vec<RecursionState>, table: &mut SudokuTable)
        requires
            old(recursion_stack)@.len() > 0,
            old(recursion_stack)@.last().attempted_cell.in_board(),
            well_formed_grid(old(table)@),
        ensures
            final(recursion_stack)@ == old(recursion_stack)@.drop_last(),
            final(table)@ == with_cell(
                old(table)@,
                old(recursion_stack)@.last().position(),
                SudokuCell::Empty,
            ),
            well_formed_grid(final(table)@),
    {
        let state = recursion_stack.pop().unwrap();
        let x = state.attempted_cell.row;
        let y = state.attempted_cell.col;
        let rows = table.contents_mut();
        let ghost before = rows@;
        assert(rows_of(before)[x as int] == before[x as int]@);
        rows[x][y] = SudokuCell::Empty;
        proof {
            assert(rows_of(rows@) =~~= with_cell(rows_of(before), 9 * x + y, SudokuCell::Empty));
        }
    }
}

/// A stack in order stands on empty cells of the puzzle, and its levels
/// are those of the search over the puzzle that has come to the board.
proof fn lemma_stack_levels(puzzle: Grid, g: Grid, frames: Seq<RecursionState>)
    requires
        stack_ok(puzzle, g, frames),
    ensures
        forall|i: int| 0 <= i < frames.len() ==> nth_empty(puzzle, i) < 81,
        forall|i: int|
            0 <= i < frames.len() ==> (
            (#[trigger] frames[i]).position(),
            frames[i].possible_values@,
        ) == level_at(puzzle, g, nth_empty(puzzle, i)),
{
    assert forall|i: int| 0 <= i < frames.len() implies nth_empty(puzzle, i) < 81 by {
        assert(frames[i].well_formed());
    }
}

/// A stack stays in order when the last digit of the pool of its top level
/// goes into the cell of that level.
proof fn lemma_stack_after_try(
    puzzle: Grid,
    g: Grid,
    frames: Seq<RecursionState>,
    g1: Grid,
    frames1: Seq<RecursionState>,
)
    requires
        well_formed_grid(puzzle),
        well_formed_grid(g),
        stack_ok(puzzle, g, frames),
        frames.len() > 0,
        frames.last().possible_values@.len() > 0,
        g1 == with_cell(
            g,
            frames.last().position(),
            SudokuCell::Filled(frames.last().possible_values@.last()),
        ),
        frames1.len() == frames.len(),
        frames1.drop_last() == frames.drop_last(),
        frames1.last().attempted_cell == frames.last().attempted_cell,
        frames1.last().possible_values@ == frames.last().possible_values@.drop_last(),
    ensures
        stack_ok(puzzle, g1, frames1),
{
    let n = frames.len() as int;
    let top = frames.last();
    let p = top.position();
    let d = top.possible_values@.last();
    assert(top.well_formed());
    assert(top.possible_values@[top.possible_values@.len() - 1] == d);
    lemma_with_cell(g, p, SudokuCell::Filled(d));
    lemma_nth_empty(puzzle, n - 1);
    assert forall|i: int| 0 <= i < n - 1 implies frames1[i] == frames[i] by {
        assert(frames1.drop_last()[i] == frames1[i]);
        assert(frames.drop_last()[i] == frames[i]);
    }
    assert forall|i: int| 0 <= i < n implies (#[trigger] frames1[i]).possible_values@ == level_at(
        puzzle,
        g1,
        frames1[i].position(),
    ).1 by {
        let q = frames[i].position();
        lemma_board_before_keeps(puzzle, g, g1, q);
        if i < n - 1 {
            assert(q < p);
        } else {
            let base = board_before(puzzle, g, p);
            let upto = untried_upto(cell_at(g, p));
            assert(legal_cell(g[p / 9][p % 9]));
            assert(top.possible_values@ == free_digits_upto(base, p / 9, p % 9, upto));
            lemma_free_digits_pop(base, p / 9, p % 9, upto);
        }
    }
    assert(agrees_off_levels(puzzle, g1, top_rank(frames1)));
}

/// A stack stays in order when a level for the next empty cell of the
/// board, with its whole candidate pool, goes on top of it.
proof fn lemma_stack_after_push(
    puzzle: Grid,
    g: Grid,
    frames: Seq<RecursionState>,
    frames2: Seq<RecursionState>,
)
    requires
        well_formed_grid(puzzle),
        well_formed_grid(g),
        stack_ok(puzzle, g, frames),
        frames.len() > 0,
        cell_at(g, frames.last().position()) is Filled,
        frames2.len() == frames.len() + 1,
        frames2.drop_last() == frames,
        frames2.last().well_formed(),
        frames2.last().position() == first_empty_from(g, frames.last().position() + 1),
        frames2.last().possible_values@ == candidate_digits(
            g,
            frames2.last().position() / 9,
            frames2.last().position() % 9,
        ),
    ensures
        stack_ok(puzzle, g, frames2),
{
    let n = frames.len() as int;
    let p = frames.last().position();
    let q = frames2.last().position();
    assert(frames.last().well_formed());
    lemma_first_empty_from(g, p + 1);
    lemma_first_empty_agrees(g, puzzle, p + 1);
    assert(nth_empty(puzzle, n) == first_empty_from(puzzle, nth_empty(puzzle, n - 1) + 1));
    lemma_board_before_self(puzzle, g, q);
    assert forall|i: int| 0 <= i < n implies frames2[i] == frames[i] by {
        assert(frames2.drop_last()[i] == frames[i]);
    }
    assert(agrees_off_levels(puzzle, g, top_rank(frames2)));
}

/// A stack stays in order when its top level leaves and the cell of that
/// level is emptied.
proof fn lemma_stack_after_clear(puzzle: Grid, g: Grid, frames: Seq<RecursionState>)
    requires
        well_formed_grid(puzzle),
        well_formed_grid(g),
        stack_ok(puzzle, g, frames),
        frames.len() > 0,
    ensures
        stack_ok(
            puzzle,
            with_cell(g, frames.last().position(), SudokuCell::Empty),
            frames.drop_last(),
        ),
{
    let n = frames.len() as int;
    let p = frames.last().position();
    let h = with_cell(g, p, SudokuCell::Empty);
    let rest = frames.drop_last();
    assert(frames.last().well_formed());
    lemma_with_cell(g, p, SudokuCell::Empty);
    lemma_nth_empty(puzzle, n - 1);
    assert forall|i: int| 0 <= i < n - 1 implies (#[trigger] rest[i]).possible_values@ == level_at(
        puzzle,
        h,
        rest[i].position(),
    ).1 by {
        assert(rest[i] == frames[i]);
        let q = frames[i].position();
        assert(q < p);
        lemma_board_before_keeps(puzzle, g, h, q);
    }
    assert forall|i: int| 0 <= i < n - 1 implies (#[trigger] rest[i]).position() == nth_empty(
        puzzle,
        i,
    ) by {
        assert(rest[i] == frames[i]);
    }
    assert(top_rank(rest) == if n > 1 {
        nth_empty(puzzle, n - 2)
    } else {
        -1
    }) by {
        if n > 1 {
            assert(rest[n - 2] == frames[n - 2]);
        }
    }
    assert(agrees_off_levels(puzzle, h, top_rank(rest)));
}

/// Every weight is at least one.
proof fn lemma_weight_positive(levels: nat)
    ensures
        weight(levels) >= 1,
    decreases levels,
{
    if levels > 0 {
        lemma_weight_positive((levels - 1) as nat);
    }
}

/// Taking one digit from the top level and pushing a level on it leaves
/// less work than before.
proof fn lemma_work_left_push(
    frames: Seq<RecursionState>,
    frames1: Seq<RecursionState>,
    frames2: Seq<RecursionState>,
)
    requires
        0 < frames.len() <= 80,
        frames1.len() == frames.len(),
        frames1.drop_last() == frames.drop_last(),
        frames.last().possible_values@.len() > 0,
        frames1.last().possible_values@ == frames.last().possible_values@.drop_last(),
        frames2.len() == frames.len() + 1,
        frames2.drop_last() == frames1,
        frames2.last().possible_values@.len() <= 9,
    ensures
        work_left(frames2) < work_left(frames),
{
    let n = frames.len();
    let w = weight((80 - n) as nat);
    let len = frames.last().possible_values@.len();
    let fresh = frames2.last().possible_values@.len();
    let below = work_left(frames.drop_last());
    lemma_weight_positive((80 - n) as nat);
    assert(weight((81 - n) as nat) == 11 * w);
    assert(work_left(frames) == below + 1 + len * (11 * w));
    assert(work_left(frames1) == below + 1 + (len - 1) * (11 * w));
    assert(work_left(frames2) == work_left(frames1) + 1 + fresh * w);
    assert(fresh * w <= 9 * w) by (nonlinear_arith)
        requires
            fresh <= 9,
            w >= 0,
    ;
    assert((len - 1) * (11 * w) == len * (11 * w) - 11 * w) by (nonlinear_arith);
}

/// A digit stands in the first `k + 1` cells when it stands in the first `k`
/// or in the cell after them.
proof fn lemma_digit_in_take(cells: Seq<SudokuCell>, k: int)
    requires
        0 <= k < cells.len(),
    ensures
        forall|d: u8|
            digit_in(cells.take(k + 1), d) <==> digit_in(cells.take(k), d) || cells[k]
                == SudokuCell::Filled(d),
{
    assert forall|d: u8|
        digit_in(cells.take(k + 1), d) <==> digit_in(cells.take(k), d) || cells[k]
            == SudokuCell::Filled(d) by {
        if digit_in(cells.take(k), d) {
            let w = choose|w: int|
                0 <= w < cells.take(k).len() && #[trigger] cells.take(k)[w] == SudokuCell::Filled(
                    d,
                );
            assert(cells.take(k + 1)[w] == SudokuCell::Filled(d));
        }
        if cells[k] == SudokuCell::Filled(d) {
            assert(cells.take(k + 1)[k] == SudokuCell::Filled(d));
        }
        if digit_in(cells.take(k + 1), d) {
            let w = choose|w: int|
                0 <= w < cells.take(k + 1).len() && #[trigger] cells.take(k + 1)[w]
                    == SudokuCell::Filled(d);
            if w < k {
                assert(cells.take(k)[w] == SudokuCell::Filled(d));
            }
        }
    }
}

} // verus!
