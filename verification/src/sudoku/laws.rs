//! What holds of the sequence of solutions: every solution completes the
//! puzzle within the rules, every such completion is a solution, and the
//! solutions come in falling order, none of them twice.

use vstd::prelude::*;

use crate::sudoku::rules::{
    candidate_digits, complete_grid, digit_near, digit_seen, extends_grid, in_board,
    lemma_digit_seen_near, lemma_free_digits_contains, lemma_free_digits_rise,
    lemma_valid_grid_pairwise, same_unit, valid_grid, well_formed_grid, Grid,
};
use crate::sudoku::search::{
    all_solutions, cell_at, explore, first_empty_from, lemma_first_empty_from, lemma_with_cell,
    solutions_from, with_cell,
};
use crate::sudoku::SudokuCell;

verus! {

/// `s` completes `g` within the rules: it is a well-formed board without an
/// empty cell that breaks no rule and keeps every digit of `g`.
pub open spec fn is_completion(s: Grid, g: Grid) -> bool {
    &&& well_formed_grid(s)
    &&& complete_grid(s)
    &&& valid_grid(s)
    &&& extends_grid(s, g)
}

/// Every cell before rank `k` holds a digit.
spec fn filled_before(g: Grid, k: int) -> bool {
    forall|j: int| 0 <= j < k ==> #[trigger] cell_at(g, j) is Filled
}

/// The digit of the cell of rank `k`, or 0 when the cell is empty.
pub open spec fn digit_at(g: Grid, k: int) -> int {
    match cell_at(g, k) {
        SudokuCell::Empty => 0,
        SudokuCell::Filled(d) => d as int,
    }
}

/// `a` and `b` hold the same cells before rank `m`, and at rank `m` the
/// digit of `a` is the larger one.
pub open spec fn parts_at(a: Grid, b: Grid, m: int) -> bool {
    &&& 0 <= m < 81
    &&& digit_at(a, m) > digit_at(b, m)
    &&& forall|j: int| 0 <= j < m ==> #[trigger] cell_at(a, j) == cell_at(b, j)
}

/// `a` comes before `b` in the order of the search: read in row-major
/// order, the first cell in which they differ holds the larger digit in `a`.
pub open spec fn precedes(a: Grid, b: Grid) -> bool {
    exists|m: int| parts_at(a, b, m)
}

/// Every digit of the pool is between 1 and 9 and stands nowhere in the
/// units of the cell of rank `p`, and the digits rise.
spec fn pool_fits(g: Grid, p: int, pool: Seq<u8>) -> bool {
    &&& forall|n: int|
        0 <= n < pool.len() ==> 1 <= #[trigger] pool[n] <= 9 && !digit_seen(
            g,
            p / 9,
            p % 9,
            pool[n],
        )
    &&& forall|m: int, n: int| 0 <= m < n < pool.len() ==> pool[m] < pool[n]
}

/// A well-formed board stays well formed when a legal digit is put in one
/// of its cells, and the board with the digit keeps every digit of the
/// board without it when the cell was empty.
proof fn lemma_place_well_formed(g: Grid, p: int, d: u8)
    requires
        well_formed_grid(g),
        0 <= p < 81,
        1 <= d <= 9,
    ensures
        well_formed_grid(with_cell(g, p, SudokuCell::Filled(d))),
        cell_at(g, p) is Empty ==> extends_grid(with_cell(g, p, SudokuCell::Filled(d)), g),
        filled_before(g, p) ==> filled_before(with_cell(g, p, SudokuCell::Filled(d)), p + 1),
{
    let h = with_cell(g, p, SudokuCell::Filled(d));
    lemma_with_cell(g, p, SudokuCell::Filled(d));
    if cell_at(g, p) is Empty {
        assert forall|r: int, c: int|
            in_board(r, c) && g[r][c] is Filled implies #[trigger] h[r][c] == g[r][c] by {
            if 9 * r + c == p {
                assert(cell_at(g, p) == g[r][c]);
            }
        }
    }
}

/// A board that breaks no rule keeps breaking none when an empty cell
/// takes a digit that stands nowhere in its units.
proof fn lemma_place_keeps_rules(g: Grid, p: int, d: u8)
    requires
        well_formed_grid(g),
        valid_grid(g),
        0 <= p < 81,
        cell_at(g, p) is Empty,
        !digit_seen(g, p / 9, p % 9, d),
    ensures
        valid_grid(with_cell(g, p, SudokuCell::Filled(d))),
{
    let h = with_cell(g, p, SudokuCell::Filled(d));
    let row = p / 9;
    let col = p % 9;
    lemma_with_cell(g, p, SudokuCell::Filled(d));
    lemma_valid_grid_pairwise(g);
    lemma_valid_grid_pairwise(h);
    lemma_digit_seen_near(g, row, col, d);
    assert forall|r1: int, c1: int, r2: int, c2: int|
        #![trigger h[r1][c1], h[r2][c2]]
        in_board(r1, c1) && in_board(r2, c2) && (r1 != r2 || c1 != c2) && same_unit(
            r1,
            c1,
            r2,
            c2,
        ) && h[r1][c1] is Filled implies h[r1][c1] != h[r2][c2] by {
        if 9 * r1 + c1 == p {
            assert(r1 == row && c1 == col);
            assert(h[r2][c2] == g[r2][c2]);
            if g[r2][c2] == SudokuCell::Filled(d) {
                assert(digit_near(g, row, col, d));
            }
        } else if 9 * r2 + c2 == p {
            assert(r2 == row && c2 == col);
            assert(h[r1][c1] == g[r1][c1]);
            if g[r1][c1] == SudokuCell::Filled(d) {
                assert(same_unit(row, col, r1, c1));
                assert(digit_near(g, row, col, d));
            }
        } else {
            assert(h[r1][c1] == g[r1][c1]);
            assert(h[r2][c2] == g[r2][c2]);
            assert(g[r1][c1] != g[r2][c2]);
        }
    }
}

/// A board whose cells before rank 81 all hold a digit has no empty cell,
/// and the other way round.
proof fn lemma_filled_before_all(g: Grid)
    ensures
        filled_before(g, 81) <==> complete_grid(g),
{
    if filled_before(g, 81) {
        assert forall|r: int, c: int| in_board(r, c) implies #[trigger] g[r][c] is Filled by {
            assert(cell_at(g, 9 * r + c) is Filled);
        }
    }
    if complete_grid(g) {
        assert forall|j: int| 0 <= j < 81 implies #[trigger] cell_at(g, j) is Filled by {
            assert(g[j / 9][j % 9] is Filled);
        }
    }
}

/// Keeping the digits of a board is transitive.
proof fn lemma_extends_trans(a: Grid, b: Grid, c: Grid)
    requires
        extends_grid(a, b),
        extends_grid(b, c),
    ensures
        extends_grid(a, c),
{
    assert forall|r: int, col: int|
        in_board(r, col) && c[r][col] is Filled implies #[trigger] a[r][col] == c[r][col] by {
        assert(b[r][col] == c[r][col]);
    }
}

/// A board that keeps the digits of `g` holds the cells of `g` before any
/// rank up to which `g` is filled.
proof fn lemma_extends_cells(s: Grid, g: Grid, k: int)
    requires
        extends_grid(s, g),
        0 <= k <= 81,
        filled_before(g, k),
    ensures
        forall|j: int| 0 <= j < k ==> #[trigger] cell_at(s, j) == cell_at(g, j),
{
    assert forall|j: int| 0 <= j < k implies #[trigger] cell_at(s, j) == cell_at(g, j) by {
        assert(cell_at(g, j) is Filled);
        assert(in_board(j / 9, j % 9));
        assert(s[j / 9][j % 9] == g[j / 9][j % 9]);
    }
}

/// What the search finds from a board that is filled before rank `k`: well
/// formed boards without an empty cell that keep its digits, and that break
/// no rule when it breaks none.
proof fn lemma_solutions_from_sound(g: Grid, k: int, i: int)
    requires
        well_formed_grid(g),
        0 <= k <= 81,
        filled_before(g, k),
        0 <= i < solutions_from(g, k).len(),
    ensures
        well_formed_grid(solutions_from(g, k)[i]),
        complete_grid(solutions_from(g, k)[i]),
        extends_grid(solutions_from(g, k)[i], g),
        valid_grid(g) ==> valid_grid(solutions_from(g, k)[i]),
    decreases 81 - k, 1int, 0nat,
{
    let p = first_empty_from(g, k);
    lemma_first_empty_from(g, k);
    if p < 81 {
        let pool = candidate_digits(g, p / 9, p % 9);
        lemma_candidates_fit(g, p);
        assert(filled_before(g, p));
        lemma_explore_sound(g, p, pool, i);
    } else {
        assert(solutions_from(g, k) == seq![g]);
        assert(filled_before(g, 81));
        lemma_filled_before_all(g);
    }
}

/// What the search finds by trying a pool of fitting digits at an empty
/// cell: the same as `lemma_solutions_from_sound` says, and each board found
/// holds a digit of the pool in that cell.
proof fn lemma_explore_sound(g: Grid, p: int, pool: Seq<u8>, i: int)
    requires
        well_formed_grid(g),
        0 <= p < 81,
        filled_before(g, p),
        cell_at(g, p) is Empty,
        pool_fits(g, p, pool),
        0 <= i < explore(g, p, pool).len(),
    ensures
        well_formed_grid(explore(g, p, pool)[i]),
        complete_grid(explore(g, p, pool)[i]),
        extends_grid(explore(g, p, pool)[i], g),
        valid_grid(g) ==> valid_grid(explore(g, p, pool)[i]),
        exists|n: int|
            0 <= n < pool.len() && cell_at(explore(g, p, pool)[i], p) == SudokuCell::Filled(
                #[trigger] pool[n],
            ),
        i < solutions_from(with_cell(g, p, SudokuCell::Filled(pool.last())), p + 1).len()
            ==> cell_at(explore(g, p, pool)[i], p) == SudokuCell::Filled(pool.last()),
        i >= solutions_from(with_cell(g, p, SudokuCell::Filled(pool.last())), p + 1).len()
            ==> cell_at(explore(g, p, pool)[i], p) != SudokuCell::Filled(pool.last()),
    decreases 81 - p, 0int, pool.len(),
{
    let d = pool.last();
    let h = with_cell(g, p, SudokuCell::Filled(d));
    let first = solutions_from(h, p + 1);
    let rest = explore(g, p, pool.drop_last());
    let s = explore(g, p, pool)[i];
    assert(pool.len() > 0);
    assert(explore(g, p, pool) == first + rest);
    lemma_place_well_formed(g, p, d);
    lemma_with_cell(g, p, SudokuCell::Filled(d));
    if i < first.len() {
        assert(s == first[i]);
        lemma_solutions_from_sound(h, p + 1, i);
        lemma_extends_trans(s, h, g);
        if valid_grid(g) {
            lemma_place_keeps_rules(g, p, d);
        }
        lemma_extends_cells(s, h, p + 1);
        assert(cell_at(s, p) == cell_at(h, p));
        assert(cell_at(s, p) == SudokuCell::Filled(pool[pool.len() - 1]));
    } else {
        assert(s == rest[i - first.len()]);
        assert(pool_fits(g, p, pool.drop_last()));
        lemma_explore_sound(g, p, pool.drop_last(), i - first.len());
        let n = choose|n: int|
            0 <= n < pool.drop_last().len() && cell_at(s, p) == SudokuCell::Filled(
                #[trigger] pool.drop_last()[n],
            );
        assert(pool[n] == pool.drop_last()[n]);
        assert(pool[n] < pool[pool.len() - 1]);
    }
}

/// The candidate pool of an empty cell fits the cell.
proof fn lemma_candidates_fit(g: Grid, p: int)
    requires
        0 <= p < 81,
    ensures
        pool_fits(g, p, candidate_digits(g, p / 9, p % 9)),
{
    let pool = candidate_digits(g, p / 9, p % 9);
    lemma_free_digits_rise(g, p / 9, p % 9, 9);
    assert forall|n: int| 0 <= n < pool.len() implies 1 <= #[trigger] pool[n] <= 9 && !digit_seen(
        g,
        p / 9,
        p % 9,
        pool[n],
    ) by {
        lemma_free_digits_contains(g, p / 9, p % 9, 9, pool[n]);
        assert(pool.contains(pool[n]));
    }
}

/// Of two boards that the search finds from a board filled before rank
/// `k`, the one found first comes first in the order of the search.
proof fn lemma_solutions_from_ordered(g: Grid, k: int, i: int, j: int)
    requires
        well_formed_grid(g),
        0 <= k <= 81,
        filled_before(g, k),
        0 <= i < j < solutions_from(g, k).len(),
    ensures
        precedes(solutions_from(g, k)[i], solutions_from(g, k)[j]),
    decreases 81 - k, 1int, 0nat,
{
    let p = first_empty_from(g, k);
    lemma_first_empty_from(g, k);
    if p < 81 {
        lemma_candidates_fit(g, p);
        assert(filled_before(g, p));
        lemma_explore_ordered(g, p, candidate_digits(g, p / 9, p % 9), i, j);
    } else {
        assert(solutions_from(g, k) == seq![g]);
    }
}

/// Of two boards that the search finds by trying a pool at an empty cell,
/// the one found first comes first in the order of the search.
proof fn lemma_explore_ordered(g: Grid, p: int, pool: Seq<u8>, i: int, j: int)
    requires
        well_formed_grid(g),
        0 <= p < 81,
        filled_before(g, p),
        cell_at(g, p) is Empty,
        pool_fits(g, p, pool),
        0 <= i < j < explore(g, p, pool).len(),
    ensures
        precedes(explore(g, p, pool)[i], explore(g, p, pool)[j]),
    decreases 81 - p, 0int, pool.len(),
{
    let d = pool.last();
    let h = with_cell(g, p, SudokuCell::Filled(d));
    let first = solutions_from(h, p + 1);
    let rest = explore(g, p, pool.drop_last());
    let a = explore(g, p, pool)[i];
    let b = explore(g, p, pool)[j];
    assert(pool.len() > 0);
    assert(explore(g, p, pool) == first + rest);
    lemma_place_well_formed(g, p, d);
    if j < first.len() {
        assert(a == first[i] && b == first[j]);
        lemma_solutions_from_ordered(h, p + 1, i, j);
    } else if i >= first.len() {
        assert(a == rest[i - first.len()] && b == rest[j - first.len()]);
        assert(pool_fits(g, p, pool.drop_last()));
        lemma_explore_ordered(g, p, pool.drop_last(), i - first.len(), j - first.len());
    } else {
        lemma_explore_sound(g, p, pool, i);
        lemma_explore_sound(g, p, pool, j);
        let n = choose|n: int|
            0 <= n < pool.len() && cell_at(b, p) == SudokuCell::Filled(#[trigger] pool[n]);
        assert(n < pool.len() - 1);
        assert(pool[n] < pool[pool.len() - 1]);
        lemma_extends_cells(a, g, p);
        lemma_extends_cells(b, g, p);
        assert(parts_at(a, b, p));
    }
}

/// A completion of a board that is filled before rank `k` is among the
/// boards that the search finds from it.
proof fn lemma_solutions_from_complete(g: Grid, k: int, s: Grid)
    requires
        well_formed_grid(g),
        0 <= k <= 81,
        filled_before(g, k),
        is_completion(s, g),
    ensures
        solutions_from(g, k).contains(s),
    decreases 81 - k, 1int, 0nat,
{
    let p = first_empty_from(g, k);
    lemma_first_empty_from(g, k);
    if p < 81 {
        let row = p / 9;
        let col = p % 9;
        assert(in_board(row, col));
        assert(s[row][col] is Filled);
        let d = s[row][col]->Filled_0;
        assert(cell_at(s, p) == SudokuCell::Filled(d));
        lemma_digit_seen_near(g, row, col, d);
        if digit_near(g, row, col, d) {
            let (r, c) = choose|r: int, c: int|
                in_board(r, c) && same_unit(row, col, r, c) && #[trigger] g[r][c]
                    == SudokuCell::Filled(d);
            assert(g[row][col] is Empty);
            assert(s[r][c] == g[r][c]);
            lemma_valid_grid_pairwise(s);
            assert(s[row][col] != s[r][c]);
        }
        lemma_free_digits_contains(g, row, col, 9, d);
        lemma_candidates_fit(g, p);
        assert(filled_before(g, p));
        lemma_explore_complete(g, p, candidate_digits(g, row, col), s);
    } else {
        assert(solutions_from(g, k) == seq![g]);
        assert(filled_before(g, 81));
        lemma_filled_before_all(g);
        assert(s =~~= g);
        assert(seq![g][0] == s);
    }
}

/// A completion of a board is among the boards that the search finds by
/// trying, at an empty cell, a pool that holds the digit of the completion.
proof fn lemma_explore_complete(g: Grid, p: int, pool: Seq<u8>, s: Grid)
    requires
        well_formed_grid(g),
        0 <= p < 81,
        filled_before(g, p),
        cell_at(g, p) is Empty,
        pool_fits(g, p, pool),
        is_completion(s, g),
        exists|n: int|
            0 <= n < pool.len() && cell_at(s, p) == SudokuCell::Filled(#[trigger] pool[n]),
    ensures
        explore(g, p, pool).contains(s),
    decreases 81 - p, 0int, pool.len(),
{
    let d = pool.last();
    let h = with_cell(g, p, SudokuCell::Filled(d));
    let first = solutions_from(h, p + 1);
    let rest = explore(g, p, pool.drop_last());
    assert(pool.len() > 0);
    assert(explore(g, p, pool) == first + rest);
    lemma_place_well_formed(g, p, d);
    lemma_with_cell(g, p, SudokuCell::Filled(d));
    if cell_at(s, p) == SudokuCell::Filled(d) {
        assert forall|r: int, c: int|
            in_board(r, c) && h[r][c] is Filled implies #[trigger] s[r][c] == h[r][c] by {
            if 9 * r + c == p {
                assert(cell_at(s, p) == s[r][c]);
            }
        }
        lemma_solutions_from_complete(h, p + 1, s);
        let i = choose|i: int| 0 <= i < first.len() && first[i] == s;
        assert((first + rest)[i] == s);
    } else {
        let n = choose|n: int|
            0 <= n < pool.len() && cell_at(s, p) == SudokuCell::Filled(#[trigger] pool[n]);
        assert(pool.drop_last()[n] == pool[n]);
        assert(pool_fits(g, p, pool.drop_last()));
        lemma_explore_complete(g, p, pool.drop_last(), s);
        let i = choose|i: int| 0 <= i < rest.len() && rest[i] == s;
        assert((first + rest)[first.len() + i] == s);
    }
}

/// Every solution of a well-formed board is a well-formed board without an
/// empty cell that keeps every digit of the puzzle; it breaks no rule when
/// the puzzle breaks none.
pub proof fn lemma_solutions_complete_the_puzzle(g: Grid, i: int)
    requires
        well_formed_grid(g),
        0 <= i < all_solutions(g).len(),
    ensures
        well_formed_grid(all_solutions(g)[i]),
        complete_grid(all_solutions(g)[i]),
        extends_grid(all_solutions(g)[i], g),
        valid_grid(g) ==> is_completion(all_solutions(g)[i], g),
{
    lemma_solutions_from_sound(g, 0, i);
}

/// Every board that completes a well-formed puzzle within the rules is one
/// of its solutions.
pub proof fn lemma_completions_are_solutions(g: Grid, s: Grid)
    requires
        well_formed_grid(g),
        is_completion(s, g),
    ensures
        all_solutions(g).contains(s),
{
    lemma_solutions_from_complete(g, 0, s);
}

/// The solutions of a well-formed puzzle that breaks no rule are the boards
/// that complete it within the rules, and no others.
pub proof fn lemma_solutions_are_the_completions(g: Grid, s: Grid)
    requires
        well_formed_grid(g),
        valid_grid(g),
    ensures
        all_solutions(g).contains(s) <==> is_completion(s, g),
{
    if all_solutions(g).contains(s) {
        let i = choose|i: int| 0 <= i < all_solutions(g).len() && all_solutions(g)[i] == s;
        lemma_solutions_complete_the_puzzle(g, i);
    }
    if is_completion(s, g) {
        lemma_completions_are_solutions(g, s);
    }
}

/// The solutions of a well-formed board come in the order of the search:
/// an earlier one holds the larger digit in the first cell in which two of
/// them differ.
pub proof fn lemma_solutions_fall(g: Grid, i: int, j: int)
    requires
        well_formed_grid(g),
        0 <= i < j < all_solutions(g).len(),
    ensures
        precedes(all_solutions(g)[i], all_solutions(g)[j]),
{
    lemma_solutions_from_ordered(g, 0, i, j);
}

/// No board comes twice among the solutions of a well-formed board.
pub proof fn lemma_solutions_distinct(g: Grid)
    requires
        well_formed_grid(g),
    ensures
        all_solutions(g).no_duplicates(),
{
    let all = all_solutions(g);
    assert forall|i: int, j: int| 0 <= i < all.len() && 0 <= j < all.len() && i != j implies all[i]
        != all[j] by {
        if i < j {
            lemma_solutions_fall(g, i, j);
            let m = choose|m: int| parts_at(all[i], all[j], m);
            assert(digit_at(all[i], m) != digit_at(all[j], m));
        } else {
            lemma_solutions_fall(g, j, i);
            let m = choose|m: int| parts_at(all[j], all[i], m);
            assert(digit_at(all[i], m) != digit_at(all[j], m));
        }
    }
}

/// A board without an empty cell has one solution: itself.
pub proof fn lemma_complete_board_solves_itself(g: Grid)
    requires
        complete_grid(g),
    ensures
        all_solutions(g) == seq![g],
{
    lemma_first_empty_from(g, 0);
    lemma_filled_before_all(g);
}

/// A well-formed board with one empty cell, of rank `p`, for which `d` is
/// the only digit between 1 and 9 that stands nowhere in the units of that
/// cell, has one solution: the board with `d` in that cell.
pub proof fn lemma_last_cell_has_one_solution(g: Grid, p: int, d: u8)
    requires
        well_formed_grid(g),
        0 <= p < 81,
        cell_at(g, p) is Empty,
        forall|k: int| 0 <= k < 81 && k != p ==> #[trigger] cell_at(g, k) is Filled,
        1 <= d <= 9,
        forall|v: u8| 1 <= v <= 9 ==> (#[trigger] digit_seen(g, p / 9, p % 9, v) <==> v != d),
    ensures
        all_solutions(g) == seq![with_cell(g, p, SudokuCell::Filled(d))],
{
    let h = with_cell(g, p, SudokuCell::Filled(d));
    let pool = candidate_digits(g, p / 9, p % 9);
    lemma_first_empty_from(g, 0);
    assert(first_empty_from(g, 0) == p);
    lemma_free_digits_rise(g, p / 9, p % 9, 9);
    lemma_free_digits_contains(g, p / 9, p % 9, 9, d);
    assert(pool.len() == 1 && pool[0] == d) by {
        let n = choose|n: int| 0 <= n < pool.len() && pool[n] == d;
        assert forall|m: int| 0 <= m < pool.len() implies pool[m] == d by {
            lemma_free_digits_contains(g, p / 9, p % 9, 9, pool[m]);
            assert(pool.contains(pool[m]));
        }
        if pool.len() > 1 {
            assert(pool[0] < pool[1]);
        }
    }
    lemma_with_cell(g, p, SudokuCell::Filled(d));
    lemma_first_empty_from(h, p + 1);
    assert(solutions_from(h, p + 1) == seq![h]);
    assert(pool.drop_last().len() == 0);
    assert(explore(g, p, pool.drop_last()) == Seq::<Grid>::empty());
    assert(explore(g, p, pool) == solutions_from(h, p + 1) + explore(g, p, pool.drop_last()));
    assert(all_solutions(g) =~= seq![h]);
}

} // verus!
