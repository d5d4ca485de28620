use sudoku_solver::sudoku::solver::SudokuSolver;
use sudoku_solver::sudoku::{CellLocation, SudokuCell, SudokuTable};

fn lines_of(text: &str) -> Vec<String> {
    text.lines().map(String::from).collect()
}

fn table_of(text: &str) -> SudokuTable {
    SudokuTable::from_string(lines_of(text)).unwrap()
}

fn text_of(table: &SudokuTable) -> String {
    let mut text = String::new();
    for row in table.contents() {
        for cell in row {
            text.push_str(match cell {
                SudokuCell::Empty => "X",
                SudokuCell::Filled(_) => cell.symbol(),
            });
        }
        text.push('\n');
    }
    text
}

fn all_of(table: &SudokuTable) -> Vec<SudokuTable> {
    let mut solver = SudokuSolver::new(table);
    let mut found = Vec::new();
    while let Some(solution) = solver.next() {
        found.push(solution);
    }
    assert!(solver.next().is_none());
    found
}

const CLASSIC: &str = "XX1XXXXX2\n\
    XXXX34XXX\n\
    X5XXX1XX6\n\
    X2X6XXXX3\n\
    X3XXXXX5X\n\
    7XXXX8X9X\n\
    9XX4XXX3X\n\
    XXX71XXXX\n\
    8XXXXX4XX\n";

const SOLVED: &str = "391867542\n\
    286534719\n\
    457291386\n\
    129645873\n\
    638179254\n\
    745328691\n\
    972486135\n\
    564713928\n\
    813952467\n";

#[test]
fn single_solution() {
    let input_puzzle = "XX1XXXXX2\n\
        XXXX34XXX\n\
        X5XXX1XX6\n\
        X2X6XXXX3\n\
        X3XXXXX5X\n\
        7XXXX8X9X\n\
        9XX4XXX3X\n\
        XXX71XXXX\n\
        8XXXXX4XX";

    let solution_string = "391867542\n\
        286534719\n\
        457291386\n\
        129645873\n\
        638179254\n\
        745328691\n\
        972486135\n\
        564713928\n\
        813952467\n";

    let table = SudokuTable::from_string(lines_of(input_puzzle)).unwrap();
    let mut solver = SudokuSolver::new(&table);

    let solution = solver.next().unwrap();

    assert_eq!(
        solution.contents(),
        SudokuTable::from_string(lines_of(solution_string))
            .unwrap()
            .contents()
    );

    assert!(solver.next().is_none());
}

#[test]
fn classic_puzzle_first_row() {
    let mut solver = SudokuSolver::new(&table_of(CLASSIC));

    let solution = solver.next().unwrap();

    assert_eq!(text_of(&solution).lines().next().unwrap(), "391867542");
    assert!(solver.next().is_none());
}

#[test]
fn complete_board_is_its_only_solution() {
    let table = table_of(SOLVED);
    let mut solver = SudokuSolver::new(&table);

    let solution = solver.next().unwrap();

    assert_eq!(solution.contents(), table.contents());
    assert!(solver.next().is_none());
    assert!(solver.next().is_none());
}

#[test]
fn one_empty_cell_has_one_solution() {
    let mut table = table_of(SOLVED);
    table.set(CellLocation::new(4, 4).unwrap(), SudokuCell::Empty);
    let mut solver = SudokuSolver::new(&table);

    let solution = solver.next().unwrap();

    assert_eq!(text_of(&solution), SOLVED);
    assert!(solver.next().is_none());
}

#[test]
fn last_cell_empty_has_one_solution() {
    let mut table = table_of(SOLVED);
    table.set(CellLocation::new(8, 8).unwrap(), SudokuCell::Empty);

    let found = all_of(&table);

    assert_eq!(found.len(), 1);
    assert_eq!(text_of(&found[0]), SOLVED);
}

#[test]
fn two_solutions_come_in_falling_order() {
    let table = table_of(
        "39X86X542\n\
        286534719\n\
        45X29X386\n\
        129645873\n\
        638179254\n\
        745328691\n\
        972486135\n\
        564713928\n\
        813952467\n",
    );
    let mut solver = SudokuSolver::new(&table);

    let first = solver.next().unwrap();
    let second = solver.next().unwrap();

    assert_eq!(
        text_of(&first),
        "397861542\n\
        286534719\n\
        451297386\n\
        129645873\n\
        638179254\n\
        745328691\n\
        972486135\n\
        564713928\n\
        813952467\n"
    );
    assert_eq!(text_of(&second), SOLVED);
    assert!(solver.next().is_none());
}

#[test]
fn every_solution_comes_once() {
    let table = table_of(
        "XXXXXXXXX\n\
        XXXXXXXXX\n\
        XXXXXXXXX\n\
        129645873\n\
        638179254\n\
        745328691\n\
        972486135\n\
        564713928\n\
        813952467\n",
    );

    let found: Vec<String> = all_of(&table).iter().map(text_of).collect();

    assert_eq!(found.len(), 156);
    for i in 0..found.len() {
        for j in (i + 1)..found.len() {
            assert_ne!(found[i], found[j]);
        }
    }
    assert!(found[0].starts_with("497561382\n381297546\n256834719\n"));
    assert!(found[1].starts_with("497561382\n256834719\n381297546\n"));
    assert!(found[2].starts_with("497231586\n386594712\n251867349\n"));
    assert!(found[155].starts_with("251867349\n386594712\n497231586\n"));
    assert!(found.contains(&String::from(SOLVED)));
}

#[test]
fn solutions_fall_in_reading_order() {
    let table = table_of(
        "XXXXXXXXX\n\
        XXXXXXXXX\n\
        XXXXXXXXX\n\
        129645873\n\
        638179254\n\
        745328691\n\
        972486135\n\
        564713928\n\
        813952467\n",
    );

    let found: Vec<String> = all_of(&table).iter().map(text_of).collect();

    for pair in found.windows(2) {
        assert!(pair[0] > pair[1]);
    }
}

#[test]
fn solutions_are_valid_and_keep_the_puzzle() {
    let table = table_of(
        "XXXXXXXXX\n\
        XXXXXXXXX\n\
        XXXXXXXXX\n\
        129645873\n\
        638179254\n\
        745328691\n\
        972486135\n\
        564713928\n\
        8139524XX\n",
    );
    assert!(table.is_valid_sudoku());

    let found = all_of(&table);

    assert!(!found.is_empty());
    for solution in &found {
        assert!(solution.is_valid_sudoku());
        for row in 0..9 {
            for col in 0..9 {
                let location = CellLocation::new(row, col).unwrap();
                assert_ne!(solution.get(location), SudokuCell::Empty);
                if table.get(location) != SudokuCell::Empty {
                    assert_eq!(solution.get(location), table.get(location));
                }
            }
        }
    }
}

#[test]
fn puzzle_without_solution_yields_nothing() {
    let table = table_of(
        "12345678X\n\
        XXXXXXXX9\n\
        XXXXXXXXX\n\
        XXXXXXXXX\n\
        XXXXXXXXX\n\
        XXXXXXXXX\n\
        XXXXXXXXX\n\
        XXXXXXXXX\n\
        XXXXXXXXX\n",
    );
    assert!(table.is_valid_sudoku());
    let mut solver = SudokuSolver::new(&table);

    assert!(solver.next().is_none());
    assert!(solver.next().is_none());
}

#[test]
fn solver_leaves_the_puzzle_alone() {
    let table = table_of(CLASSIC);
    let before = text_of(&table);
    let mut solver = SudokuSolver::new(&table);

    let solution = solver.next().unwrap();

    assert_eq!(text_of(&table), before);
    assert_eq!(text_of(&table), CLASSIC);
    assert_eq!(text_of(&solution), SOLVED);
}

#[test]
fn solution_stays_as_the_search_goes_on() {
    let table = table_of(
        "39X86X542\n\
        286534719\n\
        45X29X386\n\
        129645873\n\
        638179254\n\
        745328691\n\
        972486135\n\
        564713928\n\
        813952467\n",
    );
    let mut solver = SudokuSolver::new(&table);

    let first = solver.next().unwrap();
    let first_text = text_of(&first);
    let _second = solver.next().unwrap();
    let _end = solver.next();

    assert_eq!(text_of(&first), first_text);
    assert!(first_text.starts_with("397861542\n"));
}

#[test]
fn a_fresh_solver_searches_again() {
    let table = table_of(CLASSIC);
    let mut first_run = SudokuSolver::new(&table);
    assert!(first_run.next().is_some());
    assert!(first_run.next().is_none());

    let mut second_run = SudokuSolver::new(&table);

    assert_eq!(text_of(&second_run.next().unwrap()), SOLVED);
    assert!(second_run.next().is_none());
}

#[test]
fn collect_remaining_hands_out_the_rest() {
    let table = table_of(
        "39X86X542\n\
        286534719\n\
        45X29X386\n\
        129645873\n\
        638179254\n\
        745328691\n\
        972486135\n\
        564713928\n\
        813952467\n",
    );

    let mut solver = SudokuSolver::new(&table);
    let all: Vec<String> = solver.collect_remaining().iter().map(text_of).collect();
    assert_eq!(all.len(), 2);
    assert!(all[0].starts_with("397861542\n"));
    assert_eq!(all[1], SOLVED);
    assert!(solver.next().is_none());
    assert!(solver.collect_remaining().is_empty());

    let mut solver = SudokuSolver::new(&table);
    let first = solver.next().unwrap();
    let rest = solver.collect_remaining();
    assert_eq!(text_of(&first), all[0]);
    assert_eq!(rest.len(), 1);
    assert_eq!(text_of(&rest[0]), all[1]);
}
