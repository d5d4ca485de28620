use sudoku_solver::sudoku::{CellLocation, ParseError, SudokuCell, SudokuTable};

fn lines_of(text: &str) -> Vec<String> {
    text.lines().map(String::from).collect()
}

fn solved_lines() -> Vec<String> {
    lines_of(
        "391867542\n\
        286534719\n\
        457291386\n\
        129645873\n\
        638179254\n\
        745328691\n\
        972486135\n\
        564713928\n\
        813952467\n",
    )
}

fn at(row: usize, col: usize) -> CellLocation {
    CellLocation::new(row, col).unwrap()
}

#[test]
fn correct_table_string() {
    let correct_table_string = "3X65X84XX\n\
        52XXXXXXX\n\
        X87XXXX31\n\
        XX3X1XX8X\n\
        9XX863XX5\n\
        X5XX9X6XX\n\
        13XXXX25X\n\
        XXXXXXX74\n\
        XX52X63XX\n";

    let parsed = SudokuTable::from_string(lines_of(correct_table_string)).unwrap();
    let table = parsed.contents();

    assert_eq!(table.len(), 9);
    for row in table {
        assert_eq!(row.len(), 9);
    }
}

#[test]
fn incorrect_table_string_too_few_lines() {
    let incorrect_table_string = "3X65X84XX\n\
        52XXXXXXX\n\
        X87XXXX31\n\
        XX3X1XX8X\n\
        9XX863XX5\n\
        X5XX9X6XX\n\
        13XXXX25X\n\
        XX52X63XX\n";

    let lines = lines_of(incorrect_table_string);
    assert_eq!(lines.len(), 8);
    assert_eq!(
        SudokuTable::from_string(lines).unwrap_err(),
        ParseError::TooFewLines
    );
}

#[test]
fn incorrect_table_string_too_many_lines() {
    let incorrect_table_string = "3X65X84XX\n\
        52XXXXXXX\n\
        X87XXXX31\n\
        XX3X1XX8X\n\
        9XX863XX5\n\
        X5XX9X6XX\n\
        13XXXX25X\n\
        XXXXXXX74\n\
        XX52X63XX\n
        7XXXXXXXX\n";

    assert_eq!(
        SudokuTable::from_string(lines_of(incorrect_table_string)).unwrap_err(),
        ParseError::TooManyLines
    );
}

#[test]
fn incorrect_table_string_invalid_line_length() {
    let incorrect_table_string = "3X65X84XX\n\
        52XXXXXXX\n\
        X87XXXX31\n\
        XX3X1XX8X\n\
        9XX863XX5\n\
        X5XX9X6XX\n\
        13XXXX25X\n\
        XXXXXXX7\n\
        XX52X63XX\n";

    assert_eq!(
        SudokuTable::from_string(lines_of(incorrect_table_string)).unwrap_err(),
        ParseError::BadLineLength
    );
}

#[test]
fn incorrect_table_string_invalid_col() {
    let incorrect_table_string = "3X65X84XX\n\
        52XXXXXXX\n\
        X87XXXX31\n\
        XX3X1XX8X\n\
        9XX863XX5\n\
        X5XX9X6XX\n\
        13XXXX25X\n\
        XXXXXXX74\n\
        5X52X63XX\n";

    assert_eq!(
        SudokuTable::from_string(lines_of(incorrect_table_string)).unwrap_err(),
        ParseError::InvalidPuzzle
    );
}

#[test]
fn display() {
    let correct_display = "┌───┬───┬───┐ ┌───┬───┬───┐ ┌───┬───┬───┐\n\
        │ 3 │ 9 │ 1 │ │ 8 │ 6 │ 7 │ │ 5 │ 4 │ 2 │\n\
        ├───┼───┼───┤ ├───┼───┼───┤ ├───┼───┼───┤\n\
        │ 2 │ 8 │ 6 │ │ 5 │ 3 │ 4 │ │ 7 │ 1 │ 9 │\n\
        ├───┼───┼───┤ ├───┼───┼───┤ ├───┼───┼───┤\n\
        │ 4 │ 5 │ 7 │ │ 2 │ 9 │ 1 │ │ 3 │ 8 │ 6 │\n\
        └───┴───┴───┘ └───┴───┴───┘ └───┴───┴───┘\n\
        ┌───┬───┬───┐ ┌───┬───┬───┐ ┌───┬───┬───┐\n\
        │ 1 │ 2 │ 9 │ │ 6 │ 4 │ 5 │ │ 8 │ 7 │ 3 │\n\
        ├───┼───┼───┤ ├───┼───┼───┤ ├───┼───┼───┤\n\
        │ 6 │ 3 │ 8 │ │ 1 │ 7 │ 9 │ │ 2 │ 5 │ 4 │\n\
        ├───┼───┼───┤ ├───┼───┼───┤ ├───┼───┼───┤\n\
        │ 7 │ 4 │ 5 │ │ 3 │ 2 │ 8 │ │ 6 │ 9 │ 1 │\n\
        └───┴───┴───┘ └───┴───┴───┘ └───┴───┴───┘\n\
        ┌───┬───┬───┐ ┌───┬───┬───┐ ┌───┬───┬───┐\n\
        │ 9 │ 7 │ 2 │ │ 4 │ 8 │ 6 │ │ 1 │ 3 │ 5 │\n\
        ├───┼───┼───┤ ├───┼───┼───┤ ├───┼───┼───┤\n\
        │ 5 │ 6 │ 4 │ │ 7 │ 1 │ 3 │ │ 9 │ 2 │ 8 │\n\
        ├───┼───┼───┤ ├───┼───┼───┤ ├───┼───┼───┤\n\
        │ 8 │ 1 │ 3 │ │ 9 │ 5 │ 2 │ │ 4 │ 6 │ 7 │\n\
        └───┴───┴───┘ └───┴───┴───┘ └───┴───┴───┘\n";

    let sudoku_table = SudokuTable::from_string(solved_lines()).unwrap();

    assert_eq!(sudoku_table.render().trim(), correct_display.trim());
}

#[test]
fn render_ends_every_line_and_leaves_empty_cells_blank() {
    let table = SudokuTable::from_string(lines_of(
        "XX1XXXXX2\n\
        XXXX34XXX\n\
        X5XXX1XX6\n\
        X2X6XXXX3\n\
        X3XXXXX5X\n\
        7XXXX8X9X\n\
        9XX4XXX3X\n\
        XXX71XXXX\n\
        8XXXXX4XX",
    ))
    .unwrap();

    let text = table.render();
    let lines: Vec<&str> = text.lines().collect();

    assert!(text.ends_with("└───┴───┴───┘ └───┴───┴───┘ └───┴───┴───┘\n"));
    assert_eq!(lines.len(), 21);
    assert_eq!(lines[0], "┌───┬───┬───┐ ┌───┬───┬───┐ ┌───┬───┬───┐");
    assert_eq!(lines[1], "│   │   │ 1 │ │   │   │   │ │   │   │ 2 │");
    assert_eq!(lines[2], "├───┼───┼───┤ ├───┼───┼───┤ ├───┼───┼───┤");
    assert_eq!(lines[5], "│   │ 5 │   │ │   │   │ 1 │ │   │   │ 6 │");
    assert_eq!(lines[6], "└───┴───┴───┘ └───┴───┴───┘ └───┴───┴───┘");
    assert_eq!(lines[7], "┌───┬───┬───┐ ┌───┬───┬───┐ ┌───┬───┬───┐");
    assert_eq!(lines[19], "│ 8 │   │   │ │   │   │   │ │ 4 │   │   │");
}

#[test]
fn render_shows_what_is_no_digit_of_the_game() {
    let mut table = SudokuTable::from_string(solved_lines()).unwrap();
    table.contents_mut()[0][0] = SudokuCell::Filled(0);
    table.contents_mut()[0][1] = SudokuCell::Filled(10);
    table.contents_mut()[0][2] = SudokuCell::Filled(255);

    let text = table.render();

    assert_eq!(
        text.lines().nth(1).unwrap(),
        "│ 0 │ ! │ ! │ │ 8 │ 6 │ 7 │ │ 5 │ 4 │ 2 │"
    );
}

#[test]
fn symbol_of_each_cell() {
    assert_eq!(SudokuCell::Empty.symbol(), " ");
    assert_eq!(SudokuCell::Filled(0).symbol(), "0");
    assert_eq!(SudokuCell::Filled(1).symbol(), "1");
    assert_eq!(SudokuCell::Filled(5).symbol(), "5");
    assert_eq!(SudokuCell::Filled(9).symbol(), "9");
    assert_eq!(SudokuCell::Filled(10).symbol(), "!");
    assert_eq!(SudokuCell::Filled(200).symbol(), "!");
}

#[test]
fn parsed_cells_are_the_characters() {
    let table = SudokuTable::from_string(lines_of(
        "3X65X84XX\n\
        52XXXXXXX\n\
        X87XXXX31\n\
        XX3X1XX8X\n\
        9XX863XX5\n\
        X5XX9X6XX\n\
        13XXXX25X\n\
        XXXXXXX74\n\
        XX52X63XX\n",
    ))
    .unwrap();

    let rows = table.contents();
    assert_eq!(rows[0][0], SudokuCell::Filled(3));
    assert_eq!(rows[0][1], SudokuCell::Empty);
    assert_eq!(rows[0][2], SudokuCell::Filled(6));
    assert_eq!(rows[2][8], SudokuCell::Filled(1));
    assert_eq!(rows[4][0], SudokuCell::Filled(9));
    assert_eq!(rows[8][8], SudokuCell::Empty);
    assert_eq!(
        rows[7],
        vec![
            SudokuCell::Empty,
            SudokuCell::Empty,
            SudokuCell::Empty,
            SudokuCell::Empty,
            SudokuCell::Empty,
            SudokuCell::Empty,
            SudokuCell::Empty,
            SudokuCell::Filled(7),
            SudokuCell::Filled(4),
        ]
    );
}

#[test]
fn extract_row_reads_every_digit() {
    let row = SudokuTable::extract_row_from_line(&String::from("123456789")).unwrap();
    let digits: Vec<SudokuCell> = (1..=9).map(SudokuCell::Filled).collect();
    assert_eq!(row, digits);

    let row = SudokuTable::extract_row_from_line(&String::from("XXXXXXXXX")).unwrap();
    assert_eq!(row, vec![SudokuCell::Empty; 9]);
}

#[test]
fn extract_row_rejects_what_is_no_row() {
    let extract = |line: &str| SudokuTable::extract_row_from_line(&String::from(line));

    assert_eq!(extract(""), Err(ParseError::BadLineLength));
    assert_eq!(extract("12345678"), Err(ParseError::BadLineLength));
    assert_eq!(extract("1234567890"), Err(ParseError::BadLineLength));
    assert_eq!(extract("123456780"), Err(ParseError::IllegalCharacter('0')));
    assert_eq!(extract("12345x789"), Err(ParseError::IllegalCharacter('x')));
    assert_eq!(extract("1234 6789"), Err(ParseError::IllegalCharacter(' ')));
    assert_eq!(extract("a2345678b"), Err(ParseError::IllegalCharacter('a')));
    assert_eq!(extract("a2345678"), Err(ParseError::BadLineLength));
}

#[test]
fn line_length_counts_characters() {
    let extract = |line: &str| SudokuTable::extract_row_from_line(&String::from(line));

    assert_eq!(extract("12345678é"), Err(ParseError::IllegalCharacter('é')));
    assert_eq!(extract("1234567é"), Err(ParseError::BadLineLength));
}

#[test]
fn short_fifth_line_is_a_bad_line_length() {
    let mut lines = solved_lines();
    lines[4] = String::from("63817925");

    assert_eq!(
        SudokuTable::from_string(lines).unwrap_err(),
        ParseError::BadLineLength
    );
}

#[test]
fn eight_lines_are_too_few() {
    let mut lines = solved_lines();
    lines.pop();

    assert_eq!(
        SudokuTable::from_string(lines).unwrap_err(),
        ParseError::TooFewLines
    );
    assert_eq!(
        SudokuTable::from_string(Vec::new()).unwrap_err(),
        ParseError::TooFewLines
    );
}

#[test]
fn repeated_digit_in_a_row_is_an_invalid_puzzle() {
    let lines = lines_of(
        "1XXXXXXX1\n\
        XXXXXXXXX\n\
        XXXXXXXXX\n\
        XXXXXXXXX\n\
        XXXXXXXXX\n\
        XXXXXXXXX\n\
        XXXXXXXXX\n\
        XXXXXXXXX\n\
        XXXXXXXXX\n",
    );

    assert_eq!(
        SudokuTable::from_string(lines).unwrap_err(),
        ParseError::InvalidPuzzle
    );
}

#[test]
fn repeated_digit_in_a_box_is_an_invalid_puzzle() {
    let lines = lines_of(
        "XXXXXXXXX\n\
        XXXXXXXXX\n\
        XXXXXXXXX\n\
        XXX4XXXXX\n\
        XXXXXXXXX\n\
        XXXXX4XXX\n\
        XXXXXXXXX\n\
        XXXXXXXXX\n\
        XXXXXXXXX\n",
    );

    assert_eq!(
        SudokuTable::from_string(lines).unwrap_err(),
        ParseError::InvalidPuzzle
    );
}

#[test]
fn illegal_character_is_reported_with_the_character() {
    let mut lines = solved_lines();
    lines[3] = String::from("12964?87!");

    assert_eq!(
        SudokuTable::from_string(lines).unwrap_err(),
        ParseError::IllegalCharacter('?')
    );
}

#[test]
fn first_bad_line_decides() {
    let mut lines = solved_lines();
    lines[2] = String::from("45729Z386");
    lines[6] = String::from("97");
    assert_eq!(
        SudokuTable::from_string(lines).unwrap_err(),
        ParseError::IllegalCharacter('Z')
    );

    let mut lines = solved_lines();
    lines[2] = String::from("97");
    lines[6] = String::from("45729Z386");
    assert_eq!(
        SudokuTable::from_string(lines).unwrap_err(),
        ParseError::BadLineLength
    );
}

#[test]
fn bad_line_comes_before_line_count() {
    let mut lines = solved_lines();
    lines.pop();
    lines[0] = String::from("39186754");
    assert_eq!(
        SudokuTable::from_string(lines).unwrap_err(),
        ParseError::BadLineLength
    );

    let mut lines = solved_lines();
    lines.push(String::from("XXXXXXXXX"));
    lines[8] = String::from("81395246q");
    assert_eq!(
        SudokuTable::from_string(lines).unwrap_err(),
        ParseError::IllegalCharacter('q')
    );
}

#[test]
fn lines_after_the_ninth_are_not_read() {
    let mut lines = solved_lines();
    lines.push(String::from("not a row"));
    assert_eq!(
        SudokuTable::from_string(lines).unwrap_err(),
        ParseError::TooManyLines
    );

    let mut lines = solved_lines();
    lines.push(String::from("XXXXXXXXX"));
    lines.push(String::from("XXXXXXXXX"));
    assert_eq!(
        SudokuTable::from_string(lines).unwrap_err(),
        ParseError::TooManyLines
    );
}

#[test]
fn line_count_comes_before_the_rules() {
    let mut lines = solved_lines();
    lines[8] = String::from("813952461");
    lines.push(String::from("XXXXXXXXX"));
    assert_eq!(
        SudokuTable::from_string(lines).unwrap_err(),
        ParseError::TooManyLines
    );
}

#[test]
fn validity_follows_the_cells() {
    let mut table = SudokuTable::from_string(solved_lines()).unwrap();
    assert!(table.is_valid_sudoku());

    table.set(at(0, 0), SudokuCell::Empty);
    assert!(table.is_valid_sudoku());

    table.set(at(0, 0), SudokuCell::Filled(9));
    assert!(!table.is_valid_sudoku());

    table.set(at(0, 0), SudokuCell::Filled(3));
    assert!(table.is_valid_sudoku());
}

#[test]
fn validity_sees_rows_columns_and_boxes() {
    let empty = vec![String::from("XXXXXXXXX"); 9];

    let mut table = SudokuTable::from_string(empty.clone()).unwrap();
    assert!(table.is_valid_sudoku());
    table.set(at(4, 0), SudokuCell::Filled(7));
    table.set(at(4, 8), SudokuCell::Filled(7));
    assert!(!table.is_valid_sudoku());

    let mut table = SudokuTable::from_string(empty.clone()).unwrap();
    table.set(at(0, 5), SudokuCell::Filled(2));
    table.set(at(8, 5), SudokuCell::Filled(2));
    assert!(!table.is_valid_sudoku());

    let mut table = SudokuTable::from_string(empty.clone()).unwrap();
    table.set(at(6, 6), SudokuCell::Filled(9));
    table.set(at(8, 8), SudokuCell::Filled(9));
    assert!(!table.is_valid_sudoku());

    let mut table = SudokuTable::from_string(empty).unwrap();
    table.set(at(2, 2), SudokuCell::Filled(9));
    table.set(at(3, 3), SudokuCell::Filled(9));
    assert!(table.is_valid_sudoku());
}

#[test]
fn get_reads_what_set_wrote() {
    let mut table = SudokuTable::from_string(solved_lines()).unwrap();
    assert_eq!(table.get(at(0, 0)), SudokuCell::Filled(3));
    assert_eq!(table.get(at(8, 8)), SudokuCell::Filled(7));
    assert_eq!(table.get(at(3, 7)), SudokuCell::Filled(7));

    table.set(at(3, 7), SudokuCell::Empty);

    assert_eq!(table.get(at(3, 7)), SudokuCell::Empty);
    assert_eq!(table.get(at(3, 6)), SudokuCell::Filled(8));
    assert_eq!(table.get(at(7, 3)), SudokuCell::Filled(7));
    assert_eq!(table.contents()[3][7], SudokuCell::Empty);
}

#[test]
fn contents_mut_changes_the_board() {
    let mut table = SudokuTable::from_string(solved_lines()).unwrap();

    table.contents_mut()[5][4] = SudokuCell::Empty;

    assert_eq!(table.get(at(5, 4)), SudokuCell::Empty);
    assert_eq!(table.get(at(5, 3)), SudokuCell::Filled(3));
    assert_eq!(table.get(at(4, 4)), SudokuCell::Filled(7));
}

#[test]
fn clone_is_a_board_of_its_own() {
    let table = SudokuTable::from_string(solved_lines()).unwrap();
    let mut copy = table.clone();
    assert_eq!(copy.contents(), table.contents());

    copy.set(at(0, 0), SudokuCell::Empty);

    assert_eq!(table.get(at(0, 0)), SudokuCell::Filled(3));
    assert_eq!(copy.get(at(0, 0)), SudokuCell::Empty);
}

#[test]
fn locations_lie_on_the_board() {
    let location = CellLocation::new(8, 0).unwrap();
    assert_eq!(location.row(), 8);
    assert_eq!(location.col(), 0);

    assert!(CellLocation::new(0, 0).is_some());
    assert!(CellLocation::new(8, 8).is_some());
    assert!(CellLocation::new(9, 0).is_none());
    assert!(CellLocation::new(0, 9).is_none());
    assert!(CellLocation::new(usize::MAX, usize::MAX).is_none());
}
