use std::borrow::Cow;

use sudoku_solver::grid::digit::{Digit, UnknownDigit};
use sudoku_solver::grid::parser::Parser;
use sudoku_solver::grid::{Grid, Subgrid};

const TEST_GRID: &str = "1,2,3,9,8,7,1,0,0;
4,5,6,6,5,4,0,0,0;
7,8,9,3,2,1,0,0,9;
9,8,7,1,2,3,9,0,0;
6,5,4,4,5,6,0,0,0;
3,2,1,7,8,9,0,0,1;
0,0,0,0,0,0,0,0,0;
0,0,0,0,0,0,0,0,0;
0,0,0,0,0,0,0,0,0;
";

const COMPLETE_GRID: &str = "534678912
672195348
198342567
859761423
426853791
713924856
961537284
287419635
345286179
";

#[test]
fn test_grid_is_parsed_correctly() {
    let expected = Grid::new(vec![
        Subgrid::from_digits(vec![1, 2, 3, 4, 5, 6, 7, 8, 9]),
        Subgrid::from_digits(vec![9, 8, 7, 6, 5, 4, 3, 2, 1]),
        Subgrid::from_digits(vec![1, 0, 0, 0, 0, 0, 0, 0, 9]),
        Subgrid::from_digits(vec![9, 8, 7, 6, 5, 4, 3, 2, 1]),
        Subgrid::from_digits(vec![1, 2, 3, 4, 5, 6, 7, 8, 9]),
        Subgrid::from_digits(vec![9, 0, 0, 0, 0, 0, 0, 0, 1]),
        Subgrid::default(),
        Subgrid::default(),
        Subgrid::default(),
    ]);
    let parser = Parser::default();
    let syntax = TEST_GRID.to_owned();
    let actual = parser.parse(syntax).unwrap();
    assert_eq!(expected, actual);
}

#[test]
fn test_complete_grid_parses_as_solved() {
    let grid = Parser::new().parse(COMPLETE_GRID.to_owned()).unwrap();
    assert!(grid.is_well_formed());
    for subgrid in &grid.subgrids {
        for digit in &subgrid.digits {
            assert!(matches!(digit, Digit::Known(_)));
        }
    }
    assert!(grid.is_solved());
    assert!(grid.is_solved_correctly());
    assert_eq!(grid.get_digit(0, 0), &Digit::Known(5));
    assert_eq!(grid.get_digit(8, 0), &Digit::Known(2));
    assert_eq!(grid.get_digit(0, 8), &Digit::Known(3));
    assert_eq!(grid.get_digit(3, 4), &Digit::Known(8));
}

#[test]
fn test_separators_are_ignored() {
    let parser = Parser::new();
    let plain = parser.parse("120, 3;4\n5".to_owned()).unwrap();
    let dense = parser.parse("120345".to_owned()).unwrap();
    assert_eq!(plain, dense);
}

#[test]
fn test_short_text_leaves_blocks_short() {
    let grid = Parser::new().parse("1234567890 12".to_owned()).unwrap();
    let expected = Grid::new(vec![
        Subgrid::from_digits(vec![1, 2, 3, 0, 1, 2]),
        Subgrid::from_digits(vec![4, 5, 6]),
        Subgrid::from_digits(vec![7, 8, 9]),
        Subgrid::new(vec![]),
        Subgrid::new(vec![]),
        Subgrid::new(vec![]),
        Subgrid::new(vec![]),
        Subgrid::new(vec![]),
        Subgrid::new(vec![]),
    ]);
    assert_eq!(grid, expected);
    assert!(!grid.is_well_formed());
    assert_eq!(
        grid.subgrids[0].digits[3],
        Digit::Unknown(UnknownDigit::new(vec![]))
    );
}

#[test]
fn test_empty_text_gives_nine_empty_blocks() {
    let grid = Parser::new().parse(String::new()).unwrap();
    assert_eq!(grid.subgrids.len(), 9);
    for subgrid in &grid.subgrids {
        assert!(subgrid.digits.is_empty());
    }
}

#[test]
fn test_invalid_character_is_named() {
    let result = Parser::new().parse("12a4x".to_owned());
    assert_eq!(result, Err(Cow::from("Invalid character: 'a'")));
    let result = Parser::new().parse("1.2".to_owned());
    assert_eq!(result, Err(Cow::from("Invalid character: '.'")));
    let result = Parser::new().parse("\t".to_owned());
    assert_eq!(result, Err(Cow::from("Invalid character: '\t'")));
}

#[test]
fn test_numeral_after_the_last_cell_is_rejected() {
    let mut syntax = COMPLETE_GRID.to_owned();
    syntax.push('1');
    let result = Parser::new().parse(syntax);
    assert_eq!(result, Err(Cow::from("Invalid index")));
}

#[test]
fn test_first_rejected_character_decides() {
    let mut syntax = COMPLETE_GRID.to_owned();
    syntax.push_str("?1");
    assert_eq!(
        Parser::new().parse(syntax),
        Err(Cow::from("Invalid character: '?'"))
    );
    let mut syntax = COMPLETE_GRID.to_owned();
    syntax.push_str("1?");
    assert_eq!(Parser::new().parse(syntax), Err(Cow::from("Invalid index")));
    let mut syntax = COMPLETE_GRID.to_owned();
    syntax.push_str(" ;,\n");
    assert!(Parser::new().parse(syntax).is_ok());
}

#[test]
fn test_messages_are_borrowed_or_owned_as_they_are_made() {
    let mut syntax = COMPLETE_GRID.to_owned();
    syntax.push('7');
    match Parser::new().parse(syntax) {
        Err(Cow::Borrowed(message)) => assert_eq!(message, "Invalid index"),
        _ => panic!("the numeral should be rejected with a fixed message"),
    }
    match Parser::new().parse("x".to_owned()) {
        Err(Cow::Owned(message)) => assert_eq!(message, "Invalid character: 'x'"),
        _ => panic!("the character should be rejected with a message that names it"),
    }
}
