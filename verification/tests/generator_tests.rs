use sudoku_solver::grid::digit::Digit;
use sudoku_solver::grid::generator::Generator;
use sudoku_solver::grid::parser::Parser;
use sudoku_solver::grid::{Grid, Subgrid};

#[test]
fn test_grid_is_drawn() {
    let syntax = "530070000600195000098000060800060003400803001700020006060000280000419005000080079";
    let grid = Parser::new().parse(syntax.to_owned()).unwrap();
    let generator = Generator::default();
    assert!(generator.can_generate(&grid));
    let expected = "._____________________________.
|         |         |         |
|  5 3 0  |  0 7 0  |  0 0 0  |  
|  6 0 0  |  1 9 5  |  0 0 0  |  
|  0 9 8  |  0 0 0  |  0 6 0  |  
|_________|_________|_________|
|         |         |         |
|  8 0 0  |  0 6 0  |  0 0 3  |  
|  4 0 0  |  8 0 3  |  0 0 1  |  
|  7 0 0  |  0 2 0  |  0 0 6  |  
|_________|_________|_________|
|         |         |         |
|  0 6 0  |  0 0 0  |  2 8 0  |  
|  0 0 0  |  4 1 9  |  0 0 5  |  
|  0 0 0  |  0 8 0  |  0 7 9  |  
|_________|_________|_________|";
    assert_eq!(generator.generate(&grid), Ok(expected.to_owned()));
}

#[test]
fn test_undetermined_grid_is_drawn_with_zeros() {
    let text = Generator::new().generate(&Grid::default()).unwrap();
    assert_eq!(text.len(), 31 + 3 * (33 + 3 * 34 + 31));
    assert_eq!(text.matches('0').count(), 81);
    assert!(text.starts_with("._____________________________.\n|         |"));
    assert!(text.ends_with("\n|_________|_________|_________|"));
}

#[test]
fn test_every_numeral_has_its_character() {
    assert_eq!(Digit::from(0).to_char(), '0');
    assert_eq!(Digit::Known(0).to_char(), '0');
    assert_eq!(Digit::Known(1).to_char(), '1');
    assert_eq!(Digit::Known(5).to_char(), '5');
    assert_eq!(Digit::Known(9).to_char(), '9');
}

#[test]
fn test_grids_that_cannot_be_drawn() {
    let generator = Generator::new();
    let mut grid = Grid::default();
    assert!(generator.can_generate(&grid));
    grid.set_digit(3, 3, Digit::Known(9));
    assert!(generator.can_generate(&grid));
    grid.set_digit(8, 8, Digit::Known(10));
    assert!(!generator.can_generate(&grid));
    let short = Grid::new(vec![Subgrid::default()]);
    assert!(!generator.can_generate(&short));
    assert!(!short.is_well_formed());
}
