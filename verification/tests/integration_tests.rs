use sudoku_solver::grid::parser::Parser;
use sudoku_solver::solver::Solver;

const EASY_GRID: &str = "5,3,0,0,7,0,0,0,0;
6,0,0,1,9,5,0,0,0;
0,9,8,0,0,0,0,6,0;
8,0,0,0,6,0,0,0,3;
4,0,0,8,0,3,0,0,1;
7,0,0,0,2,0,0,0,6;
0,6,0,0,0,0,2,8,0;
0,0,0,4,1,9,0,0,5;
0,0,0,0,8,0,0,7,9;
";

const MEDIUM_GRID: &str = "0,0,0,0,0,0,9,0,7;
0,0,0,4,2,0,1,8,0;
0,0,0,7,0,5,0,2,6;
1,0,0,9,0,4,0,0,0;
0,5,0,0,0,0,0,4,0;
0,0,0,5,0,7,0,0,9;
9,2,0,1,0,8,0,0,0;
0,3,4,0,5,9,0,0,0;
5,0,7,0,0,0,0,0,0;
";

const HARD_GRID: &str = "1,0,0,9,2,0,0,0,0;
5,2,4,0,1,0,0,0,0;
0,0,0,0,0,0,0,7,0;
0,5,0,0,0,8,1,0,2;
0,0,0,0,0,0,0,0,0;
4,0,2,7,0,0,0,9,0;
0,6,0,0,0,0,0,0,0;
0,0,0,0,3,0,9,4,5;
0,0,0,0,7,1,0,0,6;
";

fn test_grid_is_solved_correctly(board_syntax: &'static str) {
    let grid_syntax = board_syntax.to_owned();
    let parser = Parser::default();
    let grid = parser.parse(grid_syntax).unwrap();
    let solver = Solver::new(grid);
    let solved_grid = solver.solve().unwrap();
    assert!(solved_grid.is_solved_correctly());
}

#[test]
fn test_easy_board_is_solved() {
    test_grid_is_solved_correctly(EASY_GRID)
}

#[test]
fn test_medium_grid_is_solved_correctly() {
    test_grid_is_solved_correctly(MEDIUM_GRID)
}

#[test]
fn test_hard_grid_is_solved_correctly() {
    test_grid_is_solved_correctly(HARD_GRID)
}
