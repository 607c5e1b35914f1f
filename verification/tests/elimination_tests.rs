use sudoku_solver::grid::digit::{Digit, UnknownDigit};
use sudoku_solver::grid::{Grid, Subgrid};
use sudoku_solver::solver::Solver;

fn unknown(possible_values: Vec<u32>) -> Digit {
    Digit::Unknown(UnknownDigit::new(possible_values))
}

#[test]
fn test_eliminate_impossible_possible_values_in_columns() {
    let grid = Grid::new(vec![
        Subgrid::new(vec![
            unknown(vec![1]),
            unknown(vec![1]),
            unknown(vec![1, 2]),
            unknown(vec![1]),
            unknown(vec![1]),
            unknown(vec![1]),
            unknown(vec![1]),
            unknown(vec![1]),
            unknown(vec![1, 2]),
        ]),
        Subgrid::default(),
        Subgrid::default(),
        Subgrid::new(vec![
            unknown(vec![1]),
            unknown(vec![1, 2]),
            unknown(vec![1, 2]),
            unknown(vec![1]),
            unknown(vec![1]),
            unknown(vec![1]),
            unknown(vec![1]),
            unknown(vec![1]),
            unknown(vec![1]),
        ]),
        Subgrid::default(),
        Subgrid::default(),
        Subgrid::new(vec![
            unknown(vec![1]),
            unknown(vec![1]),
            unknown(vec![1]),
            unknown(vec![1]),
            unknown(vec![1]),
            unknown(vec![1]),
            unknown(vec![1]),
            unknown(vec![1]),
            unknown(vec![1, 2]),
        ]),
        Subgrid::default(),
        Subgrid::default(),
    ]);
    let expected = Grid::new(vec![
        Subgrid::new(vec![
            unknown(vec![1]),
            unknown(vec![1]),
            unknown(vec![1, 2]),
            unknown(vec![1]),
            unknown(vec![1]),
            unknown(vec![1]),
            unknown(vec![1]),
            unknown(vec![1]),
            unknown(vec![1, 2]),
        ]),
        Subgrid::default(),
        Subgrid::default(),
        Subgrid::new(vec![
            unknown(vec![1]),
            unknown(vec![1, 2]),
            unknown(vec![1]),
            unknown(vec![1]),
            unknown(vec![1]),
            unknown(vec![1]),
            unknown(vec![1]),
            unknown(vec![1]),
            unknown(vec![1]),
        ]),
        Subgrid::default(),
        Subgrid::default(),
        Subgrid::new(vec![
            unknown(vec![1]),
            unknown(vec![1]),
            unknown(vec![1]),
            unknown(vec![1]),
            unknown(vec![1]),
            unknown(vec![1]),
            unknown(vec![1]),
            unknown(vec![1]),
            unknown(vec![1]),
        ]),
        Subgrid::default(),
        Subgrid::default(),
    ]);
    let mut solver = Solver::new(grid);
    solver.eliminate_impossible_possible_values_in_columns();
    assert_eq!(expected, solver.grid);
}

#[test]
fn test_eliminate_impossible_possible_values_in_columns_full() {
    let grid = Grid::new(vec![
        Subgrid::new(vec![
            unknown(vec![1]),
            unknown(vec![1]),
            unknown(vec![1, 2]),
            unknown(vec![1]),
            unknown(vec![1]),
            unknown(vec![1, 2]),
            unknown(vec![1]),
            unknown(vec![1]),
            unknown(vec![1, 2]),
        ]),
        Subgrid::default(),
        Subgrid::default(),
        Subgrid::new(vec![
            unknown(vec![1, 2]),
            unknown(vec![1, 2]),
            unknown(vec![1, 2]),
            unknown(vec![1, 2]),
            unknown(vec![1, 2]),
            unknown(vec![1, 2]),
            unknown(vec![1, 2]),
            unknown(vec![1, 2]),
            unknown(vec![1, 2]),
        ]),
        Subgrid::default(),
        Subgrid::default(),
        Subgrid::new(vec![
            unknown(vec![1, 2]),
            unknown(vec![1, 2]),
            unknown(vec![1, 2]),
            unknown(vec![1, 2]),
            unknown(vec![1, 2]),
            unknown(vec![1, 2]),
            unknown(vec![1, 2]),
            unknown(vec![1, 2]),
            unknown(vec![1, 2]),
        ]),
        Subgrid::default(),
        Subgrid::default(),
    ]);
    let expected = Grid::new(vec![
        Subgrid::new(vec![
            unknown(vec![1]),
            unknown(vec![1]),
            unknown(vec![1, 2]),
            unknown(vec![1]),
            unknown(vec![1]),
            unknown(vec![1, 2]),
            unknown(vec![1]),
            unknown(vec![1]),
            unknown(vec![1, 2]),
        ]),
        Subgrid::default(),
        Subgrid::default(),
        Subgrid::new(vec![
            unknown(vec![1, 2]),
            unknown(vec![1, 2]),
            unknown(vec![1]),
            unknown(vec![1, 2]),
            unknown(vec![1, 2]),
            unknown(vec![1]),
            unknown(vec![1, 2]),
            unknown(vec![1, 2]),
            unknown(vec![1]),
        ]),
        Subgrid::default(),
        Subgrid::default(),
        Subgrid::new(vec![
            unknown(vec![1, 2]),
            unknown(vec![1, 2]),
            unknown(vec![1]),
            unknown(vec![1, 2]),
            unknown(vec![1, 2]),
            unknown(vec![1]),
            unknown(vec![1, 2]),
            unknown(vec![1, 2]),
            unknown(vec![1]),
        ]),
        Subgrid::default(),
        Subgrid::default(),
    ]);
    let mut solver = Solver::new(grid);
    solver.eliminate_impossible_possible_values_in_columns();
    assert_eq!(expected, solver.grid);
}

#[test]
fn test_eliminate_impossible_possible_values_in_rows() {
    let grid = Grid::new(vec![
        Subgrid::new(vec![
            unknown(vec![1]),
            unknown(vec![1]),
            unknown(vec![1]),
            unknown(vec![1, 2]),
            unknown(vec![1]),
            unknown(vec![1, 2]),
            unknown(vec![1]),
            unknown(vec![1]),
            unknown(vec![1]),
        ]),
        Subgrid::new(vec![
            unknown(vec![1]),
            unknown(vec![1, 2]),
            unknown(vec![1]),
            unknown(vec![1, 2]),
            unknown(vec![1, 2]),
            unknown(vec![1]),
            unknown(vec![1, 2]),
            unknown(vec![1]),
            unknown(vec![1, 2]),
        ]),
        Subgrid::new(vec![
            unknown(vec![1]),
            unknown(vec![1]),
            unknown(vec![1]),
            unknown(vec![1]),
            unknown(vec![1, 2]),
            unknown(vec![1, 2]),
            unknown(vec![1]),
            unknown(vec![1, 2]),
            unknown(vec![1, 2]),
        ]),
        Subgrid::default(),
        Subgrid::default(),
        Subgrid::default(),
        Subgrid::default(),
        Subgrid::default(),
        Subgrid::default(),
    ]);
    let expected = Grid::new(vec![
        Subgrid::new(vec![
            unknown(vec![1]),
            unknown(vec![1]),
            unknown(vec![1]),
            unknown(vec![1, 2]),
            unknown(vec![1]),
            unknown(vec![1, 2]),
            unknown(vec![1]),
            unknown(vec![1]),
            unknown(vec![1]),
        ]),
        Subgrid::new(vec![
            unknown(vec![1]),
            unknown(vec![1, 2]),
            unknown(vec![1]),
            unknown(vec![1]),
            unknown(vec![1]),
            unknown(vec![1]),
            unknown(vec![1]),
            unknown(vec![1]),
            unknown(vec![1]),
        ]),
        Subgrid::new(vec![
            unknown(vec![1]),
            unknown(vec![1]),
            unknown(vec![1]),
            unknown(vec![1]),
            unknown(vec![1]),
            unknown(vec![1]),
            unknown(vec![1]),
            unknown(vec![1, 2]),
            unknown(vec![1, 2]),
        ]),
        Subgrid::default(),
        Subgrid::default(),
        Subgrid::default(),
        Subgrid::default(),
        Subgrid::default(),
        Subgrid::default(),
    ]);
    let mut solver = Solver::new(grid);
    solver.eliminate_impossible_possible_values_in_rows();
    assert_eq!(expected, solver.grid);
}

#[test]
fn test_eliminate_impossible_possible_values_in_rows_full() {
    let grid = Grid::new(vec![
        Subgrid::new(vec![
            unknown(vec![1]),
            unknown(vec![1]),
            unknown(vec![1]),
            unknown(vec![1, 2]),
            unknown(vec![1]),
            unknown(vec![1, 2]),
            unknown(vec![1]),
            unknown(vec![1]),
            unknown(vec![1]),
        ]),
        Subgrid::new(vec![
            unknown(vec![1, 2]),
            unknown(vec![1, 2]),
            unknown(vec![1, 2]),
            unknown(vec![1, 2]),
            unknown(vec![1, 2]),
            unknown(vec![1, 2]),
            unknown(vec![1, 2]),
            unknown(vec![1, 2]),
            unknown(vec![1, 2]),
        ]),
        Subgrid::new(vec![
            unknown(vec![1, 2]),
            unknown(vec![1, 2]),
            unknown(vec![1, 2]),
            unknown(vec![1, 2]),
            unknown(vec![1, 2]),
            unknown(vec![1, 2]),
            unknown(vec![1, 2]),
            unknown(vec![1, 2]),
            unknown(vec![1, 2]),
        ]),
        Subgrid::default(),
        Subgrid::default(),
        Subgrid::default(),
        Subgrid::default(),
        Subgrid::default(),
        Subgrid::default(),
    ]);
    let expected = Grid::new(vec![
        Subgrid::new(vec![
            unknown(vec![1]),
            unknown(vec![1]),
            unknown(vec![1]),
            unknown(vec![1, 2]),
            unknown(vec![1]),
            unknown(vec![1, 2]),
            unknown(vec![1]),
            unknown(vec![1]),
            unknown(vec![1]),
        ]),
        Subgrid::new(vec![
            unknown(vec![1, 2]),
            unknown(vec![1, 2]),
            unknown(vec![1, 2]),
            unknown(vec![1]),
            unknown(vec![1]),
            unknown(vec![1]),
            unknown(vec![1, 2]),
            unknown(vec![1, 2]),
            unknown(vec![1, 2]),
        ]),
        Subgrid::new(vec![
            unknown(vec![1, 2]),
            unknown(vec![1, 2]),
            unknown(vec![1, 2]),
            unknown(vec![1]),
            unknown(vec![1]),
            unknown(vec![1]),
            unknown(vec![1, 2]),
            unknown(vec![1, 2]),
            unknown(vec![1, 2]),
        ]),
        Subgrid::default(),
        Subgrid::default(),
        Subgrid::default(),
        Subgrid::default(),
        Subgrid::default(),
        Subgrid::default(),
    ]);
    let mut solver = Solver::new(grid);
    solver.eliminate_impossible_possible_values_in_rows();
    assert_eq!(expected, solver.grid);
}

