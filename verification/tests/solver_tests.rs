use sudoku_solver::grid::digit::{Digit, LocalizedDigit, UnknownDigit};
use sudoku_solver::grid::parser::Parser;
use sudoku_solver::grid::{Grid, Subgrid};
use sudoku_solver::solver::Solver;

const EASY: &str =
    "530070000600195000098000060800060003400803001700020006060000280000419005000080079";

const EASY_SOLVED: &str =
    "534678912672195348198342567859761423426853791713924856961537284287419635345286179";

const HARD: &str =
    "100920000524010000000000070050008102000000000402700090060000000000030945000071006";

const HARD_SOLVED: &str =
    "176923584524817639893654271957348162638192457412765398265489713781236945349571826";

const STUCK: &str =
    "800000000003600000070090200050007000000045700000100030001000068008500010090000400";

fn parse(syntax: &str) -> Grid {
    Parser::new().parse(syntax.to_owned()).unwrap()
}

fn unknown(possible_values: Vec<u32>) -> Digit {
    Digit::Unknown(UnknownDigit::new(possible_values))
}

fn numerals(grid: &Grid) -> String {
    let mut text = String::new();
    for y in 0..9 {
        for x in 0..9 {
            match grid.get_digit(x, y) {
                Digit::Known(value) => text.push_str(&format!("{}", value)),
                Digit::Unknown(_) => text.push('0'),
            }
        }
    }
    text
}

fn known_values(digits: Vec<&Digit>) -> Vec<u32> {
    let mut values = vec![];
    for digit in digits {
        if let Digit::Known(value) = digit {
            values.push(*value);
        }
    }
    values
}

#[test]
fn test_candidates_are_the_complement_of_the_neighbours() {
    let mut solver = Solver::new(parse(EASY));
    solver.recompute_candidates();
    assert_eq!(solver.grid.get_digit(2, 0), &unknown(vec![1, 2, 4]));
    assert_eq!(solver.grid.get_digit(3, 0), &unknown(vec![2, 6]));
    assert_eq!(solver.grid.get_digit(4, 4), &unknown(vec![5]));
    assert_eq!(solver.grid.get_digit(0, 2), &unknown(vec![1, 2]));
    assert_eq!(solver.grid.get_digit(8, 8), &Digit::Known(9));
    let before = parse(EASY);
    for x in 0..9 {
        for y in 0..9 {
            match solver.grid.get_digit(x, y) {
                Digit::Known(_) => assert_eq!(solver.grid.get_digit(x, y), before.get_digit(x, y)),
                Digit::Unknown(digit) => {
                    let known = known_values(before.get_neighbour_digits(x, y));
                    for value in 1..=9 {
                        assert_eq!(
                            digit.possible_values.contains(&value),
                            !known.contains(&value)
                        );
                    }
                }
            }
        }
    }
}

#[test]
fn test_recomputation_discards_earlier_candidates() {
    let mut grid = parse(EASY);
    grid.set_digit(2, 0, unknown(vec![9, 9, 3]));
    let mut solver = Solver::new(grid);
    solver.recompute_candidates();
    assert_eq!(solver.grid.get_digit(2, 0), &unknown(vec![1, 2, 4]));
}

#[test]
fn test_candidates_do_not_grow_when_cells_get_known() {
    let mut earlier = Solver::new(parse(EASY));
    earlier.recompute_candidates();
    let mut grid = parse(EASY);
    grid.set_digit(2, 0, Digit::Known(4));
    grid.set_digit(4, 4, Digit::Known(5));
    let mut later = Solver::new(grid);
    later.recompute_candidates();
    assert_eq!(later.grid.get_digit(3, 0), &unknown(vec![2, 6]));
    assert_eq!(later.grid.get_digit(0, 2), &unknown(vec![1, 2]));
    assert_eq!(earlier.grid.get_digit(2, 1), &unknown(vec![2, 4, 7]));
    assert_eq!(later.grid.get_digit(2, 1), &unknown(vec![2, 7]));
    for x in 0..9 {
        for y in 0..9 {
            if let Digit::Unknown(after) = later.grid.get_digit(x, y) {
                match earlier.grid.get_digit(x, y) {
                    Digit::Unknown(before) => {
                        for value in &after.possible_values {
                            assert!(before.possible_values.contains(value));
                        }
                    }
                    Digit::Known(_) => panic!("a known digit was reverted"),
                }
            }
        }
    }
    let mut again = Solver::new(parse(EASY));
    again.recompute_candidates();
    again.recompute_candidates();
    assert_eq!(again.grid, earlier.grid);
}

#[test]
fn test_full_computation_narrows_the_complement() {
    let mut solver = Solver::new(parse(EASY));
    solver.set_possible_values();
    assert_eq!(solver.grid.get_digit(0, 8), &unknown(vec![3]));
    assert_eq!(solver.grid.get_digit(1, 8), &unknown(vec![4, 5]));
    assert_eq!(solver.grid.get_digit(2, 0), &unknown(vec![2, 4]));
    assert_eq!(solver.grid.get_digit(2, 6), &unknown(vec![1, 4, 5]));
    assert_eq!(solver.grid.get_digit(5, 2), &unknown(vec![2]));
    assert_eq!(numerals(&solver.grid), EASY);
    let mut solver = Solver::new(parse(HARD));
    solver.set_possible_values();
    assert_eq!(solver.grid.get_digit(0, 4), &unknown(vec![3, 6, 8, 9]));
    assert_eq!(solver.grid.get_digit(0, 6), &unknown(vec![2, 3, 8]));
    assert_eq!(solver.grid.get_digit(3, 4), &unknown(vec![1, 2, 3, 5, 6]));
}

#[test]
fn test_last_cell_of_a_block_is_resolved() {
    let grid = Grid::new(vec![
        Subgrid::from_digits(vec![1, 2, 3, 4, 5, 6, 7, 0, 9]),
        Subgrid::default(),
        Subgrid::default(),
        Subgrid::default(),
        Subgrid::default(),
        Subgrid::default(),
        Subgrid::default(),
        Subgrid::default(),
        Subgrid::default(),
    ]);
    let mut solver = Solver::new(grid);
    solver.set_possible_values();
    assert_eq!(solver.grid.get_digit(1, 2), &unknown(vec![8]));
    solver.set_single_possible_values();
    assert_eq!(solver.grid.get_digit(1, 2), &Digit::Known(8));
    assert_eq!(
        solver.grid.get_subgrid_absolute(0, 0),
        &Subgrid::from_digits(vec![1, 2, 3, 4, 5, 6, 7, 8, 9])
    );
}

#[test]
fn test_single_candidates_are_resolved() {
    let mut solver = Solver::new(parse(EASY));
    solver.recompute_candidates();
    solver.set_single_possible_values();
    assert_eq!(
        numerals(&solver.grid),
        "530070000600195000098000060800060003400853001700020006060007284000419035000080079"
    );
    let mut grid = Grid::default();
    grid.set_digit(0, 0, unknown(vec![]));
    grid.set_digit(1, 0, unknown(vec![7]));
    grid.set_digit(2, 0, unknown(vec![7, 7]));
    grid.set_digit(3, 0, unknown(vec![4, 7]));
    let mut solver = Solver::new(grid);
    solver.set_single_possible_values();
    assert_eq!(solver.grid.get_digit(0, 0), &unknown(vec![]));
    assert_eq!(solver.grid.get_digit(1, 0), &Digit::Known(7));
    assert_eq!(solver.grid.get_digit(2, 0), &unknown(vec![7, 7]));
    assert_eq!(solver.grid.get_digit(3, 0), &unknown(vec![4, 7]));
}

fn resolved(before: &Grid, after: &Grid) -> Vec<(usize, usize, u32)> {
    let mut changes = vec![];
    for x in 0..9 {
        for y in 0..9 {
            if before.get_digit(x, y) != after.get_digit(x, y) {
                match after.get_digit(x, y) {
                    Digit::Known(value) => changes.push((x, y, *value)),
                    Digit::Unknown(_) => panic!("a pass may only resolve"),
                }
            }
        }
    }
    changes
}

#[test]
fn test_blocks_are_resolved() {
    let mut solver = Solver::new(parse(EASY));
    solver.recompute_candidates();
    let before = solver.grid.clone();
    solver.find_single_possible_solutions_for_subgrids();
    assert_eq!(
        resolved(&before, &solver.grid),
        vec![(1, 7, 8), (2, 4, 6), (2, 5, 3), (5, 0, 8), (6, 2, 5), (6, 5, 8), (6, 8, 1)]
    );
}

#[test]
fn test_columns_are_resolved() {
    let mut solver = Solver::new(parse(EASY));
    solver.recompute_candidates();
    let before = solver.grid.clone();
    solver.find_single_possible_solutions_for_columns();
    assert_eq!(
        resolved(&before, &solver.grid),
        vec![(0, 6, 9), (1, 7, 8), (2, 4, 6), (4, 2, 4), (5, 0, 8), (7, 0, 1)]
    );
}

#[test]
fn test_rows_are_resolved() {
    let mut solver = Solver::new(parse(EASY));
    solver.recompute_candidates();
    let before = solver.grid.clone();
    solver.find_single_possible_solutions_for_rows();
    assert_eq!(
        resolved(&before, &solver.grid),
        vec![(1, 7, 8), (2, 4, 6), (2, 5, 3), (6, 2, 5), (6, 4, 7), (6, 5, 8), (6, 7, 6)]
    );
}

#[test]
fn test_solutions_of_a_unit() {
    let digits = vec![
        LocalizedDigit::from_owned(unknown(vec![1, 2]), 0, 0),
        LocalizedDigit::from_owned(unknown(vec![2, 3]), 1, 0),
        LocalizedDigit::from_owned(Digit::Known(5), 2, 0),
        LocalizedDigit::from_owned(unknown(vec![2, 5, 7]), 3, 0),
        LocalizedDigit::from_owned(unknown(vec![2]), 4, 0),
    ];
    assert_eq!(
        Solver::get_solutions(digits),
        vec![
            LocalizedDigit::from_owned(Digit::Known(1), 0, 0),
            LocalizedDigit::from_owned(Digit::Known(3), 1, 0),
            LocalizedDigit::from_owned(Digit::Known(7), 3, 0),
        ]
    );
    let digits = vec![
        LocalizedDigit::from_owned(unknown(vec![1, 4]), 6, 2),
        LocalizedDigit::from_owned(unknown(vec![2, 3]), 7, 2),
        LocalizedDigit::from_owned(unknown(vec![2, 3]), 8, 2),
    ];
    assert_eq!(
        Solver::get_solutions(digits),
        vec![
            LocalizedDigit::from_owned(Digit::Known(1), 6, 2),
            LocalizedDigit::from_owned(Digit::Known(4), 6, 2),
        ]
    );
    assert_eq!(Solver::get_solutions(vec![]), vec![]);
}

#[test]
fn test_greatest_hidden_single_wins() {
    let mut grid = Grid::default();
    grid.set_digit(0, 0, unknown(vec![1, 4]));
    grid.set_digit(0, 1, unknown(vec![2, 3]));
    grid.set_digit(0, 2, unknown(vec![2, 3]));
    let mut solver = Solver::new(grid);
    solver.find_single_possible_solutions_for_columns();
    assert_eq!(solver.grid.get_digit(0, 0), &Digit::Known(4));
    assert_eq!(solver.grid.get_digit(0, 1), &unknown(vec![2, 3]));
    assert_eq!(solver.grid.get_digit(0, 2), &unknown(vec![2, 3]));
}

#[test]
fn test_resolved_values_do_not_repeat_a_neighbour() {
    let mut solver = Solver::new(parse(EASY));
    let before = solver.grid.clone();
    solver.run_round();
    let mut changes = 0;
    for x in 0..9 {
        for y in 0..9 {
            if let (Digit::Unknown(_), Digit::Known(value)) =
                (before.get_digit(x, y), solver.grid.get_digit(x, y))
            {
                changes += 1;
                let around = known_values(solver.grid.get_neighbour_digits(x, y));
                assert!(!around.contains(value));
                assert_eq!(
                    &EASY_SOLVED[y * 9 + x..y * 9 + x + 1],
                    format!("{}", value)
                );
            }
        }
    }
    assert_eq!(changes, 47);
}

#[test]
fn test_one_round_of_the_easy_grid() {
    let grid = Solver::new(parse(EASY)).solve_within(1);
    assert_eq!(
        numerals(&grid),
        "534678912672195348198342567809760423426853791703924806961537284287419635345286179"
    );
    assert!(!grid.is_solved());
    let mut solver = Solver::new(parse(EASY));
    solver.run_round();
    assert_eq!(solver.grid, grid);
}

#[test]
fn test_no_round_allowed_changes_nothing() {
    let grid = Solver::new(parse(HARD)).solve_within(0);
    assert_eq!(grid, parse(HARD));
}

#[test]
fn test_rounds_allowed_decide_how_far_the_hard_grid_gets() {
    assert!(!Solver::new(parse(HARD)).solve_within(5).is_solved());
    let grid = Solver::new(parse(HARD)).solve_within(6);
    assert_eq!(numerals(&grid), HARD_SOLVED);
    let grid = Solver::new(parse(HARD)).solve_within(1000);
    assert_eq!(numerals(&grid), HARD_SOLVED);
    assert!(grid.is_solved_correctly());
}

#[test]
fn test_solve_reaches_the_solutions() {
    let grid = Solver::new(parse(EASY)).solve().unwrap();
    assert_eq!(numerals(&grid), EASY_SOLVED);
    assert!(grid.is_solved());
    assert!(grid.is_solved_correctly());
    let grid = Solver::new(parse(HARD)).solve().unwrap();
    assert_eq!(numerals(&grid), HARD_SOLVED);
    assert!(grid.is_solved_correctly());
}

#[test]
fn test_solved_grid_comes_back_unchanged() {
    let grid = parse(EASY_SOLVED);
    assert!(grid.is_solved_correctly());
    assert_eq!(Solver::new(grid.clone()).solve(), Ok(grid.clone()));
    assert_eq!(Solver::new(grid.clone()).solve_within(3), grid);
}

#[test]
fn test_grid_without_progress_comes_back_unsolved() {
    let grid = Solver::new(parse(STUCK)).solve().unwrap();
    assert!(!grid.is_solved());
    assert!(!grid.is_solved_correctly());
    assert_eq!(numerals(&grid), STUCK);
    let mut solver = Solver::new(grid.clone());
    solver.run_round();
    assert_eq!(solver.grid, grid);
    assert_eq!(Solver::new(parse(STUCK)).solve_within(1), grid);
    assert_eq!(Solver::new(parse(STUCK)).solve_within(50), grid);
}

#[test]
fn test_solver_keeps_the_known_digits() {
    let before = parse(HARD);
    let after = Solver::new(parse(HARD)).solve_within(2);
    for x in 0..9 {
        for y in 0..9 {
            if let Digit::Known(_) = before.get_digit(x, y) {
                assert_eq!(before.get_digit(x, y), after.get_digit(x, y));
            }
        }
    }
}

#[test]
fn test_grid_without_solution_may_repeat_a_value() {
    let syntax = "123467800000000900000000000000000000000000000000000000000000000000000000000000000";
    let mut solver = Solver::new(parse(syntax));
    solver.set_possible_values();
    assert_eq!(solver.grid.get_digit(7, 0), &unknown(vec![5]));
    assert_eq!(solver.grid.get_digit(8, 0), &unknown(vec![5]));
    solver.set_single_possible_values();
    assert_eq!(solver.grid.get_digit(7, 0), &Digit::Known(5));
    assert_eq!(solver.grid.get_digit(8, 0), &Digit::Known(5));
    let grid = Solver::new(parse(syntax)).solve().unwrap();
    assert_eq!(
        numerals(&grid),
        "123467855000000900000000000000000000000000000000000000000000000000000000000000000"
    );
    assert!(!grid.is_solved());
    assert!(!grid.is_solved_correctly());
}

#[test]
fn test_complement_of_neighbours() {
    let one = Digit::Known(1);
    let five = Digit::Known(5);
    let nine = Digit::Known(9);
    let open = unknown(vec![2, 3]);
    assert_eq!(
        Solver::get_complement(vec![&five, &open, &one, &five, &nine]),
        vec![2, 3, 4, 6, 7, 8]
    );
    assert_eq!(
        Solver::get_complement(vec![&open, &open]),
        vec![1, 2, 3, 4, 5, 6, 7, 8, 9]
    );
    assert_eq!(Solver::get_complement(vec![]), vec![1, 2, 3, 4, 5, 6, 7, 8, 9]);
    let high = Digit::Known(12);
    let zero = Digit::Known(0);
    assert_eq!(
        Solver::get_complement(vec![&high, &zero]),
        vec![1, 2, 3, 4, 5, 6, 7, 8, 9]
    );
    let all = [
        Digit::Known(1),
        Digit::Known(2),
        Digit::Known(3),
        Digit::Known(4),
        Digit::Known(5),
        Digit::Known(6),
        Digit::Known(7),
        Digit::Known(8),
        Digit::Known(9),
    ];
    assert_eq!(Solver::get_complement(all.iter().collect()), vec![]);
}

#[test]
fn test_turn_starts_a_round_only_within_the_budget() {
    let mut solver = Solver::new(parse(EASY));
    assert!(!solver.turn(1));
    assert_eq!(solver.grid, parse(EASY));
    assert!(!solver.turn(u64::MAX));
    assert_eq!(solver.grid, parse(EASY));
    assert!(solver.turn(0));
    assert_eq!(solver.grid, Solver::new(parse(EASY)).solve_within(1));
    assert_eq!(
        numerals(&solver.grid),
        "534678912672195348198342567809760423426853791703924806961537284287419635345286179"
    );
    let after_one = solver.grid.clone();
    assert!(!solver.turn(3));
    assert_eq!(solver.grid, after_one);
    assert!(solver.turn(0));
    assert_eq!(numerals(&solver.grid), EASY_SOLVED);
    let solved = solver.grid.clone();
    assert!(!solver.turn(0));
    assert_eq!(solver.grid, solved);
}

#[test]
fn test_turn_without_progress_asks_for_no_other() {
    let mut solver = Solver::new(parse(STUCK));
    assert!(!solver.turn(0));
    assert_eq!(numerals(&solver.grid), STUCK);
    let mut round = Solver::new(parse(STUCK));
    round.run_round();
    assert_eq!(solver.grid, round.grid);
    assert_ne!(solver.grid, parse(STUCK));
}

#[test]
fn test_grid_without_clues_comes_back_with_all_candidates() {
    let all = unknown(vec![1, 2, 3, 4, 5, 6, 7, 8, 9]);
    let mut solver = Solver::new(Grid::default());
    assert!(!solver.turn(0));
    for x in 0..9 {
        for y in 0..9 {
            assert_eq!(solver.grid.get_digit(x, y), &all);
        }
    }
    let grid = Solver::new(Grid::default()).solve().unwrap();
    assert!(!grid.is_solved());
    for x in 0..9 {
        for y in 0..9 {
            assert_eq!(grid.get_digit(x, y), &all);
        }
    }
    assert_eq!(Solver::new(Grid::default()).solve_within(1), grid);
    assert_eq!(Solver::new(Grid::default()).solve_within(0), Grid::default());
}
