use std::borrow::Cow;

use sudoku_solver::grid::digit::{Digit, LocalizedDigit, UnknownDigit};
use sudoku_solver::grid::position::Position;
use sudoku_solver::grid::{Grid, Subgrid};

fn create_grid() -> Grid {
    Grid::new(vec![
        Subgrid::from_digits(vec![1, 2, 3, 4, 5, 6, 7, 8, 9]),
        Subgrid::from_digits(vec![9, 8, 7, 6, 5, 4, 3, 2, 1]),
        Subgrid::from_digits(vec![1, 0, 0, 0, 0, 0, 0, 0, 9]),
        Subgrid::from_digits(vec![9, 8, 7, 6, 5, 4, 3, 2, 1]),
        Subgrid::from_digits(vec![1, 2, 3, 4, 5, 6, 7, 8, 9]),
        Subgrid::from_digits(vec![9, 0, 0, 0, 0, 0, 0, 0, 1]),
        Subgrid::default(),
        Subgrid::default(),
        Subgrid::from_digits(vec![0, 0, 0, 0, 0, 0, 0, 7, 0]),
    ])
}

#[test]
fn test_grid_get_digit() {
    let grid = create_grid();
    assert_eq!(grid.get_digit(0, 0), &Digit::Known(1));
    assert_eq!(grid.get_digit(2, 2), &Digit::Known(9));
    assert_eq!(grid.get_digit(8, 2), &Digit::Known(9));
    assert_eq!(grid.get_digit(4, 4), &Digit::Known(5));
    assert_eq!(grid.get_digit(7, 8), &Digit::Known(7));
}

#[test]
fn test_grid_get_vertical_digits() {
    let grid = create_grid();
    assert_eq!(
        grid.get_vertical_digits(3),
        vec![
            &Digit::Known(9),
            &Digit::Known(6),
            &Digit::Known(3),
            &Digit::Known(1),
            &Digit::Known(4),
            &Digit::Known(7),
            &Digit::Unknown(UnknownDigit::default()),
            &Digit::Unknown(UnknownDigit::default()),
            &Digit::Unknown(UnknownDigit::default())
        ]
    );
}

#[test]
fn test_grid_get_vertical_localized_digits() {
    let grid = create_grid();
    assert_eq!(
        grid.get_vertical_localized_digits(3),
        vec![
            LocalizedDigit::from_owned(Digit::Known(9), 3, 0),
            LocalizedDigit::from_owned(Digit::Known(6), 3, 1),
            LocalizedDigit::from_owned(Digit::Known(3), 3, 2),
            LocalizedDigit::from_owned(Digit::Known(1), 3, 3),
            LocalizedDigit::from_owned(Digit::Known(4), 3, 4),
            LocalizedDigit::from_owned(Digit::Known(7), 3, 5),
            LocalizedDigit::from_owned(Digit::Unknown(UnknownDigit::default()), 3, 6),
            LocalizedDigit::from_owned(Digit::Unknown(UnknownDigit::default()), 3, 7),
            LocalizedDigit::from_owned(Digit::Unknown(UnknownDigit::default()), 3, 8),
        ]
    );
}

#[test]
fn test_grid_get_horizontal_digits() {
    let grid = create_grid();
    assert_eq!(
        grid.get_horizontal_digits(5),
        vec![
            &Digit::Known(3),
            &Digit::Known(2),
            &Digit::Known(1),
            &Digit::Known(7),
            &Digit::Known(8),
            &Digit::Known(9),
            &Digit::Unknown(UnknownDigit::default()),
            &Digit::Unknown(UnknownDigit::default()),
            &Digit::Known(1)
        ]
    );
}

#[test]
fn test_grid_get_horizontal_localized_digits() {
    let grid = create_grid();
    assert_eq!(
        grid.get_horizontal_localized_digits(5),
        vec![
            LocalizedDigit::from_owned(Digit::Known(3), 0, 5),
            LocalizedDigit::from_owned(Digit::Known(2), 1, 5),
            LocalizedDigit::from_owned(Digit::Known(1), 2, 5),
            LocalizedDigit::from_owned(Digit::Known(7), 3, 5),
            LocalizedDigit::from_owned(Digit::Known(8), 4, 5),
            LocalizedDigit::from_owned(Digit::Known(9), 5, 5),
            LocalizedDigit::from_owned(Digit::Unknown(UnknownDigit::default()), 6, 5),
            LocalizedDigit::from_owned(Digit::Unknown(UnknownDigit::default()), 7, 5),
            LocalizedDigit::from_owned(Digit::Known(1), 8, 5),
        ]
    );
}

#[test]
fn test_grid_get_neighbour_digits() {
    let grid = create_grid();
    let mut actual = grid.get_neighbour_digits(5, 3);
    actual.sort_unstable();
    let unknown_digit = Digit::Unknown(UnknownDigit::default());
    let mut expected = vec![
        &Digit::Known(1),
        &Digit::Known(2),
        &Digit::Known(4),
        &Digit::Known(5),
        &Digit::Known(6),
        &Digit::Known(7),
        &Digit::Known(8),
        &Digit::Known(9),
        &Digit::Known(7),
        &Digit::Known(4),
        &Digit::Known(1),
        &unknown_digit,
        &unknown_digit,
        &unknown_digit,
        &Digit::Known(9),
        &Digit::Known(8),
        &Digit::Known(7),
        &Digit::Known(9),
        &unknown_digit,
        &unknown_digit,
    ];
    expected.sort_unstable();
    assert_eq!(actual, expected)
}

#[test]
fn test_grid_set_digit() {
    let mut grid = create_grid();
    let expected = Grid::new(vec![
        Subgrid::from_digits(vec![1, 2, 3, 4, 5, 6, 7, 8, 9]),
        Subgrid::from_digits(vec![9, 8, 7, 6, 5, 4, 3, 2, 1]),
        Subgrid::from_digits(vec![1, 0, 0, 0, 0, 0, 0, 0, 9]),
        Subgrid::from_digits(vec![9, 8, 7, 6, 5, 4, 3, 2, 1]),
        Subgrid::from_digits(vec![1, 2, 9, 4, 5, 6, 7, 8, 9]),
        Subgrid::from_digits(vec![9, 0, 0, 0, 0, 0, 0, 0, 1]),
        Subgrid::default(),
        Subgrid::default(),
        Subgrid::from_digits(vec![0, 0, 0, 0, 0, 0, 0, 7, 0]),
    ]);
    grid.set_digit(5, 3, Digit::Known(9));
    assert_eq!(expected, grid);
}

#[test]
fn test_subgrid_localized_digits() {
    let subgrid = Subgrid::from_digits(vec![1, 2, 3, 4, 5, 6, 7, 8, 9]);
    let expected = vec![
        LocalizedDigit::from_owned(Digit::Known(1), 0, 0),
        LocalizedDigit::from_owned(Digit::Known(2), 1, 0),
        LocalizedDigit::from_owned(Digit::Known(3), 2, 0),
        LocalizedDigit::from_owned(Digit::Known(4), 0, 1),
        LocalizedDigit::from_owned(Digit::Known(5), 1, 1),
        LocalizedDigit::from_owned(Digit::Known(6), 2, 1),
        LocalizedDigit::from_owned(Digit::Known(7), 0, 2),
        LocalizedDigit::from_owned(Digit::Known(8), 1, 2),
        LocalizedDigit::from_owned(Digit::Known(9), 2, 2),
    ];
    let actual = subgrid.localized_digits();
    assert_eq!(expected, actual);
}

#[test]
fn test_subgrid_get_digits_excluding() {
    let subgrid = Subgrid::from_digits(vec![1, 2, 3, 4, 5, 6, 7, 8, 9]);
    let expected = vec![
        &Digit::Known(1),
        &Digit::Known(3),
        &Digit::Known(4),
        &Digit::Known(5),
        &Digit::Known(7),
        &Digit::Known(8),
    ];
    let actual = subgrid.get_digits_excluding(vec![
        Position::new(1, 0),
        Position::new(2, 1),
        Position::new(2, 2),
    ]);
    assert_eq!(expected, actual);
}

#[test]
fn test_grid_neighbour_digits_keep_their_order() {
    let grid = create_grid();
    let actual = grid.get_neighbour_digits(5, 3);
    let unknown_digit = Digit::Unknown(UnknownDigit::default());
    let expected = vec![
        &Digit::Known(1),
        &Digit::Known(2),
        &Digit::Known(9),
        &Digit::Known(4),
        &Digit::Known(5),
        &Digit::Known(6),
        &Digit::Known(7),
        &Digit::Known(8),
        &Digit::Known(7),
        &Digit::Known(4),
        &Digit::Known(1),
        &unknown_digit,
        &unknown_digit,
        &unknown_digit,
        &Digit::Known(9),
        &Digit::Known(8),
        &Digit::Known(7),
        &Digit::Known(9),
        &unknown_digit,
        &unknown_digit,
    ];
    assert_eq!(actual, expected);
}

#[test]
fn test_subgrid_neighbour_digits_move_the_last_digit() {
    let subgrid = Subgrid::from_digits(vec![1, 2, 3, 4, 5, 6, 7, 8, 9]);
    assert_eq!(
        subgrid.get_neighbour_digits(1, 0),
        vec![
            &Digit::Known(1),
            &Digit::Known(9),
            &Digit::Known(3),
            &Digit::Known(4),
            &Digit::Known(5),
            &Digit::Known(6),
            &Digit::Known(7),
            &Digit::Known(8),
        ]
    );
    assert_eq!(
        subgrid.get_neighbour_digits(2, 2),
        vec![
            &Digit::Known(1),
            &Digit::Known(2),
            &Digit::Known(3),
            &Digit::Known(4),
            &Digit::Known(5),
            &Digit::Known(6),
            &Digit::Known(7),
            &Digit::Known(8),
        ]
    );
}

#[test]
fn test_subgrid_accessors() {
    let mut subgrid = Subgrid::from_digits(vec![1, 2, 3, 4, 5, 6, 7, 8, 0]);
    assert_eq!(subgrid.get_digit(2, 1), &Digit::Known(6));
    assert_eq!(subgrid.get_digit(0, 2), &Digit::Known(7));
    assert!(!subgrid.is_solved());
    *subgrid.get_digit_mut(2, 2) = Digit::Known(9);
    assert!(subgrid.is_solved());
    subgrid.set_digit(1, 1, Digit::from(0));
    assert_eq!(subgrid, Subgrid::from_digits(vec![1, 2, 3, 4, 0, 6, 7, 8, 9]));
    assert_eq!(subgrid.digits().len(), 9);
    assert_eq!(subgrid.digits()[3], &Digit::Known(4));
    assert_eq!(subgrid.clone(), subgrid);
}

#[test]
fn test_grid_block_accessors() {
    let mut grid = create_grid();
    assert_eq!(
        grid.get_subgrid(5, 3),
        &Subgrid::from_digits(vec![1, 2, 3, 4, 5, 6, 7, 8, 9])
    );
    assert_eq!(
        grid.get_subgrid_absolute(2, 1),
        &Subgrid::from_digits(vec![9, 0, 0, 0, 0, 0, 0, 0, 1])
    );
    *grid.get_subgrid_mut(8, 8) = Subgrid::from_digits(vec![0, 0, 0, 0, 0, 0, 0, 0, 5]);
    assert_eq!(grid.get_digit(8, 8), &Digit::Known(5));
    assert_eq!(grid.get_digit(7, 8), &Digit::Unknown(UnknownDigit::default()));
    *grid.get_subgrid_absolute_mut(0, 2) = Subgrid::from_digits(vec![3, 0, 0, 0, 0, 0, 0, 0, 0]);
    assert_eq!(grid.get_digit(0, 6), &Digit::Known(3));
    *grid.get_digit_mut(1, 6) = Digit::Known(4);
    assert_eq!(
        grid.get_subgrid_absolute(0, 2),
        &Subgrid::from_digits(vec![3, 4, 0, 0, 0, 0, 0, 0, 0])
    );
    assert_eq!(grid.clone(), grid);
}

#[test]
fn test_default_grid_is_undetermined() {
    let grid = Grid::default();
    assert_eq!(grid.subgrids.len(), 9);
    for subgrid in &grid.subgrids {
        assert_eq!(subgrid, &Subgrid::default());
        assert_eq!(subgrid.digits.len(), 9);
    }
    assert_eq!(Digit::default(), Digit::Unknown(UnknownDigit::new(vec![])));
    assert!(!grid.is_solved());
    assert!(!grid.is_solved_correctly());
}

#[test]
fn test_digit_from_numeral() {
    assert_eq!(Digit::from(0), Digit::Unknown(UnknownDigit::default()));
    assert_eq!(Digit::from(7), Digit::Known(7));
    assert_eq!(
        Subgrid::from_digits(vec![0, 5]),
        Subgrid::new(vec![Digit::Unknown(UnknownDigit::default()), Digit::Known(5)])
    );
}

#[test]
fn test_localized_digit_round_trip() {
    let digit = Digit::Unknown(UnknownDigit::new(vec![2, 4]));
    let localized = LocalizedDigit::from_borrowed(&digit, 3, 7);
    assert!(matches!(localized.digit, Cow::Borrowed(_)));
    assert_eq!(localized, LocalizedDigit::new(Cow::Owned(digit.clone()), 3, 7));
    assert_eq!(localized, LocalizedDigit::from_owned(digit.clone(), 3, 7));
    assert_eq!(localized.get_digit(), &digit);
    assert_eq!(localized.clone().into_owned_tuple(), (digit.clone(), 3, 7));
    let owned = LocalizedDigit::from_owned(Digit::Known(6), 1, 2);
    assert!(matches!(owned.digit, Cow::Owned(_)));
    assert_eq!(owned.get_digit(), &Digit::Known(6));
    assert_eq!(owned.into_owned_tuple(), (Digit::Known(6), 1, 2));
    assert_eq!(Position::from_index(5), Position::new(2, 1));
    assert_eq!(Position::from_index(6), Position::new(0, 2));
}

fn solved_grid() -> Grid {
    Grid::new(vec![
        Subgrid::from_digits(vec![5, 3, 4, 6, 7, 2, 1, 9, 8]),
        Subgrid::from_digits(vec![6, 7, 8, 1, 9, 5, 3, 4, 2]),
        Subgrid::from_digits(vec![9, 1, 2, 3, 4, 8, 5, 6, 7]),
        Subgrid::from_digits(vec![8, 5, 9, 4, 2, 6, 7, 1, 3]),
        Subgrid::from_digits(vec![7, 6, 1, 8, 5, 3, 9, 2, 4]),
        Subgrid::from_digits(vec![4, 2, 3, 7, 9, 1, 8, 5, 6]),
        Subgrid::from_digits(vec![9, 6, 1, 2, 8, 7, 3, 4, 5]),
        Subgrid::from_digits(vec![5, 3, 7, 4, 1, 9, 2, 8, 6]),
        Subgrid::from_digits(vec![2, 8, 4, 6, 3, 5, 1, 7, 9]),
    ])
}

#[test]
fn test_solved_grid_is_solved_correctly() {
    let grid = solved_grid();
    assert!(grid.is_solved());
    assert!(grid.is_solved_correctly());
}

#[test]
fn test_repeated_value_in_a_row_is_incorrect() {
    let mut grid = solved_grid();
    let moved = grid.get_digit(8, 0).clone();
    grid.set_digit(0, 0, moved);
    assert!(grid.is_solved());
    assert!(!grid.is_solved_correctly());
}

#[test]
fn test_repeated_value_in_a_column_is_incorrect() {
    let mut grid = solved_grid();
    let moved = grid.get_digit(4, 8).clone();
    grid.set_digit(4, 0, moved);
    assert!(grid.is_solved());
    assert!(!grid.is_solved_correctly());
}

#[test]
fn test_repeated_value_in_a_block_is_incorrect() {
    let mut grid = create_grid();
    for x in 0..9 {
        for y in 0..9 {
            grid.set_digit(x, y, Digit::Known((1 + (x + 3 * y) % 9) as u32));
        }
    }
    assert!(grid.is_solved());
    assert!(!grid.is_solved_correctly());
}

#[test]
fn test_undetermined_grid_is_not_solved_correctly() {
    let mut grid = solved_grid();
    grid.set_digit(4, 4, Digit::Unknown(UnknownDigit::new(vec![5])));
    assert!(!grid.is_solved());
    assert!(!grid.is_solved_correctly());
}
