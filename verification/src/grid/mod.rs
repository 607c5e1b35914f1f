//! The spatial container of a puzzle: a grid of nine blocks of nine digits.

use vstd::prelude::*;
use crate::grid::board::{
    all_known, are_neighbours, block_index, Board, cell_at, in_grid, joint_x, joint_y, known_around,
    lemma_block_coordinates, lemma_coordinates, lemma_known_around, lemma_with_cell,
    neighbour_cells, slot_index, solved_correctly, well_formed, with_cell,
};
use crate::grid::digit::{Cell, Digit, LocalizedCell, LocalizedDigit};
use crate::grid::position::Position;

pub mod board;
pub mod digit;
pub mod generator;
pub mod parser;
pub mod position;

verus! {

/// Number of blocks along one side of the grid.
pub const GRID_SIZE: usize = 3;

/// Number of blocks of the grid.
pub const GRID_LENGTH: usize = 9;

/// Number of cells along one side of the grid.
pub const GRID_JOINT_SIZE: usize = 9;

/// Number of cells along one side of a block.
pub const SUBGRID_SIZE: usize = 3;

/// Number of cells of a block.
pub const SUBGRID_LENGTH: usize = 9;

/// The values of a sequence of borrowed digits.
pub open spec fn cells_of(digits: Seq<&Digit>) -> Seq<Cell> {
    Seq::new(digits.len(), |i: int| digits[i]@)
}

/// The values of a sequence of localized digits.
pub open spec fn localized_cells(digits: Seq<LocalizedDigit<'_>>) -> Seq<LocalizedCell> {
    Seq::new(digits.len(), |i: int| digits[i]@)
}

/// The cells of column `x` from the top down.
pub open spec fn column_cells(board: Board, x: int) -> Seq<Cell> {
    Seq::new(9, |y: int| cell_at(board, x, y))
}

/// The cells of row `y` from left to right.
pub open spec fn row_cells(board: Board, y: int) -> Seq<Cell> {
    Seq::new(9, |x: int| cell_at(board, x, y))
}

/// The cells of column `x` from the top down, each with its joint coordinates.
pub open spec fn column_localized(board: Board, x: int) -> Seq<LocalizedCell> {
    Seq::new(9, |y: int| LocalizedCell { cell: cell_at(board, x, y), x, y })
}

/// The cells of row `y` from left to right, each with its joint coordinates.
pub open spec fn row_localized(board: Board, y: int) -> Seq<LocalizedCell> {
    Seq::new(9, |x: int| LocalizedCell { cell: cell_at(board, x, y), x, y })
}

/// The cells of a block in slot order, each with its coordinates inside the
/// block.
pub open spec fn block_localized(block: Seq<Cell>) -> Seq<LocalizedCell> {
    Seq::new(block.len(), |s: int| LocalizedCell { cell: block[s], x: s % 3, y: s / 3 })
}

/// The slots of a block, in order, whose position is not among `positions`.
pub open spec fn slots_excluding(positions: Seq<Position>) -> Seq<int> {
    Seq::new(9, |s: int| s).filter(|s: int| !positions.contains(Position::of_slot(s)))
}

/// The cells of a block, in slot order, whose position is not among
/// `positions`.
pub open spec fn block_excluding(block: Seq<Cell>, positions: Seq<Position>) -> Seq<Cell> {
    slots_excluding(positions).map_values(|s: int| block[s])
}

/// The other eight cells of a block once slot `slot` is taken out and the
/// block's last cell has moved into its place.
pub open spec fn block_neighbours(block: Seq<Cell>, slot: int) -> Seq<Cell> {
    block.update(slot, block[8]).take(8)
}

/// One three by three block of the grid.
#[derive(Debug, PartialEq, Eq, PartialOrd, Ord)]
pub struct Subgrid {
    pub digits: Vec<Digit>,
}

/// The whole puzzle: nine blocks, stored row of blocks by row of blocks.
#[derive(Debug, PartialEq, Eq, PartialOrd, Ord)]
pub struct Grid {
    pub subgrids: Vec<Subgrid>,
}

impl View for Subgrid {
    type V = Seq<Cell>;

    open spec fn view(&self) -> Seq<Cell> {
        Seq::new(self.digits@.len(), |s: int| self.digits@[s]@)
    }
}

impl View for Grid {
    type V = Board;

    open spec fn view(&self) -> Board {
        Seq::new(self.subgrids@.len(), |k: int| self.subgrids@[k]@)
    }
}

fn to_grid_coordinates(x: usize, y: usize) -> (result: (usize, usize))
    ensures
        result == (x / 3, y / 3),
{
    (x / SUBGRID_SIZE, y / SUBGRID_SIZE)
}

fn to_subgrid_coordinates(x: usize, y: usize) -> (result: (usize, usize))
    ensures
        result == (x % 3, y % 3),
{
    (x % GRID_SIZE, y % GRID_SIZE)
}

impl Subgrid {
    /// The block made of `digits`, in slot order.
    pub fn new(digits: Vec<Digit>) -> (result: Self)
        ensures
            result.digits == digits,
    {
        Self { digits }
    }

    /// The block whose slots hold the digits that the numerals of `digits`
    /// stand for: zero for an undetermined cell, any other for itself.
    pub fn from_digits(digits: Vec<u32>) -> (result: Self)
        ensures
            result@ == digits@.map_values(|numeral: u32| Digit::of_numeral(numeral)),
    {
        let mut converted: Vec<Digit> = Vec::with_capacity(digits.len());
        for index in 0..digits.len()
            invariant
                converted@.len() == index,
                forall|s: int| 0 <= s < index ==> converted@[s]@ == Digit::of_numeral(digits@[s]),
        {
            converted.push(Digit::from(digits[index]));
        }
        let result = Self::new(converted);
        assert(result@ =~= digits@.map_values(|numeral: u32| Digit::of_numeral(numeral)));
        result
    }

    /// The block has exactly nine digits.
    pub open spec fn well_formed(&self) -> bool {
        self.digits@.len() == 9
    }

    /// True when every digit of the block is known.
    pub fn is_solved(&self) -> (solved: bool)
        ensures
            solved <==> forall|s: int| 0 <= s < self@.len() ==> (#[trigger] self@[s]) is Known,
    {
        for index in 0..self.digits.len()
            invariant
                forall|s: int| 0 <= s < index ==> (#[trigger] self@[s]) is Known,
        {
            if let Digit::Unknown(_) = &self.digits[index] {
                assert(self@[index as int] is Unknown);
                return false;
            }
            assert(self@[index as int] is Known);
        }
        true
    }

    /// The digits of the block, in slot order, that do not stand at one of
    /// `positions`.
    pub fn get_digits_excluding(&self, positions: Vec<Position>) -> (digits: Vec<&Digit>)
        requires
            self.well_formed(),
        ensures
            cells_of(digits@) == block_excluding(self@, positions@),
    {
        let mut digits: Vec<&Digit> = Vec::with_capacity(SUBGRID_LENGTH);
        let ghost keep = |s: int| !positions@.contains(Position::of_slot(s));
        let ghost all = Seq::new(9, |s: int| s);
        for index in 0..SUBGRID_LENGTH
            invariant
                self.well_formed(),
                keep == |s: int| !positions@.contains(Position::of_slot(s)),
                all == Seq::new(9, |s: int| s),
                cells_of(digits@) == all.take(index as int).filter(keep).map_values(
                    |s: int| self@[s],
                ),
        {
            let position = Position::from_index(index);
            proof {
                assert(all.take(index + 1).drop_last() == all.take(index as int));
                assert(all.take(index + 1).last() == index);
                reveal(Seq::filter);
            }
            let ghost before = cells_of(digits@);
            if !contains_position(&positions, position) {
                digits.push(&self.digits[index]);
                assert(cells_of(digits@) =~= before.push(self@[index as int]));
                assert(all.take(index + 1).filter(keep) == all.take(index as int).filter(
                    keep,
                ).push(index as int));
                assert(cells_of(digits@) =~= all.take(index + 1).filter(keep).map_values(
                    |s: int| self@[s],
                ));
            }
        }
        assert(all.take(9) == all);
        digits
    }

    /// The other eight digits of the block around `(x, y)`: the block in slot
    /// order, with its last digit moved into the place of `(x, y)`.
    pub fn get_neighbour_digits(&self, x: usize, y: usize) -> (neighbours: Vec<&Digit>)
        requires
            x < 3,
            y < 3,
            self.well_formed(),
        ensures
            neighbours@.len() == 8,
            cells_of(neighbours@) == block_neighbours(self@, x + y * 3),
    {
        let mut neighbours = self.digits();
        let index = self.to_subgrid_index(x, y);
        neighbours.swap_remove(index);
        assert(cells_of(neighbours@) =~= block_neighbours(self@, x + y * 3));
        neighbours
    }

    /// The digit at column `x` and row `y` of the block.
    pub fn get_digit(&self, x: usize, y: usize) -> (digit: &Digit)
        requires
            x < 3,
            y < 3,
            self.well_formed(),
        ensures
            *digit == self.digits@[x + y * 3],
    {
        let index = self.to_subgrid_index(x, y);
        &self.digits[index]
    }

    /// The digit at column `x` and row `y` of the block, for writing: what is
    /// left in it stands in the block afterwards.
    pub fn get_digit_mut(&mut self, x: usize, y: usize) -> (digit: &mut Digit)
        requires
            x < 3,
            y < 3,
            old(self).well_formed(),
        ensures
            *digit == old(self).digits@[x + y * 3],
            final(self).digits@ == old(self).digits@.update(x + y * 3, *final(digit)),
    {
        let index = self.to_subgrid_index(x, y);
        &mut self.digits[index]
    }

    /// Puts `digit` at column `x` and row `y` of the block.
    pub fn set_digit(&mut self, x: usize, y: usize, digit: Digit)
        requires
            x < 3,
            y < 3,
            old(self).well_formed(),
        ensures
            final(self).digits@ == old(self).digits@.update(x + y * 3, digit),
    {
        let index = self.to_subgrid_index(x, y);
        self.digits[index] = digit;
    }

    /// The digits of the block in slot order.
    pub fn digits(&self) -> (digits: Vec<&Digit>)
        ensures
            digits@.len() == self.digits@.len(),
            forall|s: int| 0 <= s < digits@.len() ==> *digits@[s] == self.digits@[s],
            cells_of(digits@) == self@,
    {
        let mut digits: Vec<&Digit> = Vec::with_capacity(self.digits.len());
        for index in 0..self.digits.len()
            invariant
                digits@.len() == index,
                forall|s: int| 0 <= s < index ==> *digits@[s] == self.digits@[s],
        {
            digits.push(&self.digits[index]);
        }
        assert(cells_of(digits@) =~= self@);
        digits
    }

    /// The digits of the block in slot order, each with its column and row
    /// inside the block.
    pub fn localized_digits(&self) -> (digits: Vec<LocalizedDigit>)
        ensures
            localized_cells(digits@) == block_localized(self@),
    {
        let mut digits: Vec<LocalizedDigit> = Vec::with_capacity(self.digits.len());
        for index in 0..self.digits.len()
            invariant
                digits@.len() == index,
                forall|s: int|
                    0 <= s < index ==> digits@[s]@ == (LocalizedCell {
                        cell: self@[s],
                        x: s % 3,
                        y: s / 3,
                    }),
        {
            let (x, y) = self.to_coordinates(index);
            digits.push(LocalizedDigit::from_borrowed(&self.digits[index], x, y));
        }
        assert(localized_cells(digits@) =~= block_localized(self@));
        digits
    }

    fn to_subgrid_index(&self, x: usize, y: usize) -> (index: usize)
        requires
            x < 3,
            y < 3,
        ensures
            index == x + y * 3,
    {
        x + y * SUBGRID_SIZE
    }

    fn to_coordinates(&self, index: usize) -> (result: (usize, usize))
        ensures
            result == (index % 3, index / 3),
    {
        (index % SUBGRID_SIZE, index / SUBGRID_SIZE)
    }
}

fn contains_position(positions: &Vec<Position>, position: Position) -> (found: bool)
    ensures
        found == positions@.contains(position),
{
    for index in 0..positions.len()
        invariant
            forall|i: int| 0 <= i < index ==> positions@[i] != position,
    {
        if positions[index] == position {
            return true;
        }
    }
    false
}

impl Default for Subgrid {
    /// A block of nine undetermined digits without candidates.
    fn default() -> (result: Self)
        ensures
            result@ == Seq::new(9, |s: int| Cell::Unknown(Seq::empty())),
    {
        let mut digits: Vec<Digit> = Vec::with_capacity(SUBGRID_LENGTH);
        for index in 0..SUBGRID_LENGTH
            invariant
                digits@.len() == index,
                forall|s: int| 0 <= s < index ==> digits@[s]@ == Cell::Unknown(Seq::empty()),
        {
            digits.push(Digit::default());
        }
        let result = Self::new(digits);
        assert(result@ =~= Seq::new(9, |s: int| Cell::Unknown(Seq::empty())));
        result
    }
}

impl Clone for Subgrid {
    fn clone(&self) -> (result: Self)
        ensures
            result@ == self@,
    {
        let mut digits: Vec<Digit> = Vec::with_capacity(self.digits.len());
        for index in 0..self.digits.len()
            invariant
                digits@.len() == index,
                forall|s: int| 0 <= s < index ==> digits@[s]@ == self.digits@[s]@,
        {
            digits.push(self.digits[index].clone());
        }
        let result = Self::new(digits);
        assert(result@ =~= self@);
        result
    }
}

/// True when one of `digits` is known to hold `value`.
pub(crate) fn holds_known(digits: &Vec<&Digit>, value: u32) -> (found: bool)
    ensures
        found == cells_of(digits@).contains(Cell::Known(value)),
{
    for index in 0..digits.len()
        invariant
            forall|i: int| 0 <= i < index ==> cells_of(digits@)[i] != Cell::Known(value),
    {
        if let Digit::Known(known) = digits[index] {
            if *known == value {
                assert(cells_of(digits@)[index as int] == Cell::Known(value));
                return true;
            }
        }
    }
    false
}

impl Grid {
    /// The grid made of `subgrids`, stored row of blocks by row of blocks.
    pub fn new(subgrids: Vec<Subgrid>) -> (result: Self)
        ensures
            result.subgrids == subgrids,
    {
        Self { subgrids }
    }

    /// The grid has exactly nine blocks of exactly nine digits.
    pub open spec fn well_formed(&self) -> bool {
        well_formed(self@)
    }

    /// The digit at the joint position `(x, y)`.
    pub open spec fn digit_at(&self, x: int, y: int) -> Digit {
        self.subgrids@[block_index(x, y)].digits@[slot_index(x, y)]
    }

    /// True when the grid has exactly nine blocks of exactly nine digits,
    /// which is what every function that addresses its cells asks for.
    pub fn is_well_formed(&self) -> (well_formed: bool)
        ensures
            well_formed == self.well_formed(),
    {
        if self.subgrids.len() != GRID_LENGTH {
            return false;
        }
        for index in 0..GRID_LENGTH
            invariant
                self.subgrids@.len() == 9,
                forall|k: int| 0 <= k < index ==> (#[trigger] self@[k]).len() == 9,
        {
            if self.subgrids[index].digits.len() != SUBGRID_LENGTH {
                assert(self@[index as int].len() != 9);
                return false;
            }
            assert(self@[index as int].len() == 9);
        }
        true
    }

    /// True when every digit of the grid is known.
    pub fn is_solved(&self) -> (solved: bool)
        ensures
            solved == all_known(self@),
    {
        for index in 0..self.subgrids.len()
            invariant
                forall|k: int, s: int|
                    0 <= k < index && 0 <= s < self@[k].len() ==> (#[trigger] self@[k][s]) is Known,
        {
            if !self.subgrids[index].is_solved() {
                let ghost s = choose|s: int|
                    0 <= s < self@[index as int].len() && !(#[trigger] self@[index as int][s]
                        is Known);
                assert(!(self@[index as int][s] is Known));
                return false;
            }
        }
        true
    }

    /// True when every digit of the grid is known and no digit repeats the
    /// value of another one in its column, its row or its block.
    pub fn is_solved_correctly(&self) -> (correct: bool)
        requires
            self.well_formed(),
        ensures
            correct == solved_correctly(self@),
    {
        for x in 0..GRID_JOINT_SIZE
            invariant
                self.well_formed(),
                forall|x1: int, y1: int|
                    0 <= x1 < x && 0 <= y1 < 9 ==> checked_cell(self@, x1, y1),
        {
            for y in 0..GRID_JOINT_SIZE
                invariant
                    self.well_formed(),
                    x < 9,
                    forall|x1: int, y1: int|
                        0 <= x1 < x && 0 <= y1 < 9 ==> checked_cell(self@, x1, y1),
                    forall|y1: int| 0 <= y1 < y ==> checked_cell(self@, x as int, y1),
            {
                let digit = self.get_digit(x, y);
                match digit {
                    Digit::Unknown(_) => {
                        proof {
                            lemma_coordinates(x as int, y as int);
                            assert(!(self@[block_index(x as int, y as int)][slot_index(
                                x as int,
                                y as int,
                            )] is Known));
                        }
                        return false;
                    },
                    Digit::Known(value) => {
                        let neighbours = self.get_neighbour_digits(x, y);
                        proof {
                            lemma_known_around(self@, x as int, y as int, *value);
                        }
                        if holds_known(&neighbours, *value) {
                            proof {
                                let (x2, y2) = choose|x2: int, y2: int|
                                    in_grid(x2, y2) && are_neighbours(
                                        x as int,
                                        y as int,
                                        x2,
                                        y2,
                                    ) && #[trigger] cell_at(self@, x2, y2) == Cell::Known(*value);
                                assert(cell_at(self@, x as int, y as int) == cell_at(
                                    self@,
                                    x2,
                                    y2,
                                ));
                            }
                            return false;
                        }
                    },
                }
            }
        }
        proof {
            lemma_checked_board(self@);
        }
        true
    }

    /// Every digit that shares a column, a row or a block with `(x_joint,
    /// y_joint)`, the cell itself left out: the rest of its block, then the
    /// rest of its column, then the rest of its row.
    pub fn get_neighbour_digits(&self, x_joint: usize, y_joint: usize) -> (neighbours: Vec<&Digit>)
        requires
            x_joint < 9,
            y_joint < 9,
            self.well_formed(),
        ensures
            cells_of(neighbours@) == neighbour_cells(self@, x_joint as int, y_joint as int),
    {
        let ghost expected = neighbour_cells(self@, x_joint as int, y_joint as int);
        let subgrid = self.get_subgrid(x_joint, y_joint);
        let (subgrid_x, subgrid_y) = to_subgrid_coordinates(x_joint, y_joint);
        let mut neighbours = subgrid.get_neighbour_digits(subgrid_x, subgrid_y);
        let (grid_x, grid_y) = to_grid_coordinates(x_joint, y_joint);
        proof {
            lemma_coordinates(x_joint as int, y_joint as int);
            assert forall|k: int| 0 <= k < 8 implies cells_of(neighbours@)[k] == expected[k] by {
                let slot = if k == slot_index(x_joint as int, y_joint as int) {
                    8
                } else {
                    k
                };
                lemma_block_coordinates(
                    block_index(x_joint as int, y_joint as int),
                    slot,
                );
            }
        }
        let vertical_skip = grid_y * SUBGRID_SIZE;
        for y in 0..vertical_skip
            invariant
                self.well_formed(),
                x_joint < 9,
                y_joint < 9,
                vertical_skip == (y_joint / 3) * 3,
                expected == neighbour_cells(self@, x_joint as int, y_joint as int),
                neighbours@.len() == 8 + y,
                forall|k: int| 0 <= k < 8 + y ==> cells_of(neighbours@)[k] == expected[k],
        {
            neighbours.push(self.get_digit(x_joint, y));
        }
        for y in vertical_skip + SUBGRID_SIZE..GRID_JOINT_SIZE
            invariant
                self.well_formed(),
                x_joint < 9,
                y_joint < 9,
                vertical_skip == (y_joint / 3) * 3,
                expected == neighbour_cells(self@, x_joint as int, y_joint as int),
                neighbours@.len() == 5 + y,
                forall|k: int| 0 <= k < 5 + y ==> cells_of(neighbours@)[k] == expected[k],
        {
            neighbours.push(self.get_digit(x_joint, y));
        }
        let horizontal_skip = grid_x * SUBGRID_SIZE;
        for x in 0..horizontal_skip
            invariant
                self.well_formed(),
                x_joint < 9,
                y_joint < 9,
                horizontal_skip == (x_joint / 3) * 3,
                expected == neighbour_cells(self@, x_joint as int, y_joint as int),
                neighbours@.len() == 14 + x,
                forall|k: int| 0 <= k < 14 + x ==> cells_of(neighbours@)[k] == expected[k],
        {
            neighbours.push(self.get_digit(x, y_joint));
        }
        for x in horizontal_skip + SUBGRID_SIZE..GRID_JOINT_SIZE
            invariant
                self.well_formed(),
                x_joint < 9,
                y_joint < 9,
                horizontal_skip == (x_joint / 3) * 3,
                expected == neighbour_cells(self@, x_joint as int, y_joint as int),
                neighbours@.len() == 11 + x,
                forall|k: int| 0 <= k < 11 + x ==> cells_of(neighbours@)[k] == expected[k],
        {
            neighbours.push(self.get_digit(x, y_joint));
        }
        assert(cells_of(neighbours@) =~= expected);
        neighbours
    }

    /// The nine digits of column `x_joint`, from the top down.
    pub fn get_vertical_digits(&self, x_joint: usize) -> (digits: Vec<&Digit>)
        requires
            x_joint < 9,
            self.well_formed(),
        ensures
            cells_of(digits@) == column_cells(self@, x_joint as int),
    {
        let mut digits: Vec<&Digit> = Vec::with_capacity(GRID_JOINT_SIZE);
        for y_joint in 0..GRID_JOINT_SIZE
            invariant
                self.well_formed(),
                x_joint < 9,
                digits@.len() == y_joint,
                forall|y: int|
                    0 <= y < y_joint ==> digits@[y]@ == cell_at(self@, x_joint as int, y),
        {
            digits.push(self.get_digit(x_joint, y_joint));
        }
        assert(cells_of(digits@) =~= column_cells(self@, x_joint as int));
        digits
    }

    /// The nine digits of column `x_joint`, from the top down, each with its
    /// joint coordinates.
    pub fn get_vertical_localized_digits(&self, x_joint: usize) -> (digits: Vec<LocalizedDigit>)
        requires
            x_joint < 9,
            self.well_formed(),
        ensures
            localized_cells(digits@) == column_localized(self@, x_joint as int),
    {
        let mut digits: Vec<LocalizedDigit> = Vec::with_capacity(GRID_JOINT_SIZE);
        for y_joint in 0..GRID_JOINT_SIZE
            invariant
                self.well_formed(),
                x_joint < 9,
                digits@.len() == y_joint,
                forall|y: int|
                    0 <= y < y_joint ==> digits@[y]@ == (LocalizedCell {
                        cell: cell_at(self@, x_joint as int, y),
                        x: x_joint as int,
                        y,
                    }),
        {
            let digit = self.get_digit(x_joint, y_joint);
            digits.push(LocalizedDigit::from_borrowed(digit, x_joint, y_joint));
        }
        assert(localized_cells(digits@) =~= column_localized(self@, x_joint as int));
        digits
    }

    /// The nine digits of row `y_joint`, from left to right.
    pub fn get_horizontal_digits(&self, y_joint: usize) -> (digits: Vec<&Digit>)
        requires
            y_joint < 9,
            self.well_formed(),
        ensures
            cells_of(digits@) == row_cells(self@, y_joint as int),
    {
        let mut digits: Vec<&Digit> = Vec::with_capacity(GRID_JOINT_SIZE);
        for x_joint in 0..GRID_JOINT_SIZE
            invariant
                self.well_formed(),
                y_joint < 9,
                digits@.len() == x_joint,
                forall|x: int|
                    0 <= x < x_joint ==> digits@[x]@ == cell_at(self@, x, y_joint as int),
        {
            digits.push(self.get_digit(x_joint, y_joint));
        }
        assert(cells_of(digits@) =~= row_cells(self@, y_joint as int));
        digits
    }

    /// The nine digits of row `y_joint`, from left to right, each with its
    /// joint coordinates.
    pub fn get_horizontal_localized_digits(&self, y_joint: usize) -> (digits: Vec<LocalizedDigit>)
        requires
            y_joint < 9,
            self.well_formed(),
        ensures
            localized_cells(digits@) == row_localized(self@, y_joint as int),
    {
        let mut digits: Vec<LocalizedDigit> = Vec::with_capacity(GRID_JOINT_SIZE);
        for x_joint in 0..GRID_JOINT_SIZE
            invariant
                self.well_formed(),
                y_joint < 9,
                digits@.len() == x_joint,
                forall|x: int|
                    0 <= x < x_joint ==> digits@[x]@ == (LocalizedCell {
                        cell: cell_at(self@, x, y_joint as int),
                        x,
                        y: y_joint as int,
                    }),
        {
            let digit = self.get_digit(x_joint, y_joint);
            digits.push(LocalizedDigit::from_borrowed(digit, x_joint, y_joint));
        }
        assert(localized_cells(digits@) =~= row_localized(self@, y_joint as int));
        digits
    }

    /// The digit at the joint position `(x_joint, y_joint)`.
    pub fn get_digit(&self, x_joint: usize, y_joint: usize) -> (digit: &Digit)
        requires
            x_joint < 9,
            y_joint < 9,
            self.well_formed(),
        ensures
            digit@ == cell_at(self@, x_joint as int, y_joint as int),
            *digit == self.digit_at(x_joint as int, y_joint as int),
    {
        let subgrid = self.get_subgrid(x_joint, y_joint);
        let (subgrid_x, subgrid_y) = to_subgrid_coordinates(x_joint, y_joint);
        subgrid.get_digit(subgrid_x, subgrid_y)
    }

    /// The digit at the joint position `(x_joint, y_joint)`, for writing:
    /// what is left in it stands in the grid afterwards, and no other cell
    /// changes.
    pub fn get_digit_mut(&mut self, x_joint: usize, y_joint: usize) -> (digit: &mut Digit)
        requires
            x_joint < 9,
            y_joint < 9,
            old(self).well_formed(),
        ensures
            digit@ == cell_at(old(self)@, x_joint as int, y_joint as int),
            final(self)@ =~~= with_cell(old(self)@, x_joint as int, y_joint as int, final(digit)@),
    {
        proof {
            lemma_coordinates(x_joint as int, y_joint as int);
        }
        let subgrid = self.get_subgrid_mut(x_joint, y_joint);
        let (subgrid_x, subgrid_y) = to_subgrid_coordinates(x_joint, y_joint);
        subgrid.get_digit_mut(subgrid_x, subgrid_y)
    }

    /// Puts `digit` at the joint position `(x_joint, y_joint)`; no other cell
    /// changes.
    pub fn set_digit(&mut self, x_joint: usize, y_joint: usize, digit: Digit)
        requires
            x_joint < 9,
            y_joint < 9,
            old(self).well_formed(),
        ensures
            final(self)@ == with_cell(old(self)@, x_joint as int, y_joint as int, digit@),
            final(self).well_formed(),
            cell_at(final(self)@, x_joint as int, y_joint as int) == digit@,
            forall|x: int, y: int|
                in_grid(x, y) && (x != x_joint || y != y_joint) ==> #[trigger] cell_at(
                    final(self)@,
                    x,
                    y,
                ) == cell_at(old(self)@, x, y),
    {
        let subgrid = self.get_subgrid_mut(x_joint, y_joint);
        let (subgrid_x, subgrid_y) = to_subgrid_coordinates(x_joint, y_joint);
        subgrid.set_digit(subgrid_x, subgrid_y, digit);
        proof {
            lemma_coordinates(x_joint as int, y_joint as int);
            lemma_with_cell(old(self)@, x_joint as int, y_joint as int, digit@);
        }
        assert(self@ =~~= with_cell(old(self)@, x_joint as int, y_joint as int, digit@));
    }

    /// The block that holds the joint position `(x_joint, y_joint)`.
    pub fn get_subgrid(&self, x_joint: usize, y_joint: usize) -> (subgrid: &Subgrid)
        requires
            x_joint < 9,
            y_joint < 9,
            self.well_formed(),
        ensures
            *subgrid == self.subgrids@[block_index(x_joint as int, y_joint as int)],
            subgrid.well_formed(),
    {
        let (grid_x, grid_y) = to_grid_coordinates(x_joint, y_joint);
        self.get_subgrid_absolute(grid_x, grid_y)
    }

    /// The block that holds the joint position `(x_joint, y_joint)`, for
    /// writing: what is left in it stands in the grid afterwards, and no
    /// other block changes.
    pub fn get_subgrid_mut(&mut self, x_joint: usize, y_joint: usize) -> (subgrid: &mut Subgrid)
        requires
            x_joint < 9,
            y_joint < 9,
            old(self).well_formed(),
        ensures
            *subgrid == old(self).subgrids@[block_index(x_joint as int, y_joint as int)],
            subgrid.well_formed(),
            final(self).subgrids@ == old(self).subgrids@.update(
                block_index(x_joint as int, y_joint as int),
                *final(subgrid),
            ),
    {
        let (grid_x, grid_y) = to_grid_coordinates(x_joint, y_joint);
        self.get_subgrid_absolute_mut(grid_x, grid_y)
    }

    /// The block in column `x` and row `y` of blocks.
    pub fn get_subgrid_absolute(&self, x: usize, y: usize) -> (subgrid: &Subgrid)
        requires
            x < 3,
            y < 3,
            self.well_formed(),
        ensures
            *subgrid == self.subgrids@[x + y * 3],
            subgrid.well_formed(),
    {
        let index = self.to_grid_index(x, y);
        assert(self@[index as int].len() == 9);
        &self.subgrids[index]
    }

    /// The block in column `x` and row `y` of blocks, for writing: what is
    /// left in it stands in the grid afterwards, and no other block changes.
    pub fn get_subgrid_absolute_mut(&mut self, x: usize, y: usize) -> (subgrid: &mut Subgrid)
        requires
            x < 3,
            y < 3,
            old(self).well_formed(),
        ensures
            *subgrid == old(self).subgrids@[x + y * 3],
            subgrid.well_formed(),
            final(self).subgrids@ == old(self).subgrids@.update(x + y * 3, *final(subgrid)),
    {
        let index = self.to_grid_index(x, y);
        assert(self@[index as int].len() == 9);
        &mut self.subgrids[index]
    }

    fn to_grid_index(&self, x: usize, y: usize) -> (index: usize)
        requires
            x < 3,
            y < 3,
        ensures
            index == x + y * 3,
    {
        x + y * GRID_SIZE
    }
}

/// The cell at `(x, y)` is known and none of its neighbours is known to hold
/// the same value.
pub open spec fn checked_cell(board: Board, x: int, y: int) -> bool {
    match cell_at(board, x, y) {
        Cell::Known(value) => !known_around(board, x, y, value),
        Cell::Unknown(_) => false,
    }
}

/// A board all of whose cells pass [`checked_cell`] is solved correctly.
pub proof fn lemma_checked_board(board: Board)
    requires
        well_formed(board),
        forall|x: int, y: int| in_grid(x, y) ==> checked_cell(board, x, y),
    ensures
        solved_correctly(board),
{
    assert forall|k: int, s: int| 0 <= k < board.len() && 0 <= s < board[k].len() implies (
    #[trigger] board[k][s]) is Known by {
        lemma_block_coordinates(k, s);
        assert(checked_cell(board, joint_x(k, s), joint_y(k, s)));
    }
    assert forall|x1: int, y1: int, x2: int, y2: int|
        in_grid(x1, y1) && in_grid(x2, y2) && are_neighbours(x1, y1, x2, y2) && (
        #[trigger] cell_at(board, x1, y1)) is Known implies cell_at(board, x1, y1)
        != #[trigger] cell_at(board, x2, y2) by {
        assert(checked_cell(board, x1, y1));
    }
}

impl Default for Grid {
    /// A grid of nine blocks of undetermined digits without candidates.
    fn default() -> (result: Self)
        ensures
            result.well_formed(),
            forall|x: int, y: int|
                in_grid(x, y) ==> #[trigger] cell_at(result@, x, y) == Cell::Unknown(Seq::empty()),
    {
        let mut subgrids: Vec<Subgrid> = Vec::with_capacity(GRID_LENGTH);
        for index in 0..GRID_LENGTH
            invariant
                subgrids@.len() == index,
                forall|k: int|
                    0 <= k < index ==> subgrids@[k]@ == Seq::new(
                        9,
                        |s: int| Cell::Unknown(Seq::empty()),
                    ),
        {
            subgrids.push(Subgrid::default());
        }
        let result = Self::new(subgrids);
        assert forall|x: int, y: int| in_grid(x, y) implies #[trigger] cell_at(result@, x, y)
            == Cell::Unknown(Seq::empty()) by {
            lemma_coordinates(x, y);
        }
        result
    }
}

impl Clone for Grid {
    fn clone(&self) -> (result: Self)
        ensures
            result@ == self@,
    {
        let mut subgrids: Vec<Subgrid> = Vec::with_capacity(self.subgrids.len());
        for index in 0..self.subgrids.len()
            invariant
                subgrids@.len() == index,
                forall|k: int| 0 <= k < index ==> subgrids@[k]@ == self.subgrids@[k]@,
        {
            subgrids.push(self.subgrids[index].clone());
        }
        let result = Self::new(subgrids);
        assert(result@ =~= self@);
        result
    }
}

} // verus!
