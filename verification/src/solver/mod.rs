//! The propagation engine: repeated rounds of candidate computation and
//! resolution over one grid.

use std::borrow::Cow;
use std::time::Instant;
use vstd::prelude::*;
use crate::grid::board::{
    all_known, block_index, Board, cell_at, in_grid, in_range, lemma_board_extensional,
    lemma_board_from, lemma_coordinates, lemma_with_cell, slot_index, well_formed,
};
use crate::grid::digit::{Cell, Digit, LocalizedDigit};
use crate::grid::position::Position;
use crate::grid::{
    block_excluding, block_localized, cells_of, column_cells, Grid, holds_known, localized_cells,
    row_cells, Subgrid,
};
use crate::solver::laws::{
    agrees, extends, is_solution, lemma_settled_extends, lemma_settled_in_range,
    lemma_settled_sound,
};
use crate::solver::rules::{
    after_solutions, any_has_candidate, blocks_resolved, candidate_beside_segment,
    candidate_in_segment, cells_in, columns_resolved, confined_to_segment, eliminate_step,
    eliminate_steps, eliminated, eliminated_cell, has_sole_holder, holder_of, lemma_beside_segment,
    lemma_eliminate_steps_well_formed, lemma_filter_agree, lemma_settled_after_round,
    lemma_settled_at_once, lemma_solutions_coordinates, lemma_solutions_in_unit,
    lemma_solutions_outside_unit, line_cell, missing_from, numerals, recomputed, recomputed_cell,
    refreshed, round, rows_resolved, segment_block, segment_positions, settled,
    single_resolved_cell, singles_resolved, sole_holder, solution_for, solutions_among,
    unit_resolved_cell, unknown_among, unknown_count,
};

pub mod laws;
pub mod rules;

verus! {

/// What [`Solver::solve`] returns. Solving cannot fail: the grid comes back
/// as far as it could be solved.
pub type SolverResult = Result<Grid, SolverError>;

/// The error of a [`SolverResult`].
pub type SolverError = Cow<'static, str>;

/// The time that [`Solver::solve`] may take before it starts no further
/// round, in whole seconds.
pub const TIME_BUDGET_SECONDS: u64 = 1;

/// The solving engine. It owns the grid that it works on.
pub struct Solver {
    pub grid: Grid,
}

impl Solver {
    /// An engine that works on `grid`.
    pub fn new(grid: Grid) -> (result: Self)
        ensures
            result.grid == grid,
    {
        Self { grid }
    }

    /// Resolves every undetermined cell that has exactly one candidate to
    /// that candidate.
    pub fn set_single_possible_values(&mut self)
        requires
            old(self).grid.well_formed(),
        ensures
            final(self).grid@ == singles_resolved(old(self).grid@),
            final(self).grid.well_formed(),
    {
        let ghost before = self.grid@;
        for x in 0..9usize
            invariant
                before == old(self).grid@,
                self.grid.well_formed(),
                forall|x1: int, y1: int|
                    in_grid(x1, y1) ==> #[trigger] cell_at(self.grid@, x1, y1) == if x1 < x {
                        single_resolved_cell(cell_at(before, x1, y1))
                    } else {
                        cell_at(before, x1, y1)
                    },
        {
            for y in 0..9usize
                invariant
                    x < 9,
                    before == old(self).grid@,
                    self.grid.well_formed(),
                    forall|x1: int, y1: int|
                        in_grid(x1, y1) ==> #[trigger] cell_at(self.grid@, x1, y1) == if x1 < x
                            || (x1 == x && y1 < y) {
                            single_resolved_cell(cell_at(before, x1, y1))
                        } else {
                            cell_at(before, x1, y1)
                        },
            {
                let ghost current = self.grid@;
                let digit = self.grid.get_digit_mut(x, y);
                if let Digit::Unknown(unknown_digit) = digit {
                    let values = &unknown_digit.possible_values;
                    if values.len() == 1 {
                        let value = values[0];
                        *digit = Digit::Known(value);
                    }
                }
                proof {
                    lemma_with_cell(
                        current,
                        x as int,
                        y as int,
                        single_resolved_cell(cell_at(before, x as int, y as int)),
                    );
                }
            }
        }
        proof {
            lemma_board_from(|x: int, y: int| single_resolved_cell(cell_at(before, x, y)));
            lemma_board_extensional(self.grid@, singles_resolved(before));
        }
    }

    /// Gives every undetermined cell the complement of its neighbours as its
    /// candidates, whatever it held before. Known cells stay as they are.
    pub fn recompute_candidates(&mut self)
        requires
            old(self).grid.well_formed(),
        ensures
            final(self).grid@ == recomputed(old(self).grid@),
            final(self).grid.well_formed(),
    {
        let ghost before = self.grid@;
        let grid_clone = self.grid.clone();
        for x in 0..9usize
            invariant
                before == old(self).grid@,
                grid_clone@ == before,
                grid_clone.well_formed(),
                self.grid.well_formed(),
                forall|x1: int, y1: int|
                    in_grid(x1, y1) ==> #[trigger] cell_at(self.grid@, x1, y1) == if x1 < x {
                        recomputed_cell(before, x1, y1)
                    } else {
                        cell_at(before, x1, y1)
                    },
        {
            for y in 0..9usize
                invariant
                    x < 9,
                    before == old(self).grid@,
                    grid_clone@ == before,
                    grid_clone.well_formed(),
                    self.grid.well_formed(),
                    forall|x1: int, y1: int|
                        in_grid(x1, y1) ==> #[trigger] cell_at(self.grid@, x1, y1) == if x1 < x
                            || (x1 == x && y1 < y) {
                            recomputed_cell(before, x1, y1)
                        } else {
                            cell_at(before, x1, y1)
                        },
            {
                let ghost current = self.grid@;
                let digit = self.grid.get_digit_mut(x, y);
                if let Digit::Unknown(digit) = digit {
                    let neighbours = grid_clone.get_neighbour_digits(x, y);
                    let supplement = Self::get_complement(neighbours);
                    digit.possible_values = supplement;
                }
                proof {
                    lemma_with_cell(
                        current,
                        x as int,
                        y as int,
                        recomputed_cell(before, x as int, y as int),
                    );
                }
            }
        }
        proof {
            lemma_board_from(|x: int, y: int| recomputed_cell(before, x, y));
            lemma_board_extensional(self.grid@, recomputed(before));
        }
    }

    /// The numerals, in ascending order, that none of `neighbours` is known
    /// to hold. Undetermined neighbours, whatever their candidates, take
    /// nothing away.
    pub fn get_complement(neighbours: Vec<&Digit>) -> (complement: Vec<u32>)
        ensures
            complement@ == missing_from(cells_of(neighbours@)),
    {
        let mut complement: Vec<u32> = Vec::with_capacity(9);
        let ghost keep = |value: u32| !cells_of(neighbours@).contains(Cell::Known(value));
        for value in 1..10u32
            invariant
                keep == |value: u32| !cells_of(neighbours@).contains(Cell::Known(value)),
                complement@ == numerals().take(value - 1).filter(keep),
        {
            proof {
                assert(numerals().take(value as int).drop_last() == numerals().take(value - 1));
                assert(numerals().take(value as int).last() == value);
                reveal(Seq::filter);
            }
            if !holds_known(&neighbours, value) {
                complement.push(value);
            }
        }
        assert(numerals().take(9) == numerals());
        complement
    }

    /// Computes the candidates of every undetermined cell afresh: the
    /// complement of its neighbours, narrowed by the elimination pass over
    /// the columns and then by the one over the rows.
    pub fn set_possible_values(&mut self)
        requires
            old(self).grid.well_formed(),
        ensures
            final(self).grid@ == refreshed(old(self).grid@),
            final(self).grid.well_formed(),
    {
        self.recompute_candidates();
        self.eliminate_impossible_possible_values_in_columns();
        self.eliminate_impossible_possible_values_in_rows();
    }

    /// Runs one round: single candidates are resolved, then the blocks, the
    /// columns and the rows, each after a full computation of candidates.
    pub fn run_round(&mut self)
        requires
            old(self).grid.well_formed(),
        ensures
            final(self).grid@ == round(old(self).grid@),
            final(self).grid.well_formed(),
    {
        self.set_possible_values();
        self.set_single_possible_values();
        self.set_possible_values();
        self.find_single_possible_solutions_for_subgrids();
        self.set_possible_values();
        self.find_single_possible_solutions_for_columns();
        self.set_possible_values();
        self.find_single_possible_solutions_for_rows();
    }

    /// The number of undetermined cells of the grid.
    fn count_unknown(&self) -> (count: usize)
        requires
            self.grid.well_formed(),
        ensures
            count == unknown_count(self.grid@),
    {
        let mut count: usize = 0;
        for index in 0..81usize
            invariant
                self.grid.well_formed(),
                count == unknown_among(self.grid@, index as nat),
                count <= index,
        {
            if let Digit::Unknown(_) = self.grid.get_digit(index % 9, index / 9) {
                count += 1;
            }
        }
        count
    }

    /// Runs one round and says whether another one is worth running: whether
    /// the round has resolved a cell.
    fn advance(&mut self) -> (progress: bool)
        requires
            old(self).grid.well_formed(),
        ensures
            final(self).grid@ == round(old(self).grid@),
            final(self).grid.well_formed(),
            progress == (unknown_count(final(self).grid@) < unknown_count(old(self).grid@)),
    {
        let before = self.count_unknown();
        self.run_round();
        let after = self.count_unknown();
        after < before
    }

    /// Solves as far as `allowed` rounds reach: rounds are run until every
    /// digit is known, or a round has resolved no cell, or `allowed` rounds
    /// have been run. Known digits stay as they are, and the result agrees
    /// with every solution that the grid agrees with.
    pub fn solve_within(self, allowed: usize) -> (grid: Grid)
        requires
            self.grid.well_formed(),
        ensures
            grid@ == settled(self.grid@, allowed as nat),
            grid.well_formed(),
            extends(self.grid@, grid@),
            in_range(self.grid@) ==> in_range(grid@),
            forall|solution: Board|
                is_solution(solution) && agrees(self.grid@, solution) ==> #[trigger] agrees(
                    grid@,
                    solution,
                ),
    {
        let ghost before = self.grid@;
        let mut solver = self;
        let mut left = allowed;
        loop
            invariant
                before == self.grid@,
                well_formed(before),
                solver.grid.well_formed(),
                settled(before, allowed as nat) == settled(solver.grid@, left as nat),
            decreases left,
        {
            if left == 0 || solver.grid.is_solved() {
                proof {
                    lemma_settled_at_once(solver.grid@, left as nat);
                    lemma_follows_the_rounds(before, allowed as nat);
                }
                return solver.grid;
            }
            proof {
                lemma_settled_after_round(solver.grid@, left as nat);
            }
            let progress = solver.advance();
            if !progress {
                proof {
                    lemma_follows_the_rounds(before, allowed as nat);
                }
                return solver.grid;
            }
            left -= 1;
        }
    }

    /// One turn of the solving loop, `elapsed_seconds` being what the clock
    /// reads when the turn begins. A round is started only on a grid that is
    /// not completely known and only while the reading is below the budget;
    /// otherwise the grid stays as it is. A round that is started runs to its
    /// end, whatever the clock reads meanwhile. The result says whether
    /// another turn is worth taking: whether a round has run and has resolved
    /// a cell.
    pub fn turn(&mut self, elapsed_seconds: u64) -> (again: bool)
        requires
            old(self).grid.well_formed(),
        ensures
            final(self).grid.well_formed(),
            final(self).grid@ == if all_known(old(self).grid@) || elapsed_seconds
                >= TIME_BUDGET_SECONDS {
                old(self).grid@
            } else {
                round(old(self).grid@)
            },
            again == (!all_known(old(self).grid@) && elapsed_seconds < TIME_BUDGET_SECONDS
                && unknown_count(round(old(self).grid@)) < unknown_count(old(self).grid@)),
    {
        if self.grid.is_solved() || elapsed_seconds >= TIME_BUDGET_SECONDS {
            return false;
        }
        self.advance()
    }

    /// Solves the grid as far as the rounds reach that fit into one second:
    /// turns are taken, each with the reading of the clock, until every digit
    /// is known, or a round has resolved no cell, or the second has passed
    /// when a turn begins. The result is the grid as it then stands, solved
    /// or not: the caller asks the grid whether it is solved.
    ///
    /// A round that has resolved no cell has reached a grid that no further
    /// round changes (`laws::lemma_round_without_progress`), so nothing is
    /// lost by stopping there. The clock decides how many rounds are run, so
    /// the contract says what holds for every number of them: the result is
    /// what [`Solver::solve_within`] gives for some allowance. What one turn
    /// does with one reading of the clock is the contract of
    /// [`Solver::turn`].
    pub fn solve(self) -> (result: SolverResult)
        requires
            self.grid.well_formed(),
        ensures
            result is Ok,
            result->Ok_0.well_formed(),
            exists|allowed: nat| result->Ok_0@ == settled(self.grid@, allowed),
            all_known(self.grid@) ==> result->Ok_0@ == self.grid@,
            extends(self.grid@, result->Ok_0@),
            in_range(self.grid@) ==> in_range(result->Ok_0@),
            forall|solution: Board|
                is_solution(solution) && agrees(self.grid@, solution) ==> #[trigger] agrees(
                    result->Ok_0@,
                    solution,
                ),
    {
        let ghost before = self.grid@;
        let ghost mut rounds: nat = 0;
        let mut solver = self;
        let mut left = solver.count_unknown();
        let start = Instant::now();
        loop
            invariant
                before == self.grid@,
                well_formed(before),
                solver.grid.well_formed(),
                left == unknown_count(solver.grid@),
                forall|more: nat|
                    settled(before, rounds + more) == #[trigger] settled(solver.grid@, more),
                all_known(before) ==> solver.grid@ == before,
            decreases left,
        {
            let ghost current = solver.grid@;
            let elapsed_seconds = start.elapsed().as_secs();
            let again = solver.turn(elapsed_seconds);
            if !again {
                proof {
                    if all_known(current) || elapsed_seconds >= TIME_BUDGET_SECONDS {
                        lemma_settled_at_once(current, 0);
                        assert(settled(before, rounds + 0) == settled(current, 0));
                        lemma_follows_the_rounds(before, rounds);
                    } else {
                        lemma_settled_after_round(current, 1);
                        assert(settled(before, rounds + 1) == settled(current, 1));
                        lemma_follows_the_rounds(before, rounds + 1);
                    }
                }
                return Ok(solver.grid);
            }
            proof {
                assert forall|more: nat|
                    settled(before, rounds + 1 + more) == #[trigger] settled(
                        solver.grid@,
                        more,
                    ) by {
                    lemma_settled_after_round(current, (more + 1) as nat);
                    assert(settled(before, rounds + (more + 1) as nat) == settled(
                        current,
                        (more + 1) as nat,
                    ));
                }
                rounds = rounds + 1;
            }
            left = solver.count_unknown();
        }
    }

    /// Runs the elimination pass over the columns: where, inside a block, a
    /// candidate stands in one column only, it is removed from the cells of
    /// that column in the other blocks. The steps run band by band and column
    /// by column, each on the grid that the one before it left.
    pub fn eliminate_impossible_possible_values_in_columns(&mut self)
        requires
            old(self).grid.well_formed(),
        ensures
            final(self).grid@ == eliminated(old(self).grid@, true),
            final(self).grid.well_formed(),
    {
        self.eliminate_in_lines(true);
    }

    /// Runs the elimination pass over the rows: where, inside a block, a
    /// candidate stands in one row only, it is removed from the cells of that
    /// row in the other blocks. The steps run band by band and row by row,
    /// each on the grid that the one before it left.
    pub fn eliminate_impossible_possible_values_in_rows(&mut self)
        requires
            old(self).grid.well_formed(),
        ensures
            final(self).grid@ == eliminated(old(self).grid@, false),
            final(self).grid.well_formed(),
    {
        self.eliminate_in_lines(false);
    }

    /// The elimination pass over the columns when `vertical` holds, over the
    /// rows otherwise.
    fn eliminate_in_lines(&mut self, vertical: bool)
        requires
            old(self).grid.well_formed(),
        ensures
            final(self).grid@ == eliminated(old(self).grid@, vertical),
            final(self).grid.well_formed(),
    {
        let ghost before = self.grid@;
        for band in 0..3usize
            invariant
                before == old(self).grid@,
                well_formed(before),
                self.grid.well_formed(),
                self.grid@ == eliminate_steps(before, vertical, (band * 9) as nat),
        {
            for line in 0..9usize
                invariant
                    band < 3,
                    before == old(self).grid@,
                    well_formed(before),
                    self.grid.well_formed(),
                    self.grid@ == eliminate_steps(before, vertical, (band * 9 + line) as nat),
            {
                self.eliminate_in_line(vertical, band, line);
                proof {
                    lemma_eliminate_steps_well_formed(
                        before,
                        vertical,
                        (band * 9 + line + 1) as nat,
                    );
                }
            }
        }
    }

    /// One elimination step: the cells of line `line` outside band `band`
    /// lose the candidates that are confined to that line inside the band.
    fn eliminate_in_line(&mut self, vertical: bool, band: usize, line: usize)
        requires
            old(self).grid.well_formed(),
            band < 3,
            line < 9,
        ensures
            final(self).grid@ == eliminate_step(
                old(self).grid@,
                vertical,
                band as int,
                line as int,
            ),
    {
        let ghost before = self.grid@;
        let values_to_remove = self.confined_values(vertical, band, line);
        let ghost confined = |value: u32|
            !confined_to_segment(before, vertical, band as int, line as int, value);
        for along in 0..9usize
            invariant
                band < 3,
                line < 9,
                before == old(self).grid@,
                self.grid.well_formed(),
                confined == |value: u32|
                    !confined_to_segment(before, vertical, band as int, line as int, value),
                forall|value: u32|
                    values_to_remove@.contains(value) <==> confined_to_segment(
                        before,
                        vertical,
                        band as int,
                        line as int,
                        value,
                    ),
                forall|x1: int, y1: int|
                    in_grid(x1, y1) ==> #[trigger] cell_at(self.grid@, x1, y1) == if (if vertical {
                        y1
                    } else {
                        x1
                    }) < along {
                        eliminated_cell(before, vertical, band as int, line as int, x1, y1)
                    } else {
                        cell_at(before, x1, y1)
                    },
        {
            let ghost current = self.grid@;
            let (x, y) = if vertical {
                (line, along)
            } else {
                (along, line)
            };
            if along / 3 != band {
                let digit = self.grid.get_digit_mut(x, y);
                if let Digit::Unknown(digit) = digit {
                    let kept = without_values(&digit.possible_values, &values_to_remove);
                    proof {
                        lemma_filter_agree(
                            digit.possible_values@,
                            |value: u32| !values_to_remove@.contains(value),
                            confined,
                        );
                    }
                    digit.possible_values = kept;
                }
            }
            proof {
                lemma_with_cell(
                    current,
                    x as int,
                    y as int,
                    eliminated_cell(before, vertical, band as int, line as int, x as int, y as int),
                );
                if along / 3 != band {
                } else {
                    lemma_board_extensional(current, self.grid@);
                }
            }
        }
        proof {
            lemma_board_from(
                |x: int, y: int| eliminated_cell(before, vertical, band as int, line as int, x, y),
            );
            lemma_board_extensional(
                self.grid@,
                eliminate_step(before, vertical, band as int, line as int),
            );
        }
    }

    /// The candidates that are confined to line `line` inside band `band`:
    /// those of the line's cells in the band that no other cell of the same
    /// block has.
    fn confined_values(&self, vertical: bool, band: usize, line: usize) -> (values: Vec<u32>)
        requires
            self.grid.well_formed(),
            band < 3,
            line < 9,
        ensures
            forall|value: u32|
                values@.contains(value) <==> confined_to_segment(
                    self.grid@,
                    vertical,
                    band as int,
                    line as int,
                    value,
                ),
    {
        let mut line_values: Vec<u32> = Vec::with_capacity(9);
        for along in 3 * band..3 * band + 3
            invariant
                band < 3,
                line < 9,
                self.grid.well_formed(),
                forall|value: u32|
                    line_values@.contains(value) <==> exists|a: int|
                        3 * band <= a < along && (#[trigger] line_cell(
                            self.grid@,
                            vertical,
                            line as int,
                            a,
                        )).has_candidate(value),
        {
            let digit = if vertical {
                self.grid.get_digit(line, along)
            } else {
                self.grid.get_digit(along, line)
            };
            let ghost earlier = line_values@;
            if let Digit::Unknown(digit) = digit {
                let mut possible_values = digit.possible_values.clone();
                line_values.append(&mut possible_values);
                assert(line_values@ == earlier + digit.possible_values@);
            }
            assert forall|value: u32|
                line_values@.contains(value) <==> exists|a: int|
                    3 * band <= a < along + 1 && (#[trigger] line_cell(
                        self.grid@,
                        vertical,
                        line as int,
                        a,
                    )).has_candidate(value) by {
                lemma_contains_after_append(earlier, line_values@, digit@, value);
                if line_values@.contains(value) {
                    if earlier.contains(value) {
                        let a = choose|a: int|
                            3 * band <= a < along && (#[trigger] line_cell(
                                self.grid@,
                                vertical,
                                line as int,
                                a,
                            )).has_candidate(value);
                        assert(3 * band <= a < along + 1);
                    } else {
                        let here = line_cell(self.grid@, vertical, line as int, along as int);
                        assert(here.has_candidate(value));
                    }
                }
                if exists|a: int|
                    3 * band <= a < along + 1 && (#[trigger] line_cell(
                        self.grid@,
                        vertical,
                        line as int,
                        a,
                    )).has_candidate(value) {
                    let a = choose|a: int|
                        3 * band <= a < along + 1 && (#[trigger] line_cell(
                            self.grid@,
                            vertical,
                            line as int,
                            a,
                        )).has_candidate(value);
                    if a < along {
                        assert(earlier.contains(value));
                    }
                }
            }
        }
        let subgrid = if vertical {
            self.grid.get_subgrid(line, 3 * band)
        } else {
            self.grid.get_subgrid(3 * band, line)
        };
        let mut positions: Vec<Position> = Vec::with_capacity(3);
        let fixed = line % 3;
        for moving in 0..3usize
            invariant
                fixed == line % 3,
                positions@ == segment_positions(vertical, line as int).take(moving as int),
        {
            let position = if vertical {
                Position::new(fixed, moving)
            } else {
                Position::new(moving, fixed)
            };
            positions.push(position);
            assert(positions@ =~= segment_positions(vertical, line as int).take(moving + 1));
        }
        assert(positions@ =~= segment_positions(vertical, line as int));
        let digits = subgrid.get_digits_excluding(positions);
        assert(subgrid@ == self.grid@[segment_block(vertical, band as int, line as int)]);
        let mut values_to_remove: Vec<u32> = Vec::with_capacity(9);
        for index in 0..line_values.len()
            invariant
                band < 3,
                line < 9,
                self.grid.well_formed(),
                cells_of(digits@) == block_excluding(
                    self.grid@[segment_block(vertical, band as int, line as int)],
                    segment_positions(vertical, line as int),
                ),
                forall|value: u32|
                    line_values@.contains(value) <==> candidate_in_segment(
                        self.grid@,
                        vertical,
                        band as int,
                        line as int,
                        value,
                    ),
                forall|value: u32|
                    values_to_remove@.contains(value) <==> line_values@.take(index as int).contains(
                        value,
                    ) && !candidate_beside_segment(
                        self.grid@,
                        vertical,
                        band as int,
                        line as int,
                        value,
                    ),
        {
            let line_value = line_values[index];
            let ghost earlier = values_to_remove@;
            proof {
                lemma_beside_segment(self.grid@, vertical, band as int, line as int, line_value);
            }
            if !Self::is_in_digits(line_value, &digits) {
                values_to_remove.push(line_value);
            }
            assert forall|value: u32|
                values_to_remove@.contains(value) <==> line_values@.take(index + 1).contains(value)
                    && !candidate_beside_segment(
                    self.grid@,
                    vertical,
                    band as int,
                    line as int,
                    value,
                ) by {
                assert(line_values@.take(index + 1) =~= line_values@.take(index as int).push(
                    line_value,
                ));
                lemma_contains_after_push(
                    line_values@.take(index as int),
                    line_values@.take(index + 1),
                    line_value,
                    value,
                );
                if values_to_remove@.len() > earlier.len() {
                    lemma_contains_after_push(earlier, values_to_remove@, line_value, value);
                }
            }
        }
        assert(line_values@.take(line_values@.len() as int) == line_values@);
        values_to_remove
    }

    /// Resolves, block by block, every cell that is the only one of its block
    /// to have some numeral as a candidate.
    pub fn find_single_possible_solutions_for_subgrids(&mut self)
        requires
            old(self).grid.well_formed(),
        ensures
            final(self).grid@ == blocks_resolved(old(self).grid@),
            final(self).grid.well_formed(),
    {
        let ghost before = self.grid@;
        for index in 0..9usize
            invariant
                before == old(self).grid@,
                well_formed(before),
                self.grid.well_formed(),
                forall|k: int, s: int|
                    0 <= k < 9 && 0 <= s < 9 ==> #[trigger] self.grid@[k][s] == if k < index {
                        unit_resolved_cell(before[k], s)
                    } else {
                        before[k][s]
                    },
        {
            let ghost current = self.grid@;
            let ghost blocks = self.grid.subgrids@;
            assert(self.grid@[index as int] =~= before[index as int]);
            Self::resolve_subgrid(&mut self.grid.subgrids[index]);
            proof {
                assert forall|k: int| 0 <= k < 9 && k != index implies self.grid@[k]
                    == current[k] by {
                    assert(self.grid.subgrids@[k] == blocks[k]);
                }
                assert forall|k: int| 0 <= k < 9 implies (#[trigger] self.grid@[k]).len() == 9 by {
                    if k != index {
                        assert(current[k].len() == 9);
                    }
                }
                assert forall|k: int, s: int| 0 <= k < 9 && 0 <= s < 9 implies (
                #[trigger] self.grid@[k][s]) == if k < index + 1 {
                    unit_resolved_cell(before[k], s)
                } else {
                    before[k][s]
                } by {
                    if k != index {
                        assert(self.grid@[k][s] == current[k][s]);
                    }
                }
            }
        }
        proof {
            lemma_board_from(
                |x: int, y: int| unit_resolved_cell(before[block_index(x, y)], slot_index(x, y)),
            );
            assert forall|x: int, y: int| in_grid(x, y) implies cell_at(self.grid@, x, y)
                == cell_at(blocks_resolved(before), x, y) by {
                lemma_coordinates(x, y);
            }
            lemma_board_extensional(self.grid@, blocks_resolved(before));
        }
    }

    /// Resolves every cell of one block that is the only one of the block to
    /// have some numeral as a candidate.
    fn resolve_subgrid(subgrid: &mut Subgrid)
        requires
            old(subgrid).well_formed(),
        ensures
            final(subgrid)@ == Seq::new(9, |s: int| unit_resolved_cell(old(subgrid)@, s)),
    {
        let ghost before = subgrid@;
        let digits = subgrid.localized_digits();
        let ghost unit = localized_cells(digits@);
        let solutions = Self::get_solutions(digits);
        let ghost found = localized_cells(solutions@);
        assert(cells_in(unit) =~= before);
        for index in 0..solutions.len()
            invariant
                before == old(subgrid)@,
                before.len() == 9,
                unit == block_localized(before),
                found == localized_cells(solutions@),
                found == crate::solver::rules::solutions(unit),
                subgrid.well_formed(),
                forall|s: int|
                    0 <= s < 9 ==> #[trigger] subgrid@[s] == after_solutions(
                        found.take(index as int),
                        s % 3,
                        s / 3,
                        before[s],
                    ),
        {
            let (digit, x, y) = solutions[index].clone().into_owned_tuple();
            proof {
                lemma_solutions_coordinates(unit, missing_from(cells_in(unit)), index as int);
                assert(found.take(index + 1).drop_last() == found.take(index as int));
                assert(found.take(index + 1).last() == found[index as int]);
                assert(found[index as int] == solutions@[index as int]@);
                let place = choose|place: int|
                    0 <= place < unit.len() && found[index as int].x == (#[trigger] unit[place]).x
                        && found[index as int].y == unit[place].y;
                assert(x == place % 3 && y == place / 3);
            }
            let ghost current = subgrid@;
            subgrid.set_digit(x, y, digit);
            assert forall|s: int| 0 <= s < 9 implies #[trigger] subgrid@[s] == after_solutions(
                found.take(index + 1),
                s % 3,
                s / 3,
                before[s],
            ) by {
                if s != x + y * 3 {
                    assert(subgrid@[s] == current[s]);
                }
            }
        }
        proof {
            assert(found.take(solutions@.len() as int) == found);
            assert forall|s: int| 0 <= s < 9 implies subgrid@[s] == unit_resolved_cell(
                before,
                s,
            ) by {
                lemma_solutions_in_unit(unit, s);
            }
            assert(subgrid@ =~= Seq::new(9, |s: int| unit_resolved_cell(before, s)));
        }
    }

    /// Resolves, column by column, every cell that is the only one of its
    /// column to have some numeral as a candidate.
    pub fn find_single_possible_solutions_for_columns(&mut self)
        requires
            old(self).grid.well_formed(),
        ensures
            final(self).grid@ == columns_resolved(old(self).grid@),
            final(self).grid.well_formed(),
    {
        let ghost before = self.grid@;
        for x in 0..9usize
            invariant
                before == old(self).grid@,
                well_formed(before),
                self.grid.well_formed(),
                forall|x1: int, y1: int|
                    in_grid(x1, y1) ==> #[trigger] cell_at(self.grid@, x1, y1) == if x1 < x {
                        unit_resolved_cell(column_cells(before, x1), y1)
                    } else {
                        cell_at(before, x1, y1)
                    },
        {
            let ghost current = self.grid@;
            let column = self.grid.get_vertical_localized_digits(x);
            let ghost unit = localized_cells(column@);
            let solutions = Self::get_solutions(column);
            proof {
                assert(cells_in(unit) =~= column_cells(before, x as int));
                assert forall|i: int| 0 <= i < solutions@.len() implies (#[trigger] solutions@[i]).x
                    < 9 && solutions@[i].y < 9 by {
                    lemma_solutions_coordinates(unit, missing_from(cells_in(unit)), i);
                    assert(localized_cells(solutions@)[i] == solutions@[i]@);
                }
            }
            self.write_solutions(solutions);
            proof {
                assert forall|x1: int, y1: int| in_grid(x1, y1) implies #[trigger] cell_at(
                    self.grid@,
                    x1,
                    y1,
                ) == if x1 < x + 1 {
                    unit_resolved_cell(column_cells(before, x1), y1)
                } else {
                    cell_at(before, x1, y1)
                } by {
                    if x1 == x {
                        lemma_solutions_in_unit(unit, y1);
                    } else {
                        lemma_solutions_outside_unit(
                            unit,
                            missing_from(cells_in(unit)),
                            x1,
                            y1,
                            cell_at(current, x1, y1),
                        );
                    }
                }
            }
        }
        proof {
            lemma_board_from(|x: int, y: int| unit_resolved_cell(column_cells(before, x), y));
            lemma_board_extensional(self.grid@, columns_resolved(before));
        }
    }

    /// Resolves, row by row, every cell that is the only one of its row to
    /// have some numeral as a candidate.
    pub fn find_single_possible_solutions_for_rows(&mut self)
        requires
            old(self).grid.well_formed(),
        ensures
            final(self).grid@ == rows_resolved(old(self).grid@),
            final(self).grid.well_formed(),
    {
        let ghost before = self.grid@;
        for y in 0..9usize
            invariant
                before == old(self).grid@,
                well_formed(before),
                self.grid.well_formed(),
                forall|x1: int, y1: int|
                    in_grid(x1, y1) ==> #[trigger] cell_at(self.grid@, x1, y1) == if y1 < y {
                        unit_resolved_cell(row_cells(before, y1), x1)
                    } else {
                        cell_at(before, x1, y1)
                    },
        {
            let ghost current = self.grid@;
            let row = self.grid.get_horizontal_localized_digits(y);
            let ghost unit = localized_cells(row@);
            let solutions = Self::get_solutions(row);
            proof {
                assert(cells_in(unit) =~= row_cells(before, y as int));
                assert forall|i: int| 0 <= i < solutions@.len() implies (#[trigger] solutions@[i]).x
                    < 9 && solutions@[i].y < 9 by {
                    lemma_solutions_coordinates(unit, missing_from(cells_in(unit)), i);
                    assert(localized_cells(solutions@)[i] == solutions@[i]@);
                }
            }
            self.write_solutions(solutions);
            proof {
                assert forall|x1: int, y1: int| in_grid(x1, y1) implies #[trigger] cell_at(
                    self.grid@,
                    x1,
                    y1,
                ) == if y1 < y + 1 {
                    unit_resolved_cell(row_cells(before, y1), x1)
                } else {
                    cell_at(before, x1, y1)
                } by {
                    if y1 == y {
                        lemma_solutions_in_unit(unit, x1);
                    } else {
                        lemma_solutions_outside_unit(
                            unit,
                            missing_from(cells_in(unit)),
                            x1,
                            y1,
                            cell_at(current, x1, y1),
                        );
                    }
                }
            }
        }
        proof {
            lemma_board_from(|x: int, y: int| unit_resolved_cell(row_cells(before, y), x));
            lemma_board_extensional(self.grid@, rows_resolved(before));
        }
    }

    /// Writes each solution, in order, to the cell of its coordinates.
    fn write_solutions(&mut self, solutions: Vec<LocalizedDigit>)
        requires
            old(self).grid.well_formed(),
            forall|i: int|
                0 <= i < solutions@.len() ==> (#[trigger] solutions@[i]).x < 9 && solutions@[i].y
                    < 9,
        ensures
            final(self).grid.well_formed(),
            forall|x: int, y: int|
                in_grid(x, y) ==> #[trigger] cell_at(final(self).grid@, x, y) == after_solutions(
                    localized_cells(solutions@),
                    x,
                    y,
                    cell_at(old(self).grid@, x, y),
                ),
    {
        let ghost before = self.grid@;
        let ghost found = localized_cells(solutions@);
        for index in 0..solutions.len()
            invariant
                before == old(self).grid@,
                found == localized_cells(solutions@),
                self.grid.well_formed(),
                forall|i: int|
                    0 <= i < solutions@.len() ==> (#[trigger] solutions@[i]).x < 9
                        && solutions@[i].y < 9,
                forall|x: int, y: int|
                    in_grid(x, y) ==> #[trigger] cell_at(self.grid@, x, y) == after_solutions(
                        found.take(index as int),
                        x,
                        y,
                        cell_at(before, x, y),
                    ),
        {
            let ghost current = self.grid@;
            let (digit, x, y) = solutions[index].clone().into_owned_tuple();
            proof {
                assert(found.take(index + 1).drop_last() == found.take(index as int));
                assert(found.take(index + 1).last() == found[index as int]);
                assert(found[index as int] == solutions@[index as int]@);
                lemma_with_cell(current, x as int, y as int, digit@);
            }
            self.grid.set_digit(x, y, digit);
        }
        assert(found.take(solutions@.len() as int) == found);
    }

    /// The solutions of a unit: for each numeral, in ascending order, that no
    /// digit of the unit is known to hold and that exactly one of its digits
    /// has as a candidate, that numeral as a known digit at the coordinates
    /// of that digit.
    pub fn get_solutions<'a, 'b>(digits: Vec<LocalizedDigit<'a>>) -> (solutions: Vec<
        LocalizedDigit<'b>,
    >)
        ensures
            localized_cells(solutions@) == crate::solver::rules::solutions(
                localized_cells(digits@),
            ),
    {
        let ghost unit = localized_cells(digits@);
        let ghost cells = cells_in(unit);
        let possible_values = Self::get_possible_values(&digits);
        let mut solutions: Vec<LocalizedDigit<'b>> = Vec::with_capacity(9);
        for index in 0..possible_values.len()
            invariant
                unit == localized_cells(digits@),
                cells == cells_in(unit),
                possible_values@ == missing_from(cells),
                localized_cells(solutions@) == solutions_among(
                    unit,
                    possible_values@.take(index as int),
                ),
        {
            let value = possible_values[index];
            let mut holders: usize = 0;
            let mut first: usize = 0;
            for place in 0..digits.len()
                invariant
                    unit == localized_cells(digits@),
                    cells == cells_in(unit),
                    holders <= place,
                    holders == 0 ==> forall|j: int|
                        0 <= j < place ==> !(#[trigger] cells[j]).has_candidate(value),
                    holders == 1 ==> first < place && cells[first as int].has_candidate(value)
                        && forall|j: int|
                        0 <= j < place && j != first ==> !(#[trigger] cells[j]).has_candidate(
                            value,
                        ),
                    holders >= 2 ==> exists|a: int, b: int|
                        0 <= a < b < place && (#[trigger] cells[a]).has_candidate(value) && (
                        #[trigger] cells[b]).has_candidate(value),
            {
                assert(cells[place as int] == digits@[place as int].digit@);
                if let Digit::Unknown(unknown_digit) = digits[place].get_digit() {
                    if contains_value(&unknown_digit.possible_values, value) {
                        if holders == 0 {
                            first = place;
                        } else if holders == 1 {
                            assert(cells[first as int].has_candidate(value));
                            assert(cells[place as int].has_candidate(value));
                        }
                        holders += 1;
                    }
                }
            }
            let ghost earlier = localized_cells(solutions@);
            proof {
                assert(possible_values@.take(index + 1).drop_last() == possible_values@.take(
                    index as int,
                ));
                assert(possible_values@.take(index + 1).last() == value);
            }
            if holders == 1 {
                let digit = Digit::Known(value);
                let digit = LocalizedDigit::from_owned(digit, digits[first].x, digits[first].y);
                solutions.push(digit);
                proof {
                    assert(sole_holder(cells, first as int, value));
                    let place = holder_of(cells, value);
                    assert(sole_holder(cells, place, value));
                    assert(place == first);
                    assert(localized_cells(solutions@) =~= earlier.push(
                        solution_for(unit, value),
                    ));
                }
            } else {
                proof {
                    if has_sole_holder(cells, value) {
                        let place = holder_of(cells, value);
                        assert(sole_holder(cells, place, value));
                        if holders >= 2 {
                            let (a, b) = choose|a: int, b: int|
                                0 <= a < b < digits@.len() && (#[trigger] cells[a]).has_candidate(
                                    value,
                                ) && (#[trigger] cells[b]).has_candidate(value);
                            assert(a == place && b == place);
                        } else {
                            assert(cells[place].has_candidate(value));
                        }
                    }
                }
            }
        }
        assert(possible_values@.take(possible_values@.len() as int) == possible_values@);
        solutions
    }

    /// The numerals, in ascending order, that none of `digits` is known to
    /// hold.
    fn get_possible_values(digits: &Vec<LocalizedDigit>) -> (possible_values: Vec<u32>)
        ensures
            possible_values@ == missing_from(cells_in(localized_cells(digits@))),
    {
        let ghost cells = cells_in(localized_cells(digits@));
        let mut possible_values: Vec<u32> = Vec::with_capacity(9);
        let ghost keep = |value: u32| !cells.contains(Cell::Known(value));
        for value in 1..10u32
            invariant
                cells == cells_in(localized_cells(digits@)),
                keep == |value: u32| !cells.contains(Cell::Known(value)),
                possible_values@ == numerals().take(value - 1).filter(keep),
        {
            proof {
                assert(numerals().take(value as int).drop_last() == numerals().take(value - 1));
                assert(numerals().take(value as int).last() == value);
                reveal(Seq::filter);
            }
            let mut known = false;
            for place in 0..digits.len()
                invariant
                    cells == cells_in(localized_cells(digits@)),
                    known <==> exists|j: int| 0 <= j < place && cells[j] == Cell::Known(value),
            {
                assert(cells[place as int] == digits@[place as int].digit@);
                if let Digit::Known(digit) = digits[place].get_digit() {
                    if *digit == value {
                        known = true;
                    }
                }
            }
            if !known {
                possible_values.push(value);
            }
        }
        assert(numerals().take(9) == numerals());
        possible_values
    }

    /// True when one of `digits` is undetermined and has `value` as a
    /// candidate.
    fn is_in_digits(value: u32, digits: &Vec<&Digit>) -> (found: bool)
        ensures
            found == any_has_candidate(cells_of(digits@), value),
    {
        for index in 0..digits.len()
            invariant
                forall|i: int|
                    0 <= i < index ==> !(#[trigger] cells_of(digits@)[i]).has_candidate(value),
        {
            if let Digit::Unknown(digit) = digits[index] {
                if contains_value(&digit.possible_values, value) {
                    assert(cells_of(digits@)[index as int].has_candidate(value));
                    return true;
                }
            }
        }
        false
    }
}

/// Whatever the number of rounds, the board that the solver reaches keeps the
/// known cells and agrees with every solution that the board agreed with.
proof fn lemma_follows_the_rounds(board: Board, allowed: nat)
    requires
        well_formed(board),
    ensures
        extends(board, settled(board, allowed)),
        in_range(board) ==> in_range(settled(board, allowed)),
        forall|solution: Board|
            is_solution(solution) && agrees(board, solution) ==> #[trigger] agrees(
                settled(board, allowed),
                solution,
            ),
{
    lemma_settled_extends(board, allowed);
    if in_range(board) {
        lemma_settled_in_range(board, allowed);
    }
    assert forall|solution: Board| is_solution(solution) && agrees(board, solution) implies agrees(
        settled(board, allowed),
        solution,
    ) by {
        lemma_settled_sound(board, solution, allowed);
    }
}

/// True when `value` is one of `values`.
fn contains_value(values: &Vec<u32>, value: u32) -> (found: bool)
    ensures
        found == values@.contains(value),
{
    for index in 0..values.len()
        invariant
            forall|i: int| 0 <= i < index ==> values@[i] != value,
    {
        if values[index] == value {
            return true;
        }
    }
    false
}

/// The entries of `values`, in their order, that are not among `removed`.
fn without_values(values: &Vec<u32>, removed: &Vec<u32>) -> (kept: Vec<u32>)
    ensures
        kept@ == values@.filter(|value: u32| !removed@.contains(value)),
{
    let mut kept: Vec<u32> = Vec::with_capacity(values.len());
    let ghost keep = |value: u32| !removed@.contains(value);
    for index in 0..values.len()
        invariant
            keep == |value: u32| !removed@.contains(value),
            kept@ == values@.take(index as int).filter(keep),
    {
        proof {
            assert(values@.take(index + 1).drop_last() == values@.take(index as int));
            assert(values@.take(index + 1).last() == values@[index as int]);
            reveal(Seq::filter);
        }
        if !contains_value(removed, values[index]) {
            kept.push(values[index]);
        }
    }
    assert(values@.take(values@.len() as int) == values@);
    kept
}

/// After the candidates of `cell` have been appended to `earlier`, the list
/// holds what it held before and those candidates.
proof fn lemma_contains_after_append(earlier: Seq<u32>, later: Seq<u32>, cell: Cell, value: u32)
    requires
        match cell {
            Cell::Known(_) => later == earlier,
            Cell::Unknown(candidates) => later == earlier + candidates,
        },
    ensures
        later.contains(value) <==> earlier.contains(value) || cell.has_candidate(value),
{
    if let Cell::Unknown(candidates) = cell {
        if later.contains(value) {
            let i = choose|i: int| 0 <= i < later.len() && later[i] == value;
            if i < earlier.len() {
                assert(earlier[i] == value);
            } else {
                assert(candidates[i - earlier.len()] == value);
            }
        }
        if earlier.contains(value) {
            let i = choose|i: int| 0 <= i < earlier.len() && earlier[i] == value;
            assert(later[i] == value);
        }
        if candidates.contains(value) {
            let i = choose|i: int| 0 <= i < candidates.len() && candidates[i] == value;
            assert(later[earlier.len() + i] == value);
        }
    }
}

/// After `pushed` has been pushed onto `earlier`, the list holds what it held
/// before and `pushed`.
proof fn lemma_contains_after_push(earlier: Seq<u32>, later: Seq<u32>, pushed: u32, value: u32)
    requires
        later == earlier.push(pushed),
    ensures
        later.contains(value) <==> earlier.contains(value) || value == pushed,
{
    if later.contains(value) {
        let i = choose|i: int| 0 <= i < later.len() && later[i] == value;
        if i < earlier.len() {
            assert(earlier[i] == value);
        }
    }
    if earlier.contains(value) {
        let i = choose|i: int| 0 <= i < earlier.len() && earlier[i] == value;
        assert(later[i] == value);
    }
    if value == pushed {
        assert(later[earlier.len() as int] == value);
    }
}

} // verus!
