//! What holds of the deduction rules: laws that relate the passes of the
//! solver to each other and to the solutions of a puzzle.

use vstd::prelude::*;
use vstd::relations::injective_on;
use vstd::set_lib::{lemma_int_range, lemma_map_size, lemma_subset_equality, set_int_range};
use crate::grid::board::{
    all_known, are_neighbours, block_index, Board, cell_at, conflict_free, in_grid, in_range,
    joint_x, joint_y, known_around, lemma_block_coordinates, lemma_board_extensional,
    lemma_board_from, lemma_coordinates, lemma_known_around, neighbour_cells, slot_index,
    solved_correctly, well_formed,
};
use crate::grid::digit::Cell;
use crate::grid::{column_cells, row_cells};
use crate::solver::rules::{
    blocks_resolved, candidate_beside_segment, candidate_in_segment, columns_resolved,
    confined_to_segment, eliminate_step, eliminate_steps, eliminated, eliminated_cell,
    hidden_single, last_hidden_single, lemma_eliminate_steps_well_formed, lemma_filter_agree,
    lemma_missing_from, lemma_passes_well_formed, line_cell, line_position, numerals, recomputed,
    recomputed_cell, refreshed, round, rows_resolved, segment_block, settled, single_resolved_cell,
    singles_resolved, slot_along, slot_line, unit_resolved_cell, unknown_among, unknown_count,
};

verus! {

/// The value of the cell at `(x, y)`, and zero where it is undetermined.
pub open spec fn value_at(board: Board, x: int, y: int) -> u32 {
    match cell_at(board, x, y) {
        Cell::Known(value) => value,
        Cell::Unknown(_) => 0,
    }
}

/// The board is a solution: every cell holds a numeral from one to nine, and
/// no two cells of a column, a row or a block hold the same.
pub open spec fn is_solution(solution: Board) -> bool {
    &&& well_formed(solution)
    &&& solved_correctly(solution)
    &&& forall|x: int, y: int| in_grid(x, y) ==> 1 <= #[trigger] value_at(solution, x, y) <= 9
}

/// Every known cell of the board holds what the solution holds there.
pub open spec fn agrees(board: Board, solution: Board) -> bool {
    forall|x: int, y: int|
        in_grid(x, y) && (#[trigger] cell_at(board, x, y)) is Known ==> cell_at(board, x, y)
            == cell_at(solution, x, y)
}

/// Every undetermined cell of the board has among its candidates what the
/// solution holds there.
pub open spec fn covers(board: Board, solution: Board) -> bool {
    forall|x: int, y: int|
        in_grid(x, y) && (#[trigger] cell_at(board, x, y)) is Unknown ==> cell_at(
            board,
            x,
            y,
        ).has_candidate(value_at(solution, x, y))
}

/// No undetermined cell of the board has a candidate that one of its
/// neighbours is known to hold.
pub open spec fn fresh(board: Board) -> bool {
    forall|x: int, y: int, value: u32|
        in_grid(x, y) && (#[trigger] cell_at(board, x, y).has_candidate(value)) ==> !known_around(
            board,
            x,
            y,
            value,
        )
}

/// Nine distinct numerals from one to nine are all of them.
pub proof fn lemma_nine_distinct_numerals(f: spec_fn(int) -> int, value: int)
    requires
        forall|i: int| 0 <= i < 9 ==> 1 <= #[trigger] f(i) <= 9,
        forall|i: int, j: int|
            0 <= i < 9 && 0 <= j < 9 && i != j ==> #[trigger] f(i) != #[trigger] f(j),
        1 <= value <= 9,
    ensures
        exists|i: int| 0 <= i < 9 && #[trigger] f(i) == value,
{
    let places = set_int_range(0, 9);
    let values = set_int_range(1, 10);
    lemma_int_range(0, 9);
    lemma_int_range(1, 10);
    let image = places.map(f);
    assert(injective_on(f, places));
    lemma_map_size(places, image, f);
    assert forall|v: int| image.contains(v) implies values.contains(v) by {
        let i = choose|i: int| places.contains(i) && f(i) == v;
        assert(1 <= f(i) <= 9);
    }
    lemma_subset_equality(image, values);
    assert(values.contains(value));
    assert(image.contains(value));
    let i = choose|i: int| places.contains(i) && f(i) == value;
    assert(0 <= i < 9 && f(i) == value);
}

/// A solution holds every numeral in every column.
pub proof fn lemma_solution_column(solution: Board, x: int, value: u32)
    requires
        is_solution(solution),
        0 <= x < 9,
        1 <= value <= 9,
    ensures
        exists|y: int| 0 <= y < 9 && #[trigger] cell_at(solution, x, y) == Cell::Known(value),
{
    let f = |y: int| value_at(solution, x, y) as int;
    assert forall|i: int, j: int| 0 <= i < 9 && 0 <= j < 9 && i != j implies #[trigger] f(i)
        != #[trigger] f(j) by {
        lemma_solution_cells(solution, x, i);
        lemma_solution_cells(solution, x, j);
        assert(are_neighbours(x, i, x, j));
    }
    assert forall|i: int| 0 <= i < 9 implies 1 <= #[trigger] f(i) <= 9 by {
        assert(1 <= value_at(solution, x, i) <= 9);
    }
    lemma_nine_distinct_numerals(f, value as int);
    let y = choose|y: int| 0 <= y < 9 && #[trigger] f(y) == value as int;
    lemma_solution_cells(solution, x, y);
    assert(cell_at(solution, x, y) == Cell::Known(value));
}

/// A solution holds every numeral in every row.
pub proof fn lemma_solution_row(solution: Board, y: int, value: u32)
    requires
        is_solution(solution),
        0 <= y < 9,
        1 <= value <= 9,
    ensures
        exists|x: int| 0 <= x < 9 && #[trigger] cell_at(solution, x, y) == Cell::Known(value),
{
    let f = |x: int| value_at(solution, x, y) as int;
    assert forall|i: int, j: int| 0 <= i < 9 && 0 <= j < 9 && i != j implies #[trigger] f(i)
        != #[trigger] f(j) by {
        lemma_solution_cells(solution, i, y);
        lemma_solution_cells(solution, j, y);
        assert(are_neighbours(i, y, j, y));
    }
    assert forall|i: int| 0 <= i < 9 implies 1 <= #[trigger] f(i) <= 9 by {
        assert(1 <= value_at(solution, i, y) <= 9);
    }
    lemma_nine_distinct_numerals(f, value as int);
    let x = choose|x: int| 0 <= x < 9 && #[trigger] f(x) == value as int;
    lemma_solution_cells(solution, x, y);
    assert(cell_at(solution, x, y) == Cell::Known(value));
}

/// A solution holds every numeral in every block.
pub proof fn lemma_solution_block(solution: Board, block: int, value: u32)
    requires
        is_solution(solution),
        0 <= block < 9,
        1 <= value <= 9,
    ensures
        exists|slot: int| 0 <= slot < 9 && #[trigger] solution[block][slot] == Cell::Known(value),
{
    let f = |slot: int| value_at(solution, joint_x(block, slot), joint_y(block, slot)) as int;
    assert forall|i: int, j: int| 0 <= i < 9 && 0 <= j < 9 && i != j implies #[trigger] f(i)
        != #[trigger] f(j) by {
        lemma_block_coordinates(block, i);
        lemma_block_coordinates(block, j);
        lemma_solution_cells(solution, joint_x(block, i), joint_y(block, i));
        lemma_solution_cells(solution, joint_x(block, j), joint_y(block, j));
        assert(are_neighbours(
            joint_x(block, i),
            joint_y(block, i),
            joint_x(block, j),
            joint_y(block, j),
        ));
    }
    assert forall|i: int| 0 <= i < 9 implies 1 <= #[trigger] f(i) <= 9 by {
        lemma_block_coordinates(block, i);
        assert(1 <= value_at(solution, joint_x(block, i), joint_y(block, i)) <= 9);
    }
    lemma_nine_distinct_numerals(f, value as int);
    let slot = choose|slot: int| 0 <= slot < 9 && #[trigger] f(slot) == value as int;
    lemma_block_coordinates(block, slot);
    lemma_solution_cells(solution, joint_x(block, slot), joint_y(block, slot));
    assert(solution[block][slot] == Cell::Known(value));
}

/// Every cell of a solution is known to hold its value, a numeral from one
/// to nine.
pub proof fn lemma_solution_cells(solution: Board, x: int, y: int)
    requires
        is_solution(solution),
        in_grid(x, y),
    ensures
        cell_at(solution, x, y) == Cell::Known(value_at(solution, x, y)),
        1 <= value_at(solution, x, y) <= 9,
{
    lemma_coordinates(x, y);
    assert(solution[block_index(x, y)][slot_index(x, y)] is Known);
}

/// Neighbours hold different values in a solution.
pub proof fn lemma_solution_neighbours(solution: Board, x1: int, y1: int, x2: int, y2: int)
    requires
        is_solution(solution),
        in_grid(x1, y1),
        in_grid(x2, y2),
        are_neighbours(x1, y1, x2, y2),
    ensures
        value_at(solution, x1, y1) != value_at(solution, x2, y2),
{
    lemma_solution_cells(solution, x1, y1);
    lemma_solution_cells(solution, x2, y2);
}

/// Every known cell of `before` is the same known cell in `after`.
pub open spec fn extends(before: Board, after: Board) -> bool {
    forall|x: int, y: int|
        in_grid(x, y) && (#[trigger] cell_at(before, x, y)) is Known ==> cell_at(after, x, y)
            == cell_at(before, x, y)
}

/// The two boards have the same known cells.
pub open spec fn same_known(a: Board, b: Board) -> bool {
    extends(a, b) && extends(b, a)
}

/// Boards with the same known cells know the same values around every
/// position.
pub proof fn lemma_same_known_around(a: Board, b: Board, x: int, y: int, value: u32)
    requires
        extends(a, b),
        known_around(a, x, y, value),
    ensures
        known_around(b, x, y, value),
{
    let (x2, y2) = choose|x2: int, y2: int|
        in_grid(x2, y2) && are_neighbours(x, y, x2, y2) && #[trigger] cell_at(a, x2, y2)
            == Cell::Known(value);
    assert(cell_at(b, x2, y2) == Cell::Known(value));
}

/// After the candidates have been computed afresh, a known cell is as it
/// was, and an undetermined cell has as candidates exactly the numerals from
/// one to nine that none of its neighbours, in its column, its row or its
/// block, is known to hold.
pub proof fn lemma_recomputed_candidates(board: Board, x: int, y: int, value: u32)
    requires
        well_formed(board),
        in_grid(x, y),
    ensures
        cell_at(recomputed(board), x, y) == recomputed_cell(board, x, y),
        cell_at(board, x, y) is Known ==> cell_at(recomputed(board), x, y) == cell_at(board, x, y),
        cell_at(board, x, y) is Unknown ==> cell_at(recomputed(board), x, y) is Unknown,
        cell_at(board, x, y) is Unknown ==> (cell_at(recomputed(board), x, y).has_candidate(value)
            <==> 1 <= value <= 9 && !known_around(board, x, y, value)),
{
    lemma_board_from(|x: int, y: int| recomputed_cell(board, x, y));
    lemma_missing_from(neighbour_cells(board, x, y), value);
    lemma_known_around(board, x, y, value);
}

/// Candidates never grow from one computation to the next: where a board has
/// gained known cells and lost none, a fresh computation gives every cell
/// that is still undetermined no candidate that it would not have given it
/// before.
pub proof fn lemma_recompute_monotonic(before: Board, after: Board, x: int, y: int, value: u32)
    requires
        well_formed(before),
        well_formed(after),
        extends(before, after),
        in_grid(x, y),
        cell_at(after, x, y) is Unknown,
        cell_at(recomputed(after), x, y).has_candidate(value),
    ensures
        cell_at(recomputed(before), x, y).has_candidate(value),
{
    lemma_recomputed_candidates(before, x, y, value);
    lemma_recomputed_candidates(after, x, y, value);
    if known_around(before, x, y, value) {
        lemma_same_known_around(before, after, x, y, value);
    }
}

/// A fresh computation of the complements leaves a fresh board with the same
/// known cells.
pub proof fn lemma_recomputed_fresh(board: Board)
    requires
        well_formed(board),
    ensures
        well_formed(recomputed(board)),
        same_known(board, recomputed(board)),
        fresh(recomputed(board)),
{
    let after = recomputed(board);
    lemma_board_from(|x: int, y: int| recomputed_cell(board, x, y));
    assert forall|x: int, y: int| in_grid(x, y) && (#[trigger] cell_at(after, x, y))
        is Known implies cell_at(board, x, y) == cell_at(after, x, y) by {
        lemma_recomputed_candidates(board, x, y, 0);
    }
    assert forall|x: int, y: int, value: u32|
        in_grid(x, y) && (#[trigger] cell_at(after, x, y).has_candidate(
            value,
        )) implies !known_around(after, x, y, value) by {
        lemma_recomputed_candidates(board, x, y, value);
        if known_around(after, x, y, value) {
            lemma_same_known_around(after, board, x, y, value);
        }
    }
}

/// One elimination step keeps the known cells and leaves every undetermined
/// cell undetermined, with no candidate that it had not before.
pub proof fn lemma_eliminate_step_narrows(
    board: Board,
    vertical: bool,
    band: int,
    line: int,
    x: int,
    y: int,
)
    requires
        well_formed(board),
        in_grid(x, y),
    ensures
        cell_at(eliminate_step(board, vertical, band, line), x, y) == eliminated_cell(
            board,
            vertical,
            band,
            line,
            x,
            y,
        ),
        cell_at(board, x, y) is Known ==> cell_at(
            eliminate_step(board, vertical, band, line),
            x,
            y,
        ) == cell_at(board, x, y),
        cell_at(board, x, y) is Unknown ==> cell_at(
            eliminate_step(board, vertical, band, line),
            x,
            y,
        ) is Unknown,
        forall|value: u32|
            cell_at(eliminate_step(board, vertical, band, line), x, y).has_candidate(value)
                ==> cell_at(board, x, y).has_candidate(value),
{
    lemma_board_from(|x: int, y: int| eliminated_cell(board, vertical, band, line, x, y));
    assert forall|value: u32|
        cell_at(eliminate_step(board, vertical, band, line), x, y).has_candidate(
            value,
        ) implies cell_at(board, x, y).has_candidate(value) by {
        if let Cell::Unknown(candidates) = cell_at(board, x, y) {
            let keep = |value: u32| !confined_to_segment(board, vertical, band, line, value);
            if candidates.filter(keep).contains(value) {
                candidates.lemma_filter_contains_rev(keep, value);
            }
        }
    }
}

/// The board after `after` narrows the board `before`: known cells are kept,
/// undetermined cells stay undetermined and gain no candidate.
pub open spec fn narrows(before: Board, after: Board) -> bool {
    forall|x: int, y: int|
        in_grid(x, y) ==> match #[trigger] cell_at(before, x, y) {
            Cell::Known(value) => cell_at(after, x, y) == Cell::Known(value),
            Cell::Unknown(candidates) => cell_at(after, x, y) is Unknown && forall|value: u32|
                cell_at(after, x, y).has_candidate(value) ==> candidates.contains(value),
        }
}

/// One elimination step narrows the board.
pub proof fn lemma_eliminate_step_narrows_board(board: Board, vertical: bool, band: int, line: int)
    requires
        well_formed(board),
    ensures
        narrows(board, eliminate_step(board, vertical, band, line)),
{
    let after = eliminate_step(board, vertical, band, line);
    assert forall|x: int, y: int| in_grid(x, y) implies match #[trigger] cell_at(board, x, y) {
        Cell::Known(value) => cell_at(after, x, y) == Cell::Known(value),
        Cell::Unknown(candidates) => cell_at(after, x, y) is Unknown && forall|value: u32|
            cell_at(after, x, y).has_candidate(value) ==> candidates.contains(value),
    } by {
        lemma_eliminate_step_narrows(board, vertical, band, line, x, y);
        if let Cell::Unknown(candidates) = cell_at(board, x, y) {
            assert forall|value: u32|
                cell_at(after, x, y).has_candidate(value) implies candidates.contains(value) by {
                assert(cell_at(board, x, y).has_candidate(value));
            }
        }
    }
}

/// The first `steps` elimination steps narrow the board.
pub proof fn lemma_eliminate_steps_narrow(board: Board, vertical: bool, steps: nat)
    requires
        well_formed(board),
    ensures
        well_formed(eliminate_steps(board, vertical, steps)),
        narrows(board, eliminate_steps(board, vertical, steps)),
    decreases steps,
{
    lemma_eliminate_steps_well_formed(board, vertical, steps);
    if steps > 0 {
        let previous = eliminate_steps(board, vertical, (steps - 1) as nat);
        lemma_eliminate_steps_narrow(board, vertical, (steps - 1) as nat);
        assert forall|x: int, y: int| in_grid(x, y) implies match #[trigger] cell_at(board, x, y) {
            Cell::Known(value) => cell_at(eliminate_steps(board, vertical, steps), x, y)
                == Cell::Known(value),
            Cell::Unknown(candidates) => cell_at(eliminate_steps(board, vertical, steps), x, y)
                is Unknown && forall|value: u32|
                cell_at(eliminate_steps(board, vertical, steps), x, y).has_candidate(value)
                    ==> candidates.contains(value),
        } by {
            let last = steps - 1;
            lemma_eliminate_step_narrows(previous, vertical, last / 9, last % 9, x, y);
        }
    }
}

/// Narrowing keeps a fresh board fresh.
pub proof fn lemma_narrowed_fresh(before: Board, after: Board)
    requires
        narrows(before, after),
        fresh(before),
    ensures
        fresh(after),
        same_known(before, after),
{
    assert forall|x: int, y: int, value: u32|
        in_grid(x, y) && (#[trigger] cell_at(after, x, y).has_candidate(
            value,
        )) implies !known_around(after, x, y, value) by {
        assert(cell_at(before, x, y).has_candidate(value));
        if known_around(after, x, y, value) {
            let (x2, y2) = choose|x2: int, y2: int|
                in_grid(x2, y2) && are_neighbours(x, y, x2, y2) && #[trigger] cell_at(
                    after,
                    x2,
                    y2,
                ) == Cell::Known(value);
            assert(cell_at(before, x2, y2) == Cell::Known(value));
        }
    }
    assert forall|x: int, y: int| in_grid(x, y) && (#[trigger] cell_at(after, x, y))
        is Known implies cell_at(before, x, y) == cell_at(after, x, y) by {
        assert(cell_at(before, x, y) is Known);
    }
}

/// A full computation of candidates leaves a fresh board with the same known
/// cells: no candidate of an undetermined cell is known in its column, its
/// row or its block.
pub proof fn lemma_refreshed_fresh(board: Board)
    requires
        well_formed(board),
    ensures
        well_formed(refreshed(board)),
        same_known(board, refreshed(board)),
        fresh(refreshed(board)),
{
    lemma_recomputed_fresh(board);
    let first = recomputed(board);
    lemma_eliminate_steps_narrow(first, true, 27);
    let second = eliminated(first, true);
    lemma_narrowed_fresh(first, second);
    lemma_eliminate_steps_narrow(second, false, 27);
    lemma_narrowed_fresh(second, refreshed(board));
}

/// The numeral that the resolution of a unit finds for a place can only
/// stand at that place.
pub proof fn lemma_last_hidden_single(cells: Seq<Cell>, place: int, upto: nat)
    ensures
        match last_hidden_single(cells, place, upto) {
            Some(value) => hidden_single(cells, place, value) && value <= upto,
            None => true,
        },
    decreases upto,
{
    if upto > 0 && !hidden_single(cells, place, upto as u32) {
        lemma_last_hidden_single(cells, place, (upto - 1) as nat);
    }
}

/// The resolution of a unit changes a cell only from undetermined to known,
/// and only to a numeral that was its candidate and can only stand there.
pub proof fn lemma_unit_resolved_cell(cells: Seq<Cell>, place: int)
    requires
        0 <= place < cells.len(),
    ensures
        unit_resolved_cell(cells, place) == cells[place] || (cells[place] is Unknown && exists|
            value: u32,
        |
            unit_resolved_cell(cells, place) == Cell::Known(value) && #[trigger] hidden_single(
                cells,
                place,
                value,
            )),
{
    lemma_last_hidden_single(cells, place, 9);
    if let Some(value) = last_hidden_single(cells, place, 9) {
        assert(hidden_single(cells, place, value));
    }
}

/// The cells of a unit of the board after a resolution pass are the resolved
/// cells of that unit.
pub proof fn lemma_resolved_cells(board: Board, x: int, y: int)
    requires
        well_formed(board),
        in_grid(x, y),
    ensures
        cell_at(singles_resolved(board), x, y) == single_resolved_cell(cell_at(board, x, y)),
        cell_at(blocks_resolved(board), x, y) == unit_resolved_cell(
            board[block_index(x, y)],
            slot_index(x, y),
        ),
        cell_at(columns_resolved(board), x, y) == unit_resolved_cell(column_cells(board, x), y),
        cell_at(rows_resolved(board), x, y) == unit_resolved_cell(row_cells(board, y), x),
{
    lemma_board_from(|x: int, y: int| single_resolved_cell(cell_at(board, x, y)));
    lemma_board_from(
        |x: int, y: int| unit_resolved_cell(board[block_index(x, y)], slot_index(x, y)),
    );
    lemma_board_from(|x: int, y: int| unit_resolved_cell(column_cells(board, x), y));
    lemma_board_from(|x: int, y: int| unit_resolved_cell(row_cells(board, y), x));
}

/// A resolution pass changes a cell only from undetermined to known, and
/// only to one of its candidates.
pub open spec fn resolves(before: Board, after: Board) -> bool {
    forall|x: int, y: int|
        in_grid(x, y) ==> #[trigger] cell_at(after, x, y) == cell_at(before, x, y) || (cell_at(
            after,
            x,
            y,
        ) is Known && cell_at(before, x, y).has_candidate(value_at(after, x, y)))
}

/// Each of the four resolution passes changes a cell only from undetermined
/// to known, and only to one of its candidates.
pub proof fn lemma_passes_resolve(board: Board)
    requires
        well_formed(board),
    ensures
        resolves(board, singles_resolved(board)),
        resolves(board, blocks_resolved(board)),
        resolves(board, columns_resolved(board)),
        resolves(board, rows_resolved(board)),
{
    assert forall|x: int, y: int| in_grid(x, y) implies #[trigger] cell_at(
        singles_resolved(board),
        x,
        y,
    ) == cell_at(board, x, y) || (cell_at(singles_resolved(board), x, y) is Known && cell_at(
        board,
        x,
        y,
    ).has_candidate(value_at(singles_resolved(board), x, y))) by {
        lemma_resolved_cells(board, x, y);
        if let Cell::Unknown(candidates) = cell_at(board, x, y) {
            if candidates.len() == 1 {
                assert(candidates.contains(candidates[0]));
            }
        }
    }
    assert forall|x: int, y: int| in_grid(x, y) implies #[trigger] cell_at(
        blocks_resolved(board),
        x,
        y,
    ) == cell_at(board, x, y) || (cell_at(blocks_resolved(board), x, y) is Known && cell_at(
        board,
        x,
        y,
    ).has_candidate(value_at(blocks_resolved(board), x, y))) by {
        lemma_resolved_cells(board, x, y);
        lemma_coordinates(x, y);
        lemma_unit_resolved_cell(board[block_index(x, y)], slot_index(x, y));
    }
    assert forall|x: int, y: int| in_grid(x, y) implies #[trigger] cell_at(
        columns_resolved(board),
        x,
        y,
    ) == cell_at(board, x, y) || (cell_at(columns_resolved(board), x, y) is Known && cell_at(
        board,
        x,
        y,
    ).has_candidate(value_at(columns_resolved(board), x, y))) by {
        lemma_resolved_cells(board, x, y);
        lemma_unit_resolved_cell(column_cells(board, x), y);
    }
    assert forall|x: int, y: int| in_grid(x, y) implies #[trigger] cell_at(
        rows_resolved(board),
        x,
        y,
    ) == cell_at(board, x, y) || (cell_at(rows_resolved(board), x, y) is Known && cell_at(
        board,
        x,
        y,
    ).has_candidate(value_at(rows_resolved(board), x, y))) by {
        lemma_resolved_cells(board, x, y);
        lemma_unit_resolved_cell(row_cells(board, y), x);
    }
}

/// No pass resolves a cell to a value that it finds among the neighbours: on
/// a fresh board, which is what every full computation of candidates leaves,
/// the value that a resolution pass gives to a cell is not known in the
/// column, the row or the block of that cell.
pub proof fn lemma_resolution_avoids_known_neighbours(board: Board, after: Board, x: int, y: int)
    requires
        well_formed(board),
        fresh(board),
        after == singles_resolved(board) || after == blocks_resolved(board) || after
            == columns_resolved(board) || after == rows_resolved(board),
        in_grid(x, y),
        cell_at(after, x, y) != cell_at(board, x, y),
    ensures
        cell_at(board, x, y) is Unknown,
        cell_at(after, x, y) is Known,
        !known_around(board, x, y, value_at(after, x, y)),
{
    lemma_passes_resolve(board);
    assert(cell_at(board, x, y).has_candidate(value_at(after, x, y)));
}

/// A fresh computation of the complements follows every solution that the
/// board agrees with: the known cells stay, and every undetermined cell has
/// the solution's value among its candidates.
pub proof fn lemma_recomputed_sound(board: Board, solution: Board)
    requires
        well_formed(board),
        is_solution(solution),
        agrees(board, solution),
    ensures
        agrees(recomputed(board), solution),
        covers(recomputed(board), solution),
{
    let after = recomputed(board);
    assert forall|x: int, y: int| in_grid(x, y) && (#[trigger] cell_at(after, x, y))
        is Known implies cell_at(after, x, y) == cell_at(solution, x, y) by {
        lemma_recomputed_candidates(board, x, y, 0);
    }
    assert forall|x: int, y: int| in_grid(x, y) && (#[trigger] cell_at(after, x, y))
        is Unknown implies cell_at(after, x, y).has_candidate(value_at(solution, x, y)) by {
        let value = value_at(solution, x, y);
        lemma_recomputed_candidates(board, x, y, value);
        lemma_solution_cells(solution, x, y);
        if known_around(board, x, y, value) {
            let (x2, y2) = choose|x2: int, y2: int|
                in_grid(x2, y2) && are_neighbours(x, y, x2, y2) && #[trigger] cell_at(
                    board,
                    x2,
                    y2,
                ) == Cell::Known(value);
            assert(cell_at(solution, x2, y2) == Cell::Known(value));
            lemma_solution_neighbours(solution, x, y, x2, y2);
        }
    }
}

/// Where line `line` crosses band `band`, every slot of the block is a cell
/// of one of the block's three lines, inside the band.
pub proof fn lemma_slot_position(vertical: bool, band: int, line: int, slot: int)
    requires
        0 <= band < 3,
        0 <= line < 9,
        0 <= slot < 9,
    ensures
        0 <= slot_line(vertical, line, slot) < 9,
        slot_line(vertical, line, slot) / 3 == line / 3,
        3 * band <= slot_along(vertical, band, slot) < 3 * band + 3,
        line_position(vertical, slot_line(vertical, line, slot), slot_along(vertical, band, slot))
            == (
            joint_x(segment_block(vertical, band, line), slot),
            joint_y(segment_block(vertical, band, line), slot),
        ),
        0 <= segment_block(vertical, band, line) < 9,
{
}

/// The solution's value of a cell is not confined to a segment of the cell's
/// line in another band: that value stands in the cell, so it cannot stand
/// in the segment.
proof fn lemma_solution_not_confined(
    board: Board,
    solution: Board,
    vertical: bool,
    band: int,
    line: int,
    along: int,
)
    requires
        well_formed(board),
        is_solution(solution),
        agrees(board, solution),
        covers(board, solution),
        fresh(board),
        0 <= band < 3,
        0 <= line < 9,
        0 <= along < 9,
        along / 3 != band,
    ensures
        !confined_to_segment(
            board,
            vertical,
            band,
            line,
            value_at(
                solution,
                line_position(vertical, line, along).0,
                line_position(vertical, line, along).1,
            ),
        ),
{
    let (x, y) = line_position(vertical, line, along);
    let value = value_at(solution, x, y);
    lemma_solution_cells(solution, x, y);
    if candidate_in_segment(board, vertical, band, line, value) {
        let inside = choose|inside: int|
            3 * band <= inside < 3 * band + 3 && (#[trigger] line_cell(
                board,
                vertical,
                line,
                inside,
            )).has_candidate(value);
        let (qx, qy) = line_position(vertical, line, inside);
        let block = segment_block(vertical, band, line);
        lemma_solution_block(solution, block, value);
        let slot = choose|slot: int|
            0 <= slot < 9 && #[trigger] solution[block][slot] == Cell::Known(value);
        lemma_slot_position(vertical, band, line, slot);
        lemma_block_coordinates(block, slot);
        let other = slot_line(vertical, line, slot);
        let step = slot_along(vertical, band, slot);
        let (px, py) = line_position(vertical, other, step);
        assert(cell_at(solution, px, py) == Cell::Known(value));
        if cell_at(board, px, py) is Known {
            assert(cell_at(board, px, py) == Cell::Known(value));
            assert(are_neighbours(qx, qy, px, py));
            assert(known_around(board, qx, qy, value));
            assert(cell_at(board, qx, qy).has_candidate(value));
        } else {
            assert(cell_at(board, px, py).has_candidate(value_at(solution, px, py)));
            assert(line_cell(board, vertical, other, step).has_candidate(value));
            if other == line {
                lemma_solution_neighbours(solution, x, y, px, py);
            } else {
                assert(candidate_beside_segment(board, vertical, band, line, value));
            }
        }
    }
}

/// One elimination step follows every solution: on a fresh board that
/// agrees with the solution and covers it, the step removes no candidate
/// that the solution needs.
pub proof fn lemma_eliminate_step_sound(
    board: Board,
    solution: Board,
    vertical: bool,
    band: int,
    line: int,
)
    requires
        well_formed(board),
        is_solution(solution),
        agrees(board, solution),
        covers(board, solution),
        fresh(board),
        0 <= band < 3,
        0 <= line < 9,
    ensures
        well_formed(eliminate_step(board, vertical, band, line)),
        agrees(eliminate_step(board, vertical, band, line), solution),
        covers(eliminate_step(board, vertical, band, line), solution),
        fresh(eliminate_step(board, vertical, band, line)),
{
    let after = eliminate_step(board, vertical, band, line);
    lemma_board_from(|x: int, y: int| eliminated_cell(board, vertical, band, line, x, y));
    lemma_eliminate_step_narrows_board(board, vertical, band, line);
    lemma_narrowed_fresh(board, after);
    assert forall|x: int, y: int| in_grid(x, y) && (#[trigger] cell_at(after, x, y))
        is Known implies cell_at(after, x, y) == cell_at(solution, x, y) by {
        assert(cell_at(board, x, y) is Known);
    }
    assert forall|x: int, y: int| in_grid(x, y) && (#[trigger] cell_at(after, x, y))
        is Unknown implies cell_at(after, x, y).has_candidate(value_at(solution, x, y)) by {
        let value = value_at(solution, x, y);
        assert(cell_at(board, x, y) is Unknown);
        assert(cell_at(board, x, y).has_candidate(value));
        let on_line = if vertical {
            x == line && y / 3 != band
        } else {
            y == line && x / 3 != band
        };
        if on_line {
            let along = if vertical {
                y
            } else {
                x
            };
            lemma_solution_not_confined(board, solution, vertical, band, line, along);
            let candidates = cell_at(board, x, y)->Unknown_0;
            let keep = |value: u32| !confined_to_segment(board, vertical, band, line, value);
            let i = choose|i: int| 0 <= i < candidates.len() && candidates[i] == value;
            candidates.lemma_filter_contains(keep, i);
        }
    }
}

/// The elimination steps follow every solution.
pub proof fn lemma_eliminate_steps_sound(
    board: Board,
    solution: Board,
    vertical: bool,
    steps: nat,
)
    requires
        well_formed(board),
        is_solution(solution),
        agrees(board, solution),
        covers(board, solution),
        fresh(board),
        steps <= 27,
    ensures
        well_formed(eliminate_steps(board, vertical, steps)),
        agrees(eliminate_steps(board, vertical, steps), solution),
        covers(eliminate_steps(board, vertical, steps), solution),
        fresh(eliminate_steps(board, vertical, steps)),
    decreases steps,
{
    if steps > 0 {
        lemma_eliminate_steps_sound(board, solution, vertical, (steps - 1) as nat);
        lemma_eliminate_step_sound(
            eliminate_steps(board, vertical, (steps - 1) as nat),
            solution,
            vertical,
            (steps - 1) / 9,
            (steps - 1) % 9,
        );
    }
}

/// A full computation of candidates follows every solution that the board
/// agrees with: the known cells stay, and no undetermined cell loses the
/// solution's value.
pub proof fn lemma_refreshed_sound(board: Board, solution: Board)
    requires
        well_formed(board),
        is_solution(solution),
        agrees(board, solution),
    ensures
        well_formed(refreshed(board)),
        agrees(refreshed(board), solution),
        covers(refreshed(board), solution),
{
    lemma_recomputed_fresh(board);
    lemma_recomputed_sound(board, solution);
    lemma_eliminate_steps_sound(recomputed(board), solution, true, 27);
    lemma_eliminate_steps_sound(eliminated(recomputed(board), true), solution, false, 27);
}

/// The cells of a unit stand against the cells `answers` that a solution
/// holds in the same places: the known ones are equal, and the undetermined
/// ones have the answer among their candidates.
pub open spec fn unit_follows(cells: Seq<Cell>, answers: Seq<Cell>) -> bool {
    &&& cells.len() == answers.len()
    &&& forall|i: int|
        0 <= i < cells.len() ==> match #[trigger] cells[i] {
            Cell::Known(value) => answers[i] == Cell::Known(value),
            Cell::Unknown(candidates) => exists|value: u32|
                answers[i] == Cell::Known(value) && candidates.contains(value),
        }
}

/// A numeral that can only stand at one place of a unit stands there in
/// every solution that the unit follows.
pub proof fn lemma_hidden_single_sound(cells: Seq<Cell>, answers: Seq<Cell>, place: int, value: u32)
    requires
        unit_follows(cells, answers),
        answers.contains(Cell::Known(value)),
        hidden_single(cells, place, value),
    ensures
        answers[place] == Cell::Known(value),
{
    let i = choose|i: int| 0 <= i < answers.len() && answers[i] == Cell::Known(value);
    match cells[i] {
        Cell::Known(known) => {
            assert(cells[i] == Cell::Known(value));
            assert(cells.contains(Cell::Known(value)));
        },
        Cell::Unknown(candidates) => {
            assert(cells[i].has_candidate(value));
        },
    }
}

/// The resolution of a unit follows every solution that the unit follows.
pub proof fn lemma_unit_resolved_sound(cells: Seq<Cell>, answers: Seq<Cell>, place: int)
    requires
        unit_follows(cells, answers),
        forall|value: u32| 1 <= value <= 9 ==> #[trigger] answers.contains(Cell::Known(value)),
        0 <= place < cells.len(),
        unit_resolved_cell(cells, place) is Known,
    ensures
        unit_resolved_cell(cells, place) == answers[place],
{
    lemma_last_hidden_single(cells, place, 9);
    match last_hidden_single(cells, place, 9) {
        Some(value) => {
            lemma_hidden_single_sound(cells, answers, place, value);
        },
        None => {},
    }
}

/// The resolution passes follow every solution: where the board agrees with
/// a solution and covers it, each of the four passes leaves a board that
/// agrees with the solution. Every cell that a pass resolves gets the value
/// that the solution holds there, so no pass makes two neighbours equal.
pub proof fn lemma_passes_sound(board: Board, solution: Board)
    requires
        well_formed(board),
        is_solution(solution),
        agrees(board, solution),
        covers(board, solution),
    ensures
        agrees(singles_resolved(board), solution),
        agrees(blocks_resolved(board), solution),
        agrees(columns_resolved(board), solution),
        agrees(rows_resolved(board), solution),
{
    assert forall|x: int, y: int|
        in_grid(x, y) && (#[trigger] cell_at(singles_resolved(board), x, y))
            is Known implies cell_at(singles_resolved(board), x, y) == cell_at(solution, x, y) by {
        lemma_resolved_cells(board, x, y);
        lemma_solution_cells(solution, x, y);
        if let Cell::Unknown(candidates) = cell_at(board, x, y) {
            let i = choose|i: int|
                0 <= i < candidates.len() && candidates[i] == value_at(solution, x, y);
            assert(i == 0);
        }
    }
    assert forall|x: int, y: int|
        in_grid(x, y) && (#[trigger] cell_at(blocks_resolved(board), x, y))
            is Known implies cell_at(blocks_resolved(board), x, y) == cell_at(solution, x, y) by {
        lemma_resolved_cells(board, x, y);
        lemma_coordinates(x, y);
        let block = block_index(x, y);
        assert forall|i: int| 0 <= i < 9 implies match #[trigger] board[block][i] {
            Cell::Known(value) => solution[block][i] == Cell::Known(value),
            Cell::Unknown(candidates) => exists|value: u32|
                solution[block][i] == Cell::Known(value) && candidates.contains(value),
        } by {
            lemma_block_coordinates(block, i);
            lemma_follows_at(board, solution, joint_x(block, i), joint_y(block, i));
        }
        assert forall|value: u32| 1 <= value <= 9 implies #[trigger] solution[block].contains(
            Cell::Known(value),
        ) by {
            lemma_solution_block(solution, block, value);
        }
        lemma_unit_resolved_sound(board[block], solution[block], slot_index(x, y));
    }
    assert forall|x: int, y: int|
        in_grid(x, y) && (#[trigger] cell_at(columns_resolved(board), x, y))
            is Known implies cell_at(columns_resolved(board), x, y) == cell_at(solution, x, y) by {
        lemma_resolved_cells(board, x, y);
        let cells = column_cells(board, x);
        let answers = column_cells(solution, x);
        assert forall|i: int| 0 <= i < 9 implies match #[trigger] cells[i] {
            Cell::Known(value) => answers[i] == Cell::Known(value),
            Cell::Unknown(candidates) => exists|value: u32|
                answers[i] == Cell::Known(value) && candidates.contains(value),
        } by {
            lemma_follows_at(board, solution, x, i);
        }
        assert forall|value: u32| 1 <= value <= 9 implies #[trigger] answers.contains(
            Cell::Known(value),
        ) by {
            lemma_solution_column(solution, x, value);
            let i = choose|i: int|
                0 <= i < 9 && #[trigger] cell_at(solution, x, i) == Cell::Known(value);
            assert(answers[i] == Cell::Known(value));
        }
        lemma_unit_resolved_sound(cells, answers, y);
    }
    assert forall|x: int, y: int|
        in_grid(x, y) && (#[trigger] cell_at(rows_resolved(board), x, y)) is Known implies cell_at(
        rows_resolved(board),
        x,
        y,
    ) == cell_at(solution, x, y) by {
        lemma_resolved_cells(board, x, y);
        let cells = row_cells(board, y);
        let answers = row_cells(solution, y);
        assert forall|i: int| 0 <= i < 9 implies match #[trigger] cells[i] {
            Cell::Known(value) => answers[i] == Cell::Known(value),
            Cell::Unknown(candidates) => exists|value: u32|
                answers[i] == Cell::Known(value) && candidates.contains(value),
        } by {
            lemma_follows_at(board, solution, i, y);
        }
        assert forall|value: u32| 1 <= value <= 9 implies #[trigger] answers.contains(
            Cell::Known(value),
        ) by {
            lemma_solution_row(solution, y, value);
            let i = choose|i: int|
                0 <= i < 9 && #[trigger] cell_at(solution, i, y) == Cell::Known(value);
            assert(answers[i] == Cell::Known(value));
        }
        lemma_unit_resolved_sound(cells, answers, x);
    }
}

/// On a board that agrees with a solution and covers it, a known cell holds
/// the solution's value and an undetermined one has it as a candidate.
proof fn lemma_follows_at(board: Board, solution: Board, x: int, y: int)
    requires
        is_solution(solution),
        agrees(board, solution),
        covers(board, solution),
        in_grid(x, y),
    ensures
        match cell_at(board, x, y) {
            Cell::Known(value) => cell_at(solution, x, y) == Cell::Known(value),
            Cell::Unknown(candidates) => exists|value: u32|
                cell_at(solution, x, y) == Cell::Known(value) && candidates.contains(value),
        },
{
    lemma_solution_cells(solution, x, y);
    if cell_at(board, x, y) is Unknown {
        assert(cell_at(board, x, y).has_candidate(value_at(solution, x, y)));
    }
}

/// A round follows every solution that the board agrees with.
pub proof fn lemma_round_sound(board: Board, solution: Board)
    requires
        well_formed(board),
        is_solution(solution),
        agrees(board, solution),
    ensures
        well_formed(round(board)),
        agrees(round(board), solution),
{
    lemma_refreshed_sound(board, solution);
    let first = refreshed(board);
    lemma_passes_sound(first, solution);
    lemma_passes_well_formed(first);
    let second = refreshed(singles_resolved(first));
    lemma_refreshed_sound(singles_resolved(first), solution);
    lemma_passes_sound(second, solution);
    lemma_passes_well_formed(second);
    let third = refreshed(blocks_resolved(second));
    lemma_refreshed_sound(blocks_resolved(second), solution);
    lemma_passes_sound(third, solution);
    lemma_passes_well_formed(third);
    let fourth = refreshed(columns_resolved(third));
    lemma_refreshed_sound(columns_resolved(third), solution);
    lemma_passes_sound(fourth, solution);
    lemma_passes_well_formed(fourth);
}

/// Whatever number of rounds the solver is allowed, the board that it
/// reaches agrees with every solution that the board it started from agrees
/// with: the solver never gives a cell a value that a solution does not
/// hold there.
pub proof fn lemma_settled_sound(board: Board, solution: Board, allowed: nat)
    requires
        well_formed(board),
        is_solution(solution),
        agrees(board, solution),
    ensures
        well_formed(settled(board, allowed)),
        agrees(settled(board, allowed), solution),
    decreases allowed,
{
    reveal(settled);
    if allowed > 0 && !all_known(board) {
        lemma_round_sound(board, solution);
        if unknown_count(round(board)) < unknown_count(board) {
            lemma_settled_sound(round(board), solution, (allowed - 1) as nat);
        }
    }
}

/// A board that agrees with a solution holds no two equal values in one
/// column, row or block; and if all its cells are known, it is that
/// solution.
pub proof fn lemma_agreeing_board(board: Board, solution: Board)
    requires
        well_formed(board),
        is_solution(solution),
        agrees(board, solution),
    ensures
        conflict_free(board),
        all_known(board) ==> board == solution && solved_correctly(board),
{
    assert forall|x1: int, y1: int, x2: int, y2: int|
        in_grid(x1, y1) && in_grid(x2, y2) && are_neighbours(x1, y1, x2, y2) && (
        #[trigger] cell_at(board, x1, y1)) is Known implies cell_at(board, x1, y1)
        != #[trigger] cell_at(board, x2, y2) by {
        if cell_at(board, x2, y2) is Known {
            lemma_solution_neighbours(solution, x1, y1, x2, y2);
        }
    }
    if all_known(board) {
        assert forall|x: int, y: int| in_grid(x, y) implies cell_at(board, x, y) == cell_at(
            solution,
            x,
            y,
        ) by {
            lemma_coordinates(x, y);
            assert(board[block_index(x, y)][slot_index(x, y)] is Known);
        }
        lemma_board_extensional(board, solution);
    }
}

/// A board on which two cells of one column, row or block are known to hold
/// the same value is not solved correctly.
pub proof fn lemma_repeated_value_is_incorrect(board: Board, x1: int, y1: int, x2: int, y2: int)
    requires
        in_grid(x1, y1),
        in_grid(x2, y2),
        are_neighbours(x1, y1, x2, y2),
        cell_at(board, x1, y1) is Known,
        cell_at(board, x1, y1) == cell_at(board, x2, y2),
    ensures
        !solved_correctly(board),
{
}

/// Every pass of the solver keeps the known cells as they are.
pub proof fn lemma_passes_extend(board: Board)
    requires
        well_formed(board),
    ensures
        same_known(board, refreshed(board)),
        extends(board, singles_resolved(board)),
        extends(board, blocks_resolved(board)),
        extends(board, columns_resolved(board)),
        extends(board, rows_resolved(board)),
{
    lemma_refreshed_fresh(board);
    lemma_passes_resolve(board);
}

/// What is kept over two steps is kept over both.
pub proof fn lemma_extends_transitive(a: Board, b: Board, c: Board)
    requires
        extends(a, b),
        extends(b, c),
    ensures
        extends(a, c),
{
    assert forall|x: int, y: int| in_grid(x, y) && (#[trigger] cell_at(a, x, y))
        is Known implies cell_at(c, x, y) == cell_at(a, x, y) by {
        assert(cell_at(b, x, y) is Known);
    }
}

/// A known digit is never reverted: a round keeps every known cell.
pub proof fn lemma_round_extends(board: Board)
    requires
        well_formed(board),
    ensures
        well_formed(round(board)),
        extends(board, round(board)),
{
    let r1 = refreshed(board);
    lemma_passes_extend(board);
    lemma_passes_well_formed(board);
    let s1 = singles_resolved(r1);
    lemma_passes_extend(r1);
    lemma_passes_well_formed(r1);
    lemma_extends_transitive(board, r1, s1);
    let r2 = refreshed(s1);
    lemma_passes_extend(s1);
    lemma_passes_well_formed(s1);
    lemma_extends_transitive(board, s1, r2);
    let s2 = blocks_resolved(r2);
    lemma_passes_extend(r2);
    lemma_passes_well_formed(r2);
    lemma_extends_transitive(board, r2, s2);
    let r3 = refreshed(s2);
    lemma_passes_extend(s2);
    lemma_passes_well_formed(s2);
    lemma_extends_transitive(board, s2, r3);
    let s3 = columns_resolved(r3);
    lemma_passes_extend(r3);
    lemma_passes_well_formed(r3);
    lemma_extends_transitive(board, r3, s3);
    let r4 = refreshed(s3);
    lemma_passes_extend(s3);
    lemma_passes_well_formed(s3);
    lemma_extends_transitive(board, s3, r4);
    let s4 = rows_resolved(r4);
    lemma_passes_extend(r4);
    lemma_passes_well_formed(r4);
    lemma_extends_transitive(board, r4, s4);
}

/// A known digit is never reverted: whatever number of rounds the solver is
/// allowed, the board that it reaches keeps every known cell of the board it
/// started from.
pub proof fn lemma_settled_extends(board: Board, allowed: nat)
    requires
        well_formed(board),
    ensures
        well_formed(settled(board, allowed)),
        extends(board, settled(board, allowed)),
    decreases allowed,
{
    reveal(settled);
    if allowed > 0 && !all_known(board) {
        lemma_round_extends(board);
        if unknown_count(round(board)) < unknown_count(board) {
            lemma_settled_extends(round(board), (allowed - 1) as nat);
            lemma_extends_transitive(board, round(board), settled(board, allowed));
        }
    }
}

/// A board that keeps the known cells of another has no more undetermined
/// cells than it; and if it has as many, it has the same known cells.
pub proof fn lemma_unknown_among(before: Board, after: Board, cells: nat)
    requires
        extends(before, after),
        cells <= 81,
    ensures
        unknown_among(after, cells) <= unknown_among(before, cells),
        unknown_among(after, cells) == unknown_among(before, cells) ==> forall|i: int|
            0 <= i < cells && (#[trigger] cell_at(after, i % 9, i / 9)) is Known ==> cell_at(
                before,
                i % 9,
                i / 9,
            ) is Known,
    decreases cells,
{
    if cells > 0 {
        lemma_unknown_among(before, after, (cells - 1) as nat);
        let i = cells - 1;
        if cell_at(before, i % 9, i / 9) is Known {
            assert(cell_at(after, i % 9, i / 9) == cell_at(before, i % 9, i / 9));
        }
    }
}

/// A pass that has resolved no cell has left the known cells as they were.
pub proof fn lemma_no_progress(before: Board, after: Board)
    requires
        extends(before, after),
        unknown_count(after) >= unknown_count(before),
    ensures
        same_known(before, after),
        unknown_count(after) == unknown_count(before),
{
    lemma_unknown_among(before, after, 81);
    assert forall|x: int, y: int| in_grid(x, y) && (#[trigger] cell_at(after, x, y))
        is Known implies cell_at(before, x, y) == cell_at(after, x, y) by {
        let i = y * 9 + x;
        assert(i % 9 == x && i / 9 == y);
        assert(cell_at(after, i % 9, i / 9) is Known);
    }
}

/// A resolution pass that has left the known cells as they were has changed
/// nothing.
pub proof fn lemma_idle_resolution(before: Board, after: Board)
    requires
        well_formed(before),
        well_formed(after),
        resolves(before, after),
        same_known(before, after),
    ensures
        after == before,
{
    assert forall|x: int, y: int| in_grid(x, y) implies cell_at(after, x, y) == cell_at(
        before,
        x,
        y,
    ) by {
        if cell_at(after, x, y) != cell_at(before, x, y) {
            assert(cell_at(after, x, y) is Known);
        }
    }
    lemma_board_extensional(after, before);
}

/// The full computation of candidates depends on the known cells alone.
pub proof fn lemma_refreshed_of_known(a: Board, b: Board)
    requires
        well_formed(a),
        well_formed(b),
        same_known(a, b),
    ensures
        refreshed(a) == refreshed(b),
{
    lemma_board_from(|x: int, y: int| recomputed_cell(a, x, y));
    lemma_board_from(|x: int, y: int| recomputed_cell(b, x, y));
    assert forall|x: int, y: int| in_grid(x, y) implies cell_at(recomputed(a), x, y) == cell_at(
        recomputed(b),
        x,
        y,
    ) by {
        if cell_at(a, x, y) is Known {
            assert(cell_at(b, x, y) == cell_at(a, x, y));
        } else {
            assert(cell_at(b, x, y) is Unknown);
            let in_a = |value: u32| !neighbour_cells(a, x, y).contains(Cell::Known(value));
            let in_b = |value: u32| !neighbour_cells(b, x, y).contains(Cell::Known(value));
            assert forall|i: int| 0 <= i < numerals().len() implies in_a(#[trigger] numerals()[i])
                == in_b(numerals()[i]) by {
                let value = numerals()[i];
                lemma_known_around(a, x, y, value);
                lemma_known_around(b, x, y, value);
                if known_around(a, x, y, value) {
                    lemma_same_known_around(a, b, x, y, value);
                }
                if known_around(b, x, y, value) {
                    lemma_same_known_around(b, a, x, y, value);
                }
            }
            lemma_filter_agree(numerals(), in_a, in_b);
        }
    }
    lemma_board_extensional(recomputed(a), recomputed(b));
}

/// A round that has resolved no cell has reached a board that no further
/// round changes: the solver may stop there.
pub proof fn lemma_round_without_progress(board: Board)
    requires
        well_formed(board),
        unknown_count(round(board)) >= unknown_count(board),
    ensures
        round(board) == refreshed(board),
        round(round(board)) == round(board),
{
    let r1 = refreshed(board);
    let s1 = singles_resolved(r1);
    let r2 = refreshed(s1);
    let s2 = blocks_resolved(r2);
    let r3 = refreshed(s2);
    let s3 = columns_resolved(r3);
    let r4 = refreshed(s3);
    let s4 = rows_resolved(r4);
    lemma_passes_extend(board);
    lemma_passes_well_formed(board);
    lemma_passes_extend(r1);
    lemma_passes_well_formed(r1);
    lemma_passes_extend(s1);
    lemma_passes_well_formed(s1);
    lemma_passes_extend(r2);
    lemma_passes_well_formed(r2);
    lemma_passes_extend(s2);
    lemma_passes_well_formed(s2);
    lemma_passes_extend(r3);
    lemma_passes_well_formed(r3);
    lemma_passes_extend(s3);
    lemma_passes_well_formed(s3);
    lemma_passes_extend(r4);
    lemma_passes_well_formed(r4);
    lemma_unknown_among(board, r1, 81);
    lemma_unknown_among(r1, s1, 81);
    lemma_unknown_among(s1, r2, 81);
    lemma_unknown_among(r2, s2, 81);
    lemma_unknown_among(s2, r3, 81);
    lemma_unknown_among(r3, s3, 81);
    lemma_unknown_among(s3, r4, 81);
    lemma_unknown_among(r4, s4, 81);
    lemma_passes_resolve(r1);
    lemma_passes_resolve(r2);
    lemma_passes_resolve(r3);
    lemma_passes_resolve(r4);
    lemma_no_progress(r1, s1);
    lemma_idle_resolution(r1, s1);
    lemma_refreshed_of_known(r1, board);
    assert(r2 == r1);
    lemma_no_progress(r2, s2);
    lemma_idle_resolution(r2, s2);
    assert(r3 == r1);
    lemma_no_progress(r3, s3);
    lemma_idle_resolution(r3, s3);
    assert(r4 == r1);
    lemma_no_progress(r4, s4);
    lemma_idle_resolution(r4, s4);
    assert(round(board) == r1);
    assert(refreshed(r1) == r1);
}

/// A full computation of candidates leaves numerals from one to nine only,
/// if the known cells held such numerals before: whatever candidates the
/// undetermined cells had, they are replaced.
pub proof fn lemma_refreshed_in_range(board: Board)
    requires
        well_formed(board),
        forall|x: int, y: int|
            in_grid(x, y) && (#[trigger] cell_at(board, x, y)) is Known ==> cell_at(
                board,
                x,
                y,
            ).in_range(),
    ensures
        in_range(refreshed(board)),
{
    let first = recomputed(board);
    lemma_recomputed_fresh(board);
    assert forall|x: int, y: int| in_grid(x, y) implies (#[trigger] cell_at(
        first,
        x,
        y,
    )).in_range() by {
        lemma_recomputed_candidates(board, x, y, 0);
        if let Cell::Unknown(candidates) = cell_at(first, x, y) {
            assert forall|i: int| 0 <= i < candidates.len() implies 1 <= #[trigger] candidates[i]
                <= 9 by {
                assert(candidates.contains(candidates[i]));
                lemma_missing_from(neighbour_cells(board, x, y), candidates[i]);
            }
        }
    }
    lemma_eliminate_steps_narrow(first, true, 27);
    let second = eliminated(first, true);
    lemma_narrowed_in_range(first, second);
    lemma_eliminate_steps_narrow(second, false, 27);
    lemma_narrowed_in_range(second, refreshed(board));
}

/// Narrowing keeps the numerals of a board between one and nine.
pub proof fn lemma_narrowed_in_range(before: Board, after: Board)
    requires
        narrows(before, after),
        in_range(before),
    ensures
        in_range(after),
{
    assert forall|x: int, y: int| in_grid(x, y) implies (#[trigger] cell_at(
        after,
        x,
        y,
    )).in_range() by {
        assert(cell_at(before, x, y).in_range());
        if let Cell::Unknown(candidates) = cell_at(after, x, y) {
            assert forall|i: int| 0 <= i < candidates.len() implies 1 <= #[trigger] candidates[i]
                <= 9 by {
                assert(cell_at(after, x, y).has_candidate(candidates[i]));
                let earlier = cell_at(before, x, y)->Unknown_0;
                assert(earlier.contains(candidates[i]));
            }
        }
    }
}

/// A resolution pass keeps the numerals of a board between one and nine.
pub proof fn lemma_resolved_in_range(before: Board, after: Board)
    requires
        resolves(before, after),
        in_range(before),
    ensures
        in_range(after),
{
    assert forall|x: int, y: int| in_grid(x, y) implies (#[trigger] cell_at(
        after,
        x,
        y,
    )).in_range() by {
        assert(cell_at(before, x, y).in_range());
        if cell_at(after, x, y) != cell_at(before, x, y) {
            let earlier = cell_at(before, x, y)->Unknown_0;
            assert(earlier.contains(value_at(after, x, y)));
        }
    }
}

/// The solver keeps the data model: on a board whose known cells hold
/// numerals from one to nine, a round leaves such numerals only, as values
/// and as candidates.
pub proof fn lemma_round_in_range(board: Board)
    requires
        well_formed(board),
        forall|x: int, y: int|
            in_grid(x, y) && (#[trigger] cell_at(board, x, y)) is Known ==> cell_at(
                board,
                x,
                y,
            ).in_range(),
    ensures
        in_range(round(board)),
{
    let r1 = refreshed(board);
    lemma_refreshed_in_range(board);
    lemma_passes_well_formed(board);
    lemma_passes_resolve(r1);
    let s1 = singles_resolved(r1);
    lemma_resolved_in_range(r1, s1);
    lemma_passes_well_formed(r1);
    let r2 = refreshed(s1);
    lemma_refreshed_in_range(s1);
    lemma_passes_well_formed(s1);
    lemma_passes_resolve(r2);
    let s2 = blocks_resolved(r2);
    lemma_resolved_in_range(r2, s2);
    lemma_passes_well_formed(r2);
    let r3 = refreshed(s2);
    lemma_refreshed_in_range(s2);
    lemma_passes_well_formed(s2);
    lemma_passes_resolve(r3);
    let s3 = columns_resolved(r3);
    lemma_resolved_in_range(r3, s3);
    lemma_passes_well_formed(r3);
    let r4 = refreshed(s3);
    lemma_refreshed_in_range(s3);
    lemma_passes_well_formed(s3);
    lemma_passes_resolve(r4);
    lemma_resolved_in_range(r4, rows_resolved(r4));
}

/// Whatever number of rounds the solver is allowed, a board of numerals from
/// one to nine stays one.
pub proof fn lemma_settled_in_range(board: Board, allowed: nat)
    requires
        well_formed(board),
        in_range(board),
    ensures
        in_range(settled(board, allowed)),
    decreases allowed,
{
    reveal(settled);
    if allowed > 0 && !all_known(board) {
        lemma_round_in_range(board);
        lemma_passes_well_formed(board);
        if unknown_count(round(board)) < unknown_count(board) {
            lemma_settled_in_range(round(board), (allowed - 1) as nat);
        }
    }
}

/// A puzzle that the solver fills completely has one solution only, the one
/// that the solver has found.
pub proof fn lemma_solved_is_unique(board: Board, first: Board, second: Board, allowed: nat)
    requires
        well_formed(board),
        is_solution(first),
        is_solution(second),
        agrees(board, first),
        agrees(board, second),
        all_known(settled(board, allowed)),
    ensures
        first == settled(board, allowed),
        second == first,
{
    lemma_settled_sound(board, first, allowed);
    lemma_settled_sound(board, second, allowed);
    lemma_agreeing_board(settled(board, allowed), first);
    lemma_agreeing_board(settled(board, allowed), second);
}

} // verus!
