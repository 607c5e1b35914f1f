//! The deduction rules of the solver, as functions on boards.
//!
//! Each rule says what the board is after one pass of the solver over it. The
//! executable passes are proved to compute exactly these functions.

use vstd::prelude::*;
use crate::grid::board::{
    all_known, block_index, Board, board_from, cell_at, lemma_board_from, neighbour_cells,
    slot_index, well_formed,
};
use crate::grid::digit::{Cell, LocalizedCell};
use crate::grid::position::Position;
use crate::grid::{block_excluding, column_cells, row_cells, slots_excluding};

verus! {

/// The numerals one to nine in ascending order.
pub open spec fn numerals() -> Seq<u32> {
    Seq::new(9, |i: int| (i + 1) as u32)
}

/// The numerals, in ascending order, that no cell of `cells` is known to
/// hold.
pub open spec fn missing_from(cells: Seq<Cell>) -> Seq<u32> {
    numerals().filter(|value: u32| !cells.contains(Cell::Known(value)))
}

/// The candidates of the position `(x, y)`: the numerals, in ascending order,
/// that none of its neighbours is known to hold.
pub open spec fn complement(board: Board, x: int, y: int) -> Seq<u32> {
    missing_from(neighbour_cells(board, x, y))
}

/// The cell at `(x, y)` after its candidates have been computed afresh: a
/// known cell stays, an undetermined one gets the complement of its
/// neighbours, whatever it held before.
pub open spec fn recomputed_cell(board: Board, x: int, y: int) -> Cell {
    match cell_at(board, x, y) {
        Cell::Known(value) => Cell::Known(value),
        Cell::Unknown(_) => Cell::Unknown(complement(board, x, y)),
    }
}

/// The board after the candidates of every undetermined cell have been
/// computed afresh.
pub open spec fn recomputed(board: Board) -> Board {
    board_from(|x: int, y: int| recomputed_cell(board, x, y))
}

/// A cell after the resolution of single candidates: an undetermined cell
/// with exactly one candidate becomes known to hold it.
pub open spec fn single_resolved_cell(cell: Cell) -> Cell {
    match cell {
        Cell::Known(value) => Cell::Known(value),
        Cell::Unknown(candidates) => if candidates.len() == 1 {
            Cell::Known(candidates[0])
        } else {
            cell
        },
    }
}

/// The board after every undetermined cell with exactly one candidate has
/// been resolved.
pub open spec fn singles_resolved(board: Board) -> Board {
    board_from(|x: int, y: int| single_resolved_cell(cell_at(board, x, y)))
}

/// Membership in [`missing_from`]: the numerals from one to nine that are not
/// known in `cells`.
pub proof fn lemma_missing_from(cells: Seq<Cell>, value: u32)
    ensures
        missing_from(cells).contains(value) <==> 1 <= value <= 9 && !cells.contains(
            Cell::Known(value),
        ),
{
    let keep = |value: u32| !cells.contains(Cell::Known(value));
    if missing_from(cells).contains(value) {
        numerals().lemma_filter_contains_rev(keep, value);
        let i = choose|i: int|
            0 <= i < missing_from(cells).len() && missing_from(cells)[i] == value;
        numerals().lemma_filter_pred(keep, i);
    }
    if 1 <= value <= 9 && !cells.contains(Cell::Known(value)) {
        assert(numerals()[value - 1] == value);
        numerals().lemma_filter_contains(keep, value - 1);
    }
}

/// The numerals up to `upto`, in ascending order, that no cell of `cells` is
/// known to hold.
pub open spec fn missing_upto(cells: Seq<Cell>, upto: nat) -> Seq<u32> {
    numerals().take(upto as int).filter(|value: u32| !cells.contains(Cell::Known(value)))
}

/// The numerals up to `upto` that are not known in `cells` stand in strictly
/// ascending order, none above `upto`.
pub proof fn lemma_missing_upto(cells: Seq<Cell>, upto: nat)
    requires
        upto <= 9,
    ensures
        forall|i: int|
            0 <= i < missing_upto(cells, upto).len() ==> 1 <= (#[trigger] missing_upto(
                cells,
                upto,
            )[i]) <= upto,
        forall|i: int, j: int|
            0 <= i < j < missing_upto(cells, upto).len() ==> (#[trigger] missing_upto(
                cells,
                upto,
            )[i]) < (#[trigger] missing_upto(cells, upto)[j]),
    decreases upto,
{
    let keep = |value: u32| !cells.contains(Cell::Known(value));
    let now = missing_upto(cells, upto);
    if upto == 0 {
        assert(numerals().take(0).len() == 0);
        assert(now.len() == 0) by {
            reveal(Seq::filter);
        }
    } else {
        lemma_missing_upto(cells, (upto - 1) as nat);
        let earlier = missing_upto(cells, (upto - 1) as nat);
        let prefix = numerals().take(upto as int);
        assert(prefix.drop_last() == numerals().take(upto - 1));
        assert(prefix.last() == upto);
        assert(now == if keep(upto as u32) {
            earlier.push(upto as u32)
        } else {
            earlier
        }) by {
            reveal(Seq::filter);
        }
        assert forall|i: int| 0 <= i < now.len() implies 1 <= (#[trigger] now[i]) <= upto by {
            if i < earlier.len() {
                assert(now[i] == earlier[i]);
            }
        }
        assert forall|i: int, j: int| 0 <= i < j < now.len() implies (#[trigger] now[i]) < (
        #[trigger] now[j]) by {
            assert(now[i] == earlier[i]);
            if j < earlier.len() {
                assert(now[j] == earlier[j]);
            }
        }
    }
}

/// The candidates that a computation gives stand in strictly ascending
/// order: no numeral occurs twice among them.
pub proof fn lemma_missing_from_ascending(cells: Seq<Cell>, i: int, j: int)
    requires
        0 <= i < j < missing_from(cells).len(),
    ensures
        missing_from(cells)[i] < missing_from(cells)[j],
{
    lemma_missing_upto(cells, 9);
    assert(numerals().take(9) == numerals());
    assert(missing_from(cells) == missing_upto(cells, 9));
}

/// Some cell of `cells` is undetermined and has `value` as a candidate.
pub open spec fn any_has_candidate(cells: Seq<Cell>, value: u32) -> bool {
    exists|i: int| 0 <= i < cells.len() && (#[trigger] cells[i]).has_candidate(value)
}

/// The joint position of the cell `along` steps into line `line`. Lines are
/// columns when `vertical` holds and rows otherwise.
pub open spec fn line_position(vertical: bool, line: int, along: int) -> (int, int) {
    if vertical {
        (line, along)
    } else {
        (along, line)
    }
}

/// The cell `along` steps into line `line`.
pub open spec fn line_cell(board: Board, vertical: bool, line: int, along: int) -> Cell {
    cell_at(board, line_position(vertical, line, along).0, line_position(vertical, line, along).1)
}

/// Inside band `band`, some cell of line `line` has `value` as a candidate.
/// A band is one of the three rows of blocks that a column crosses, or one of
/// the three columns of blocks that a row crosses.
pub open spec fn candidate_in_segment(
    board: Board,
    vertical: bool,
    band: int,
    line: int,
    value: u32,
) -> bool {
    exists|along: int|
        3 * band <= along < 3 * band + 3 && (#[trigger] line_cell(
            board,
            vertical,
            line,
            along,
        )).has_candidate(value)
}

/// In the block where line `line` crosses band `band`, some cell outside
/// that line has `value` as a candidate.
pub open spec fn candidate_beside_segment(
    board: Board,
    vertical: bool,
    band: int,
    line: int,
    value: u32,
) -> bool {
    exists|other: int, along: int|
        0 <= other < 9 && other / 3 == line / 3 && other != line && 3 * band <= along < 3 * band
            + 3 && (#[trigger] line_cell(board, vertical, other, along)).has_candidate(value)
}

/// In the block where line `line` crosses band `band`, `value` is a
/// candidate of that line and of no cell outside it.
pub open spec fn confined_to_segment(
    board: Board,
    vertical: bool,
    band: int,
    line: int,
    value: u32,
) -> bool {
    candidate_in_segment(board, vertical, band, line, value) && !candidate_beside_segment(
        board,
        vertical,
        band,
        line,
        value,
    )
}

/// The cell at `(x, y)` after one elimination step for line `line` and band
/// `band`: an undetermined cell of that line outside the band loses every
/// candidate that is confined to the line inside the band; any other cell
/// stays as it is.
pub open spec fn eliminated_cell(
    board: Board,
    vertical: bool,
    band: int,
    line: int,
    x: int,
    y: int,
) -> Cell {
    let on_line = if vertical {
        x == line && y / 3 != band
    } else {
        y == line && x / 3 != band
    };
    match cell_at(board, x, y) {
        Cell::Known(value) => Cell::Known(value),
        Cell::Unknown(candidates) => if on_line {
            Cell::Unknown(
                candidates.filter(
                    |value: u32| !confined_to_segment(board, vertical, band, line, value),
                ),
            )
        } else {
            Cell::Unknown(candidates)
        },
    }
}

/// The board after one elimination step for line `line` and band `band`.
pub open spec fn eliminate_step(board: Board, vertical: bool, band: int, line: int) -> Board {
    board_from(|x: int, y: int| eliminated_cell(board, vertical, band, line, x, y))
}

/// The board after the first `steps` elimination steps. The steps run band
/// by band and, inside a band, line by line; each works on the board that
/// the one before it left.
pub open spec fn eliminate_steps(board: Board, vertical: bool, steps: nat) -> Board
    decreases steps,
{
    if steps == 0 {
        board
    } else {
        eliminate_step(
            eliminate_steps(board, vertical, (steps - 1) as nat),
            vertical,
            (steps - 1) / 9,
            (steps - 1) % 9,
        )
    }
}

/// The board after a whole elimination pass: all twenty-seven steps.
pub open spec fn eliminated(board: Board, vertical: bool) -> Board {
    eliminate_steps(board, vertical, 27)
}

/// Filtering by two predicates that agree on every element of the sequence
/// gives the same result.
pub proof fn lemma_filter_agree<A>(s: Seq<A>, p: spec_fn(A) -> bool, q: spec_fn(A) -> bool)
    requires
        forall|i: int| 0 <= i < s.len() ==> p(#[trigger] s[i]) == q(s[i]),
    ensures
        s.filter(p) == s.filter(q),
    decreases s.len(),
{
    reveal(Seq::filter);
    if s.len() > 0 {
        lemma_filter_agree(s.drop_last(), p, q);
        assert(p(s[s.len() - 1]) == q(s[s.len() - 1]));
    }
}

/// Each elimination step keeps the board well formed.
pub proof fn lemma_eliminate_steps_well_formed(board: Board, vertical: bool, steps: nat)
    requires
        well_formed(board),
    ensures
        well_formed(eliminate_steps(board, vertical, steps)),
    decreases steps,
{
    if steps > 0 {
        let previous = eliminate_steps(board, vertical, (steps - 1) as nat);
        lemma_board_from(
            |x: int, y: int|
                eliminated_cell(previous, vertical, (steps - 1) / 9, (steps - 1) % 9, x, y),
        );
    }
}

/// The three positions, inside its block, of a segment of line `line`: one
/// column of the block when `vertical` holds, one row of it otherwise.
pub open spec fn segment_positions(vertical: bool, line: int) -> Seq<Position> {
    Seq::new(
        3,
        |j: int|
            if vertical {
                Position { x: (line % 3) as usize, y: j as usize }
            } else {
                Position { x: j as usize, y: (line % 3) as usize }
            },
    )
}

/// The block in which line `line` crosses band `band`.
pub open spec fn segment_block(vertical: bool, band: int, line: int) -> int {
    if vertical {
        line / 3 + band * 3
    } else {
        band + (line / 3) * 3
    }
}

/// A slot is kept by [`slots_excluding`] exactly when it is a slot of a block
/// and its position is not excluded.
pub proof fn lemma_slots_excluding(positions: Seq<Position>, slot: int)
    ensures
        slots_excluding(positions).contains(slot) <==> 0 <= slot < 9 && !positions.contains(
            Position::of_slot(slot),
        ),
{
    let keep = |s: int| !positions.contains(Position::of_slot(s));
    let all = Seq::new(9, |s: int| s);
    let kept = slots_excluding(positions);
    if kept.contains(slot) {
        all.lemma_filter_contains_rev(keep, slot);
        let i = choose|i: int| 0 <= i < kept.len() && kept[i] == slot;
        all.lemma_filter_pred(keep, i);
    }
    if 0 <= slot < 9 && keep(slot) {
        assert(all[slot] == slot);
        all.lemma_filter_contains(keep, slot);
    }
}

/// A slot belongs to a segment exactly when it lies in the segment's column
/// of the block, or in its row.
pub proof fn lemma_segment_positions(vertical: bool, line: int, slot: int)
    requires
        0 <= line < 9,
        0 <= slot < 9,
    ensures
        segment_positions(vertical, line).contains(Position::of_slot(slot)) <==> if vertical {
            slot % 3 == line % 3
        } else {
            slot / 3 == line % 3
        },
{
    let positions = segment_positions(vertical, line);
    if vertical && slot % 3 == line % 3 {
        assert(positions[slot / 3] == Position::of_slot(slot));
    }
    if !vertical && slot / 3 == line % 3 {
        assert(positions[slot % 3] == Position::of_slot(slot));
    }
}

/// The line and the step along it of slot `slot` of the block in which line
/// `line` crosses band `band`.
pub open spec fn slot_line(vertical: bool, line: int, slot: int) -> int {
    if vertical {
        (line / 3) * 3 + slot % 3
    } else {
        (line / 3) * 3 + slot / 3
    }
}

/// See [`slot_line`].
pub open spec fn slot_along(vertical: bool, band: int, slot: int) -> int {
    if vertical {
        band * 3 + slot / 3
    } else {
        band * 3 + slot % 3
    }
}

/// A slot outside a segment lies on another line of the same block.
pub proof fn lemma_slot_beside(vertical: bool, band: int, line: int, slot: int)
    requires
        0 <= band < 3,
        0 <= line < 9,
        0 <= slot < 9,
        !segment_positions(vertical, line).contains(Position::of_slot(slot)),
    ensures
        0 <= slot_line(vertical, line, slot) < 9,
        slot_line(vertical, line, slot) / 3 == line / 3,
        slot_line(vertical, line, slot) != line,
        3 * band <= slot_along(vertical, band, slot) < 3 * band + 3,
        block_index(
            line_position(
                vertical,
                slot_line(vertical, line, slot),
                slot_along(vertical, band, slot),
            ).0,
            line_position(
                vertical,
                slot_line(vertical, line, slot),
                slot_along(vertical, band, slot),
            ).1,
        ) == segment_block(vertical, band, line),
        slot_index(
            line_position(
                vertical,
                slot_line(vertical, line, slot),
                slot_along(vertical, band, slot),
            ).0,
            line_position(
                vertical,
                slot_line(vertical, line, slot),
                slot_along(vertical, band, slot),
            ).1,
        ) == slot,
{
    lemma_segment_positions(vertical, line, slot);
}

/// A cell beside a segment stands in a slot of the segment's block that is
/// outside the segment.
pub proof fn lemma_beside_slot(vertical: bool, band: int, line: int, other: int, along: int)
    requires
        0 <= band < 3,
        0 <= line < 9,
        0 <= other < 9,
        other / 3 == line / 3,
        other != line,
        3 * band <= along < 3 * band + 3,
    ensures
        block_index(
            line_position(vertical, other, along).0,
            line_position(vertical, other, along).1,
        ) == segment_block(vertical, band, line),
        0 <= slot_index(
            line_position(vertical, other, along).0,
            line_position(vertical, other, along).1,
        ) < 9,
        !segment_positions(vertical, line).contains(
            Position::of_slot(
                slot_index(
                    line_position(vertical, other, along).0,
                    line_position(vertical, other, along).1,
                ),
            ),
        ),
{
    let slot = slot_index(
        line_position(vertical, other, along).0,
        line_position(vertical, other, along).1,
    );
    lemma_segment_positions(vertical, line, slot);
}

/// If a cell of a block outside a segment has a candidate, the candidate
/// stands beside the segment.
proof fn lemma_excluded_is_beside(board: Board, vertical: bool, band: int, line: int, value: u32)
    requires
        well_formed(board),
        0 <= band < 3,
        0 <= line < 9,
        any_has_candidate(
            block_excluding(
                board[segment_block(vertical, band, line)],
                segment_positions(vertical, line),
            ),
            value,
        ),
    ensures
        candidate_beside_segment(board, vertical, band, line, value),
{
    let k = segment_block(vertical, band, line);
    let positions = segment_positions(vertical, line);
    let kept = slots_excluding(positions);
    let cells = block_excluding(board[k], positions);
    let i = choose|i: int| 0 <= i < cells.len() && (#[trigger] cells[i]).has_candidate(value);
    let s = kept[i];
    assert(kept.contains(s));
    lemma_slots_excluding(positions, s);
    lemma_slot_beside(vertical, band, line, s);
    let other = slot_line(vertical, line, s);
    let along = slot_along(vertical, band, s);
    assert(cells[i] == board[k][s]);
    assert(line_cell(board, vertical, other, along) == board[k][s]);
}

/// If a candidate stands beside a segment, a cell of the block outside the
/// segment has it.
proof fn lemma_beside_is_excluded(board: Board, vertical: bool, band: int, line: int, value: u32)
    requires
        well_formed(board),
        0 <= band < 3,
        0 <= line < 9,
        candidate_beside_segment(board, vertical, band, line, value),
    ensures
        any_has_candidate(
            block_excluding(
                board[segment_block(vertical, band, line)],
                segment_positions(vertical, line),
            ),
            value,
        ),
{
    let k = segment_block(vertical, band, line);
    let positions = segment_positions(vertical, line);
    let kept = slots_excluding(positions);
    let cells = block_excluding(board[k], positions);
    let (other, along) = choose|other: int, along: int|
        0 <= other < 9 && other / 3 == line / 3 && other != line && 3 * band <= along < 3 * band
            + 3 && (#[trigger] line_cell(board, vertical, other, along)).has_candidate(value);
    let s = slot_index(
        line_position(vertical, other, along).0,
        line_position(vertical, other, along).1,
    );
    lemma_beside_slot(vertical, band, line, other, along);
    lemma_slots_excluding(positions, s);
    let i = choose|i: int| 0 <= i < kept.len() && kept[i] == s;
    assert(cells[i] == board[k][s]);
    assert(cells[i].has_candidate(value));
}

/// The cells of a block outside a segment are the cells beside it: one of
/// them has a candidate exactly when the candidate stands beside the segment.
pub proof fn lemma_beside_segment(board: Board, vertical: bool, band: int, line: int, value: u32)
    requires
        well_formed(board),
        0 <= band < 3,
        0 <= line < 9,
    ensures
        any_has_candidate(
            block_excluding(
                board[segment_block(vertical, band, line)],
                segment_positions(vertical, line),
            ),
            value,
        ) <==> candidate_beside_segment(board, vertical, band, line, value),
{
    if any_has_candidate(
        block_excluding(
            board[segment_block(vertical, band, line)],
            segment_positions(vertical, line),
        ),
        value,
    ) {
        lemma_excluded_is_beside(board, vertical, band, line, value);
    }
    if candidate_beside_segment(board, vertical, band, line, value) {
        lemma_beside_is_excluded(board, vertical, band, line, value);
    }
}

/// The cells of a sequence of localized cells.
pub open spec fn cells_in(digits: Seq<LocalizedCell>) -> Seq<Cell> {
    Seq::new(digits.len(), |i: int| digits[i].cell)
}

/// Among `cells`, the one at `place` has `value` as a candidate and no other
/// one has.
pub open spec fn sole_holder(cells: Seq<Cell>, place: int, value: u32) -> bool {
    &&& 0 <= place < cells.len()
    &&& cells[place].has_candidate(value)
    &&& forall|j: int|
        0 <= j < cells.len() && j != place ==> !(#[trigger] cells[j]).has_candidate(value)
}

/// Exactly one of `cells` has `value` as a candidate.
pub open spec fn has_sole_holder(cells: Seq<Cell>, value: u32) -> bool {
    exists|place: int| sole_holder(cells, place, value)
}

/// The place of the one cell that has `value` as a candidate.
pub open spec fn holder_of(cells: Seq<Cell>, value: u32) -> int {
    choose|place: int| sole_holder(cells, place, value)
}

/// The solution that `value` gives in a unit: `value` as a known digit, at
/// the coordinates of the one cell that has it as a candidate.
pub open spec fn solution_for(digits: Seq<LocalizedCell>, value: u32) -> LocalizedCell {
    let place = holder_of(cells_in(digits), value);
    LocalizedCell { cell: Cell::Known(value), x: digits[place].x, y: digits[place].y }
}

/// The solutions that the numerals of `values` give in a unit, in the order
/// of `values`: one for each numeral that exactly one cell has as a
/// candidate.
pub open spec fn solutions_among(digits: Seq<LocalizedCell>, values: Seq<u32>) -> Seq<
    LocalizedCell,
>
    decreases values.len(),
{
    if values.len() == 0 {
        Seq::empty()
    } else {
        let earlier = solutions_among(digits, values.drop_last());
        if has_sole_holder(cells_in(digits), values.last()) {
            earlier.push(solution_for(digits, values.last()))
        } else {
            earlier
        }
    }
}

/// The solutions of a unit: for each numeral, in ascending order, that no
/// cell of the unit is known to hold and that exactly one of its cells has as
/// a candidate, that numeral at the coordinates of that cell.
pub open spec fn solutions(digits: Seq<LocalizedCell>) -> Seq<LocalizedCell> {
    solutions_among(digits, missing_from(cells_in(digits)))
}

/// In the unit `cells`, `value` can only stand at `place`: it is a numeral
/// that no cell of the unit is known to hold, and the cell at `place` is the
/// only one that has it as a candidate.
pub open spec fn hidden_single(cells: Seq<Cell>, place: int, value: u32) -> bool {
    &&& 1 <= value <= 9
    &&& !cells.contains(Cell::Known(value))
    &&& sole_holder(cells, place, value)
}

/// The greatest numeral up to `upto` that can only stand at `place`, if
/// there is one.
pub open spec fn last_hidden_single(cells: Seq<Cell>, place: int, upto: nat) -> Option<u32>
    decreases upto,
{
    if upto == 0 {
        None
    } else if hidden_single(cells, place, upto as u32) {
        Some(upto as u32)
    } else {
        last_hidden_single(cells, place, (upto - 1) as nat)
    }
}

/// The cell at `place` of a unit after the unit's resolution: where a
/// numeral can only stand at `place`, the cell becomes known to hold it (the
/// greatest such numeral, should there be several); otherwise it stays.
pub open spec fn unit_resolved_cell(cells: Seq<Cell>, place: int) -> Cell {
    match last_hidden_single(cells, place, 9) {
        Some(value) => Cell::Known(value),
        None => cells[place],
    }
}

/// The board after the resolution of every block.
pub open spec fn blocks_resolved(board: Board) -> Board {
    board_from(
        |x: int, y: int| unit_resolved_cell(board[block_index(x, y)], slot_index(x, y)),
    )
}

/// The board after the resolution of every column.
pub open spec fn columns_resolved(board: Board) -> Board {
    board_from(|x: int, y: int| unit_resolved_cell(column_cells(board, x), y))
}

/// The board after the resolution of every row.
pub open spec fn rows_resolved(board: Board) -> Board {
    board_from(|x: int, y: int| unit_resolved_cell(row_cells(board, y), x))
}

/// What the cell with the coordinates `(x, y)` holds after the solutions of
/// `solutions` have been written, one after the other, each to the cell of
/// its own coordinates: the last solution aimed at it, or `cell` if there is
/// none.
pub open spec fn after_solutions(solutions: Seq<LocalizedCell>, x: int, y: int, cell: Cell) -> Cell
    decreases solutions.len(),
{
    if solutions.len() == 0 {
        cell
    } else if solutions.last().x == x && solutions.last().y == y {
        solutions.last().cell
    } else {
        after_solutions(solutions.drop_last(), x, y, cell)
    }
}

/// No two entries of `digits` have the same coordinates.
pub open spec fn distinct_coordinates(digits: Seq<LocalizedCell>) -> bool {
    forall|i: int, j: int|
        0 <= i < digits.len() && 0 <= j < digits.len() && i != j ==> (#[trigger] digits[i]).x
            != (#[trigger] digits[j]).x || digits[i].y != digits[j].y
}

/// The solutions of the numerals up to `upto` leave, in the cell at `place`
/// of a unit, the greatest numeral up to `upto` that can only stand there.
proof fn lemma_solutions_upto(digits: Seq<LocalizedCell>, place: int, upto: nat)
    requires
        0 <= place < digits.len(),
        distinct_coordinates(digits),
        upto <= 9,
    ensures
        after_solutions(
            solutions_among(
                digits,
                numerals().take(upto as int).filter(
                    |value: u32| !cells_in(digits).contains(Cell::Known(value)),
                ),
            ),
            digits[place].x,
            digits[place].y,
            digits[place].cell,
        ) == match last_hidden_single(cells_in(digits), place, upto) {
            Some(value) => Cell::Known(value),
            None => digits[place].cell,
        },
    decreases upto,
{
    let cells = cells_in(digits);
    let keep = |value: u32| !cells.contains(Cell::Known(value));
    reveal(Seq::filter);
    if upto > 0 {
        lemma_solutions_upto(digits, place, (upto - 1) as nat);
        let value = upto as u32;
        let prefix = numerals().take(upto as int);
        assert(prefix.drop_last() == numerals().take(upto - 1));
        assert(prefix.last() == value);
        let earlier = numerals().take(upto - 1).filter(keep);
        let earlier_solutions = solutions_among(digits, earlier);
        if keep(value) {
            let values = earlier.push(value);
            assert(prefix.filter(keep) == values);
            assert(values.drop_last() == earlier);
            assert(values.last() == value);
            if has_sole_holder(cells, value) {
                let holder = holder_of(cells, value);
                let found = earlier_solutions.push(solution_for(digits, value));
                assert(sole_holder(cells, holder, value));
                assert(solutions_among(digits, values) == found);
                assert(found.drop_last() == earlier_solutions);
                assert(found.last() == solution_for(digits, value));
                if holder != place {
                    assert(!cells[place].has_candidate(value));
                    assert(digits[holder].x != digits[place].x || digits[holder].y
                        != digits[place].y);
                    assert(!hidden_single(cells, place, value));
                } else {
                    assert(hidden_single(cells, place, value));
                }
            } else {
                assert(solutions_among(digits, values) == earlier_solutions);
                assert(!sole_holder(cells, place, value));
            }
        } else {
            assert(prefix.filter(keep) == earlier);
            assert(!hidden_single(cells, place, value));
        }
    }
}

/// The solutions of a unit leave, in each of its cells, what the unit's
/// resolution says.
pub proof fn lemma_solutions_in_unit(digits: Seq<LocalizedCell>, place: int)
    requires
        0 <= place < digits.len(),
        distinct_coordinates(digits),
    ensures
        after_solutions(solutions(digits), digits[place].x, digits[place].y, digits[place].cell)
            == unit_resolved_cell(cells_in(digits), place),
{
    lemma_solutions_upto(digits, place, 9);
    assert(numerals().take(9) == numerals());
}

/// Every solution among `values` stands at the coordinates of a cell of the
/// unit.
pub proof fn lemma_solutions_coordinates(digits: Seq<LocalizedCell>, values: Seq<u32>, i: int)
    requires
        0 <= i < solutions_among(digits, values).len(),
    ensures
        exists|place: int|
            0 <= place < digits.len() && solutions_among(digits, values)[i].x == (
            #[trigger] digits[place]).x && solutions_among(digits, values)[i].y == digits[place].y,
    decreases values.len(),
{
    if values.len() > 0 {
        let earlier = solutions_among(digits, values.drop_last());
        if i < earlier.len() {
            lemma_solutions_coordinates(digits, values.drop_last(), i);
        } else {
            let place = holder_of(cells_in(digits), values.last());
            assert(sole_holder(cells_in(digits), place, values.last()));
            assert(solutions_among(digits, values)[i].x == digits[place].x);
        }
    }
}

/// The solutions of a unit leave every cell outside the unit as it is.
pub proof fn lemma_solutions_outside_unit(
    digits: Seq<LocalizedCell>,
    values: Seq<u32>,
    x: int,
    y: int,
    cell: Cell,
)
    requires
        forall|place: int|
            0 <= place < digits.len() ==> (#[trigger] digits[place]).x != x || digits[place].y != y,
    ensures
        after_solutions(solutions_among(digits, values), x, y, cell) == cell,
    decreases values.len(),
{
    if values.len() > 0 {
        lemma_solutions_outside_unit(digits, values.drop_last(), x, y, cell);
        if has_sole_holder(cells_in(digits), values.last()) {
            let place = holder_of(cells_in(digits), values.last());
            assert(sole_holder(cells_in(digits), place, values.last()));
            assert(digits[place].x != x || digits[place].y != y);
            let earlier = solutions_among(digits, values.drop_last());
            assert(earlier.push(solution_for(digits, values.last())).drop_last() == earlier);
        }
    }
}

/// The board after a full computation of candidates: the complement of the
/// neighbours for every undetermined cell, then the elimination pass over
/// the columns, then the one over the rows.
pub open spec fn refreshed(board: Board) -> Board {
    eliminated(eliminated(recomputed(board), true), false)
}

/// The board after one round of the solver: single candidates are resolved,
/// then the blocks, the columns and the rows, each after a full computation
/// of candidates.
pub open spec fn round(board: Board) -> Board {
    let after_singles = singles_resolved(refreshed(board));
    let after_blocks = blocks_resolved(refreshed(after_singles));
    let after_columns = columns_resolved(refreshed(after_blocks));
    rows_resolved(refreshed(after_columns))
}

/// The number of undetermined cells among the first `cells` cells of the
/// board, counted row by row.
pub open spec fn unknown_among(board: Board, cells: nat) -> nat
    decreases cells,
{
    if cells == 0 {
        0
    } else {
        unknown_among(board, (cells - 1) as nat) + if cell_at(
            board,
            (cells - 1) % 9,
            (cells - 1) / 9,
        ) is Unknown {
            1nat
        } else {
            0nat
        }
    }
}

/// The number of undetermined cells of the board.
pub open spec fn unknown_count(board: Board) -> nat {
    unknown_among(board, 81)
}

/// The board that the solver reaches when it is allowed at most `allowed`
/// rounds: it runs rounds until the board is completely known, or a round
/// has resolved no cell, or the allowance is used up.
#[verifier::opaque]
pub open spec fn settled(board: Board, allowed: nat) -> Board
    decreases allowed,
{
    if allowed == 0 || all_known(board) {
        board
    } else if unknown_count(round(board)) >= unknown_count(board) {
        round(board)
    } else {
        settled(round(board), (allowed - 1) as nat)
    }
}

/// With no round allowed, or on a board that is completely known, the solver
/// leaves the board as it is.
pub proof fn lemma_settled_at_once(board: Board, allowed: nat)
    requires
        allowed == 0 || all_known(board),
    ensures
        settled(board, allowed) == board,
{
    reveal(settled);
}

/// Otherwise the solver runs one round, and goes on from there if the round
/// has resolved a cell.
pub proof fn lemma_settled_after_round(board: Board, allowed: nat)
    requires
        allowed > 0,
        !all_known(board),
    ensures
        settled(board, allowed) == if unknown_count(round(board)) >= unknown_count(board) {
            round(board)
        } else {
            settled(round(board), (allowed - 1) as nat)
        },
{
    reveal(settled);
}

/// Every pass of the solver keeps the board well formed.
pub proof fn lemma_passes_well_formed(board: Board)
    ensures
        well_formed(recomputed(board)),
        well_formed(singles_resolved(board)),
        well_formed(blocks_resolved(board)),
        well_formed(columns_resolved(board)),
        well_formed(rows_resolved(board)),
        well_formed(board) ==> well_formed(eliminated(board, true)) && well_formed(
            eliminated(board, false),
        ),
        well_formed(refreshed(board)),
        well_formed(round(board)),
{
    lemma_board_from(|x: int, y: int| recomputed_cell(board, x, y));
    lemma_board_from(|x: int, y: int| single_resolved_cell(cell_at(board, x, y)));
    lemma_board_from(
        |x: int, y: int| unit_resolved_cell(board[block_index(x, y)], slot_index(x, y)),
    );
    lemma_board_from(|x: int, y: int| unit_resolved_cell(column_cells(board, x), y));
    lemma_board_from(|x: int, y: int| unit_resolved_cell(row_cells(board, y), x));
    if well_formed(board) {
        lemma_eliminate_steps_well_formed(board, true, 27);
        lemma_eliminate_steps_well_formed(board, false, 27);
    }
    lemma_eliminate_steps_well_formed(recomputed(board), true, 27);
    lemma_eliminate_steps_well_formed(eliminated(recomputed(board), true), false, 27);
    let before_rows = refreshed(
        columns_resolved(refreshed(blocks_resolved(refreshed(singles_resolved(refreshed(board)))))),
    );
    lemma_board_from(|x: int, y: int| unit_resolved_cell(row_cells(before_rows, y), x));
}

} // verus!
