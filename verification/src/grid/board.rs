//! The mathematical model of a grid.
//!
//! A board is a sequence of nine blocks, each a sequence of nine cells. Cells
//! are addressed either by a block and a slot inside that block, or by joint
//! coordinates `(x, y)` that run over the whole nine by nine square. All
//! contracts of this crate are stated over boards.

use vstd::prelude::*;
use crate::grid::digit::Cell;

verus! {

/// Nine blocks of nine cells.
pub type Board = Seq<Seq<Cell>>;

/// Index of the block that holds the joint position `(x, y)`.
pub open spec fn block_index(x: int, y: int) -> int {
    x / 3 + (y / 3) * 3
}

/// Index, inside its block, of the joint position `(x, y)`.
pub open spec fn slot_index(x: int, y: int) -> int {
    x % 3 + (y % 3) * 3
}

/// Joint column of slot `slot` of block `block`.
pub open spec fn joint_x(block: int, slot: int) -> int {
    (block % 3) * 3 + slot % 3
}

/// Joint row of slot `slot` of block `block`.
pub open spec fn joint_y(block: int, slot: int) -> int {
    (block / 3) * 3 + slot / 3
}

/// Both joint coordinates lie on the board.
pub open spec fn in_grid(x: int, y: int) -> bool {
    0 <= x < 9 && 0 <= y < 9
}

/// The board has exactly nine blocks of exactly nine cells.
pub open spec fn well_formed(board: Board) -> bool {
    &&& board.len() == 9
    &&& forall|k: int| 0 <= k < 9 ==> (#[trigger] board[k]).len() == 9
}

/// The cell at the joint position `(x, y)`.
pub open spec fn cell_at(board: Board, x: int, y: int) -> Cell {
    board[block_index(x, y)][slot_index(x, y)]
}

/// The board with the cell at `(x, y)` replaced by `cell`.
pub open spec fn with_cell(board: Board, x: int, y: int, cell: Cell) -> Board {
    board.update(block_index(x, y), board[block_index(x, y)].update(slot_index(x, y), cell))
}

/// The board whose cell at every joint position `(x, y)` is `f(x, y)`.
pub open spec fn board_from(f: spec_fn(int, int) -> Cell) -> Board {
    Seq::new(9, |k: int| Seq::new(9, |s: int| f(joint_x(k, s), joint_y(k, s))))
}

/// Two distinct positions that share a column, a row or a block.
pub open spec fn are_neighbours(x1: int, y1: int, x2: int, y2: int) -> bool {
    &&& (x1 != x2 || y1 != y2)
    &&& (x1 == x2 || y1 == y2 || (x1 / 3 == x2 / 3 && y1 / 3 == y2 / 3))
}

/// Every cell of the board holds numerals from one to nine only.
pub open spec fn in_range(board: Board) -> bool {
    forall|x: int, y: int| in_grid(x, y) ==> (#[trigger] cell_at(board, x, y)).in_range()
}

/// Every cell of the board is known.
pub open spec fn all_known(board: Board) -> bool {
    forall|k: int, s: int|
        0 <= k < board.len() && 0 <= s < board[k].len() ==> (#[trigger] board[k][s]) is Known
}

/// Some neighbour of `(x, y)` is known to hold `value`.
pub open spec fn known_around(board: Board, x: int, y: int, value: u32) -> bool {
    exists|x2: int, y2: int|
        in_grid(x2, y2) && are_neighbours(x, y, x2, y2) && #[trigger] cell_at(board, x2, y2)
            == Cell::Known(value)
}

/// No known cell repeats the value of a known neighbour.
pub open spec fn conflict_free(board: Board) -> bool {
    forall|x1: int, y1: int, x2: int, y2: int|
        in_grid(x1, y1) && in_grid(x2, y2) && are_neighbours(x1, y1, x2, y2) && (#[trigger] cell_at(
            board,
            x1,
            y1,
        )) is Known ==> cell_at(board, x1, y1) != #[trigger] cell_at(board, x2, y2)
}

/// The board is completely filled and no two neighbours hold the same value.
pub open spec fn solved_correctly(board: Board) -> bool {
    all_known(board) && conflict_free(board)
}

/// Block and slot coordinates invert the joint coordinates and back.
pub proof fn lemma_coordinates(x: int, y: int)
    requires
        in_grid(x, y),
    ensures
        0 <= block_index(x, y) < 9,
        0 <= slot_index(x, y) < 9,
        joint_x(block_index(x, y), slot_index(x, y)) == x,
        joint_y(block_index(x, y), slot_index(x, y)) == y,
{
}

/// Joint coordinates invert block and slot coordinates.
pub proof fn lemma_block_coordinates(block: int, slot: int)
    requires
        0 <= block < 9,
        0 <= slot < 9,
    ensures
        in_grid(joint_x(block, slot), joint_y(block, slot)),
        block_index(joint_x(block, slot), joint_y(block, slot)) == block,
        slot_index(joint_x(block, slot), joint_y(block, slot)) == slot,
{
}

/// A board built from a function is well formed and holds that function's
/// value at every position.
pub proof fn lemma_board_from(f: spec_fn(int, int) -> Cell)
    ensures
        well_formed(board_from(f)),
        forall|x: int, y: int|
            in_grid(x, y) ==> #[trigger] cell_at(board_from(f), x, y) == f(x, y),
{
    assert forall|x: int, y: int| in_grid(x, y) implies #[trigger] cell_at(board_from(f), x, y)
        == f(x, y) by {
        lemma_coordinates(x, y);
    }
}

/// Well-formed boards that agree at every position are equal.
pub proof fn lemma_board_extensional(a: Board, b: Board)
    requires
        well_formed(a),
        well_formed(b),
        forall|x: int, y: int| in_grid(x, y) ==> cell_at(a, x, y) == cell_at(b, x, y),
    ensures
        a == b,
{
    assert forall|k: int| 0 <= k < 9 implies a[k] == b[k] by {
        assert forall|s: int| 0 <= s < 9 implies a[k][s] == b[k][s] by {
            lemma_block_coordinates(k, s);
            assert(cell_at(a, joint_x(k, s), joint_y(k, s)) == cell_at(
                b,
                joint_x(k, s),
                joint_y(k, s),
            ));
        }
        assert(a[k] =~= b[k]);
    }
    assert(a =~= b);
}

/// Replacing one cell keeps the board well formed, changes that cell and no
/// other.
pub proof fn lemma_with_cell(board: Board, x: int, y: int, cell: Cell)
    requires
        well_formed(board),
        in_grid(x, y),
    ensures
        well_formed(with_cell(board, x, y, cell)),
        cell_at(with_cell(board, x, y, cell), x, y) == cell,
        forall|x2: int, y2: int|
            in_grid(x2, y2) && (x2 != x || y2 != y) ==> #[trigger] cell_at(
                with_cell(board, x, y, cell),
                x2,
                y2,
            ) == cell_at(board, x2, y2),
{
    lemma_coordinates(x, y);
    let after = with_cell(board, x, y, cell);
    assert forall|x2: int, y2: int|
        in_grid(x2, y2) && (x2 != x || y2 != y) implies #[trigger] cell_at(after, x2, y2)
        == cell_at(board, x2, y2) by {
        lemma_coordinates(x2, y2);
    }
}

/// Position of the `k`-th neighbour of `(x, y)`: first the eight other cells
/// of its block (the block's last cell standing in the place of `(x, y)`
/// itself), then the six cells of its column outside the block from the top
/// down, then the six cells of its row outside the block from left to right.
pub open spec fn neighbour_position(x: int, y: int, k: int) -> (int, int) {
    if k < 8 {
        let slot = if k == slot_index(x, y) {
            8
        } else {
            k
        };
        (joint_x(block_index(x, y), slot), joint_y(block_index(x, y), slot))
    } else if k < 14 {
        let j = k - 8;
        (x, if j < (y / 3) * 3 {
            j
        } else {
            j + 3
        })
    } else {
        let j = k - 14;
        (if j < (x / 3) * 3 {
            j
        } else {
            j + 3
        }, y)
    }
}

/// Place of the neighbour `(x2, y2)` in the list of neighbours of `(x, y)`.
pub open spec fn neighbour_rank(x: int, y: int, x2: int, y2: int) -> int {
    if x / 3 == x2 / 3 && y / 3 == y2 / 3 {
        if slot_index(x2, y2) == 8 {
            slot_index(x, y)
        } else {
            slot_index(x2, y2)
        }
    } else if x2 == x {
        8 + if y2 < (y / 3) * 3 {
            y2
        } else {
            y2 - 3
        }
    } else {
        14 + if x2 < (x / 3) * 3 {
            x2
        } else {
            x2 - 3
        }
    }
}

/// The twenty cells that share a column, a row or a block with `(x, y)`, in
/// the order of [`neighbour_position`].
pub open spec fn neighbour_cells(board: Board, x: int, y: int) -> Seq<Cell> {
    Seq::new(
        20,
        |k: int| cell_at(board, neighbour_position(x, y, k).0, neighbour_position(x, y, k).1),
    )
}

/// Every entry of the neighbour list is a neighbour on the board.
pub proof fn lemma_neighbour_position(x: int, y: int, k: int)
    requires
        in_grid(x, y),
        0 <= k < 20,
    ensures
        in_grid(neighbour_position(x, y, k).0, neighbour_position(x, y, k).1),
        are_neighbours(x, y, neighbour_position(x, y, k).0, neighbour_position(x, y, k).1),
        neighbour_rank(x, y, neighbour_position(x, y, k).0, neighbour_position(x, y, k).1) == k,
{
}

/// Every neighbour on the board has its place in the neighbour list.
pub proof fn lemma_neighbour_rank(x: int, y: int, x2: int, y2: int)
    requires
        in_grid(x, y),
        in_grid(x2, y2),
        are_neighbours(x, y, x2, y2),
    ensures
        0 <= neighbour_rank(x, y, x2, y2) < 20,
        neighbour_position(x, y, neighbour_rank(x, y, x2, y2)) == (x2, y2),
{
}

/// A value is known around `(x, y)` exactly when the neighbour list holds it
/// as a known cell.
pub proof fn lemma_known_around(board: Board, x: int, y: int, value: u32)
    requires
        in_grid(x, y),
    ensures
        known_around(board, x, y, value) <==> neighbour_cells(board, x, y).contains(
            Cell::Known(value),
        ),
{
    let cells = neighbour_cells(board, x, y);
    if known_around(board, x, y, value) {
        let (x2, y2) = choose|x2: int, y2: int|
            in_grid(x2, y2) && are_neighbours(x, y, x2, y2) && #[trigger] cell_at(board, x2, y2)
                == Cell::Known(value);
        lemma_neighbour_rank(x, y, x2, y2);
        assert(cells[neighbour_rank(x, y, x2, y2)] == Cell::Known(value));
    }
    if cells.contains(Cell::Known(value)) {
        let k = choose|k: int| 0 <= k < cells.len() && cells[k] == Cell::Known(value);
        lemma_neighbour_position(x, y, k);
        let (x2, y2) = neighbour_position(x, y, k);
        assert(cell_at(board, x2, y2) == Cell::Known(value));
    }
}

} // verus!
