//! Positions inside one block.

use vstd::prelude::*;

verus! {

/// A position inside a block: column `x` and row `y`, both counted from zero.
#[derive(Debug, Clone, Copy, PartialEq, Eq, Structural)]
pub struct Position {
    pub x: usize,
    pub y: usize,
}

impl Position {
    /// The position in column `x` and row `y`.
    pub fn new(x: usize, y: usize) -> (result: Self)
        ensures
            result == (Position { x, y }),
    {
        Self { x, y }
    }

    /// The position of the `index`-th slot of a block, slots being counted row
    /// by row.
    pub fn from_index(index: usize) -> (result: Self)
        ensures
            result == Self::of_slot(index as int),
    {
        Self { x: index % 3, y: index / 3 }
    }

    /// The position of slot `slot` of a block.
    pub open spec fn of_slot(slot: int) -> Position {
        Position { x: (slot % 3) as usize, y: (slot / 3) as usize }
    }
}

} // verus!
