//! A constraint-propagation solver for nine by nine number-placement
//! puzzles.
//!
//! The [`grid`] module holds the data model: digits, blocks, the grid and the
//! coordinate systems that address it, together with the reader and the
//! writer of the textual form of a grid. Its submodule `board` holds the
//! mathematical model over which every contract is stated.
//!
//! The [`solver`] module holds the propagation engine. Its submodule `rules`
//! defines each pass of the engine as a function on boards, and its
//! submodule `laws` proves what holds of those functions: that candidates
//! are complements of the known neighbours, that they never grow, that no
//! pass contradicts a solution of the puzzle, and that a round without
//! progress is a fixed point.
//!
//! [`std_contracts`] lists the contracts of standard-library functions that
//! are taken on trust.

pub mod grid;
pub mod solver;
pub mod std_contracts;
