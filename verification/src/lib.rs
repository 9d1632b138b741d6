//! The rule engine of a Minesweeper game: a fixed grid that owns the
//! hidden mine layout, each cell's covered / uncovered / flagged state,
//! the precomputed neighbor-mine counts, and the loss flag. Construction
//! guarantees a safe first click, `uncover_tile` performs the flood-fill
//! reveal, `chord` opens a cell's whole neighborhood when its flags
//! account for its count, and `has_lost` / `has_won` read the outcome.
//! Every operation carries a contract that pins its result down over the
//! model in `model`, and the laws in `laws` relate the operations.

pub mod board;
pub mod grid;
pub mod laws;
pub mod model;
mod rng;

pub use board::Board;

use vstd::prelude::*;

verus! {

/// The kind of a cell: either free of a mine, or holding one.
#[derive(Clone, Copy, PartialEq, Eq, Structural, Debug)]
pub enum Tile {
    Empty,
    Mine,
}

/// What the player sees of a cell: still covered, opened, or marked
/// with a flag.
#[derive(Clone, Copy, PartialEq, Eq, Structural, Debug)]
pub enum TileState {
    Covered,
    Uncovered,
    Flagged,
}

} // verus!
