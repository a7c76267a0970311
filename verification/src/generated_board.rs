//! The output snapshot of a finished board.

use vstd::prelude::*;

use crate::direction::Direction;

verus! {

/// Where one placed word starts, and which way it runs.
#[derive(Clone, Copy, Debug, PartialEq, Eq, Structural)]
pub struct WordLocationOnBoard {
    /// row index
    pub row: usize,
    /// column index
    pub col: usize,
    /// direction
    pub direction: Direction,
}

/// The placed words of a board, each with its location.
pub type WordLocationsOnBoard = Vec<(String, WordLocationOnBoard)>;

/// A finished board, immutable once produced: the serialized grid, the
/// placed words with their locations, the full candidate word list joined
/// by the row delimiter, and the seed word whose letters everything was
/// built from.
#[derive(Debug)]
pub struct GeneratedBoard {
    /// The completed board grid, serialized row by row.
    pub grid: String,
    /// All of the words that were used on the grid.
    pub used: WordLocationsOnBoard,
    /// All of the words capable of being built from the letters.
    pub all: String,
    /// The letters used to generate the board.
    pub letters: String,
}

} // verus!
