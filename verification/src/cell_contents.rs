//! The contents of one grid cell.

use vstd::prelude::*;

verus! {

/// The letter that marks a cell nothing has been written into.
pub const EMPTY_CELL_VALUE: char = '#';

/// Each cell of the board (of the grid) contains one of these. Rather than
/// just store the letter in the grid, the cell also keeps track of how it is
/// used: setting `is_used_horizontally` when a horizontal word is added makes
/// it cheap to decide, on removal, whether a crossing word still needs the
/// letter.
#[derive(Clone, Copy, Debug, PartialEq, Eq, Structural)]
pub struct CellContents {
    pub letter: char,
    pub is_used_horizontally: bool,
    pub is_used_vertically: bool,
    pub is_empty: bool,
}

impl CellContents {
    /// The state every cell starts in and returns to once no word uses it.
    pub open spec fn spec_empty() -> CellContents {
        CellContents {
            letter: EMPTY_CELL_VALUE,
            is_used_horizontally: false,
            is_used_vertically: false,
            is_empty: true,
        }
    }

    /// A cell is internally coherent when the `is_empty` cache agrees with
    /// the usage flags and the sentinel letter marks exactly the empty cells.
    pub open spec fn coherent(self) -> bool {
        &&& self.is_empty == (!self.is_used_horizontally && !self.is_used_vertically)
        &&& (self.letter == EMPTY_CELL_VALUE <==> self.is_empty)
    }

    /// Builds the empty cell.
    pub fn empty() -> (r: CellContents)
        ensures
            r == CellContents::spec_empty(),
    {
        CellContents {
            letter: EMPTY_CELL_VALUE,
            is_used_horizontally: false,
            is_used_vertically: false,
            is_empty: true,
        }
    }
}

} // verus!
