//! The records the board keeps about words: candidate locations, the cells a
//! placed word occupies, and the placed word itself.

use vstd::prelude::*;

use crate::direction::Direction;

verus! {

/// One valid location on the board where a word could be placed. Produced
/// only by the location search; committed (at most one per search) by the
/// generation loop.
#[derive(Clone, Debug)]
pub struct PossibleWordLocation {
    pub start_row: usize,
    pub start_col: usize,
    pub word: String,
    pub direction: Direction,
}

/// One letter instance of a placed word: where it sits, which letter it is,
/// and the direction of the word it belongs to.
#[derive(Clone, Copy, Debug, PartialEq, Eq, Structural)]
pub struct PlacedWordCell {
    /// The row index within the grid.
    pub row: usize,
    /// The column index within the grid.
    pub col: usize,
    pub letter: char,
    pub direction: Direction,
}

/// A word that is currently on the board: its text, its direction, and one
/// `PlacedWordCell` per letter, in letter order.
#[derive(Clone, Debug)]
pub struct PlacedWord {
    /// All words are written either from left to right, or from top to
    /// bottom.
    pub direction: Direction,
    pub word: String,
    pub cells: Vec<PlacedWordCell>,
}

/// The mathematical value of a `PlacedWord`: the word as a character
/// sequence, its direction, and its cells.
#[verifier::ext_equal]
pub ghost struct PlacedWordV {
    pub word: Seq<char>,
    pub direction: Direction,
    pub cells: Seq<PlacedWordCell>,
}

impl View for PlacedWord {
    type V = PlacedWordV;

    open spec fn view(&self) -> PlacedWordV {
        PlacedWordV { word: self.word@, direction: self.direction, cells: self.cells@ }
    }
}

impl PlacedWord {
    /// A field-for-field copy whose value is known to equal the original,
    /// which a derived `Clone` would not tell the verifier.
    pub fn duplicate(&self) -> (r: PlacedWord)
        ensures
            r@ == self@,
    {
        let mut cells: Vec<PlacedWordCell> = Vec::new();
        let mut i: usize = 0;
        while i < self.cells.len()
            invariant
                i <= self.cells.len(),
                cells@ == self.cells@.take(i as int),
            decreases self.cells.len() - i,
        {
            cells.push(self.cells[i]);
            proof {
                assert(cells@ =~= self.cells@.take(i + 1 as int));
            }
            i = i + 1;
        }
        proof {
            assert(cells@ =~= self.cells@);
        }
        PlacedWord { direction: self.direction, word: self.word.clone(), cells }
    }
}

} // verus!
