//! The two orientations a word can take on the board, and helpers
//! for flipping and randomly drawing one.

use vstd::prelude::*;

verus! {

/// Each word on the board (and each letter of each word) is placed in a
/// direction: horizontally (left to right) or vertically (top to bottom).
#[derive(Clone, Copy, Debug, PartialEq, Eq, Structural)]
pub enum Direction {
    /// Horizontal
    H,
    /// Vertical
    V,
}

/// The crossing constraint needs the opposite direction everywhere: a new
/// word is always laid over a placed letter in the direction perpendicular
/// to the word that letter belongs to.
pub fn get_opposite_direction(direction: &Direction) -> (r: Direction)
    ensures
        r == spec_opposite(*direction),
{
    match direction {
        Direction::H => Direction::V,
        Direction::V => Direction::H,
    }
}

/// What `get_opposite_direction` returns.
pub open spec fn spec_opposite(d: Direction) -> Direction {
    match d {
        Direction::H => Direction::V,
        Direction::V => Direction::H,
    }
}

/// Flipping a direction twice gives it back; the two directions always differ.
pub proof fn lemma_opposite_involution(d: Direction)
    ensures
        spec_opposite(spec_opposite(d)) == d,
        spec_opposite(d) != d,
{
}

/// Draws one of the two directions at random, so the very first word of a
/// board does not always lie the same way.
///
/// Relies on `rand::random::<bool>`: an independent draw from the thread-local
/// generator; nothing is promised about which side comes out.
#[verifier::external_body]
pub fn get_random_direction() -> (r: Direction)
    ensures
        r == Direction::H || r == Direction::V,
{
    if rand::random::<bool>() {
        Direction::H
    } else {
        Direction::V
    }
}

} // verus!
