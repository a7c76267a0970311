//! The mathematical model of a board: the value a `BoardManager` denotes,
//! the transition functions that `place_word` and `remove_word_from_board`
//! implement, the legality predicate that the location search decides, and
//! the consistency predicates that tie the word registry to the grid.

use vstd::prelude::*;

use crate::cell_contents::CellContents;
use crate::direction::Direction;
use crate::placed_word::{PlacedWordCell, PlacedWordV};
use crate::utils::spec_join;

verus! {

/// The character that separates the rows in a serialized grid. It is not a
/// valid letter and differs from the empty-cell sentinel.
pub const ROW_SEPARATOR: char = '_';

/// The value of a board: its side length, the grid of cells, and the
/// registry of placed words. The registry and the grid are two views of the
/// same facts; `BoardV::consistent` says when they agree.
#[verifier::ext_equal]
pub ghost struct BoardV {
    pub dim: nat,
    pub grid: Seq<Seq<CellContents>>,
    pub words: Seq<PlacedWordV>,
}

/// The row of the letter at offset `i` of a word starting at `start_row`
/// and running in direction `d`.
pub open spec fn pos_row(start_row: int, d: Direction, i: int) -> int {
    if d == Direction::H {
        start_row
    } else {
        start_row + i
    }
}

/// The column of the letter at offset `i` of a word starting at `start_col`
/// and running in direction `d`.
pub open spec fn pos_col(start_col: int, d: Direction, i: int) -> int {
    if d == Direction::H {
        start_col + i
    } else {
        start_col
    }
}

/// Whether position `(r, c)` lies on the straight run of `len` cells that
/// starts at `(sr, sc)` and goes in direction `d`.
pub open spec fn on_path(len: nat, sr: int, sc: int, d: Direction, r: int, c: int) -> bool {
    if d == Direction::H {
        r == sr && sc <= c < sc + len
    } else {
        c == sc && sr <= r < sr + len
    }
}

/// The letter offset that position `(r, c)` has within a run starting at
/// `(sr, sc)` in direction `d`.
pub open spec fn path_index(sr: int, sc: int, d: Direction, r: int, c: int) -> int {
    if d == Direction::H {
        c - sc
    } else {
        r - sr
    }
}

/// What writing `letter` of a word in direction `d` leaves in a cell: the
/// letter, the direction's usage flag, and the opposite direction's flag
/// kept as it was.
pub open spec fn placed_cell(old_cell: CellContents, letter: char, d: Direction) -> CellContents {
    CellContents {
        letter: letter,
        is_empty: false,
        is_used_horizontally: if d == Direction::H {
            true
        } else {
            old_cell.is_used_horizontally
        },
        is_used_vertically: if d == Direction::V {
            true
        } else {
            old_cell.is_used_vertically
        },
    }
}

/// What removing a word in direction `d` leaves in one of its cells: the
/// direction's flag cleared, and the cell reverting to fully empty exactly
/// when the opposite flag is clear, i.e. when no crossing word still holds
/// the letter.
pub open spec fn removed_cell(cell: CellContents, d: Direction) -> CellContents {
    if d == Direction::H {
        if cell.is_used_vertically {
            CellContents { is_used_horizontally: false, ..cell }
        } else {
            CellContents::spec_empty()
        }
    } else {
        if cell.is_used_horizontally {
            CellContents { is_used_vertically: false, ..cell }
        } else {
            CellContents::spec_empty()
        }
    }
}

/// The usage flag of `cell` for direction `d`.
pub open spec fn flag_of(cell: CellContents, d: Direction) -> bool {
    if d == Direction::H {
        cell.is_used_horizontally
    } else {
        cell.is_used_vertically
    }
}

/// Whether one of `cells` sits at position `(r, c)`.
pub open spec fn cells_cover(cells: Seq<PlacedWordCell>, r: int, c: int) -> bool {
    exists|i: int| 0 <= i < cells.len() && (#[trigger] cells[i]).row == r && cells[i].col == c
}

/// Whether some cell of the placed word `w` sits at position `(r, c)`.
pub open spec fn word_covers(w: PlacedWordV, r: int, c: int) -> bool {
    cells_cover(w.cells, r, c)
}

/// The cell that letter offset `i` of a word placed at `(sr, sc)` in
/// direction `d` occupies.
pub open spec fn path_cell(word: Seq<char>, sr: int, sc: int, d: Direction, i: int) -> PlacedWordCell {
    PlacedWordCell {
        row: pos_row(sr, d, i) as usize,
        col: pos_col(sc, d, i) as usize,
        letter: word[i],
        direction: d,
    }
}

/// The start row implied by laying a word over the placed cell `cl` so
/// that letter offset `a` of the word coincides with it: the word runs
/// opposite to the direction `cl` belongs to, offset `a` cells back.
pub open spec fn anchor_row(cl: PlacedWordCell, a: int) -> int {
    if cl.direction == Direction::V {
        cl.row as int
    } else {
        cl.row - a
    }
}

/// The start column implied by laying a word over the placed cell `cl` so
/// that letter offset `a` of the word coincides with it.
pub open spec fn anchor_col(cl: PlacedWordCell, a: int) -> int {
    if cl.direction == Direction::V {
        cl.col - a
    } else {
        cl.col as int
    }
}

/// The registry entry that placing `word` at `(sr, sc)` in direction `d`
/// creates: one cell per letter, in letter order, along the run.
pub open spec fn new_placed_word(word: Seq<char>, sr: int, sc: int, d: Direction) -> PlacedWordV {
    PlacedWordV {
        word: word,
        direction: d,
        cells: Seq::new(word.len(), |i: int| path_cell(word, sr, sc, d, i)),
    }
}

/// The letters of one grid row, in column order.
pub open spec fn row_letters(row: Seq<CellContents>) -> Seq<char> {
    Seq::new(row.len(), |i: int| row[i].letter)
}

/// The rows of the grid, each as its letters.
pub open spec fn grid_rows(b: BoardV) -> Seq<Seq<char>> {
    Seq::new(b.grid.len(), |r: int| row_letters(b.grid[r]))
}

/// The canonical serialization of a board's grid: the letters of each row,
/// rows separated by `ROW_SEPARATOR`.
pub open spec fn spec_grid_str(b: BoardV) -> Seq<char> {
    spec_join(grid_rows(b), ROW_SEPARATOR)
}

impl BoardV {
    /// The board `clear_board` and `new_list` leave behind: a `dim` by
    /// `dim` grid of empty cells and an empty registry.
    pub open spec fn empty_board(dim: nat) -> BoardV {
        BoardV {
            dim: dim,
            grid: Seq::new(dim, |r: int| Seq::new(dim, |c: int| CellContents::spec_empty())),
            words: Seq::empty(),
        }
    }

    /// The grid really is a `dim` by `dim` square.
    pub open spec fn grid_wf(self) -> bool {
        &&& self.grid.len() == self.dim
        &&& forall|r: int| 0 <= r < self.dim ==> (#[trigger] self.grid[r]).len() == self.dim
    }

    /// A registry entry is well-formed when it has one cell per letter of a
    /// nonempty word, the cells run consecutively from the first cell in the
    /// entry's direction, carry the word's letters, and lie on the grid.
    pub open spec fn word_wf(self, w: PlacedWordV) -> bool {
        &&& w.word.len() >= 1
        &&& w.cells.len() == w.word.len()
        &&& forall|i: int|
            0 <= i < w.cells.len() ==> {
                let cl = #[trigger] w.cells[i];
                &&& cl.row as int == pos_row(w.cells[0].row as int, w.direction, i)
                &&& cl.col as int == pos_col(w.cells[0].col as int, w.direction, i)
                &&& cl.letter == w.word[i]
                &&& cl.direction == w.direction
                &&& cl.row < self.dim
                &&& cl.col < self.dim
            }
    }

    /// The invariant every board operation preserves: a square grid, each
    /// registry entry well-formed, and no word registered twice.
    pub open spec fn wf(self) -> bool {
        &&& self.grid_wf()
        &&& forall|k: int| 0 <= k < self.words.len() ==> self.word_wf(#[trigger] self.words[k])
        &&& forall|k1: int, k2: int|
            0 <= k1 < k2 < self.words.len() ==> (#[trigger] self.words[k1]).word != (
            #[trigger] self.words[k2]).word
    }

    /// Whether `word` is currently registered on the board.
    pub open spec fn contains_word(self, word: Seq<char>) -> bool {
        exists|k: int| 0 <= k < self.words.len() && (#[trigger] self.words[k]).word == word
    }

    /// The registry index of `word`; meaningful only when `contains_word`
    /// holds, and unique under `wf`.
    pub open spec fn index_of_word(self, word: Seq<char>) -> int {
        choose|k: int| 0 <= k < self.words.len() && (#[trigger] self.words[k]).word == word
    }

    /// Whether the cell at `(r, c)` holds a letter. A position off the grid
    /// counts as unoccupied, so boundary checks need no special-casing.
    pub open spec fn cell_used(self, r: int, c: int) -> bool {
        0 <= r < self.dim && 0 <= c < self.dim && !self.grid[r][c].is_empty
    }

    /// Whether a run of `len` cells from `(sr, sc)` in direction `d` stays
    /// inside the grid along its own line.
    pub open spec fn fits_inline(self, len: nat, sr: int, sc: int, d: Direction) -> bool {
        if d == Direction::H {
            sc + len <= self.dim
        } else {
            sr + len <= self.dim
        }
    }

    /// Whether the coordinate perpendicular to direction `d` lies on the
    /// grid. `place_word` does not test this itself, so it demands it of
    /// callers instead of risking an out-of-range write.
    pub open spec fn cross_ok(self, sr: int, sc: int, d: Direction) -> bool {
        if d == Direction::H {
            0 <= sr < self.dim
        } else {
            0 <= sc < self.dim
        }
    }

    /// What `place_word` does to a board. Placing a word already registered,
    /// or one that would run past the boundary, changes nothing; otherwise
    /// every cell along the run takes the word's letter and direction flag,
    /// and the registry gains the word's entry.
    pub open spec fn spec_place(self, word: Seq<char>, sr: int, sc: int, d: Direction) -> BoardV {
        if self.contains_word(word) {
            self
        } else if !self.fits_inline(word.len(), sr, sc, d) {
            self
        } else {
            BoardV {
                dim: self.dim,
                grid: Seq::new(self.grid.len(), |r: int| self.placed_row(word, sr, sc, d, r)),
                words: self.words.push(new_placed_word(word, sr, sc, d)),
            }
        }
    }

    /// The cell at `(r, c)` after `word` is written along its run: the
    /// written cell on the run, the old cell elsewhere.
    pub open spec fn placed_grid_cell(
        self,
        word: Seq<char>,
        sr: int,
        sc: int,
        d: Direction,
        r: int,
        c: int,
    ) -> CellContents {
        if on_path(word.len(), sr, sc, d, r, c) {
            placed_cell(self.grid[r][c], word[path_index(sr, sc, d, r, c)], d)
        } else {
            self.grid[r][c]
        }
    }

    /// Row `r` of the grid after `word` is written along its run.
    pub open spec fn placed_row(
        self,
        word: Seq<char>,
        sr: int,
        sc: int,
        d: Direction,
        r: int,
    ) -> Seq<CellContents> {
        Seq::new(self.grid[r].len(), |c: int| self.placed_grid_cell(word, sr, sc, d, r, c))
    }

    /// What `remove_word_from_board` does to a board. Removing a word never
    /// registered changes nothing; otherwise each of the word's cells loses
    /// the word's direction flag (reverting to fully empty when not still
    /// held by a crossing word) and the registry entry goes away.
    pub open spec fn spec_remove(self, word: Seq<char>) -> BoardV {
        if !self.contains_word(word) {
            self
        } else {
            let pw = self.words[self.index_of_word(word)];
            BoardV {
                dim: self.dim,
                grid: Seq::new(self.grid.len(), |r: int| self.removed_row(pw, r)),
                words: self.words.remove(self.index_of_word(word)),
            }
        }
    }

    /// The cell at `(r, c)` after the placed word `pw` is withdrawn: the
    /// cleared cell where `pw` lay, the old cell elsewhere.
    pub open spec fn removed_grid_cell(self, pw: PlacedWordV, r: int, c: int) -> CellContents {
        if word_covers(pw, r, c) {
            removed_cell(self.grid[r][c], pw.direction)
        } else {
            self.grid[r][c]
        }
    }

    /// Row `r` of the grid after the placed word `pw` is withdrawn.
    pub open spec fn removed_row(self, pw: PlacedWordV, r: int) -> Seq<CellContents> {
        Seq::new(self.grid[r].len(), |c: int| self.removed_grid_cell(pw, r, c))
    }

    /// The checks the location search applies to one letter offset `i` of a
    /// candidate run: the cell lies on the grid; after the final letter the
    /// next in-line cell is free (a word must not run into another word);
    /// and the cell either already holds the very letter (a legal crossing)
    /// or is empty with both perpendicular neighbors free (no parallel word
    /// flush against this one).
    pub open spec fn letter_pos_ok(
        self,
        word: Seq<char>,
        sr: int,
        sc: int,
        d: Direction,
        i: int,
    ) -> bool {
        let r = pos_row(sr, d, i);
        let c = pos_col(sc, d, i);
        &&& r < self.dim
        &&& c < self.dim
        &&& (i == word.len() - 1 ==> !self.cell_used(
            pos_row(sr, d, i + 1),
            pos_col(sc, d, i + 1),
        ))
        &&& (self.grid[r][c].letter == word[i] || (self.grid[r][c].is_empty
            && self.perp_neighbors_clear(sr, sc, d, i)))
    }

    /// Both cells orthogonally adjacent to letter offset `i` of the run are
    /// free. Off-grid neighbors count as free.
    pub open spec fn perp_neighbors_clear(self, sr: int, sc: int, d: Direction, i: int) -> bool {
        if d == Direction::H {
            &&& !self.cell_used(sr - 1, sc + i)
            &&& !self.cell_used(sr + 1, sc + i)
        } else {
            &&& !self.cell_used(sr + i, sc - 1)
            &&& !self.cell_used(sr + i, sc + 1)
        }
    }

    /// The full legality check of the location search for placing `word`
    /// with its first letter at `(sr, sc)` in direction `d`: the cell just
    /// before the start is free (a word must not begin flush against
    /// another word in-line), and every letter offset passes
    /// `letter_pos_ok`.
    pub open spec fn location_legal(self, word: Seq<char>, sr: int, sc: int, d: Direction) -> bool {
        &&& word.len() >= 1
        &&& 0 <= sr
        &&& 0 <= sc
        &&& !self.cell_used(pos_row(sr, d, -1), pos_col(sc, d, -1))
        &&& forall|i: int| 0 <= i < word.len() ==> self.letter_pos_ok(word, sr, sc, d, i)
    }

    /// Every cell's `is_empty` cache and sentinel letter agree with its
    /// usage flags.
    pub open spec fn cells_coherent(self) -> bool {
        forall|r: int, c: int|
            0 <= r < self.dim && 0 <= c < self.dim ==> (#[trigger] self.grid[r][c]).coherent()
    }

    /// One registry entry agrees with the grid: every cell of the word holds
    /// the letter the entry records, with the word's direction flag set.
    pub open spec fn word_matches_grid(self, w: PlacedWordV) -> bool {
        forall|i: int|
            0 <= i < w.cells.len() ==> {
                let cl = #[trigger] w.cells[i];
                &&& self.grid[cl.row as int][cl.col as int].letter == cl.letter
                &&& flag_of(self.grid[cl.row as int][cl.col as int], w.direction)
            }
    }

    /// Every registry entry agrees with the grid.
    pub open spec fn registry_matches_grid(self) -> bool {
        forall|k: int|
            0 <= k < self.words.len() ==> self.word_matches_grid(#[trigger] self.words[k])
    }

    /// No two distinct words of the same direction share a cell.
    pub open spec fn same_direction_disjoint(self) -> bool {
        forall|k1: int, k2: int, r: int, c: int|
            0 <= k1 < self.words.len() && 0 <= k2 < self.words.len() && k1 != k2
                && self.words[k1].direction == self.words[k2].direction ==> !(#[trigger] word_covers(
                self.words[k1],
                r,
                c,
            ) && #[trigger] word_covers(self.words[k2], r, c))
    }

    /// Every set usage flag is owed to some placed word of that direction
    /// covering the cell: the grid records nothing the registry does not
    /// know about.
    pub open spec fn flags_covered(self) -> bool {
        forall|r: int, c: int|
            0 <= r < self.dim && 0 <= c < self.dim ==> {
                &&& ((#[trigger] self.grid[r][c]).is_used_horizontally ==> exists|k: int|
                    0 <= k < self.words.len() && (#[trigger] self.words[k]).direction
                        == Direction::H && word_covers(self.words[k], r, c))
                &&& (self.grid[r][c].is_used_vertically ==> exists|k: int|
                    0 <= k < self.words.len() && (#[trigger] self.words[k]).direction
                        == Direction::V && word_covers(self.words[k], r, c))
            }
    }

    /// The registry and the grid are two views of the same facts: cells
    /// coherent, every entry written on the grid, every flag owed to an
    /// entry, and no same-direction overlap.
    pub open spec fn consistent(self) -> bool {
        &&& self.cells_coherent()
        &&& self.registry_matches_grid()
        &&& self.same_direction_disjoint()
        &&& self.flags_covered()
    }
}

} // verus!

