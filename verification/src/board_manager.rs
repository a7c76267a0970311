//! The board state manager: owns the grid and the registry of placed words,
//! and is the only component that mutates either. Its operations are
//! specified against the transition functions of `board_model`.

use vstd::prelude::*;

use crate::board_model::{
    anchor_col, anchor_row, cells_cover, grid_rows, new_placed_word, on_path, path_index,
    placed_cell, pos_col, pos_row, removed_cell, row_letters, spec_grid_str, BoardV, ROW_SEPARATOR,
};
use crate::generated_board::{WordLocationOnBoard, WordLocationsOnBoard};
use crate::cell_contents::{CellContents, EMPTY_CELL_VALUE};
use crate::direction::{get_opposite_direction, spec_opposite, Direction};
use crate::placed_word::{PlacedWord, PlacedWordCell, PossibleWordLocation};
use crate::utils::{all_indicies_of, chars_of, lemma_join_push, shuffle, spec_join, string_from_chars};

verus! {

/// What the location search records about one candidate crossing: a placed
/// cell on the grid, paired with every letter offset of the word to place
/// that carries the cell's letter.
spec fn anchor_pair_ok(b: BoardV, word: Seq<char>, pair: (PlacedWordCell, Vec<usize>)) -> bool {
    &&& pair.0.row < b.dim
    &&& pair.0.col < b.dim
    &&& forall|j: int|
        0 <= j < pair.1@.len() ==> (#[trigger] pair.1@[j]) < word.len() && word[pair.1@[j] as int]
            == pair.0.letter
}

/// Every letter offset of the word that carries the cell's letter is on
/// the pair's offset list: the search will try them all.
spec fn anchor_pair_complete(word: Seq<char>, pair: (PlacedWordCell, Vec<usize>)) -> bool {
    forall|a: int|
        0 <= a < word.len() && word[a] == pair.0.letter ==> exists|j: int|
            0 <= j < pair.1@.len() && pair.1@[j] == a
}

/// If laying the word over the placed cell `cl` at letter offset `a` gives
/// a start on the grid and a legal location, that location is among `locs`.
pub open spec fn anchor_covered(
    b: BoardV,
    word: Seq<char>,
    cl: PlacedWordCell,
    a: int,
    locs: Seq<PossibleWordLocation>,
) -> bool {
    (anchor_row(cl, a) >= 0 && anchor_col(cl, a) >= 0 && b.location_legal(
        word,
        anchor_row(cl, a),
        anchor_col(cl, a),
        spec_opposite(cl.direction),
    )) ==> exists|j: int|
        0 <= j < locs.len() && (#[trigger] locs[j]).start_row as int == anchor_row(cl, a)
            && locs[j].start_col as int == anchor_col(cl, a) && locs[j].direction == spec_opposite(
            cl.direction,
        )
}

/// Owns the grid and the registry of words currently placed on it. The two
/// structures describe the same facts and are kept in step by `place_word`
/// and `remove_word_from_board`; nothing else mutates them.
pub struct BoardManager {
    /// The conceptual width and height of the grid (board): the number of
    /// rows and of columns.
    pub dimensions: usize,
    /// Every word that is on the board right now, each with its cells. A
    /// word is registered at most once at any time.
    words_placed: Vec<PlacedWord>,
    /// The grid itself: `dimensions` rows of `dimensions` cells.
    grid: Vec<Vec<CellContents>>,
}

impl View for BoardManager {
    type V = BoardV;

    closed spec fn view(&self) -> BoardV {
        BoardV {
            dim: self.dimensions as nat,
            grid: Seq::new(self.grid@.len() as nat, |r: int| self.grid@[r]@),
            words: Seq::new(self.words_placed@.len() as nat, |k: int| self.words_placed@[k]@),
        }
    }
}

impl BoardManager {
    /// The board's side length, as the model sees it.
    pub fn get_dimensions(&self) -> (r: usize)
        ensures
            r as nat == self@.dim,
    {
        self.dimensions
    }

    /// Constructor: a zero-sized board with nothing placed. Call
    /// `new_list` to give it real dimensions.
    pub fn new() -> (r: Self)
        ensures
            r@ == BoardV::empty_board(0),
            r@.wf(),
            r@.consistent(),
    {
        let r = BoardManager { dimensions: 0, words_placed: Vec::new(), grid: Vec::new() };
        proof {
            assert(r@ =~~= BoardV::empty_board(0));
        }
        r
    }

    /// One row of `n` empty cells.
    fn empty_row(n: usize) -> (r: Vec<CellContents>)
        ensures
            r@ == Seq::new(n as nat, |c: int| CellContents::spec_empty()),
    {
        let mut row: Vec<CellContents> = Vec::new();
        let mut c: usize = 0;
        while c < n
            invariant
                c <= n,
                row@ =~= Seq::new(c as nat, |j: int| CellContents::spec_empty()),
            decreases n - c,
        {
            row.push(CellContents::empty());
            c = c + 1;
        }
        proof {
            assert(row@ =~= Seq::new(n as nat, |j: int| CellContents::spec_empty()));
        }
        row
    }

    /// Initialize the board with new dimensions: an `n` by `n` grid of
    /// empty cells and an empty word registry, dropping any previous state.
    /// Always succeeds.
    pub fn new_list(&mut self, dimensions: usize)
        ensures
            final(self)@ == BoardV::empty_board(dimensions as nat),
            final(self)@.wf(),
            final(self)@.consistent(),
    {
        self.dimensions = dimensions;
        self.words_placed = Vec::new();
        let mut grid: Vec<Vec<CellContents>> = Vec::new();
        let mut r: usize = 0;
        while r < dimensions
            invariant
                r <= dimensions,
                grid@.len() == r,
                forall|i: int|
                    0 <= i < r ==> (#[trigger] grid@[i])@ == Seq::new(
                        dimensions as nat,
                        |c: int| CellContents::spec_empty(),
                    ),
            decreases dimensions - r,
        {
            grid.push(Self::empty_row(dimensions));
            r = r + 1;
        }
        self.grid = grid;
        proof {
            assert(self@ =~~= BoardV::empty_board(dimensions as nat));
        }
    }

    /// Resets the board (the grid) to its default empty state and forgets
    /// any words that have been placed. The dimensions stay.
    pub fn clear_board(&mut self)
        ensures
            final(self)@ == BoardV::empty_board(old(self)@.dim),
            final(self)@.wf(),
            final(self)@.consistent(),
    {
        let d = self.dimensions;
        self.new_list(d);
    }

    /// Returns how many words have been placed on the board.
    pub fn get_number_of_used_words(&self) -> (r: usize)
        ensures
            r == self@.words.len(),
    {
        self.words_placed.len()
    }

    /// The registry index of `word`, when it is placed.
    fn find_word_index(&self, word: &str) -> (r: Option<usize>)
        ensures
            match r {
                Some(k) => k < self@.words.len() && self@.words[k as int].word == word@
                    && self@.contains_word(word@),
                None => !self@.contains_word(word@),
            },
    {
        let w: String = word.to_owned();
        let mut k: usize = 0;
        while k < self.words_placed.len()
            invariant
                w@ == word@,
                k <= self.words_placed.len(),
                self@.words.len() == self.words_placed.len(),
                forall|j: int| 0 <= j < k ==> (#[trigger] self@.words[j]).word != word@,
            decreases self.words_placed.len() - k,
        {
            if self.words_placed[k].word.eq(&w) {
                proof {
                    assert(self@.words[k as int].word == word@);
                }
                return Some(k);
            }
            k = k + 1;
        }
        None
    }

    /// Overwrites one cell of the grid, leaving everything else alone.
    fn set_cell(&mut self, r: usize, c: usize, v: CellContents)
        requires
            r < old(self)@.grid.len(),
            c < old(self)@.grid[r as int].len(),
        ensures
            final(self)@.dim == old(self)@.dim,
            final(self)@.words == old(self)@.words,
            final(self)@.grid.len() == old(self)@.grid.len(),
            forall|rr: int|
                0 <= rr < old(self)@.grid.len() && rr != r ==> final(self)@.grid[rr] == old(
                    self,
                )@.grid[rr],
            final(self)@.grid[r as int] == old(self)@.grid[r as int].update(c as int, v),
    {
        let row = &mut self.grid[r];
        row.set(c, v);
        proof {
            assert forall|rr: int|
                0 <= rr < old(self)@.grid.len() && rr != r implies final(self)@.grid[rr] == old(
                self,
            )@.grid[rr] by {
                assert(final(self).grid@[rr] == old(self).grid@[rr]);
            }
            assert(final(self)@.grid[r as int] =~= old(self)@.grid[r as int].update(c as int, v));
        }
    }

    /// Place a word on the board (in the grid): one cell per letter from
    /// the start position in the given direction, and a registry entry.
    /// Placing a word that is already on the board, or one that would run
    /// past the boundary, is a silent no-op.
    pub fn place_word(
        &mut self,
        word: &str,
        start_row: usize,
        start_col: usize,
        direction: Direction,
    )
        requires
            old(self)@.wf(),
            word@.len() >= 1,
            !old(self)@.contains_word(word@) && old(self)@.fits_inline(
                word@.len(),
                start_row as int,
                start_col as int,
                direction,
            ) ==> old(self)@.cross_ok(start_row as int, start_col as int, direction),
        ensures
            final(self)@ == old(self)@.spec_place(
                word@,
                start_row as int,
                start_col as int,
                direction,
            ),
            final(self)@.wf(),
            final(self)@.dim == old(self)@.dim,
    {
        let ghost b0 = self@;
        let ghost sr = start_row as int;
        let ghost sc = start_col as int;
        // Make sure it hasn't been used yet
        match self.find_word_index(word) {
            Some(_) => {
                return ;
            },
            None => {},
        }
        // Ensure the word fits within the dimensions of the board
        let word_len = word.unicode_len();
        let overflows_h = word_len > self.dimensions || start_col > self.dimensions - word_len;
        let overflows_v = word_len > self.dimensions || start_row > self.dimensions - word_len;
        if (direction == Direction::H && overflows_h) || (direction == Direction::V
            && overflows_v) {
            return ;
        }
        proof {
            assert(b0.fits_inline(word@.len(), sr, sc, direction));
            assert(b0.cross_ok(sr, sc, direction));
        }
        let letters = chars_of(word);
        let mut cells: Vec<PlacedWordCell> = Vec::new();
        let mut offset_idx: usize = 0;
        while offset_idx < word_len
            invariant
                b0.wf(),
                self@.dim == b0.dim,
                b0.grid.len() == b0.dim,
                self@.words == b0.words,
                self@.grid.len() == b0.grid.len(),
                forall|rr: int|
                    0 <= rr < b0.grid.len() ==> (#[trigger] self@.grid[rr]).len()
                        == b0.grid[rr].len(),
                forall|rr: int| 0 <= rr < b0.dim ==> (#[trigger] b0.grid[rr]).len() == b0.dim,
                word_len == word@.len(),
                letters@ == word@,
                1 <= word_len,
                sr == start_row as int,
                sc == start_col as int,
                b0.fits_inline(word@.len(), sr, sc, direction),
                b0.cross_ok(sr, sc, direction),
                offset_idx <= word_len,
                forall|r: int, c: int|
                    0 <= r < b0.grid.len() && 0 <= c < b0.grid[r].len()
                        ==> #[trigger] self@.grid[r][c] == (if on_path(
                        offset_idx as nat,
                        sr,
                        sc,
                        direction,
                        r,
                        c,
                    ) {
                        placed_cell(b0.grid[r][c], word@[path_index(sr, sc, direction, r, c)],
                        direction)
                    } else {
                        b0.grid[r][c]
                    }),
                cells@ =~= new_placed_word(word@, sr, sc, direction).cells.take(offset_idx as int),
            decreases word_len - offset_idx,
        {
            let letter = letters[offset_idx];
            let row: usize;
            let col: usize;
            match direction {
                Direction::H => {
                    row = start_row;
                    col = start_col + offset_idx;
                },
                Direction::V => {
                    row = start_row + offset_idx;
                    col = start_col;
                },
            }
            cells.push(PlacedWordCell { row, col, letter, direction });
            proof {
                assert(self@.grid.len() == self.grid@.len());
                assert(row as int == pos_row(sr, direction, offset_idx as int));
                assert(col as int == pos_col(sc, direction, offset_idx as int));
                assert(row < b0.dim);
                assert(col < b0.dim);
                assert(self@.grid[row as int].len() == b0.grid[row as int].len());
                assert(self.grid@[row as int]@ == self@.grid[row as int]);
                assert(col < self.grid@[row as int]@.len());
            }
            let ghost gpre = self@.grid;
            let mut cellv = self.grid[row][col];
            cellv.letter = letter;
            cellv.is_empty = false;
            match direction {
                Direction::H => {
                    cellv.is_used_horizontally = true;
                },
                Direction::V => {
                    cellv.is_used_vertically = true;
                },
            }
            self.set_cell(row, col, cellv);
            proof {
                assert forall|r: int, c: int|
                    0 <= r < b0.grid.len() && 0 <= c < b0.grid[r].len()
                        implies #[trigger] self@.grid[r][c] == (if on_path(
                        (offset_idx + 1) as nat,
                        sr,
                        sc,
                        direction,
                        r,
                        c,
                    ) {
                        placed_cell(b0.grid[r][c], word@[path_index(sr, sc, direction, r, c)],
                        direction)
                    } else {
                        b0.grid[r][c]
                    }) by {
                    if r == row as int && c == col as int {
                        assert(!on_path(offset_idx as nat, sr, sc, direction, r, c));
                        assert(gpre[r][c] == b0.grid[r][c]);
                        assert(path_index(sr, sc, direction, r, c) == offset_idx as int);
                    } else {
                        assert(self@.grid[r][c] == gpre[r][c]);
                        assert(on_path((offset_idx + 1) as nat, sr, sc, direction, r, c)
                            ==> on_path(offset_idx as nat, sr, sc, direction, r, c));
                    }
                }
                let npw = new_placed_word(word@, sr, sc, direction);
                assert(npw.cells.len() == word@.len());
                assert(npw.cells[offset_idx as int].row as int == pos_row(
                    sr,
                    direction,
                    offset_idx as int,
                ));
                assert(npw.cells[offset_idx as int] == (PlacedWordCell {
                    row,
                    col,
                    letter,
                    direction,
                }));
                assert(cells@ =~= npw.cells.take(offset_idx + 1));
            }
            offset_idx = offset_idx + 1;
        }
        // This word is now considered a "used word": it has been placed on
        // the grid already.
        let pword = PlacedWord { direction, word: word.to_owned(), cells };
        proof {
            let npw = new_placed_word(word@, sr, sc, direction);
            assert(npw.cells.take(word_len as int) =~= npw.cells);
            assert(pword@ =~= npw);
        }
        self.words_placed.push(pword);
        proof {
            let target = b0.spec_place(word@, sr, sc, direction);
            assert(self@.grid =~~= target.grid);
            assert(self@.words =~= b0.words.push(new_placed_word(word@, sr, sc, direction)));
            assert(self@ =~~= target);
            assert(self@.wf()) by {
                let nw = new_placed_word(word@, sr, sc, direction);
                assert forall|k: int| 0 <= k < self@.words.len() implies self@.word_wf(
                    #[trigger] self@.words[k],
                ) by {
                    if k < b0.words.len() {
                        assert(b0.word_wf(b0.words[k]));
                    } else {
                        assert(self@.words[k] == nw);
                        assert forall|i: int| 0 <= i < nw.cells.len() implies {
                            let cl = #[trigger] nw.cells[i];
                            &&& cl.row as int == pos_row(nw.cells[0].row as int, nw.direction, i)
                            &&& cl.col as int == pos_col(nw.cells[0].col as int, nw.direction, i)
                            &&& cl.letter == nw.word[i]
                            &&& cl.direction == nw.direction
                            &&& cl.row < self@.dim
                            &&& cl.col < self@.dim
                        } by {
                            assert(pos_row(sr, direction, i) < b0.dim);
                            assert(pos_col(sc, direction, i) < b0.dim);
                        }
                    }
                }
            }
        }
    }

    /// Remove a word from the board (from the grid). Two objectives: take
    /// the word out of the registry, and clear its letters from the board
    /// as long as they are not also held by a crossing word. Removing a
    /// word that was never placed is a silent no-op.
    pub fn remove_word_from_board(&mut self, word_to_remove: &str)
        requires
            old(self)@.wf(),
        ensures
            final(self)@ == old(self)@.spec_remove(word_to_remove@),
            final(self)@.wf(),
            final(self)@.dim == old(self)@.dim,
    {
        let ghost b0 = self@;
        match self.find_word_index(word_to_remove) {
            None => {},
            Some(k) => {
                proof {
                    let k2 = b0.index_of_word(word_to_remove@);
                    assert(0 <= k2 < b0.words.len() && b0.words[k2].word == word_to_remove@);
                    if k2 < k as int {
                        assert(b0.words[k2].word != b0.words[k as int].word);
                    } else if k2 > k as int {
                        assert(b0.words[k as int].word != b0.words[k2].word);
                    }
                    assert(k2 == k as int);
                }
                let pw = self.words_placed[k].duplicate();
                let ghost pwv = b0.words[k as int];
                let num_cells = pw.cells.len();
                let mut i: usize = 0;
                while i < num_cells
                    invariant
                        b0.wf(),
                        0 <= k < b0.words.len(),
                        pwv == b0.words[k as int],
                        b0.word_wf(pwv),
                        pw@ == pwv,
                        num_cells == pwv.cells.len(),
                        i <= num_cells,
                        self@.dim == b0.dim,
                        b0.grid.len() == b0.dim,
                        forall|rr: int|
                            0 <= rr < b0.dim ==> (#[trigger] b0.grid[rr]).len() == b0.dim,
                        self@.words == b0.words,
                        self@.grid.len() == b0.grid.len(),
                        forall|rr: int|
                            0 <= rr < b0.grid.len() ==> (#[trigger] self@.grid[rr]).len()
                                == b0.grid[rr].len(),
                        forall|r: int, c: int|
                            0 <= r < b0.grid.len() && 0 <= c < b0.grid[r].len()
                                ==> #[trigger] self@.grid[r][c] == (if cells_cover(
                                pwv.cells.take(i as int),
                                r,
                                c,
                            ) {
                                removed_cell(b0.grid[r][c], pwv.direction)
                            } else {
                                b0.grid[r][c]
                            }),
                    decreases num_cells - i,
                {
                    let cl = pw.cells[i];
                    proof {
                        assert(pwv.cells[i as int] == cl);
                        assert(cl.row < b0.dim && cl.col < b0.dim);
                        assert(self@.grid.len() == self.grid@.len());
                        assert(self@.grid[cl.row as int].len() == b0.grid[cl.row as int].len());
                        assert(self.grid@[cl.row as int]@ == self@.grid[cl.row as int]);
                        assert(cl.col < self.grid@[cl.row as int]@.len());
                        // this position is fresh: along the run, either the
                        // row or the column strictly increases with the
                        // letter offset
                        assert(!cells_cover(pwv.cells.take(i as int), cl.row as int, cl.col as int))
                            by {
                            if cells_cover(pwv.cells.take(i as int), cl.row as int, cl.col as int) {
                                let j = choose|j: int|
                                    0 <= j < i && (#[trigger] pwv.cells.take(i as int)[j]).row
                                        == cl.row && pwv.cells.take(i as int)[j].col == cl.col;
                                assert(pwv.cells[j].row == cl.row && pwv.cells[j].col == cl.col);
                            }
                        }
                    }
                    let ghost gpre = self@.grid;
                    let mut cellv = self.grid[cl.row][cl.col];
                    // If this cell is also used in the cross direction, then
                    // it must be being used by two words.
                    if cl.direction == Direction::H {
                        cellv.is_used_horizontally = false;
                        if !cellv.is_used_vertically {
                            cellv.is_empty = true;
                            cellv.letter = EMPTY_CELL_VALUE;
                        }
                    } else {
                        cellv.is_used_vertically = false;
                        if !cellv.is_used_horizontally {
                            cellv.is_empty = true;
                            cellv.letter = EMPTY_CELL_VALUE;
                        }
                    }
                    self.set_cell(cl.row, cl.col, cellv);
                    proof {
                        assert(cellv == removed_cell(b0.grid[cl.row as int][cl.col as int],
                        pwv.direction));
                        assert forall|r: int, c: int|
                            0 <= r < b0.grid.len() && 0 <= c < b0.grid[r].len()
                                implies #[trigger] self@.grid[r][c] == (if cells_cover(
                            pwv.cells.take(i + 1),
                            r,
                            c,
                        ) {
                            removed_cell(b0.grid[r][c], pwv.direction)
                        } else {
                            b0.grid[r][c]
                        }) by {
                            if r == cl.row as int && c == cl.col as int {
                                assert(pwv.cells.take(i + 1)[i as int] == cl);
                                assert(cells_cover(pwv.cells.take(i + 1), r, c));
                            } else {
                                assert(self@.grid[r][c] == gpre[r][c]);
                                if cells_cover(pwv.cells.take(i + 1), r, c) {
                                    let j = choose|j: int|
                                        0 <= j < i + 1 && (#[trigger] pwv.cells.take(i + 1)[j]).row
                                            == r && pwv.cells.take(i + 1)[j].col == c;
                                    assert(j < i);
                                    assert(pwv.cells.take(i as int)[j] == pwv.cells[j]);
                                    assert(cells_cover(pwv.cells.take(i as int), r, c));
                                } else {
                                    assert(!cells_cover(pwv.cells.take(i as int), r, c)) by {
                                        if cells_cover(pwv.cells.take(i as int), r, c) {
                                            let j = choose|j: int|
                                                0 <= j < i && (#[trigger] pwv.cells.take(
                                                    i as int,
                                                )[j]).row == r && pwv.cells.take(i as int)[j].col
                                                    == c;
                                            assert(pwv.cells.take(i + 1)[j] == pwv.cells[j]);
                                            assert(cells_cover(pwv.cells.take(i + 1), r, c));
                                        }
                                    }
                                }
                            }
                        }
                    }
                    i = i + 1;
                }
                self.words_placed.remove(k);
                proof {
                    let target = b0.spec_remove(word_to_remove@);
                    assert(pwv.cells.take(num_cells as int) =~= pwv.cells);
                    assert forall|r: int| 0 <= r < b0.grid.len() implies self@.grid[r]
                        =~= b0.removed_row(pwv, r) by {
                        assert forall|c: int| 0 <= c < b0.grid[r].len() implies self@.grid[r][c]
                            == b0.removed_grid_cell(pwv, r, c) by {
                            assert(self@.grid[r][c] == (if cells_cover(
                                pwv.cells.take(num_cells as int),
                                r,
                                c,
                            ) {
                                removed_cell(b0.grid[r][c], pwv.direction)
                            } else {
                                b0.grid[r][c]
                            }));
                        }
                    }
                    assert(self@.grid =~~= target.grid);
                    assert(self@.words =~= b0.words.remove(k as int));
                    assert(self@ =~~= target);
                    assert(self@.wf()) by {
                        assert forall|j: int| 0 <= j < self@.words.len() implies self@.word_wf(
                            #[trigger] self@.words[j],
                        ) by {
                            if j < k as int {
                                assert(self@.words[j] == b0.words[j]);
                            } else {
                                assert(self@.words[j] == b0.words[j + 1]);
                            }
                        }
                        assert forall|j1: int, j2: int|
                            0 <= j1 < j2 < self@.words.len() implies (#[trigger] self@.words[j1]).word
                            != (#[trigger] self@.words[j2]).word by {
                            let o1 = if j1 < k as int {
                                j1
                            } else {
                                j1 + 1
                            };
                            let o2 = if j2 < k as int {
                                j2
                            } else {
                                j2 + 1
                            };
                            assert(self@.words[j1] == b0.words[o1]);
                            assert(self@.words[j2] == b0.words[o2]);
                        }
                    }
                }
            },
        }
    }

    /// Returns the `PlacedWord` objects for each word currently placed on
    /// the board/grid.
    pub fn get_used_word_objects(&self) -> (r: Vec<PlacedWord>)
        ensures
            r@.len() == self@.words.len(),
            forall|k: int| 0 <= k < r@.len() ==> (#[trigger] r@[k])@ == self@.words[k],
    {
        let mut used_words: Vec<PlacedWord> = Vec::new();
        let mut k: usize = 0;
        while k < self.words_placed.len()
            invariant
                k <= self.words_placed.len(),
                self@.words.len() == self.words_placed.len(),
                used_words@.len() == k,
                forall|j: int| 0 <= j < k ==> (#[trigger] used_words@[j])@ == self@.words[j],
            decreases self.words_placed.len() - k,
        {
            used_words.push(self.words_placed[k].duplicate());
            k = k + 1;
        }
        used_words
    }

    /// Returns only the words that have been placed on the board/grid:
    /// just the words, not the objects.
    pub fn get_used_words(&self) -> (r: Vec<String>)
        ensures
            r@.len() == self@.words.len(),
            forall|k: int| 0 <= k < r@.len() ==> (#[trigger] r@[k])@ == self@.words[k].word,
    {
        let mut used_words: Vec<String> = Vec::new();
        let mut k: usize = 0;
        while k < self.words_placed.len()
            invariant
                k <= self.words_placed.len(),
                self@.words.len() == self.words_placed.len(),
                used_words@.len() == k,
                forall|j: int| 0 <= j < k ==> (#[trigger] used_words@[j])@ == self@.words[j].word,
            decreases self.words_placed.len() - k,
        {
            used_words.push(self.words_placed[k].word.clone());
            k = k + 1;
        }
        used_words
    }

    /// The placed words as an output record: each word with the position of
    /// its first letter and its direction.
    pub fn get_placed_words_for_serialization(&self) -> (r: WordLocationsOnBoard)
        requires
            self@.wf(),
        ensures
            r@.len() == self@.words.len(),
            forall|k: int|
                0 <= k < r@.len() ==> {
                    &&& (#[trigger] r@[k]).0@ == self@.words[k].word
                    &&& r@[k].1.row == self@.words[k].cells[0].row
                    &&& r@[k].1.col == self@.words[k].cells[0].col
                    &&& r@[k].1.direction == self@.words[k].direction
                },
    {
        let mut word_locations: WordLocationsOnBoard = Vec::new();
        let mut k: usize = 0;
        while k < self.words_placed.len()
            invariant
                self@.wf(),
                k <= self.words_placed.len(),
                self@.words.len() == self.words_placed.len(),
                word_locations@.len() == k,
                forall|j: int|
                    0 <= j < k ==> {
                        &&& (#[trigger] word_locations@[j]).0@ == self@.words[j].word
                        &&& word_locations@[j].1.row == self@.words[j].cells[0].row
                        &&& word_locations@[j].1.col == self@.words[j].cells[0].col
                        &&& word_locations@[j].1.direction == self@.words[j].direction
                    },
            decreases self.words_placed.len() - k,
        {
            proof {
                assert(self@.word_wf(self@.words[k as int]));
            }
            let pw = &self.words_placed[k];
            let first = pw.cells[0];
            word_locations.push(
                (
                    pw.word.clone(),
                    WordLocationOnBoard { row: first.row, col: first.col, direction: pw.direction },
                ),
            );
            k = k + 1;
        }
        word_locations
    }

    /// The grid squashed into a single string: the letters of each row in
    /// column order, with rows separated by the row delimiter. An empty
    /// cell shows as the sentinel letter.
    pub fn get_grid_str(&self) -> (r: String)
        ensures
            r@ == spec_grid_str(self@),
    {
        let mut chars: Vec<char> = Vec::new();
        let mut r: usize = 0;
        while r < self.grid.len()
            invariant
                r <= self.grid@.len(),
                self@.grid.len() == self.grid@.len(),
                chars@ == spec_join(grid_rows(self@).take(r as int), ROW_SEPARATOR),
            decreases self.grid@.len() - r,
        {
            proof {
                lemma_join_push(
                    grid_rows(self@).take(r as int),
                    row_letters(self@.grid[r as int]),
                    ROW_SEPARATOR,
                );
                assert(grid_rows(self@).take(r as int).push(row_letters(self@.grid[r as int]))
                    =~= grid_rows(self@).take(r + 1));
            }
            if r > 0 {
                chars.push(ROW_SEPARATOR);
            }
            let ghost chars_before = chars@;
            let row_len = self.grid[r].len();
            let mut c: usize = 0;
            while c < row_len
                invariant
                    c <= row_len,
                    r < self.grid@.len(),
                    self@.grid.len() == self.grid@.len(),
                    row_len == self@.grid[r as int].len(),
                    chars@ == chars_before + row_letters(self@.grid[r as int]).take(c as int),
                decreases row_len - c,
            {
                chars.push(self.grid[r][c].letter);
                proof {
                    assert(chars@ =~= chars_before + row_letters(self@.grid[r as int]).take(
                        c + 1,
                    ));
                }
                c = c + 1;
            }
            proof {
                assert(row_letters(self@.grid[r as int]).take(row_len as int) =~= row_letters(
                    self@.grid[r as int],
                ));
            }
            r = r + 1;
        }
        proof {
            assert(grid_rows(self@).take(self.grid@.len() as int) =~= grid_rows(self@));
        }
        string_from_chars(&chars)
    }

    /// Decides exactly whether laying `word_chars` with its first letter at
    /// `(start_row, start_col)` in `direction` is legal on this board.
    fn check_location(
        &self,
        word_chars: &Vec<char>,
        start_row: usize,
        start_col: usize,
        direction: Direction,
    ) -> (r: bool)
        requires
            self@.grid_wf(),
            word_chars@.len() >= 1,
            start_row as int <= self@.dim,
            start_col as int <= self@.dim,
            self@.dim + word_chars@.len() + 1 <= usize::MAX,
        ensures
            r == self@.location_legal(
                word_chars@,
                start_row as int,
                start_col as int,
                direction,
            ),
    {
        let ghost sr = start_row as int;
        let ghost sc = start_col as int;
        // A word must not begin flush against another word in-line: the
        // cell just before the start has to be free.
        let pre_used = match direction {
            Direction::H => start_col > 0 && self.cell_is_used(start_row, start_col - 1),
            Direction::V => start_row > 0 && self.cell_is_used(start_row - 1, start_col),
        };
        if pre_used {
            return false;
        }
        let len = word_chars.len();
        let mut i: usize = 0;
        while i < len
            invariant
                self@.grid_wf(),
                len == word_chars@.len(),
                1 <= len,
                sr == start_row as int,
                sc == start_col as int,
                start_row as int <= self@.dim,
                start_col as int <= self@.dim,
                self@.dim + len + 1 <= usize::MAX,
                i <= len,
                !self@.cell_used(pos_row(sr, direction, -1), pos_col(sc, direction, -1)),
                forall|j: int|
                    0 <= j < i ==> self@.letter_pos_ok(word_chars@, sr, sc, direction, j),
            decreases len - i,
        {
            let row: usize;
            let col: usize;
            match direction {
                Direction::H => {
                    row = start_row;
                    col = start_col + i;
                },
                Direction::V => {
                    row = start_row + i;
                    col = start_col;
                },
            }
            if row >= self.dimensions || col >= self.dimensions {
                proof {
                    assert(!self@.letter_pos_ok(word_chars@, sr, sc, direction, i as int));
                }
                return false;
            }
            // After the final letter, the next in-line cell must be free: a
            // word must not run directly into another word.
            let is_last_letter = i == len - 1;
            if is_last_letter {
                let next_used = match direction {
                    Direction::H => self.cell_is_used(start_row, start_col + i + 1),
                    Direction::V => self.cell_is_used(start_row + i + 1, start_col),
                };
                if next_used {
                    proof {
                        assert(!self@.letter_pos_ok(word_chars@, sr, sc, direction, i as int));
                    }
                    return false;
                }
            }
            proof {
                assert(self@.grid.len() == self.grid@.len());
                assert(self@.grid[row as int].len() == self@.dim);
                assert(self.grid@[row as int]@ == self@.grid[row as int]);
            }
            let current_cell = self.grid[row][col];
            if current_cell.letter == word_chars[i] {
                // A legal crossing: the letter is already on the board.
            } else if current_cell.is_empty {
                // The cell is free, but the word may not run parallel flush
                // against another word: both perpendicular neighbors must
                // be free too.
                let adjacent_clear = match direction {
                    Direction::H => (start_row == 0 || !self.cell_is_used(start_row - 1, col))
                        && !self.cell_is_used(start_row + 1, col),
                    Direction::V => (start_col == 0 || !self.cell_is_used(row, start_col - 1))
                        && !self.cell_is_used(row, start_col + 1),
                };
                if !adjacent_clear {
                    proof {
                        assert(!self@.perp_neighbors_clear(sr, sc, direction, i as int));
                        assert(!self@.letter_pos_ok(word_chars@, sr, sc, direction, i as int));
                    }
                    return false;
                }
            } else {
                proof {
                    assert(!self@.letter_pos_ok(word_chars@, sr, sc, direction, i as int));
                }
                return false;
            }
            i = i + 1;
        }
        true
    }

    /// Searches the board for legal placements of `word_to_place`: every
    /// already-placed letter that occurs in the word is tried as a
    /// crossing, in random order, with the word running perpendicular to
    /// the word that letter belongs to. Collects at most
    /// `max_locations_to_find` legal locations (the lower the limit, the
    /// better the performance, but the less randomness can be achieved).
    /// Every returned location is legal; and unless the collection stopped
    /// early at its cap, every legal anchored placement is returned. The
    /// board itself is left untouched.
    pub fn find_some_locations_for_word(
        &mut self,
        word_to_place: &str,
        max_locations_to_find: usize,
    ) -> (r: Vec<PossibleWordLocation>)
        requires
            old(self)@.wf(),
            old(self)@.dim + word_to_place@.len() + 1 <= usize::MAX,
        ensures
            *final(self) == *old(self),
            forall|j: int|
                0 <= j < r@.len() ==> {
                    let loc = #[trigger] r@[j];
                    &&& loc.word@ == word_to_place@
                    &&& old(self)@.location_legal(
                        word_to_place@,
                        loc.start_row as int,
                        loc.start_col as int,
                        loc.direction,
                    )
                },
            r@.len() <= (if max_locations_to_find == 0 {
                1nat
            } else {
                max_locations_to_find as nat
            }),
            r@.len() > 0 ==> old(self)@.words.len() > 0,
            r@.len() < max_locations_to_find ==> forall|k: int, ci: int, a: int|
                #![trigger old(self)@.words[k].cells[ci], word_to_place@[a]]
                0 <= k < old(self)@.words.len() && 0 <= ci < old(self)@.words[k].cells.len() && 0
                    <= a < word_to_place@.len() && word_to_place@[a]
                    == old(self)@.words[k].cells[ci].letter ==> anchor_covered(
                    old(self)@,
                    word_to_place@,
                    old(self)@.words[k].cells[ci],
                    a,
                    r@,
                ),
    {
        let ghost b0 = self@;
        let word_chars = chars_of(word_to_place);
        // Find all the cells (letters) that have already been placed on the
        // board, and whose letter is found within the word we are trying to
        // place. Each such cell is a potential crossing; a letter may match
        // several positions of the word at once.
        let mut all_used_cells: Vec<(PlacedWordCell, Vec<usize>)> = Vec::new();
        let mut k: usize = 0;
        while k < self.words_placed.len()
            invariant
                b0.wf(),
                self@ == b0,
                *self == *old(self),
                word_chars@ == word_to_place@,
                k <= self.words_placed.len(),
                self@.words.len() == self.words_placed.len(),
                forall|p: int|
                    0 <= p < all_used_cells@.len() ==> anchor_pair_ok(
                        b0,
                        word_to_place@,
                        #[trigger] all_used_cells@[p],
                    ),
                all_used_cells@.len() > 0 ==> b0.words.len() > 0,
                forall|k2: int, ci2: int|
                    #![trigger b0.words[k2].cells[ci2]]
                    0 <= k2 < k && 0 <= ci2 < b0.words[k2].cells.len() && (exists|a: int|
                        0 <= a < word_to_place@.len() && word_to_place@[a]
                            == b0.words[k2].cells[ci2].letter) ==> exists|p: int|
                        0 <= p < all_used_cells@.len() && (#[trigger] all_used_cells@[p]).0
                            == b0.words[k2].cells[ci2] && anchor_pair_complete(
                            word_to_place@,
                            all_used_cells@[p],
                        ),
            decreases self.words_placed.len() - k,
        {
            proof {
                assert(b0.word_wf(b0.words[k as int]));
            }
            let num_cells = self.words_placed[k].cells.len();
            let mut i: usize = 0;
            while i < num_cells
                invariant
                    b0.wf(),
                    self@ == b0,
                    *self == *old(self),
                    word_chars@ == word_to_place@,
                    k < self.words_placed.len(),
                    self@.words.len() == self.words_placed.len(),
                    b0.word_wf(b0.words[k as int]),
                    num_cells == b0.words[k as int].cells.len(),
                    i <= num_cells,
                    forall|p: int|
                        0 <= p < all_used_cells@.len() ==> anchor_pair_ok(
                            b0,
                            word_to_place@,
                            #[trigger] all_used_cells@[p],
                        ),
                    all_used_cells@.len() > 0 ==> b0.words.len() > 0,
                    forall|k2: int, ci2: int|
                        #![trigger b0.words[k2].cells[ci2]]
                        0 <= k2 < self@.words.len() && 0 <= ci2 < b0.words[k2].cells.len() && (k2
                            < k || (k2 == k && ci2 < i)) && (exists|a: int|
                            0 <= a < word_to_place@.len() && word_to_place@[a]
                                == b0.words[k2].cells[ci2].letter) ==> exists|p: int|
                            0 <= p < all_used_cells@.len() && (#[trigger] all_used_cells@[p]).0
                                == b0.words[k2].cells[ci2] && anchor_pair_complete(
                                word_to_place@,
                                all_used_cells@[p],
                            ),
                decreases num_cells - i,
            {
                let cell = self.words_placed[k].cells[i];
                proof {
                    assert(b0.words[k as int].cells[i as int] == cell);
                }
                let indicies = all_indicies_of(word_to_place, cell.letter);
                let ghost inds = indicies@;
                let ghost pre_pairs = all_used_cells@;
                if indicies.len() > 0 {
                    all_used_cells.push((cell, indicies));
                }
                proof {
                    assert forall|k2: int, ci2: int|
                        #![trigger b0.words[k2].cells[ci2]]
                        0 <= k2 < self@.words.len() && 0 <= ci2 < b0.words[k2].cells.len() && (k2
                            < k || (k2 == k && ci2 < i + 1)) && (exists|a: int|
                            0 <= a < word_to_place@.len() && word_to_place@[a]
                                == b0.words[k2].cells[ci2].letter) implies exists|p: int|
                            0 <= p < all_used_cells@.len() && (#[trigger] all_used_cells@[p]).0
                                == b0.words[k2].cells[ci2] && anchor_pair_complete(
                                word_to_place@,
                                all_used_cells@[p],
                            ) by {
                        if k2 == k as int && ci2 == i as int {
                            let a0 = choose|a: int|
                                0 <= a < word_to_place@.len() && word_to_place@[a]
                                    == b0.words[k2].cells[ci2].letter;
                            // this very letter occurs in the word, so the
                            // offset list cannot be empty
                            let j0 = choose|j: int| 0 <= j < inds.len() && inds[j] == a0;
                            assert(inds.len() > 0);
                            let pn = pre_pairs.len() as int;
                            assert(all_used_cells@[pn].0 == cell);
                            assert(all_used_cells@[pn].1 == indicies);
                            assert(anchor_pair_complete(
                                word_to_place@,
                                all_used_cells@[pn],
                            )) by {
                                assert forall|a: int|
                                    0 <= a < word_to_place@.len() && word_to_place@[a]
                                        == cell.letter implies exists|j: int|
                                        0 <= j < inds.len() && inds[j] == a by {
                                    let j = choose|j: int| 0 <= j < inds.len() && inds[j] == a;
                                }
                            }
                        } else {
                            let p = choose|p: int|
                                0 <= p < pre_pairs.len() && (#[trigger] pre_pairs[p]).0
                                    == b0.words[k2].cells[ci2] && anchor_pair_complete(
                                    word_to_place@,
                                    pre_pairs[p],
                                );
                            assert(all_used_cells@[p] == pre_pairs[p]);
                        }
                    }
                }
                i = i + 1;
            }
            k = k + 1;
        }
        // Mix up the order in which the crossings are tried: this is the
        // source of placement randomness, re-drawn on every call. The
        // shuffle keeps every pair, so nothing a crossing offers is lost.
        let shuffled_cells = shuffle(all_used_cells);
        let ghost pairs0 = all_used_cells@;
        proof {
            assert forall|p: int|
                0 <= p < shuffled_cells@.len() implies anchor_pair_ok(
                b0,
                word_to_place@,
                #[trigger] shuffled_cells@[p],
            ) by {
                broadcast use vstd::seq_lib::group_to_multiset_ensures;

                let pair = shuffled_cells@[p];
                assert(shuffled_cells@.contains(pair));
                assert(shuffled_cells@.to_multiset().count(pair) > 0);
            }
            assert forall|k2: int, ci2: int|
                #![trigger b0.words[k2].cells[ci2]]
                0 <= k2 < b0.words.len() && 0 <= ci2 < b0.words[k2].cells.len() && (exists|a: int|
                    0 <= a < word_to_place@.len() && word_to_place@[a]
                        == b0.words[k2].cells[ci2].letter) implies exists|p: int|
                    0 <= p < shuffled_cells@.len() && (#[trigger] shuffled_cells@[p]).0
                        == b0.words[k2].cells[ci2] && anchor_pair_complete(
                        word_to_place@,
                        shuffled_cells@[p],
                    ) by {
                broadcast use vstd::seq_lib::group_to_multiset_ensures;

                let p = choose|p: int|
                    0 <= p < pairs0.len() && (#[trigger] pairs0[p]).0 == b0.words[k2].cells[ci2]
                        && anchor_pair_complete(word_to_place@, pairs0[p]);
                let pair = pairs0[p];
                assert(pairs0.contains(pair));
                assert(pairs0.to_multiset().count(pair) > 0);
                assert(shuffled_cells@.to_multiset().count(pair) > 0);
                assert(shuffled_cells@.contains(pair));
                let p2 = choose|p2: int|
                    0 <= p2 < shuffled_cells@.len() && shuffled_cells@[p2] == pair;
                assert(shuffled_cells@[p2].0 == b0.words[k2].cells[ci2]);
            }
        }
        // Try to lay the word over each matching letter in turn, and check
        // the surrounding cells to see whether it may lie there.
        let mut possible_locations: Vec<PossibleWordLocation> = Vec::new();
        let mut ci: usize = 0;
        while ci < shuffled_cells.len()
            invariant
                b0.wf(),
                self@ == b0,
                *self == *old(self),
                word_chars@ == word_to_place@,
                b0.dim + word_to_place@.len() + 1 <= usize::MAX,
                ci <= shuffled_cells@.len(),
                forall|p: int|
                    0 <= p < shuffled_cells@.len() ==> anchor_pair_ok(
                        b0,
                        word_to_place@,
                        #[trigger] shuffled_cells@[p],
                    ),
                forall|j: int|
                    0 <= j < possible_locations@.len() ==> {
                        let loc = #[trigger] possible_locations@[j];
                        &&& loc.word@ == word_to_place@
                        &&& b0.location_legal(
                            word_to_place@,
                            loc.start_row as int,
                            loc.start_col as int,
                            loc.direction,
                        )
                    },
                max_locations_to_find >= 1 ==> possible_locations@.len() < max_locations_to_find,
                max_locations_to_find == 0 ==> possible_locations@.len() == 0,
                shuffled_cells@.len() > 0 ==> b0.words.len() > 0,
                possible_locations@.len() > 0 ==> b0.words.len() > 0,
                forall|p: int, ai: int|
                    #![trigger shuffled_cells@[p].1@[ai]]
                    0 <= p < ci && 0 <= ai < shuffled_cells@[p].1@.len() ==> anchor_covered(
                        b0,
                        word_to_place@,
                        shuffled_cells@[p].0,
                        shuffled_cells@[p].1@[ai] as int,
                        possible_locations@,
                    ),
            decreases shuffled_cells@.len() - ci,
        {
            let cell = shuffled_cells[ci].0;
            proof {
                assert(anchor_pair_ok(b0, word_to_place@, shuffled_cells@[ci as int]));
            }
            let num_anchors = shuffled_cells[ci].1.len();
            let mut ai: usize = 0;
            while ai < num_anchors
                invariant
                    b0.wf(),
                    self@ == b0,
                    *self == *old(self),
                    word_chars@ == word_to_place@,
                    b0.dim + word_to_place@.len() + 1 <= usize::MAX,
                    ci < shuffled_cells@.len(),
                    cell == shuffled_cells@[ci as int].0,
                    anchor_pair_ok(b0, word_to_place@, shuffled_cells@[ci as int]),
                    num_anchors == shuffled_cells@[ci as int].1@.len(),
                    ai <= num_anchors,
                    forall|j: int|
                        0 <= j < possible_locations@.len() ==> {
                            let loc = #[trigger] possible_locations@[j];
                            &&& loc.word@ == word_to_place@
                            &&& b0.location_legal(
                                word_to_place@,
                                loc.start_row as int,
                                loc.start_col as int,
                                loc.direction,
                            )
                        },
                    max_locations_to_find >= 1 ==> possible_locations@.len()
                        < max_locations_to_find,
                    max_locations_to_find == 0 ==> possible_locations@.len() == 0,
                    shuffled_cells@.len() > 0 ==> b0.words.len() > 0,
                    possible_locations@.len() > 0 ==> b0.words.len() > 0,
                    forall|p: int, ai2: int|
                        #![trigger shuffled_cells@[p].1@[ai2]]
                        0 <= p < shuffled_cells@.len() && 0 <= ai2 < shuffled_cells@[p].1@.len()
                            && (p < ci || (p == ci && ai2 < ai)) ==> anchor_covered(
                            b0,
                            word_to_place@,
                            shuffled_cells@[p].0,
                            shuffled_cells@[p].1@[ai2] as int,
                            possible_locations@,
                        ),
                decreases num_anchors - ai,
            {
                let anchor_idx = shuffled_cells[ci].1[ai];
                let ghost aa = anchor_idx as int;
                // The letter on the board is used in one direction; the
                // word is laid over it in the opposite direction, starting
                // `anchor_idx` cells back so the letters coincide.
                let opposite_direction = get_opposite_direction(&cell.direction);
                let mut start_ok = true;
                let mut start_row: usize = 0;
                let mut start_col: usize = 0;
                match opposite_direction {
                    Direction::H => {
                        if anchor_idx > cell.col {
                            start_ok = false;
                        } else {
                            start_row = cell.row;
                            start_col = cell.col - anchor_idx;
                        }
                    },
                    Direction::V => {
                        if anchor_idx > cell.row {
                            start_ok = false;
                        } else {
                            start_row = cell.row - anchor_idx;
                            start_col = cell.col;
                        }
                    },
                }
                let ghost locs_before = possible_locations@;
                if start_ok {
                    proof {
                        assert(start_row as int == anchor_row(cell, aa));
                        assert(start_col as int == anchor_col(cell, aa));
                    }
                    if self.check_location(&word_chars, start_row, start_col, opposite_direction) {
                        // Every cell along the run is compatible: this is a
                        // valid position for the word.
                        possible_locations.push(
                            PossibleWordLocation {
                                start_row,
                                start_col,
                                word: word_to_place.to_owned(),
                                direction: opposite_direction,
                            },
                        );
                        if possible_locations.len() >= max_locations_to_find {
                            return possible_locations;
                        }
                    }
                }
                proof {
                    // what was collected so far stays collected, and this
                    // anchor is now settled either way
                    assert forall|p: int, ai2: int|
                        #![trigger shuffled_cells@[p].1@[ai2]]
                        0 <= p < shuffled_cells@.len() && 0 <= ai2 < shuffled_cells@[p].1@.len()
                            && (p < ci || (p == ci && ai2 < ai + 1)) implies anchor_covered(
                        b0,
                        word_to_place@,
                        shuffled_cells@[p].0,
                        shuffled_cells@[p].1@[ai2] as int,
                        possible_locations@,
                    ) by {
                        let cl = shuffled_cells@[p].0;
                        let a2 = shuffled_cells@[p].1@[ai2] as int;
                        if p == ci as int && ai2 == ai as int {
                            if anchor_row(cell, aa) >= 0 && anchor_col(cell, aa) >= 0
                                && b0.location_legal(
                                word_to_place@,
                                anchor_row(cell, aa),
                                anchor_col(cell, aa),
                                spec_opposite(cell.direction),
                            ) {
                                assert(start_ok);
                                let j = possible_locations@.len() - 1;
                                assert(possible_locations@[j].start_row as int == anchor_row(
                                    cell,
                                    aa,
                                ));
                            }
                        } else {
                            assert(anchor_covered(b0, word_to_place@, cl, a2, locs_before));
                            if anchor_row(cl, a2) >= 0 && anchor_col(cl, a2) >= 0
                                && b0.location_legal(
                                word_to_place@,
                                anchor_row(cl, a2),
                                anchor_col(cl, a2),
                                spec_opposite(cl.direction),
                            ) {
                                let j = choose|j: int|
                                    0 <= j < locs_before.len() && (#[trigger] locs_before[j]).start_row
                                        as int == anchor_row(cl, a2) && locs_before[j].start_col
                                        as int == anchor_col(cl, a2) && locs_before[j].direction
                                        == spec_opposite(cl.direction);
                                assert(possible_locations@[j] == locs_before[j]);
                            }
                        }
                    }
                }
                ai = ai + 1;
            }
            ci = ci + 1;
        }
        proof {
            // nothing was cut off: every legal anchored placement is in the
            // result
            assert forall|k2: int, ci2: int, a: int|
                #![trigger b0.words[k2].cells[ci2], word_to_place@[a]]
                0 <= k2 < b0.words.len() && 0 <= ci2 < b0.words[k2].cells.len() && 0 <= a
                    < word_to_place@.len() && word_to_place@[a]
                    == b0.words[k2].cells[ci2].letter implies anchor_covered(
                b0,
                word_to_place@,
                b0.words[k2].cells[ci2],
                a,
                possible_locations@,
            ) by {
                let p = choose|p: int|
                    0 <= p < shuffled_cells@.len() && (#[trigger] shuffled_cells@[p]).0
                        == b0.words[k2].cells[ci2] && anchor_pair_complete(
                        word_to_place@,
                        shuffled_cells@[p],
                    );
                let jj = choose|jj: int|
                    0 <= jj < shuffled_cells@[p].1@.len() && shuffled_cells@[p].1@[jj] == a;
                assert(shuffled_cells@[p].1@[jj] as int == a);
                assert(anchor_covered(
                    b0,
                    word_to_place@,
                    shuffled_cells@[p].0,
                    shuffled_cells@[p].1@[jj] as int,
                    possible_locations@,
                ));
            }
        }
        possible_locations
    }

    /// Get the contents of one cell of the board; `None` outside the grid.
    pub fn get_cell_at(&self, row_idx: usize, col_idx: usize) -> (r: Option<CellContents>)
        ensures
            r == (if row_idx < self@.grid.len() && col_idx < self@.grid[row_idx as int].len() {
                Some(self@.grid[row_idx as int][col_idx as int])
            } else {
                None::<CellContents>
            }),
    {
        if row_idx < self.grid.len() && col_idx < self.grid[row_idx].len() {
            Some(self.grid[row_idx][col_idx])
        } else {
            None
        }
    }

    /// Check if a cell contains a letter, or if it's empty. Positions off
    /// the grid count as empty, so boundary checks need no special-casing.
    pub fn cell_is_used(&self, row_idx: usize, col_idx: usize) -> (r: bool)
        requires
            self@.grid_wf(),
        ensures
            r == self@.cell_used(row_idx as int, col_idx as int),
    {
        proof {
            assert(self@.grid.len() == self@.dim);
        }
        if row_idx < self.grid.len() && col_idx < self.grid[row_idx].len() {
            proof {
                assert(self@.grid[row_idx as int] == self.grid@[row_idx as int]@);
                assert(self@.grid[row_idx as int].len() == self@.dim);
            }
            return !self.grid[row_idx][col_idx].is_empty;
        }
        false
    }
}

} // verus!
