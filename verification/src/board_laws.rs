//! The laws of the board: what placing and removing words guarantee, stated
//! and proved over the transition functions of `board_model` that
//! `BoardManager`'s operations are specified against.

use vstd::prelude::*;

use crate::board_model::{
    flag_of, grid_rows, new_placed_word, on_path, path_index, placed_cell, pos_col, pos_row,
    removed_cell, row_letters, spec_grid_str, word_covers, BoardV, ROW_SEPARATOR,
};
use crate::cell_contents::CellContents;
use crate::direction::{spec_opposite, Direction};
use crate::utils::lemma_join_uniform;

verus! {

/// On a board whose side length fits the machine, the cells of a freshly
/// built registry entry cover exactly the positions of its run, and the
/// cell covering a run position is the one at that letter offset.
pub proof fn lemma_new_word_covers(
    b: BoardV,
    word: Seq<char>,
    sr: int,
    sc: int,
    d: Direction,
    r: int,
    c: int,
)
    requires
        b.dim <= usize::MAX,
        word.len() >= 1,
        0 <= sr,
        0 <= sc,
        b.fits_inline(word.len(), sr, sc, d),
        b.cross_ok(sr, sc, d),
    ensures
        word_covers(new_placed_word(word, sr, sc, d), r, c) == on_path(
            word.len(),
            sr,
            sc,
            d,
            r,
            c,
        ),
{
    let npw = new_placed_word(word, sr, sc, d);
    if on_path(word.len(), sr, sc, d, r, c) {
        let i = path_index(sr, sc, d, r, c);
        assert(npw.cells[i].row == r && npw.cells[i].col == c);
        assert(word_covers(npw, r, c));
    }
    if word_covers(npw, r, c) {
        let i = choose|i: int|
            0 <= i < npw.cells.len() && (#[trigger] npw.cells[i]).row == r && npw.cells[i].col
                == c;
        assert(pos_row(sr, d, i) < b.dim && pos_col(sc, d, i) < b.dim);
        assert(on_path(word.len(), sr, sc, d, r, c));
    }
}

/// Placing the same word at the same spot twice leaves the board state
/// identical to placing it once: the second call finds the word already
/// registered (or the spot still unfit) and changes nothing.
pub proof fn lemma_place_twice_is_once(b: BoardV, word: Seq<char>, sr: int, sc: int, d: Direction)
    ensures
        b.spec_place(word, sr, sc, d).spec_place(word, sr, sc, d) == b.spec_place(word, sr, sc, d),
{
    let b1 = b.spec_place(word, sr, sc, d);
    if b.contains_word(word) {
        assert(b1 == b);
    } else if !b.fits_inline(word.len(), sr, sc, d) {
        assert(b1 == b);
    } else {
        let k = b.words.len() as int;
        assert(b1.words[k] == new_placed_word(word, sr, sc, d));
        assert(b1.contains_word(word));
    }
}

/// Placing a word that would run past the grid boundary leaves the board
/// state unchanged.
pub proof fn lemma_place_overflow_noop(b: BoardV, word: Seq<char>, sr: int, sc: int, d: Direction)
    requires
        !b.fits_inline(word.len(), sr, sc, d),
    ensures
        b.spec_place(word, sr, sc, d) == b,
{
}

/// A location the search finds legal stays legal after the word is placed
/// there: every cell of the run then holds the very letter the check asks
/// for, and no cell outside the run has changed.
pub proof fn lemma_legal_location_stays_legal(
    b: BoardV,
    word: Seq<char>,
    sr: int,
    sc: int,
    d: Direction,
)
    requires
        b.wf(),
        b.dim <= usize::MAX,
        b.location_legal(word, sr, sc, d),
    ensures
        b.fits_inline(word.len(), sr, sc, d),
        b.cross_ok(sr, sc, d),
        b.spec_place(word, sr, sc, d).location_legal(word, sr, sc, d),
{
    let len = word.len();
    assert(b.letter_pos_ok(word, sr, sc, d, 0));
    assert(b.letter_pos_ok(word, sr, sc, d, len - 1));
    assert(b.fits_inline(len, sr, sc, d));
    assert(b.cross_ok(sr, sc, d));
    let b1 = b.spec_place(word, sr, sc, d);
    if b.contains_word(word) {
        assert(b1 == b);
    } else {
        assert(b1.dim == b.dim);
        assert forall|r: int, c: int|
            0 <= r < b.dim && 0 <= c < b.dim implies b1.grid[r][c] == b.placed_grid_cell(
            word,
            sr,
            sc,
            d,
            r,
            c,
        ) by {
            assert(b.grid[r].len() == b.dim);
        }
        assert forall|i: int| 0 <= i < len implies b1.letter_pos_ok(word, sr, sc, d, i) by {
            let r = pos_row(sr, d, i);
            let c = pos_col(sc, d, i);
            assert(b.letter_pos_ok(word, sr, sc, d, i));
            assert(on_path(len, sr, sc, d, r, c) && path_index(sr, sc, d, r, c) == i);
            assert(b1.grid[r][c] == placed_cell(b.grid[r][c], word[i], d));
            assert(b1.grid[r][c].letter == word[i]);
            if i == len - 1 {
                let nr = pos_row(sr, d, i + 1);
                let nc = pos_col(sc, d, i + 1);
                assert(!b.cell_used(nr, nc));
                if 0 <= nr < b.dim && 0 <= nc < b.dim {
                    assert(!on_path(len, sr, sc, d, nr, nc));
                    assert(b1.grid[nr][nc] == b.grid[nr][nc]);
                }
                assert(!b1.cell_used(nr, nc));
            }
        }
        let pr = pos_row(sr, d, -1);
        let pc = pos_col(sc, d, -1);
        assert(!b.cell_used(pr, pc));
        if 0 <= pr < b.dim && 0 <= pc < b.dim {
            assert(!on_path(len, sr, sc, d, pr, pc));
            assert(b1.grid[pr][pc] == b.grid[pr][pc]);
        }
        assert(!b1.cell_used(pr, pc));
    }
}

/// The serialization of an `n` by `n` board consists of exactly `n`
/// row-segments of length `n` separated by the row delimiter: segment `i`
/// holds the letters of row `i` at offset `i * (n + 1)`, a delimiter
/// follows every row but the last, and the whole string has length
/// `n * (n + 1) - 1`. The row index `i` is a parameter, so the law speaks
/// of every row.
pub proof fn lemma_grid_str_shape(b: BoardV, i: int)
    requires
        b.grid_wf(),
        b.dim >= 1,
        0 <= i < b.dim,
    ensures
        spec_grid_str(b).len() == b.dim * (b.dim + 1) - 1,
        row_letters(b.grid[i]).len() == b.dim,
        spec_grid_str(b).subrange(i * (b.dim + 1), i * (b.dim + 1) + b.dim) == row_letters(
            b.grid[i],
        ),
        i < b.dim - 1 ==> spec_grid_str(b)[i * (b.dim + 1) + b.dim] == ROW_SEPARATOR,
{
    let rows = grid_rows(b);
    assert forall|q: int| 0 <= q < rows.len() implies (#[trigger] rows[q]).len() == b.dim by {
        assert(b.grid[q].len() == b.dim);
    }
    lemma_join_uniform(rows, ROW_SEPARATOR, b.dim, i);
    assert(rows[i] == row_letters(b.grid[i]));
}

/// Whether two grid positions touch horizontally or vertically.
pub open spec fn adjacent_positions(r1: int, c1: int, r2: int, c2: int) -> bool {
    (r1 == r2 && (c1 == c2 + 1 || c2 == c1 + 1)) || (c1 == c2 && (r1 == r2 + 1 || r2 == r1 + 1))
}

/// A third word, perpendicular to direction `d`, crosses at one of the two
/// given positions.
pub open spec fn crossing_exempts(
    b: BoardV,
    d: Direction,
    r1: int,
    c1: int,
    r2: int,
    c2: int,
) -> bool {
    exists|k3: int|
        0 <= k3 < b.words.len() && (#[trigger] b.words[k3]).direction == spec_opposite(d) && (
        word_covers(b.words[k3], r1, c1) || word_covers(b.words[k3], r2, c2))
}

/// Two words placed in the same direction never occupy adjacent cells
/// unless a third word crosses one of the two cells at a shared
/// perpendicular point.
pub open spec fn no_parallel_adjacency(b: BoardV) -> bool {
    forall|k1: int, k2: int, i1: int, i2: int|
        #![trigger b.words[k1].cells[i1], b.words[k2].cells[i2]]
        0 <= k1 < b.words.len() && 0 <= k2 < b.words.len() && k1 != k2 && b.words[k1].direction
            == b.words[k2].direction && 0 <= i1 < b.words[k1].cells.len() && 0 <= i2
            < b.words[k2].cells.len() && adjacent_positions(
            b.words[k1].cells[i1].row as int,
            b.words[k1].cells[i1].col as int,
            b.words[k2].cells[i2].row as int,
            b.words[k2].cells[i2].col as int,
        ) ==> crossing_exempts(
            b,
            b.words[k1].direction,
            b.words[k1].cells[i1].row as int,
            b.words[k1].cells[i1].col as int,
            b.words[k2].cells[i2].row as int,
            b.words[k2].cells[i2].col as int,
        )
}

/// The run of a new word shares a cell with an already-placed word of the
/// same direction. The search does not rule this out when the letters
/// happen to coincide; it is the known unresolved same-direction overlap
/// ambiguity, and the adjacency law below leaves it out.
pub open spec fn run_overlaps_same_direction(
    b: BoardV,
    len: nat,
    sr: int,
    sc: int,
    d: Direction,
) -> bool {
    exists|k: int, r: int, c: int|
        0 <= k < b.words.len() && b.words[k].direction == d && on_path(len, sr, sc, d, r, c)
            && #[trigger] word_covers(b.words[k], r, c)
}

/// Placing a word over fully empty cells and then removing it restores the
/// board exactly: every cell of the run returns to the empty state (the
/// sentinel letter, both usage flags clear), and the registry forgets the
/// word. This is the no-crossing case of removal: nothing else ever held
/// those letters.
pub proof fn lemma_place_then_remove_restores_board(
    b: BoardV,
    word: Seq<char>,
    sr: int,
    sc: int,
    d: Direction,
)
    requires
        b.wf(),
        b.dim <= usize::MAX,
        word.len() >= 1,
        0 <= sr,
        0 <= sc,
        !b.contains_word(word),
        b.fits_inline(word.len(), sr, sc, d),
        b.cross_ok(sr, sc, d),
        forall|i: int|
            0 <= i < word.len() ==> b.grid[pos_row(sr, d, i)][pos_col(sc, d, i)]
                == CellContents::spec_empty(),
    ensures
        b.spec_place(word, sr, sc, d).spec_remove(word) == b,
        forall|i: int|
            0 <= i < word.len() ==> b.spec_place(word, sr, sc, d).spec_remove(word).grid[pos_row(
                sr,
                d,
                i,
            )][pos_col(sc, d, i)] == CellContents::spec_empty(),
{
    let b1 = b.spec_place(word, sr, sc, d);
    let npw = new_placed_word(word, sr, sc, d);
    let kn = b.words.len() as int;
    assert(b1.words[kn] == npw);
    assert(b1.contains_word(word));
    // the registry index of the word in the placed board is the new entry:
    // no older entry can carry the same word
    let k = b1.index_of_word(word);
    assert(0 <= k < b1.words.len() && b1.words[k].word == word);
    if k < kn {
        assert(b.words[k].word == word);
        assert(b.contains_word(word));
    }
    assert(k == kn);
    let b2 = b1.spec_remove(word);
    assert(b2.words =~= b.words);
    assert forall|r: int| 0 <= r < b.grid.len() implies b2.grid[r] =~= b.grid[r] by {
        assert(b.grid[r].len() == b.dim);
        assert forall|c: int| 0 <= c < b.grid[r].len() implies b2.grid[r][c] == b.grid[r][c] by {
            lemma_new_word_covers(b, word, sr, sc, d, r, c);
            assert(b1.grid[r][c] == b.placed_grid_cell(word, sr, sc, d, r, c));
            if on_path(word.len(), sr, sc, d, r, c) {
                assert(b.grid[r][c] == CellContents::spec_empty());
                assert(b1.grid[r][c] == placed_cell(
                    CellContents::spec_empty(),
                    word[path_index(sr, sc, d, r, c)],
                    d,
                ));
                assert(b2.grid[r][c] == removed_cell(b1.grid[r][c], d));
                assert(b2.grid[r][c] == CellContents::spec_empty());
            } else {
                assert(b2.grid[r][c] == b1.grid[r][c]);
            }
        }
    }
    assert(b2.grid =~~= b.grid);
    assert(b2 =~~= b);
    assert forall|i: int| 0 <= i < word.len() implies b2.grid[pos_row(sr, d, i)][pos_col(
        sc,
        d,
        i,
    )] == CellContents::spec_empty() by {
        assert(b.grid[pos_row(sr, d, i)][pos_col(sc, d, i)] == CellContents::spec_empty());
    }
}

/// Removing a word while a crossing word remains leaves the shared cell
/// holding the crossing word's letter, with only the crossing word's
/// direction flag still set: the letter survives because the opposite
/// usage flag records the crossing.
pub proof fn lemma_remove_keeps_crossing_letter(
    b: BoardV,
    k1: int,
    k2: int,
    i1: int,
    i2: int,
)
    requires
        b.wf(),
        b.cells_coherent(),
        b.registry_matches_grid(),
        0 <= k1 < b.words.len(),
        0 <= k2 < b.words.len(),
        k1 != k2,
        b.words[k2].direction == spec_opposite(b.words[k1].direction),
        0 <= i1 < b.words[k1].cells.len(),
        0 <= i2 < b.words[k2].cells.len(),
        b.words[k1].cells[i1].row == b.words[k2].cells[i2].row,
        b.words[k1].cells[i1].col == b.words[k2].cells[i2].col,
    ensures
        ({
            let r = b.words[k1].cells[i1].row as int;
            let c = b.words[k1].cells[i1].col as int;
            let b2 = b.spec_remove(b.words[k1].word);
            &&& b2.grid[r][c].letter == b.words[k2].word[i2]
            &&& crate::board_model::flag_of(b2.grid[r][c], b.words[k2].direction)
            &&& !crate::board_model::flag_of(b2.grid[r][c], b.words[k1].direction)
            &&& !b2.grid[r][c].is_empty
        }),
{
    let w1 = b.words[k1];
    let w2 = b.words[k2];
    let r = w1.cells[i1].row as int;
    let c = w1.cells[i1].col as int;
    assert(b.contains_word(w1.word));
    let k = b.index_of_word(w1.word);
    assert(0 <= k < b.words.len() && b.words[k].word == w1.word);
    if k < k1 {
        assert(b.words[k].word != b.words[k1].word);
    } else if k > k1 {
        assert(b.words[k1].word != b.words[k].word);
    }
    assert(k == k1);
    let b2 = b.spec_remove(w1.word);
    assert(r < b.dim && c < b.dim);
    assert(b.grid[r].len() == b.dim);
    // the grid cell at the shared position carries both words' facts
    assert(b.word_matches_grid(w1));
    assert(b.word_matches_grid(w2));
    let cell = b.grid[r][c];
    assert(cell.letter == w1.cells[i1].letter);
    assert(cell.letter == w2.cells[i2].letter);
    assert(crate::board_model::flag_of(cell, w1.direction));
    assert(crate::board_model::flag_of(cell, w2.direction));
    assert(cell.coherent());
    assert(!cell.is_empty);
    assert(word_covers(w1, r, c));
    assert(b2.grid[r][c] == removed_cell(cell, w1.direction));
}

/// Placing a word at a legal location keeps the registry and the grid
/// consistent, provided the new word shares no cell with a word of its own
/// direction and carries no sentinel letter: every cell along the run
/// either was empty or already held the very letter being written.
#[verifier::rlimit(60)]
pub proof fn lemma_place_preserves_consistent(
    b: BoardV,
    word: Seq<char>,
    sr: int,
    sc: int,
    d: Direction,
)
    requires
        b.wf(),
        b.dim <= usize::MAX,
        b.consistent(),
        b.location_legal(word, sr, sc, d),
        !b.contains_word(word),
        !run_overlaps_same_direction(b, word.len(), sr, sc, d),
        forall|i: int| 0 <= i < word.len() ==> word[i] != crate::cell_contents::EMPTY_CELL_VALUE,
    ensures
        b.spec_place(word, sr, sc, d).consistent(),
{
    let len = word.len();
    lemma_legal_location_stays_legal(b, word, sr, sc, d);
    let b1 = b.spec_place(word, sr, sc, d);
    let npw = new_placed_word(word, sr, sc, d);
    let kn = b.words.len() as int;
    assert(b1.words == b.words.push(npw));
    assert(b1.dim == b.dim);
    assert forall|r: int, c: int|
        0 <= r < b.dim && 0 <= c < b.dim implies #[trigger] b1.grid[r][c] == b.placed_grid_cell(
        word,
        sr,
        sc,
        d,
        r,
        c,
    ) by {
        assert(b.grid[r].len() == b.dim);
    }
    // the cells of the new entry sit exactly on the run
    assert forall|i: int|
        0 <= i < len implies (#[trigger] npw.cells[i]).row as int == pos_row(sr, d, i)
        && npw.cells[i].col as int == pos_col(sc, d, i) && npw.cells[i].letter == word[i]
        && npw.cells[i].direction == d by {
        assert(b.letter_pos_ok(word, sr, sc, d, i));
        assert(pos_row(sr, d, i) < b.dim && pos_col(sc, d, i) < b.dim);
    }
    // every cell is coherent after the write
    assert forall|r: int, c: int|
        0 <= r < b1.dim && 0 <= c < b1.dim implies (#[trigger] b1.grid[r][c]).coherent() by {
        if on_path(len, sr, sc, d, r, c) {
            let i = path_index(sr, sc, d, r, c);
            assert(0 <= i < len);
            assert(word[i] != crate::cell_contents::EMPTY_CELL_VALUE);
        } else {
            assert(b.grid[r][c].coherent());
        }
    }
    // every registry entry still agrees with the grid
    assert forall|k: int| 0 <= k < b1.words.len() implies b1.word_matches_grid(
        #[trigger] b1.words[k],
    ) by {
        if k < kn {
            let w = b.words[k];
            assert(b1.words[k] == w);
            assert(b.word_matches_grid(w));
            assert(b.word_wf(w));
            assert forall|i2: int| 0 <= i2 < w.cells.len() implies {
                let cl = #[trigger] w.cells[i2];
                &&& b1.grid[cl.row as int][cl.col as int].letter == cl.letter
                &&& flag_of(b1.grid[cl.row as int][cl.col as int], w.direction)
            } by {
                let cl = w.cells[i2];
                let r = cl.row as int;
                let c = cl.col as int;
                assert(r < b.dim && c < b.dim);
                assert(b.grid[r][c].letter == cl.letter);
                assert(flag_of(b.grid[r][c], w.direction));
                if on_path(len, sr, sc, d, r, c) {
                    assert(word_covers(w, r, c));
                    if w.direction == d {
                        assert(run_overlaps_same_direction(b, len, sr, sc, d));
                    }
                    assert(w.direction == spec_opposite(d));
                    let i = path_index(sr, sc, d, r, c);
                    assert(b.letter_pos_ok(word, sr, sc, d, i));
                    assert(b.grid[r][c].coherent());
                    assert(!b.grid[r][c].is_empty);
                    assert(b.grid[r][c].letter == word[i]);
                    assert(b1.grid[r][c] == placed_cell(b.grid[r][c], word[i], d));
                } else {
                    assert(b1.grid[r][c] == b.grid[r][c]);
                }
            }
        } else {
            assert(b1.words[k] == npw);
            assert forall|i: int| 0 <= i < npw.cells.len() implies {
                let cl = #[trigger] npw.cells[i];
                &&& b1.grid[cl.row as int][cl.col as int].letter == cl.letter
                &&& flag_of(b1.grid[cl.row as int][cl.col as int], npw.direction)
            } by {
                let cl = npw.cells[i];
                let r = cl.row as int;
                let c = cl.col as int;
                assert(r == pos_row(sr, d, i) && c == pos_col(sc, d, i));
                assert(b.letter_pos_ok(word, sr, sc, d, i));
                assert(on_path(len, sr, sc, d, r, c));
                assert(path_index(sr, sc, d, r, c) == i);
                assert(b1.grid[r][c] == placed_cell(b.grid[r][c], word[i], d));
            }
        }
    }
    // no two same-direction words share a cell
    assert forall|k1: int, k2: int, r: int, c: int|
        0 <= k1 < b1.words.len() && 0 <= k2 < b1.words.len() && k1 != k2
            && b1.words[k1].direction == b1.words[k2].direction implies !(#[trigger] word_covers(
        b1.words[k1],
        r,
        c,
    ) && #[trigger] word_covers(b1.words[k2], r, c)) by {
        if word_covers(b1.words[k1], r, c) && word_covers(b1.words[k2], r, c) {
            if k1 < kn && k2 < kn {
                assert(b.same_direction_disjoint());
                assert(!(word_covers(b.words[k1], r, c) && word_covers(b.words[k2], r, c)));
            } else if k1 == kn {
                assert(b1.words[k2] == b.words[k2]);
                lemma_new_word_covers(b, word, sr, sc, d, r, c);
                assert(on_path(len, sr, sc, d, r, c));
                assert(b.words[k2].direction == d);
                assert(run_overlaps_same_direction(b, len, sr, sc, d));
            } else {
                assert(b1.words[k1] == b.words[k1]);
                lemma_new_word_covers(b, word, sr, sc, d, r, c);
                assert(on_path(len, sr, sc, d, r, c));
                assert(b.words[k1].direction == d);
                assert(run_overlaps_same_direction(b, len, sr, sc, d));
            }
        }
    }
    // every set flag is owed to some placed word
    assert forall|r: int, c: int|
        0 <= r < b1.dim && 0 <= c < b1.dim implies {
            &&& ((#[trigger] b1.grid[r][c]).is_used_horizontally ==> exists|k: int|
                0 <= k < b1.words.len() && (#[trigger] b1.words[k]).direction == Direction::H
                    && word_covers(b1.words[k], r, c))
            &&& (b1.grid[r][c].is_used_vertically ==> exists|k: int|
                0 <= k < b1.words.len() && (#[trigger] b1.words[k]).direction == Direction::V
                    && word_covers(b1.words[k], r, c))
        } by {
        lemma_new_word_covers(b, word, sr, sc, d, r, c);
        if b1.grid[r][c].is_used_horizontally {
            if on_path(len, sr, sc, d, r, c) && d == Direction::H {
                assert(b1.words[kn].direction == Direction::H && word_covers(b1.words[kn], r, c));
            } else {
                assert(b.grid[r][c].is_used_horizontally);
                let k = choose|k: int|
                    0 <= k < b.words.len() && (#[trigger] b.words[k]).direction == Direction::H
                        && word_covers(b.words[k], r, c);
                assert(b1.words[k] == b.words[k]);
                assert(b1.words[k].direction == Direction::H && word_covers(b1.words[k], r, c));
            }
        }
        if b1.grid[r][c].is_used_vertically {
            if on_path(len, sr, sc, d, r, c) && d == Direction::V {
                assert(b1.words[kn].direction == Direction::V && word_covers(b1.words[kn], r, c));
            } else {
                assert(b.grid[r][c].is_used_vertically);
                let k = choose|k: int|
                    0 <= k < b.words.len() && (#[trigger] b.words[k]).direction == Direction::V
                        && word_covers(b.words[k], r, c);
                assert(b1.words[k] == b.words[k]);
                assert(b1.words[k].direction == Direction::V && word_covers(b1.words[k], r, c));
            }
        }
    }
}

/// A cell of the word being placed never touches a cell of an
/// already-placed word of the same direction, except through a crossing:
/// legality forbids it everywhere else. In-line contact is stopped by the
/// pre-start and after-end checks; side-by-side contact is stopped by the
/// perpendicular-neighbor checks, unless the run cell is itself a crossing
/// already held by a perpendicular word, which is the exemption returned.
proof fn lemma_new_cell_adjacency_exempt(
    b: BoardV,
    word: Seq<char>,
    sr: int,
    sc: int,
    d: Direction,
    i: int,
    k2: int,
    i2: int,
)
    requires
        b.wf(),
        b.dim <= usize::MAX,
        b.consistent(),
        b.location_legal(word, sr, sc, d),
        !run_overlaps_same_direction(b, word.len(), sr, sc, d),
        forall|q: int| 0 <= q < word.len() ==> word[q] != crate::cell_contents::EMPTY_CELL_VALUE,
        0 <= i < word.len(),
        0 <= k2 < b.words.len(),
        b.words[k2].direction == d,
        0 <= i2 < b.words[k2].cells.len(),
        adjacent_positions(
            pos_row(sr, d, i),
            pos_col(sc, d, i),
            b.words[k2].cells[i2].row as int,
            b.words[k2].cells[i2].col as int,
        ),
    ensures
        exists|k3: int|
            0 <= k3 < b.words.len() && (#[trigger] b.words[k3]).direction == spec_opposite(d)
                && word_covers(b.words[k3], pos_row(sr, d, i), pos_col(sc, d, i)),
{
    let len = word.len();
    let p_r = pos_row(sr, d, i);
    let p_c = pos_col(sc, d, i);
    let w2 = b.words[k2];
    let cl = w2.cells[i2];
    let q_r = cl.row as int;
    let q_c = cl.col as int;
    assert(b.word_wf(w2));
    assert(q_r < b.dim && q_c < b.dim);
    assert(b.word_matches_grid(w2));
    assert(flag_of(b.grid[q_r][q_c], d));
    assert(b.grid[q_r][q_c].coherent());
    assert(b.cell_used(q_r, q_c));
    assert(word_covers(w2, q_r, q_c));
    assert(b.letter_pos_ok(word, sr, sc, d, i));
    // the touched cell cannot lie on the run itself: that would be a
    // same-direction overlap, which is excluded
    if on_path(len, sr, sc, d, q_r, q_c) {
        assert(run_overlaps_same_direction(b, len, sr, sc, d));
    }
    assert(!on_path(len, sr, sc, d, q_r, q_c));
    if d == Direction::H {
        if q_r == p_r {
            // in-line contact: the free cell just before the start or just
            // after the end rules it out
            if q_c == p_c - 1 {
                assert(i == 0);
                assert(!b.cell_used(pos_row(sr, d, -1), pos_col(sc, d, -1)));
            } else {
                assert(q_c == p_c + 1);
                assert(i == len - 1);
                assert(!b.cell_used(pos_row(sr, d, i + 1), pos_col(sc, d, i + 1)));
            }
            assert(false);
        } else {
            // side-by-side contact: the run cell was not empty, so it is a
            // crossing held by a perpendicular word
            assert(q_c == p_c && (q_r == p_r - 1 || q_r == p_r + 1));
            assert(p_r < b.dim && p_c < b.dim);
            assert(b.grid[p_r][p_c].coherent());
            if b.grid[p_r][p_c].is_empty {
                assert(b.grid[p_r][p_c].letter == crate::cell_contents::EMPTY_CELL_VALUE);
                assert(b.perp_neighbors_clear(sr, sc, d, i));
                assert(!b.cell_used(sr - 1, sc + i) && !b.cell_used(sr + 1, sc + i));
                assert(false);
            }
            if b.grid[p_r][p_c].is_used_horizontally {
                let k = choose|k: int|
                    0 <= k < b.words.len() && (#[trigger] b.words[k]).direction == Direction::H
                        && word_covers(b.words[k], p_r, p_c);
                assert(on_path(len, sr, sc, d, p_r, p_c));
                assert(run_overlaps_same_direction(b, len, sr, sc, d));
                assert(false);
            }
            assert(b.grid[p_r][p_c].is_used_vertically);
            let k3 = choose|k: int|
                0 <= k < b.words.len() && (#[trigger] b.words[k]).direction == Direction::V
                    && word_covers(b.words[k], p_r, p_c);
            assert(b.words[k3].direction == spec_opposite(d) && word_covers(
                b.words[k3],
                p_r,
                p_c,
            ));
        }
    } else {
        if q_c == p_c {
            if q_r == p_r - 1 {
                assert(i == 0);
                assert(!b.cell_used(pos_row(sr, d, -1), pos_col(sc, d, -1)));
            } else {
                assert(q_r == p_r + 1);
                assert(i == len - 1);
                assert(!b.cell_used(pos_row(sr, d, i + 1), pos_col(sc, d, i + 1)));
            }
            assert(false);
        } else {
            assert(q_r == p_r && (q_c == p_c - 1 || q_c == p_c + 1));
            assert(p_r < b.dim && p_c < b.dim);
            assert(b.grid[p_r][p_c].coherent());
            if b.grid[p_r][p_c].is_empty {
                assert(b.grid[p_r][p_c].letter == crate::cell_contents::EMPTY_CELL_VALUE);
                assert(b.perp_neighbors_clear(sr, sc, d, i));
                assert(!b.cell_used(sr + i, sc - 1) && !b.cell_used(sr + i, sc + 1));
                assert(false);
            }
            if b.grid[p_r][p_c].is_used_vertically {
                let k = choose|k: int|
                    0 <= k < b.words.len() && (#[trigger] b.words[k]).direction == Direction::V
                        && word_covers(b.words[k], p_r, p_c);
                assert(on_path(len, sr, sc, d, p_r, p_c));
                assert(run_overlaps_same_direction(b, len, sr, sc, d));
                assert(false);
            }
            assert(b.grid[p_r][p_c].is_used_horizontally);
            let k3 = choose|k: int|
                0 <= k < b.words.len() && (#[trigger] b.words[k]).direction == Direction::H
                    && word_covers(b.words[k], p_r, p_c);
            assert(b.words[k3].direction == spec_opposite(d) && word_covers(
                b.words[k3],
                p_r,
                p_c,
            ));
        }
    }
}

/// The adjacency law: on a board where no two same-direction words touch
/// without a crossing, placing a word at a legal location keeps it that
/// way — provided the new word shares no cell with a word of its own
/// direction. That proviso leaves out the one case the search does not
/// rule out: two same-direction words whose letters coincide along an
/// overlapping footprint.
pub proof fn lemma_place_preserves_no_parallel_adjacency(
    b: BoardV,
    word: Seq<char>,
    sr: int,
    sc: int,
    d: Direction,
)
    requires
        b.wf(),
        b.dim <= usize::MAX,
        b.consistent(),
        b.location_legal(word, sr, sc, d),
        !b.contains_word(word),
        !run_overlaps_same_direction(b, word.len(), sr, sc, d),
        forall|i: int| 0 <= i < word.len() ==> word[i] != crate::cell_contents::EMPTY_CELL_VALUE,
        no_parallel_adjacency(b),
    ensures
        no_parallel_adjacency(b.spec_place(word, sr, sc, d)),
{
    let len = word.len();
    lemma_legal_location_stays_legal(b, word, sr, sc, d);
    let b1 = b.spec_place(word, sr, sc, d);
    let npw = new_placed_word(word, sr, sc, d);
    let kn = b.words.len() as int;
    assert(b1.words == b.words.push(npw));
    assert forall|i: int|
        0 <= i < len implies (#[trigger] npw.cells[i]).row as int == pos_row(sr, d, i)
        && npw.cells[i].col as int == pos_col(sc, d, i) by {
        assert(b.letter_pos_ok(word, sr, sc, d, i));
        assert(pos_row(sr, d, i) < b.dim && pos_col(sc, d, i) < b.dim);
    }
    assert forall|k1: int, k2: int, i1: int, i2: int|
        #![trigger b1.words[k1].cells[i1], b1.words[k2].cells[i2]]
        0 <= k1 < b1.words.len() && 0 <= k2 < b1.words.len() && k1 != k2 && b1.words[k1].direction
            == b1.words[k2].direction && 0 <= i1 < b1.words[k1].cells.len() && 0 <= i2
            < b1.words[k2].cells.len() && adjacent_positions(
            b1.words[k1].cells[i1].row as int,
            b1.words[k1].cells[i1].col as int,
            b1.words[k2].cells[i2].row as int,
            b1.words[k2].cells[i2].col as int,
        ) implies crossing_exempts(
        b1,
        b1.words[k1].direction,
        b1.words[k1].cells[i1].row as int,
        b1.words[k1].cells[i1].col as int,
        b1.words[k2].cells[i2].row as int,
        b1.words[k2].cells[i2].col as int,
    ) by {
        if k1 < kn && k2 < kn {
            assert(b1.words[k1] == b.words[k1] && b1.words[k2] == b.words[k2]);
            assert(crossing_exempts(
                b,
                b.words[k1].direction,
                b.words[k1].cells[i1].row as int,
                b.words[k1].cells[i1].col as int,
                b.words[k2].cells[i2].row as int,
                b.words[k2].cells[i2].col as int,
            ));
            let k3 = choose|k3: int|
                0 <= k3 < b.words.len() && (#[trigger] b.words[k3]).direction == spec_opposite(
                    b.words[k1].direction,
                ) && (word_covers(b.words[k3], b.words[k1].cells[i1].row as int,
                b.words[k1].cells[i1].col as int) || word_covers(
                    b.words[k3],
                    b.words[k2].cells[i2].row as int,
                    b.words[k2].cells[i2].col as int,
                ));
            assert(b1.words[k3] == b.words[k3]);
        } else if k1 == kn {
            assert(b1.words[k1] == npw && b1.words[k2] == b.words[k2]);
            assert(npw.direction == d && b.words[k2].direction == d);
            lemma_new_cell_adjacency_exempt(b, word, sr, sc, d, i1, k2, i2);
            let k3 = choose|k3: int|
                0 <= k3 < b.words.len() && (#[trigger] b.words[k3]).direction == spec_opposite(d)
                    && word_covers(b.words[k3], pos_row(sr, d, i1), pos_col(sc, d, i1));
            assert(b1.words[k3] == b.words[k3]);
            assert(word_covers(b1.words[k3], b1.words[k1].cells[i1].row as int,
            b1.words[k1].cells[i1].col as int));
        } else {
            assert(k2 == kn);
            assert(b1.words[k2] == npw && b1.words[k1] == b.words[k1]);
            assert(npw.direction == d && b.words[k1].direction == d);
            lemma_new_cell_adjacency_exempt(b, word, sr, sc, d, i2, k1, i1);
            let k3 = choose|k3: int|
                0 <= k3 < b.words.len() && (#[trigger] b.words[k3]).direction == spec_opposite(d)
                    && word_covers(b.words[k3], pos_row(sr, d, i2), pos_col(sc, d, i2));
            assert(b1.words[k3] == b.words[k3]);
            assert(word_covers(b1.words[k3], b1.words[k2].cells[i2].row as int,
            b1.words[k2].cells[i2].col as int));
        }
    }
}

} // verus!
