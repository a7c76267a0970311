//! The generation orchestrator: picks a seed, shapes a candidate pool,
//! and walks orderings of the pool under an attempt budget, placing each
//! word at the first legal location the search returns, until enough words
//! sit on the board or the budget runs out.

use vstd::prelude::*;

use crate::board_laws::lemma_legal_location_stays_legal;
use crate::board_manager::BoardManager;
use crate::board_model::{new_placed_word, BoardV};
use crate::config::{Config, GeneratorConfig};
use crate::dictionary_manager::DictionaryManager;
use crate::direction::{get_random_direction, Direction};
use crate::generated_board::GeneratedBoard;
use crate::utils::{get_random_int_in_range, join_words, spec_join, words_views};

verus! {

/// Swapping two positions of a sequence keeps its multiset of elements.
proof fn lemma_swap_multiset<A>(s: Seq<A>, i: int, j: int)
    requires
        0 <= i < s.len(),
        0 <= j < s.len(),
        i != j,
    ensures
        s.update(i, s[j]).update(j, s[i]).to_multiset() == s.to_multiset(),
{
    broadcast use vstd::seq_lib::group_to_multiset_ensures;

    let t = s.update(i, s[j]).update(j, s[i]);
    let lo = if i < j {
        i
    } else {
        j
    };
    let hi = if i < j {
        j
    } else {
        i
    };
    let u = s.update(lo, s[hi]).update(hi, s[lo]);
    assert(t =~= u);
    let w = s.remove(hi).remove(lo);
    // peel the two swapped positions off both sequences: the leftovers agree
    assert(u.remove(hi).remove(lo) =~= w);
    assert(s.remove(hi).remove(lo) =~= w);
    // multiset of u: the leftovers plus the two swapped letters
    assert(u.remove(hi).to_multiset() == u.to_multiset().remove(u[hi]));
    assert(u.remove(hi).remove(lo).to_multiset() == u.remove(hi).to_multiset().remove(
        u.remove(hi)[lo],
    ));
    assert(u.remove(hi)[lo] == s[hi]);
    assert(u[hi] == s[lo]);
    assert(s.remove(hi).to_multiset() == s.to_multiset().remove(s[hi]));
    assert(s.remove(hi).remove(lo).to_multiset() == s.remove(hi).to_multiset().remove(s[lo]));
    // both multisets are the leftovers with the same two letters put back
    assert(u.to_multiset().contains(u[hi]));
    assert(u.remove(hi).to_multiset().contains(s[hi])) by {
        assert(u.remove(hi)[lo] == s[hi]);
    }
    assert(s.to_multiset().contains(s[hi]));
    assert(s.remove(hi).to_multiset().contains(s[lo])) by {
        assert(s.remove(hi)[lo] == s[lo]);
    }
    assert(u.to_multiset() =~= w.to_multiset().insert(s[hi]).insert(s[lo]));
    assert(s.to_multiset() =~= w.to_multiset().insert(s[lo]).insert(s[hi]));
    assert(w.to_multiset().insert(s[hi]).insert(s[lo]) =~= w.to_multiset().insert(s[lo]).insert(
        s[hi],
    ));
}

/// Exchanges the items at positions `i` and `j`.
fn swap_positions(items: &mut Vec<usize>, i: usize, j: usize)
    requires
        i < old(items)@.len(),
        j < old(items)@.len(),
    ensures
        final(items)@ == old(items)@.update(i as int, old(items)@[j as int]).update(
            j as int,
            old(items)@[i as int],
        ),
        final(items)@.len() == old(items)@.len(),
        final(items)@.to_multiset() == old(items)@.to_multiset(),
{
    let vi = items[i];
    let vj = items[j];
    items.set(i, vj);
    items.set(j, vi);
    proof {
        if i == j {
            assert(final(items)@ =~= old(items)@);
        } else {
            lemma_swap_multiset(old(items)@, i as int, j as int);
        }
    }
}

/// Advances `items` to the next ordering in lexicographic order, keeping
/// exactly the same elements; returns false, leaving the ordering as it
/// is, when the current ordering is the last one (non-increasing). The
/// orderings of a list thus come one at a time, never materialized up
/// front: the space of all orderings is combinatorially explosive.
pub fn next_permutation(items: &mut Vec<usize>) -> (r: bool)
    ensures
        final(items)@.len() == old(items)@.len(),
        final(items)@.to_multiset() == old(items)@.to_multiset(),
        forall|x: usize| final(items)@.contains(x) == old(items)@.contains(x),
        !r ==> final(items)@ == old(items)@,
{
    proof {
        broadcast use vstd::seq_lib::group_to_multiset_ensures;

    }
    let n = items.len();
    if n < 2 {
        return false;
    }
    // find the rightmost position whose item is smaller than its successor
    let mut i: usize = n - 1;
    while i >= 1 && items[i - 1] >= items[i]
        invariant
            n == items@.len(),
            n >= 2,
            i <= n - 1,
        decreases i,
    {
        i = i - 1;
    }
    if i == 0 {
        // the ordering is non-increasing: it was the last one
        return false;
    }
    let pivot = i - 1;
    // find the rightmost item greater than the pivot's
    let mut j: usize = n - 1;
    while items[j] <= items[pivot]
        invariant
            n == items@.len(),
            pivot + 1 < n,
            items@[pivot as int] < items@[pivot + 1],
            pivot < j <= n - 1,
        decreases j,
    {
        proof {
            if j == pivot + 1 {
                assert(false);
            }
        }
        j = j - 1;
    }
    swap_positions(items, pivot, j);
    // reverse the tail: the smallest ordering of what follows the pivot
    let mut lo = pivot + 1;
    let mut hi = n - 1;
    while lo < hi
        invariant
            n == items@.len(),
            lo <= n,
            hi <= n - 1,
            items@.to_multiset() == old(items)@.to_multiset(),
        decreases hi + 1 - lo,
    {
        swap_positions(items, lo, hi);
        lo = lo + 1;
        hi = hi - 1;
    }
    proof {
        assert forall|x: usize| final(items)@.contains(x) == old(items)@.contains(x) by {
            assert(final(items)@.contains(x) == (final(items)@.to_multiset().count(x) > 0));
            assert(old(items)@.contains(x) == (old(items)@.to_multiset().count(x) > 0));
        }
    }
    true
}

/// The word count a successful board is at least held to, before the
/// random jitter: one more than the candidate pool, capped by three under
/// the configured maximum.
pub open spec fn target_floor(candidates: int, max_consider: int, max_place: int) -> int {
    let pool = if candidates <= max_consider {
        candidates
    } else {
        max_consider
    };
    let desired = pool + 1;
    let capped_low = max_place - 3;
    if desired <= capped_low {
        desired
    } else {
        capped_low
    }
}

/// What a produced `GeneratedBoard` says about the board it snapshots: the
/// board is well-formed and of the configured dimensions, the seed word is
/// on it, the grid string is its serialization, the word-location records
/// mirror its registry one for one, and the word count reaches the floor
/// that the pool size and the configured cap demand.
pub open spec fn board_snapshot_ok(
    bv: BoardV,
    gb: GeneratedBoard,
    seed: Seq<char>,
    n_candidates: int,
    gcfg: GeneratorConfig,
) -> bool {
    &&& bv.wf()
    &&& bv.dim == gcfg.board_dimensions as nat
    &&& bv.contains_word(seed)
    &&& gb.grid@ == crate::board_model::spec_grid_str(bv)
    &&& gb.used@.len() == bv.words.len()
    &&& forall|k: int|
        0 <= k < gb.used@.len() ==> {
            let entry = #[trigger] gb.used@[k];
            &&& entry.0@ == bv.words[k].word
            &&& entry.1.row == bv.words[k].cells[0].row
            &&& entry.1.col == bv.words[k].cells[0].col
            &&& entry.1.direction == bv.words[k].direction
        }
    &&& bv.words.len() >= target_floor(
        n_candidates,
        gcfg.max_words_to_consider as int,
        gcfg.max_words_to_place as int,
    )
}

/// The starting point for generating a new board: draws a seed word and
/// its candidates, shuffles and caps the pool, places the seed at the
/// grid center in a random direction, and walks orderings of the pool
/// under the attempt budget, committing each word to the first legal
/// location found. Emits the snapshot on success; `None` when no seed is
/// available or the budget runs out first.
pub fn try_to_generate_a_board(dictionary: &DictionaryManager, all_config: &Config) -> (r: Option<
    GeneratedBoard,
>)
    requires
        dictionary.wf(),
        all_config.generator.max_words_to_place >= 3,
        all_config.generator.max_words_to_consider < usize::MAX,
        forall|i: int|
            0 <= i < dictionary.keys_view().len() ==> 1 <= (
            #[trigger] dictionary.keys_view()[i]).len() && dictionary.keys_view()[i].len() / 2
                <= all_config.generator.board_dimensions / 2,
        forall|i: int, j: int|
            0 <= i < dictionary.vals_view().len() && 0 <= j < dictionary.vals_view()[i].len()
                ==> (#[trigger] dictionary.vals_view()[i][j]).len()
                + all_config.generator.board_dimensions + 1 <= usize::MAX,
    ensures
        match r {
            Some(gb) => exists|i: int|
                0 <= i < dictionary.keys_view().len() && gb.letters@ == (
                #[trigger] dictionary.keys_view()[i]) && gb.all@ == spec_join(
                    dictionary.vals_view()[i],
                    '_',
                ) && exists|bv: BoardV|
                    board_snapshot_ok(
                        bv,
                        gb,
                        dictionary.keys_view()[i],
                        dictionary.vals_view()[i].len() as int,
                        all_config.generator,
                    ),
            None => true,
        },
{
    // =====================================================
    //  DETERMINE FIRST WORD, LETTERS-SET, AND POSSIBLE WORDS
    // =====================================================
    let starting = match dictionary.get_random_starting_word() {
        None => {
            return None;
        },
        Some(kv) => kv,
    };
    let random_seven_letter_word: String = starting.0;
    let all_possible_words: Vec<String> = starting.1;
    let ghost seed = random_seven_letter_word@;
    let ghost seed_idx = choose|i: int|
        0 <= i < dictionary.keys_view().len() && random_seven_letter_word@
            == dictionary.keys_view()[i] && words_views(all_possible_words@)
            == #[trigger] dictionary.vals_view()[i];
    proof {
        assert(0 <= seed_idx < dictionary.keys_view().len() && seed == dictionary.keys_view()[
            seed_idx
        ] && words_views(all_possible_words@) == dictionary.vals_view()[seed_idx]);
    }
    // =====================================================
    //  RANDOMIZE ALL POSSIBLE WORDS THAT CAN BE PLACED
    // =====================================================
    // Too many possible words makes the algorithm slow, so the pool is
    // capped after shuffling.
    let shuffled = crate::utils::shuffle(clone_words(&all_possible_words));
    let cap = all_config.generator.max_words_to_consider;
    let mut initial_words_shuffled: Vec<String> = Vec::new();
    let mut t: usize = 0;
    while t < shuffled.len() && t < cap
        invariant
            t <= shuffled@.len(),
            shuffled@.to_multiset() == all_possible_words@.to_multiset(),
            initial_words_shuffled@.len() == t,
            t <= cap,
            forall|p: int|
                0 <= p < t ==> all_possible_words@.contains(#[trigger] initial_words_shuffled@[p]),
        decreases shuffled@.len() - t,
    {
        let w = shuffled[t].clone();
        proof {
            broadcast use vstd::seq_lib::group_to_multiset_ensures;

            assert(shuffled@.contains(shuffled@[t as int]));
            assert(shuffled@.to_multiset().count(shuffled@[t as int]) > 0);
            assert(all_possible_words@.to_multiset().count(shuffled@[t as int]) > 0);
            assert(all_possible_words@.contains(shuffled@[t as int]));
        }
        initial_words_shuffled.push(w);
        t = t + 1;
    }
    let pool_len = initial_words_shuffled.len();
    // =====================================================
    //  PLACE THE FIRST WORD ON THE BOARD
    // =====================================================
    let board_dimensions = all_config.generator.board_dimensions;
    let mut bm = BoardManager::new();
    bm.new_list(board_dimensions);
    let initial_direction = get_random_direction();
    let center_base = board_dimensions / 2;
    let seed_len = random_seven_letter_word.unicode_len();
    let center_row: usize;
    let center_col: usize;
    match initial_direction {
        Direction::H => {
            center_row = center_base;
            center_col = center_base - seed_len / 2;
        },
        Direction::V => {
            center_row = center_base - seed_len / 2;
            center_col = center_base;
        },
    }
    // =======================================================
    //  DETERMINE HOW MANY WORDS NEED TO BE PLACED ON THE BOARD
    // =======================================================
    // One more than the pool would demand placing everything; the random
    // jitter below the configured cap keeps boards from always hitting the
    // same maximum.
    let desired_words_count = pool_len + 1;
    let capped_words_count = get_random_int_in_range(
        all_config.generator.max_words_to_place - 3,
        all_config.generator.max_words_to_place,
    );
    let minimum_words_count = if desired_words_count < capped_words_count {
        desired_words_count
    } else {
        capped_words_count
    };
    let ghost floor = target_floor(
        all_possible_words@.len() as int,
        all_config.generator.max_words_to_consider as int,
        all_config.generator.max_words_to_place as int,
    );
    proof {
        assert(words_views(all_possible_words@).len() == all_possible_words@.len());
        assert(minimum_words_count as int >= floor);
    }
    // =====================================================
    //  BEGIN TRYING WORD ORDERINGS UNTIL THE MINIMUM NUMBER
    //  OF WORDS HAS BEEN PLACED.
    // =====================================================
    // Giving up early and moving to the next ordering is more effective
    // than committing to an unlucky one; the attempt budget bounds the
    // whole search.
    let budget = all_config.generator.max_attempts_before_giving_up;
    let mut attempts: usize = 0;
    let mut succeeded = false;
    let mut order: Vec<usize> = Vec::new();
    let mut oi: usize = 0;
    while oi < pool_len
        invariant
            oi <= pool_len,
            order@.len() == oi,
            forall|p: int| 0 <= p < oi ==> (#[trigger] order@[p]) < pool_len,
        decreases pool_len - oi,
    {
        order.push(oi);
        oi = oi + 1;
    }
    while attempts < budget
        invariant_except_break
            dictionary.wf(),
            all_config.generator.max_words_to_place >= 3,
            forall|i: int, j: int|
                0 <= i < dictionary.vals_view().len() && 0 <= j < dictionary.vals_view()[i].len()
                    ==> (#[trigger] dictionary.vals_view()[i][j]).len()
                    + all_config.generator.board_dimensions + 1 <= usize::MAX,
            0 <= seed_idx < dictionary.keys_view().len(),
            dictionary.keys_view().len() == dictionary.vals_view().len(),
            seed == dictionary.keys_view()[seed_idx],
            seed == random_seven_letter_word@,
            seed.len() >= 1,
            seed_len == seed.len(),
            words_views(all_possible_words@) == dictionary.vals_view()[seed_idx],
            board_dimensions == all_config.generator.board_dimensions,
            center_base == board_dimensions / 2,
            initial_direction == Direction::H ==> center_row == center_base && center_col
                == center_base - seed_len / 2,
            initial_direction == Direction::V ==> center_col == center_base && center_row
                == center_base - seed_len / 2,
            bm@.wf(),
            bm@.dim == board_dimensions as nat,
            pool_len == initial_words_shuffled@.len(),
            forall|p: int|
                0 <= p < pool_len ==> all_possible_words@.contains(
                    #[trigger] initial_words_shuffled@[p],
                ),
            order@.len() == pool_len,
            forall|p: int| 0 <= p < pool_len ==> (#[trigger] order@[p]) < pool_len,
            attempts <= budget,
            bm@.words.len() > 0 ==> bm@.contains_word(seed),
            !succeeded,
        ensures
            bm@.wf(),
            bm@.dim == board_dimensions as nat,
            succeeded ==> bm@.words.len() >= minimum_words_count && bm@.contains_word(seed),
        decreases budget - attempts,
    {
        attempts = attempts + 1;
        // Every ordering starts from the same state: an empty board with
        // only the seed word placed at the center.
        bm.clear_board();
        proof {
            let b0 = bm@;
            if !b0.contains_word(seed) && b0.fits_inline(
                seed.len(),
                center_row as int,
                center_col as int,
                initial_direction,
            ) {
                assert(b0.dim >= seed.len() >= 1);
                assert(board_dimensions >= 1);
                assert(center_base < board_dimensions);
                if initial_direction == Direction::H {
                    assert(center_row == center_base);
                } else {
                    assert(center_col == center_base);
                }
                assert(b0.cross_ok(center_row as int, center_col as int, initial_direction));
            }
        }
        let ghost before_seed = bm@;
        bm.place_word(
            random_seven_letter_word.as_str(),
            center_row,
            center_col,
            initial_direction,
        );
        proof {
            let b1 = bm@;
            if b1.words.len() > 0 {
                assert(b1.words[b1.words.len() - 1] == new_placed_word(
                    seed,
                    center_row as int,
                    center_col as int,
                    initial_direction,
                ));
                assert(b1.contains_word(seed));
            }
        }
        // Walk this ordering: each word is committed to the first legal
        // location the search returns, with no backtracking.
        let mut t: usize = 0;
        while t < pool_len && !succeeded
            invariant
                dictionary.wf(),
                forall|i: int, j: int|
                    0 <= i < dictionary.vals_view().len() && 0 <= j < dictionary.vals_view(
                    )[i].len() ==> (#[trigger] dictionary.vals_view()[i][j]).len()
                        + all_config.generator.board_dimensions + 1 <= usize::MAX,
                0 <= seed_idx < dictionary.keys_view().len(),
                dictionary.keys_view().len() == dictionary.vals_view().len(),
                seed == dictionary.keys_view()[seed_idx],
                words_views(all_possible_words@) == dictionary.vals_view()[seed_idx],
                board_dimensions == all_config.generator.board_dimensions,
                bm@.wf(),
                bm@.dim == board_dimensions as nat,
                pool_len == initial_words_shuffled@.len(),
                forall|p: int|
                    0 <= p < pool_len ==> all_possible_words@.contains(
                        #[trigger] initial_words_shuffled@[p],
                    ),
                order@.len() == pool_len,
                forall|p: int| 0 <= p < pool_len ==> (#[trigger] order@[p]) < pool_len,
                t <= pool_len,
                bm@.words.len() > 0 ==> bm@.contains_word(seed),
                succeeded ==> bm@.words.len() >= minimum_words_count && bm@.contains_word(seed),
            decreases pool_len - t,
        {
            let word = &initial_words_shuffled[order[t]];
            proof {
                let p = order@[t as int] as int;
                assert(all_possible_words@.contains(initial_words_shuffled@[p]));
                let q = choose|q: int|
                    0 <= q < all_possible_words@.len() && all_possible_words@[q]
                        == initial_words_shuffled@[p];
                assert(word@ == words_views(all_possible_words@)[q]);
                assert(word@ == dictionary.vals_view()[seed_idx][q]);
                assert(word@.len() + board_dimensions + 1 <= usize::MAX);
            }
            // Check whether there is any valid spot on the board for this
            // word; for performance the search stops after a handful.
            let locations_for_this_word = bm.find_some_locations_for_word(word.as_str(), 20);
            if locations_for_this_word.len() > 0 {
                // Take the first location found: trying the others would
                // require back-stepping to undo a location that fails later.
                let one_location = &locations_for_this_word[0];
                let ghost before = bm@;
                proof {
                    let loc = locations_for_this_word@[0];
                    assert(before.location_legal(
                        word@,
                        loc.start_row as int,
                        loc.start_col as int,
                        loc.direction,
                    ));
                    assert(before.dim <= usize::MAX);
                    lemma_legal_location_stays_legal(
                        before,
                        word@,
                        loc.start_row as int,
                        loc.start_col as int,
                        loc.direction,
                    );
                    assert(before.contains_word(seed));
                }
                bm.place_word(
                    word.as_str(),
                    one_location.start_row,
                    one_location.start_col,
                    one_location.direction,
                );
                proof {
                    let b2 = bm@;
                    let k = choose|k: int|
                        0 <= k < before.words.len() && (#[trigger] before.words[k]).word == seed;
                    assert(b2.words[k] == before.words[k]);
                    assert(b2.contains_word(seed));
                }
                // Enough words placed with this ordering: the board is done.
                if bm.get_number_of_used_words() >= minimum_words_count {
                    succeeded = true;
                }
            }
            t = t + 1;
        }
        if succeeded {
            break ;
        }
        // This ordering did not work out: move to the next one, until the
        // orderings are exhausted.
        if !next_permutation(&mut order) {
            break ;
        }
        proof {
            assert forall|p: int| 0 <= p < pool_len implies (#[trigger] order@[p]) < pool_len by {
                assert(order@.contains(order@[p]));
            }
        }
    }
    // ==========================
    //  EMIT THE RESULT
    // ==========================
    if succeeded {
        let grid = bm.get_grid_str();
        let used = bm.get_placed_words_for_serialization();
        let all = join_words(&all_possible_words, '_');
        let result = GeneratedBoard { grid, used, all, letters: random_seven_letter_word };
        proof {
            assert(result.letters@ == dictionary.keys_view()[seed_idx]);
            assert(result.all@ == spec_join(dictionary.vals_view()[seed_idx], '_'));
            assert(board_snapshot_ok(
                bm@,
                result,
                dictionary.keys_view()[seed_idx],
                dictionary.vals_view()[seed_idx].len() as int,
                all_config.generator,
            ));
        }
        Some(result)
    } else {
        None
    }
}

/// A copy of a word list, value for value.
fn clone_words(words: &Vec<String>) -> (r: Vec<String>)
    ensures
        r@ == words@,
{
    let mut out: Vec<String> = Vec::new();
    let mut i: usize = 0;
    while i < words.len()
        invariant
            i <= words@.len(),
            out@ == words@.take(i as int),
        decreases words@.len() - i,
    {
        out.push(words[i].clone());
        proof {
            assert(out@ =~= words@.take(i + 1));
        }
        i = i + 1;
    }
    proof {
        assert(out@ =~= words@);
    }
    out
}

} // verus!
