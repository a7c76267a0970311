//! The dictionary: words grouped for lookup, each pre-sorted by character so
//! that "which words can be built from these letters" reduces to a
//! subsequence test between sorted character sequences, and the precomputed
//! seed-word table the generator draws from.

use vstd::prelude::*;

use crate::utils::{get_random_int_in_range, words_views};

verus! {

/// Ascending order of a character sequence.
pub open spec fn chars_sorted(s: Seq<char>) -> bool {
    forall|i: int, j: int| 0 <= i < j < s.len() ==> s[i] <= s[j]
}

/// Whether `a` can be read out of `b` in order, skipping letters of `b` at
/// will. For character sequences sorted the same way, this is exactly
/// "every letter of `a` is available among the letters of `b`", counted
/// with multiplicity.
pub open spec fn is_subseq_of(a: Seq<char>, b: Seq<char>) -> bool
    decreases b.len(),
{
    if a.len() == 0 {
        true
    } else if b.len() == 0 {
        false
    } else {
        (a[0] == b[0] && is_subseq_of(a.drop_first(), b.drop_first())) || is_subseq_of(
            a,
            b.drop_first(),
        )
    }
}

/// Two ascending sequences holding the same letters (with multiplicity)
/// are the same sequence: the sorted form of a letters-set is unique.
/// The existential contracts below therefore pin their results exactly.
pub proof fn lemma_sorted_form_unique(a: Seq<char>, b: Seq<char>)
    requires
        chars_sorted(a),
        chars_sorted(b),
        a.to_multiset() == b.to_multiset(),
    ensures
        a == b,
    decreases a.len(),
{
    broadcast use vstd::seq_lib::group_to_multiset_ensures;

    if a.len() == 0 {
        assert(a.to_multiset().len() == 0);
        assert(b.to_multiset().len() == b.len());
        assert(a =~= b);
    } else {
        assert(a.to_multiset().len() == a.len());
        assert(b.to_multiset().len() == b.len());
        assert(b.len() == a.len());
        // each first letter occurs in the other sequence, so each is at
        // most the other: the heads agree
        assert(a.contains(a[0]) && b.contains(b[0]));
        assert(b.to_multiset().count(a[0]) > 0);
        assert(b.contains(a[0]));
        let jb = choose|j: int| 0 <= j < b.len() && b[j] == a[0];
        assert(b[0] <= a[0]);
        assert(a.to_multiset().count(b[0]) > 0);
        assert(a.contains(b[0]));
        let ja = choose|j: int| 0 <= j < a.len() && a[j] == b[0];
        assert(a[0] <= b[0]);
        assert(a[0] == b[0]);
        // drop the shared head and recurse
        assert(a.remove(0) =~= a.drop_first());
        assert(b.remove(0) =~= b.drop_first());
        assert(a.drop_first().to_multiset() == a.to_multiset().remove(a[0]));
        assert(b.drop_first().to_multiset() == b.to_multiset().remove(b[0]));
        assert(chars_sorted(a.drop_first()) && chars_sorted(b.drop_first()));
        lemma_sorted_form_unique(a.drop_first(), b.drop_first());
        assert(a.drop_first() == b.drop_first());
        assert forall|i: int| 0 <= i < a.len() implies a[i] == b[i] by {
            if i >= 1 {
                assert(a.drop_first()[i - 1] == b.drop_first()[i - 1]);
            }
        }
        assert(a =~= b);
    }
}

/// Whatever reads out of a sequence in order uses no letter more often
/// than the sequence offers it: a subsequence is a sub-multiset.
proof fn lemma_subseq_submultiset(a: Seq<char>, b: Seq<char>)
    requires
        is_subseq_of(a, b),
    ensures
        a.to_multiset().subset_of(b.to_multiset()),
    decreases b.len(),
{
    broadcast use vstd::seq_lib::group_to_multiset_ensures;

    if a.len() == 0 {
        assert(a.to_multiset().len() == 0);
        assert forall|v: char| a.to_multiset().count(v) <= b.to_multiset().count(v) by {
            if a.to_multiset().count(v) > 0 {
                assert(a.contains(v));
            }
        }
    } else {
        assert(a.remove(0) =~= a.drop_first());
        assert(b.remove(0) =~= b.drop_first());
        assert(a.drop_first().to_multiset() == a.to_multiset().remove(a[0]));
        assert(b.drop_first().to_multiset() == b.to_multiset().remove(b[0]));
        if a[0] == b[0] && is_subseq_of(a.drop_first(), b.drop_first()) {
            lemma_subseq_submultiset(a.drop_first(), b.drop_first());
            assert(a.contains(a[0]) && b.contains(b[0]));
            assert forall|v: char| a.to_multiset().count(v) <= b.to_multiset().count(v) by {
                assert(a.drop_first().to_multiset().count(v) <= b.drop_first().to_multiset().count(
                    v,
                ));
            }
        } else {
            assert(is_subseq_of(a, b.drop_first()));
            lemma_subseq_submultiset(a, b.drop_first());
            assert forall|v: char| a.to_multiset().count(v) <= b.to_multiset().count(v) by {
                assert(a.to_multiset().count(v) <= b.drop_first().to_multiset().count(v));
            }
        }
    }
}

/// On sequences sorted the same way, the greedy reading succeeds whenever
/// the letters suffice: a sub-multiset of sorted letters is a subsequence.
proof fn lemma_submultiset_subseq_sorted(a: Seq<char>, b: Seq<char>)
    requires
        chars_sorted(a),
        chars_sorted(b),
        a.to_multiset().subset_of(b.to_multiset()),
    ensures
        is_subseq_of(a, b),
    decreases b.len(),
{
    broadcast use vstd::seq_lib::group_to_multiset_ensures;

    if a.len() == 0 {
    } else {
        assert(a.contains(a[0]));
        assert(a.to_multiset().count(a[0]) > 0);
        assert(b.to_multiset().count(a[0]) > 0);
        assert(b.contains(a[0]));
        let jb = choose|j: int| 0 <= j < b.len() && b[j] == a[0];
        assert(b[0] <= a[0]);
        assert(a.remove(0) =~= a.drop_first());
        assert(b.remove(0) =~= b.drop_first());
        assert(a.drop_first().to_multiset() == a.to_multiset().remove(a[0]));
        assert(b.drop_first().to_multiset() == b.to_multiset().remove(b[0]));
        assert(chars_sorted(a.drop_first()) && chars_sorted(b.drop_first()));
        if a[0] == b[0] {
            assert forall|v: char|
                a.drop_first().to_multiset().count(v) <= b.drop_first().to_multiset().count(
                    v,
                ) by {
                assert(a.to_multiset().count(v) <= b.to_multiset().count(v));
            }
            lemma_submultiset_subseq_sorted(a.drop_first(), b.drop_first());
        } else {
            // the first letter of `b` is strictly smaller than anything in
            // `a`, so dropping it loses nothing `a` needs
            assert(b[0] < a[0]);
            assert(a.to_multiset().count(b[0]) == 0) by {
                if a.to_multiset().count(b[0]) > 0 {
                    assert(a.contains(b[0]));
                    let ja = choose|j: int| 0 <= j < a.len() && a[j] == b[0];
                    assert(a[0] <= a[ja]);
                }
            }
            assert forall|v: char|
                a.to_multiset().count(v) <= b.drop_first().to_multiset().count(v) by {
                assert(a.to_multiset().count(v) <= b.to_multiset().count(v));
            }
            lemma_submultiset_subseq_sorted(a, b.drop_first());
        }
    }
}

/// On sequences sorted the same way, the subsequence test means exactly
/// "every letter of `a` is available among the letters of `b`, counted
/// with multiplicity": a word is constructible from some or all of a
/// letters-set if and only if its sorted characters read out of the sorted
/// letters-set in order.
pub proof fn lemma_subseq_is_letter_availability(a: Seq<char>, b: Seq<char>)
    requires
        chars_sorted(a),
        chars_sorted(b),
    ensures
        is_subseq_of(a, b) == a.to_multiset().subset_of(b.to_multiset()),
{
    if is_subseq_of(a, b) {
        lemma_subseq_submultiset(a, b);
    }
    if a.to_multiset().subset_of(b.to_multiset()) {
        lemma_submultiset_subseq_sorted(a, b);
    }
}

/// A subsequence stays one when its first letter is dropped.
pub proof fn lemma_subseq_drop_first(a: Seq<char>, b: Seq<char>)
    requires
        a.len() >= 1,
        is_subseq_of(a, b),
    ensures
        is_subseq_of(a.drop_first(), b),
    decreases b.len(),
{
    if b.len() == 0 {
    } else if a[0] == b[0] && is_subseq_of(a.drop_first(), b.drop_first()) {
        if a.drop_first().len() == 0 {
        } else {
            assert(is_subseq_of(a.drop_first(), b));
        }
    } else {
        lemma_subseq_drop_first(a, b.drop_first());
    }
}

/// When the first letters agree, matching them greedily loses nothing: the
/// subsequence test on the full sequences and on both tails agree.
pub proof fn lemma_subseq_greedy(a: Seq<char>, b: Seq<char>)
    requires
        a.len() >= 1,
        b.len() >= 1,
        a[0] == b[0],
    ensures
        is_subseq_of(a, b) == is_subseq_of(a.drop_first(), b.drop_first()),
{
    if is_subseq_of(a, b) {
        if !(a[0] == b[0] && is_subseq_of(a.drop_first(), b.drop_first())) {
            assert(is_subseq_of(a, b.drop_first()));
            lemma_subseq_drop_first(a, b.drop_first());
        }
    }
}

/// The words among the first `n` dictionary entries whose sorted characters
/// can be read out of `ls`, in dictionary order.
pub open spec fn buildable_words(
    words: Seq<Seq<char>>,
    sorted: Seq<Seq<char>>,
    ls: Seq<char>,
    n: int,
) -> Seq<Seq<char>>
    decreases n,
{
    if n <= 0 {
        Seq::empty()
    } else if is_subseq_of(sorted[n - 1], ls) {
        buildable_words(words, sorted, ls, n - 1).push(words[n - 1])
    } else {
        buildable_words(words, sorted, ls, n - 1)
    }
}

/// The words among the first `n` dictionary entries that have exactly
/// `len` characters, in dictionary order.
pub open spec fn words_of_length(words: Seq<Seq<char>>, len: nat, n: int) -> Seq<Seq<char>>
    decreases n,
{
    if n <= 0 {
        Seq::empty()
    } else if words[n - 1].len() == len {
        words_of_length(words, len, n - 1).push(words[n - 1])
    } else {
        words_of_length(words, len, n - 1)
    }
}

/// The characters of a word, in ascending order.
///
/// Relies on `itertools::Itertools::sorted` (itertools 0.15): a stable
/// ascending sort of the iterator's items, here the word's characters.
#[verifier::external_body]
fn sorted_chars(s: &str) -> (r: Vec<char>)
    ensures
        chars_sorted(r@),
        r@.to_multiset() == s@.to_multiset(),
{
    itertools::Itertools::sorted(s.chars()).collect()
}

/// Decides whether `sorted_word` can be read out of `letters` in order:
/// the two-pointer walk over both sorted sequences.
fn can_build(sorted_word: &Vec<char>, letters: &Vec<char>) -> (r: bool)
    requires
        letters@.len() >= 1,
    ensures
        r == is_subseq_of(sorted_word@, letters@),
{
    let n = letters.len();
    let mut dp: usize = 0;
    let mut fp: usize = 0;
    proof {
        assert(sorted_word@.skip(0) =~= sorted_word@);
        assert(letters@.skip(0) =~= letters@);
    }
    while dp < sorted_word.len()
        invariant
            n == letters@.len(),
            dp <= sorted_word@.len(),
            fp <= n,
            dp < sorted_word@.len() ==> fp < n,
            is_subseq_of(sorted_word@, letters@) == is_subseq_of(sorted_word@.skip(dp as int), letters@.skip(fp as int)),
        decreases n - fp,
    {
        let dictionary_letter = sorted_word[dp];
        let partial_letter = letters[fp];
        proof {
            assert(sorted_word@.skip(dp as int)[0] == sorted_word@[dp as int]);
            assert(letters@.skip(fp as int)[0] == letters@[fp as int]);
            assert(sorted_word@.skip(dp as int).drop_first() =~= sorted_word@.skip(dp + 1));
            assert(letters@.skip(fp as int).drop_first() =~= letters@.skip(fp + 1));
        }
        if dictionary_letter == partial_letter {
            proof {
                lemma_subseq_greedy(sorted_word@.skip(dp as int), letters@.skip(fp as int));
            }
            dp = dp + 1;
        } else {
            proof {
                assert(is_subseq_of(sorted_word@.skip(dp as int), letters@.skip(fp as int)) == is_subseq_of(
                    sorted_word@.skip(dp as int),
                    letters@.skip(fp + 1),
                ));
            }
        }
        fp = fp + 1;
        if fp >= n && dp < sorted_word.len() {
            proof {
                assert(letters@.skip(fp as int).len() == 0);
                assert(sorted_word@.skip(dp as int).len() > 0);
                assert(!is_subseq_of(sorted_word@.skip(dp as int), letters@.skip(fp as int)));
            }
            return false;
        }
    }
    proof {
        assert(sorted_word@.skip(sorted_word@.len() as int).len() == 0);
    }
    true
}

/// A utility class for dictionary work: load a word list into memory,
/// pre-sort every word's characters for fast partial-word searches, and
/// serve lookups such as "a random word of seven characters" or "every
/// word constructible from these letters".
pub struct DictionaryManager {
    /// Every word of the loaded dictionary, in file order.
    all_words: Vec<String>,
    /// For each word of `all_words`, its characters in ascending order.
    sorted_words: Vec<Vec<char>>,
    /// The seed words of the precomputed table.
    subwords_keys: Vec<String>,
    /// For each seed word, every word constructible from its letters.
    subwords_vals: Vec<Vec<String>>,
}

impl DictionaryManager {
    /// The loaded words, as character sequences, in order.
    pub closed spec fn words_view(&self) -> Seq<Seq<char>> {
        Seq::new(self.all_words@.len() as nat, |i: int| self.all_words@[i]@)
    }

    /// The pre-sorted characters of each loaded word.
    pub closed spec fn sorted_view(&self) -> Seq<Seq<char>> {
        Seq::new(self.sorted_words@.len() as nat, |i: int| self.sorted_words@[i]@)
    }

    /// The seed words of the precomputed table.
    pub closed spec fn keys_view(&self) -> Seq<Seq<char>> {
        Seq::new(self.subwords_keys@.len() as nat, |i: int| self.subwords_keys@[i]@)
    }

    /// For each seed word, its candidate list, as character sequences.
    pub closed spec fn vals_view(&self) -> Seq<Seq<Seq<char>>> {
        Seq::new(self.subwords_vals@.len() as nat, |i: int| words_views(self.subwords_vals@[i]@))
    }

    /// The dictionary's invariant: one sorted-character entry per word,
    /// each holding exactly the word's characters in ascending order, and
    /// one candidate list per seed word.
    pub closed spec fn wf(&self) -> bool {
        &&& self.sorted_words@.len() == self.all_words@.len()
        &&& forall|i: int|
            0 <= i < self.all_words@.len() ==> chars_sorted(#[trigger] self.sorted_view()[i])
                && self.sorted_view()[i].to_multiset() == self.words_view()[i].to_multiset()
        &&& self.subwords_keys@.len() == self.subwords_vals@.len()
    }

    /// Whether `w` is one of the loaded words.
    pub open spec fn has_word(&self, w: Seq<char>) -> bool {
        exists|i: int| 0 <= i < self.words_view().len() && self.words_view()[i] == w
    }

    /// Constructor for creating new DictionaryManagers.
    pub fn new() -> (r: Self)
        ensures
            r.wf(),
            r.words_view().len() == 0,
            r.keys_view().len() == 0,
    {
        DictionaryManager {
            all_words: Vec::new(),
            sorted_words: Vec::new(),
            subwords_keys: Vec::new(),
            subwords_vals: Vec::new(),
        }
    }

    /// Loads a clean word list into memory and parses it for internal use:
    /// every word's characters are pre-sorted, so later partial-word
    /// searches only compare sorted sequences. (Reading the dictionary file
    /// itself happens outside; this takes its lines.)
    pub fn load_clean_dictionary(&mut self, words: Vec<String>)
        requires
            old(self).wf(),
        ensures
            final(self).wf(),
            final(self).words_view() == words_views(words@),
            final(self).keys_view() == old(self).keys_view(),
            final(self).vals_view() == old(self).vals_view(),
    {
        let mut sorted_words: Vec<Vec<char>> = Vec::new();
        let mut i: usize = 0;
        while i < words.len()
            invariant
                i <= words@.len(),
                sorted_words@.len() == i,
                forall|j: int|
                    0 <= j < i ==> chars_sorted((#[trigger] sorted_words@[j])@)
                        && sorted_words@[j]@.to_multiset() == words@[j]@.to_multiset(),
            decreases words@.len() - i,
        {
            sorted_words.push(sorted_chars(words[i].as_str()));
            i = i + 1;
        }
        self.all_words = words;
        self.sorted_words = sorted_words;
        proof {
            assert(self.words_view() =~= words_views(words@));
            assert(self.keys_view() =~= old(self).keys_view());
            assert(self.vals_view() =~= old(self).vals_view());
            assert forall|j: int| 0 <= j < self.all_words@.len() implies chars_sorted(
                #[trigger] self.sorted_view()[j],
            ) && self.sorted_view()[j].to_multiset() == self.words_view()[j].to_multiset() by {
                assert(self.sorted_view()[j] == sorted_words@[j]@);
                assert(self.words_view()[j] == words@[j]@);
            }
        }
    }

    /// Loads the precomputed table mapping each seed word to all of the
    /// words its letters can create. (Parsing the table's file happens
    /// outside; this takes its entries.)
    pub fn load_precomputed_dictionary(&mut self, precomputed: Vec<(String, Vec<String>)>)
        ensures
            old(self).wf() ==> final(self).wf(),
            final(self).words_view() == old(self).words_view(),
            final(self).sorted_view() == old(self).sorted_view(),
            final(self).keys_view().len() == precomputed@.len(),
            final(self).vals_view().len() == precomputed@.len(),
            forall|i: int|
                0 <= i < precomputed@.len() ==> final(self).keys_view()[i] == (
                #[trigger] precomputed@[i]).0@ && final(self).vals_view()[i] == words_views(
                    precomputed@[i].1@,
                ),
    {
        let mut keys: Vec<String> = Vec::new();
        let mut vals: Vec<Vec<String>> = Vec::new();
        let mut i: usize = 0;
        let n = precomputed.len();
        let mut precomputed = precomputed;
        proof {
            assert(precomputed@.take(0int) =~= Seq::<(String, Vec<String>)>::empty());
        }
        // take the entries in order, moving each out of the input
        let ghost entries = precomputed@;
        while keys.len() < n
            invariant
                n == entries.len(),
                keys@.len() == vals@.len(),
                keys@.len() <= n,
                precomputed@ == entries.skip(keys@.len() as int),
                forall|j: int|
                    0 <= j < keys@.len() ==> (#[trigger] keys@[j])@ == entries[j].0@ && vals@[j]@
                        == entries[j].1@,
            decreases n - keys@.len(),
        {
            let entry = precomputed.remove(0);
            proof {
                assert(entries.skip(keys@.len() as int)[0] == entry);
                assert(entries.skip(keys@.len() as int).remove(0) =~= entries.skip(
                    keys@.len() as int + 1,
                ));
            }
            keys.push(entry.0);
            vals.push(entry.1);
        }
        self.subwords_keys = keys;
        self.subwords_vals = vals;
        proof {
            assert(self.words_view() =~= old(self).words_view());
            assert(self.sorted_view() =~= old(self).sorted_view());
            if old(self).wf() {
                assert forall|j: int| 0 <= j < self.all_words@.len() implies chars_sorted(
                    #[trigger] self.sorted_view()[j],
                ) && self.sorted_view()[j].to_multiset() == self.words_view()[j].to_multiset() by {
                    assert(old(self).sorted_view()[j] == self.sorted_view()[j]);
                    assert(old(self).words_view()[j] == self.words_view()[j]);
                }
            }
            assert forall|i: int| 0 <= i < entries.len() implies self.keys_view()[i] == (
            #[trigger] entries[i]).0@ && self.vals_view()[i] == words_views(entries[i].1@) by {
                assert(keys@[i]@ == entries[i].0@);
                assert(vals@[i]@ == entries[i].1@);
                assert(words_views(vals@[i]@) == words_views(entries[i].1@));
            }
        }
    }

    /// Draws one seed word uniformly at random from the precomputed table,
    /// together with its candidate list; `None` when no table is loaded.
    pub fn get_random_starting_word(&self) -> (r: Option<(String, Vec<String>)>)
        requires
            self.wf(),
        ensures
            self.keys_view().len() == self.vals_view().len(),
            r is None <==> self.keys_view().len() == 0,
            match r {
                Some(kv) => exists|i: int|
                    0 <= i < self.keys_view().len() && kv.0@ == self.keys_view()[i] && words_views(
                        kv.1@,
                    ) == #[trigger] self.vals_view()[i],
                None => true,
            },
    {
        if self.subwords_keys.len() == 0 {
            return None;
        }
        let i = get_random_int_in_range(0, self.subwords_keys.len());
        let key = self.subwords_keys[i].clone();
        let candidates = &self.subwords_vals[i];
        let mut val: Vec<String> = Vec::new();
        let mut j: usize = 0;
        while j < candidates.len()
            invariant
                j <= candidates@.len(),
                val@.len() == j,
                forall|p: int| 0 <= p < j ==> (#[trigger] val@[p])@ == candidates@[p]@,
            decreases candidates@.len() - j,
        {
            val.push(candidates[j].clone());
            j = j + 1;
        }
        proof {
            assert(words_views(val@) =~= words_views(self.subwords_vals@[i as int]@));
            assert(self.vals_view()[i as int] == words_views(self.subwords_vals@[i as int]@));
            assert(key@ == self.keys_view()[i as int]);
        }
        Some((key, val))
    }

    /// Randomly selects a loaded word that has the given number of
    /// characters; `None` when the dictionary has no word of that length.
    pub fn get_random_word_by_length(&self, number_of_characters: usize) -> (r: Option<String>)
        ensures
            r is None <==> words_of_length(
                self.words_view(),
                number_of_characters as nat,
                self.words_view().len() as int,
            ).len() == 0,
            match r {
                Some(w) => self.has_word(w@) && w@.len() == number_of_characters,
                None => true,
            },
    {
        let words_of_len = self.collect_words_of_length(number_of_characters);
        if words_of_len.len() == 0 {
            return None;
        }
        let random_word_index = get_random_int_in_range(0, words_of_len.len());
        let word_of_length = words_of_len[random_word_index].clone();
        Some(word_of_length)
    }

    /// Returns all of the dictionary words of the given length, or `None`
    /// when there are none.
    pub fn get_all_words_of_length(&self, number_of_characters: usize) -> (r: Option<Vec<String>>)
        ensures
            r is None <==> words_of_length(
                self.words_view(),
                number_of_characters as nat,
                self.words_view().len() as int,
            ).len() == 0,
            match r {
                Some(v) => words_views(v@) == words_of_length(
                    self.words_view(),
                    number_of_characters as nat,
                    self.words_view().len() as int,
                ) && forall|j: int|
                    0 <= j < v@.len() ==> self.has_word((#[trigger] v@[j])@) && v@[j]@.len()
                        == number_of_characters,
                None => true,
            },
    {
        let words_of_len = self.collect_words_of_length(number_of_characters);
        if words_of_len.len() == 0 {
            return None;
        }
        Some(words_of_len)
    }

    /// The loaded words of exactly the given length, in order, and the fact
    /// that each is a loaded word.
    fn collect_words_of_length(&self, len: usize) -> (r: Vec<String>)
        ensures
            words_views(r@) == words_of_length(
                self.words_view(),
                len as nat,
                self.words_view().len() as int,
            ),
            forall|j: int|
                0 <= j < r@.len() ==> self.has_word((#[trigger] r@[j])@) && r@[j]@.len() == len,
    {
        let mut found: Vec<String> = Vec::new();
        let mut i: usize = 0;
        while i < self.all_words.len()
            invariant
                i <= self.all_words@.len(),
                words_views(found@) == words_of_length(self.words_view(), len as nat, i as int),
                forall|j: int|
                    0 <= j < found@.len() ==> self.has_word((#[trigger] found@[j])@)
                        && found@[j]@.len() == len,
            decreases self.all_words@.len() - i,
        {
            let ghost pre = found@;
            let w = &self.all_words[i];
            if w.unicode_len() == len {
                found.push(w.clone());
                proof {
                    assert(self.words_view()[i as int] == self.all_words@[i as int]@);
                    assert(words_views(found@) =~= words_views(pre).push(
                        self.words_view()[i as int],
                    ));
                }
            }
            proof {
                assert(words_views(found@) =~= words_of_length(
                    self.words_view(),
                    len as nat,
                    i + 1,
                ));
            }
            i = i + 1;
        }
        found
    }

    /// Given some letters, searches the entire dictionary for all words
    /// that can be constructed using either some or all of them. The given
    /// letters are sorted the same way the dictionary words were pre-sorted
    /// (when the letters are themselves a loaded word, its pre-sorted form
    /// is reused), and each dictionary word then matches exactly when its
    /// sorted characters read out of the sorted letters in order.
    pub fn find_all_words_for_letters(
        &self,
        given_letters_set: &str,
        can_be_looked_up: bool,
    ) -> (r: Vec<String>)
        requires
            self.wf(),
            given_letters_set@.len() >= 1,
            can_be_looked_up ==> self.has_word(given_letters_set@),
        ensures
            exists|ls: Seq<char>|
                chars_sorted(ls) && ls.to_multiset() == given_letters_set@.to_multiset()
                    && #[trigger] words_views(r@) == buildable_words(
                    self.words_view(),
                    self.sorted_view(),
                    ls,
                    self.words_view().len() as int,
                ),
    {
        let letters_to_find: Vec<char> = if can_be_looked_up {
            // the letters are a loaded word: reuse its pre-sorted form
            let idx = self.index_of_loaded_word(given_letters_set);
            let mut copy: Vec<char> = Vec::new();
            let source = &self.sorted_words[idx];
            let mut j: usize = 0;
            while j < source.len()
                invariant
                    j <= source@.len(),
                    copy@ == source@.take(j as int),
                decreases source@.len() - j,
            {
                copy.push(source[j]);
                proof {
                    assert(copy@ =~= source@.take(j + 1));
                }
                j = j + 1;
            }
            proof {
                assert(copy@ =~= source@);
                assert(self.sorted_view()[idx as int] == source@);
                assert(self.words_view()[idx as int] == given_letters_set@);
                assert(chars_sorted(copy@));
                assert(copy@.to_multiset() == given_letters_set@.to_multiset());
            }
            copy
        } else {
            sorted_chars(given_letters_set)
        };
        let ghost ls = letters_to_find@;
        let mut matching_words: Vec<String> = Vec::new();
        if letters_to_find.len() == 0 {
            proof {
                broadcast use vstd::seq_lib::group_to_multiset_ensures;

                assert(ls.to_multiset().len() == given_letters_set@.to_multiset().len());
                assert(ls.to_multiset().len() == ls.len());
                assert(given_letters_set@.to_multiset().len() == given_letters_set@.len());
                assert(false);
            }
        }
        let mut i: usize = 0;
        while i < self.all_words.len()
            invariant
                self.wf(),
                ls == letters_to_find@,
                letters_to_find@.len() >= 1,
                i <= self.all_words@.len(),
                self.sorted_words@.len() == self.all_words@.len(),
                words_views(matching_words@) == buildable_words(
                    self.words_view(),
                    self.sorted_view(),
                    ls,
                    i as int,
                ),
            decreases self.all_words@.len() - i,
        {
            let ghost pre = matching_words@;
            let sorted_dictionary_word = &self.sorted_words[i];
            proof {
                assert(self.sorted_view()[i as int] == sorted_dictionary_word@);
            }
            if can_build(sorted_dictionary_word, &letters_to_find) {
                matching_words.push(self.all_words[i].clone());
                proof {
                    assert(self.words_view()[i as int] == self.all_words@[i as int]@);
                    assert(words_views(matching_words@) =~= words_views(pre).push(
                        self.words_view()[i as int],
                    ));
                }
            }
            proof {
                assert(words_views(matching_words@) =~= buildable_words(
                    self.words_view(),
                    self.sorted_view(),
                    ls,
                    i + 1,
                ));
            }
            i = i + 1;
        }
        matching_words
    }

    /// The index of a loaded word; callable only when the word is loaded.
    fn index_of_loaded_word(&self, word: &str) -> (r: usize)
        requires
            self.has_word(word@),
        ensures
            r < self.words_view().len(),
            self.words_view()[r as int] == word@,
    {
        let w: String = word.to_owned();
        let mut i: usize = 0;
        while i < self.all_words.len()
            invariant
                w@ == word@,
                self.has_word(word@),
                i <= self.all_words@.len(),
                forall|j: int| 0 <= j < i ==> self.words_view()[j] != word@,
            decreases self.all_words@.len() - i,
        {
            if self.all_words[i].eq(&w) {
                return i;
            }
            proof {
                assert(self.words_view()[i as int] == self.all_words@[i as int]@);
            }
            i = i + 1;
        }
        proof {
            assert(forall|j: int|
                0 <= j < self.words_view().len() ==> self.words_view()[j] != word@);
            assert(false);
        }
        0
    }
}

} // verus!
