//! Batch dictionary tooling: turning a raw word list into the clean
//! dictionary (keep only ascii letters, drop words of the wrong length and
//! blacklisted words, lowercase the rest), and precomputing, for every
//! seven-letter word, all of the words constructible from its letters.
//! Reading and writing the files themselves happens outside; these work on
//! the lines.

use vstd::prelude::*;

use crate::dictionary_manager::{buildable_words, chars_sorted, DictionaryManager};
use crate::utils::{string_from_chars, words_views};

verus! {

/// An ascii letter, of either case.
pub open spec fn is_ascii_letter(c: char) -> bool {
    ('a' <= c && c <= 'z') || ('A' <= c && c <= 'Z')
}

/// The ascii-lowercase of one character: uppercase ascii letters move down
/// the alphabet, everything else stays.
pub open spec fn spec_lower_char(c: char) -> char {
    if 'A' <= c && c <= 'Z' {
        (((c as u8) + 32) as u8) as char
    } else {
        c
    }
}

/// The characters of `s` that are ascii letters, in order.
pub open spec fn spec_trim(s: Seq<char>) -> Seq<char>
    decreases s.len(),
{
    if s.len() == 0 {
        Seq::empty()
    } else {
        let prev = spec_trim(s.drop_last());
        if is_ascii_letter(s.last()) {
            prev.push(s.last())
        } else {
            prev
        }
    }
}

/// `s` with every character ascii-lowercased.
pub open spec fn spec_lower(s: Seq<char>) -> Seq<char> {
    s.map_values(|c: char| spec_lower_char(c))
}

/// The clean dictionary built from the first `n` raw lines: each line is
/// stripped to its ascii letters; what remains is kept, lowercased, when
/// it has four to seven letters and is not blacklisted. The blacklist is
/// checked against the stripped word before lowercasing.
pub open spec fn spec_clean_words(
    raw: Seq<Seq<char>>,
    blacklist: Seq<Seq<char>>,
    n: int,
) -> Seq<Seq<char>>
    decreases n,
{
    if n <= 0 {
        Seq::empty()
    } else {
        let prev = spec_clean_words(raw, blacklist, n - 1);
        let t = spec_trim(raw[n - 1]);
        if t.len() > 3 && t.len() < 8 && !blacklist.contains(t) {
            prev.push(spec_lower(t))
        } else {
            prev
        }
    }
}

/// One precomputed table entry is faithful: `ls` is the seed's letters in
/// ascending order, and the entry's list holds exactly the dictionary
/// words constructible from those letters, the seed itself excluded.
pub open spec fn subwords_entry_ok(
    words: Seq<Seq<char>>,
    sorted: Seq<Seq<char>>,
    key: Seq<char>,
    list: Seq<Seq<char>>,
    ls: Seq<char>,
) -> bool {
    let found = buildable_words(words, sorted, ls, words.len() as int);
    &&& chars_sorted(ls)
    &&& ls.to_multiset() == key.to_multiset()
    &&& list == without_word(found, key, found.len() as int)
}

/// The words of `ws` (a prefix of length `n`) other than `w`, in order.
pub open spec fn without_word(ws: Seq<Seq<char>>, w: Seq<char>, n: int) -> Seq<Seq<char>>
    decreases n,
{
    if n <= 0 {
        Seq::empty()
    } else {
        let prev = without_word(ws, w, n - 1);
        if ws[n - 1] != w {
            prev.push(ws[n - 1])
        } else {
            prev
        }
    }
}

/// Lowercases one character.
fn lower_char(c: char) -> (r: char)
    ensures
        r == spec_lower_char(c),
{
    if c >= 'A' && c <= 'Z' {
        proof {
            assert(c as u8 >= 65 && c as u8 <= 90);
        }
        ((c as u8) + 32) as char
    } else {
        c
    }
}

/// Strips a line to its ascii letters.
fn trim_to_letters(line: &str) -> (r: Vec<char>)
    ensures
        r@ == spec_trim(line@),
{
    let chars = crate::utils::chars_of(line);
    let mut out: Vec<char> = Vec::new();
    let mut i: usize = 0;
    while i < chars.len()
        invariant
            chars@ == line@,
            i <= chars@.len(),
            out@ == spec_trim(line@.take(i as int)),
        decreases chars@.len() - i,
    {
        let c = chars[i];
        proof {
            assert(line@.take(i + 1).drop_last() =~= line@.take(i as int));
            assert(line@.take(i + 1).last() == line@[i as int]);
        }
        if (c >= 'a' && c <= 'z') || (c >= 'A' && c <= 'Z') {
            out.push(c);
        }
        i = i + 1;
    }
    proof {
        assert(line@.take(line@.len() as int) =~= line@);
    }
    out
}

/// Whether `w` is one of the words in `list`.
fn word_list_contains(list: &Vec<String>, w: &String) -> (r: bool)
    ensures
        r == words_views(list@).contains(w@),
{
    let mut i: usize = 0;
    while i < list.len()
        invariant
            i <= list@.len(),
            forall|j: int| 0 <= j < i ==> words_views(list@)[j] != w@,
        decreases list@.len() - i,
    {
        if list[i].eq(w) {
            proof {
                assert(words_views(list@)[i as int] == w@);
            }
            return true;
        }
        i = i + 1;
    }
    proof {
        if words_views(list@).contains(w@) {
            let j = choose|j: int|
                0 <= j < words_views(list@).len() && words_views(list@)[j] == w@;
            assert(false);
        }
    }
    false
}

/// Builds the clean dictionary from the raw word list: each line stripped
/// to its ascii letters, kept (lowercased) when four to seven letters long
/// and not on the blacklist. The blacklist lines come already normalized
/// (trimmed and lowercased) from whoever read them in.
pub fn clean_words(raw_lines: &Vec<String>, blacklist: &Vec<String>) -> (r: Vec<String>)
    ensures
        words_views(r@) == spec_clean_words(
            words_views(raw_lines@),
            words_views(blacklist@),
            raw_lines@.len() as int,
        ),
{
    let mut clean: Vec<String> = Vec::new();
    let mut i: usize = 0;
    while i < raw_lines.len()
        invariant
            i <= raw_lines@.len(),
            words_views(clean@) == spec_clean_words(
                words_views(raw_lines@),
                words_views(blacklist@),
                i as int,
            ),
        decreases raw_lines@.len() - i,
    {
        let ghost pre = clean@;
        let trimmed = trim_to_letters(raw_lines[i].as_str());
        proof {
            assert(words_views(raw_lines@)[i as int] == raw_lines@[i as int]@);
        }
        if trimmed.len() > 3 && trimmed.len() < 8 {
            let trimmed_str = string_from_chars(&trimmed);
            if !word_list_contains(blacklist, &trimmed_str) {
                let mut lowered: Vec<char> = Vec::new();
                let mut j: usize = 0;
                while j < trimmed.len()
                    invariant
                        j <= trimmed@.len(),
                        lowered@ =~= spec_lower(trimmed@.take(j as int)),
                    decreases trimmed@.len() - j,
                {
                    lowered.push(lower_char(trimmed[j]));
                    proof {
                        assert(lowered@ =~= spec_lower(trimmed@.take(j + 1)));
                    }
                    j = j + 1;
                }
                proof {
                    assert(trimmed@.take(trimmed@.len() as int) =~= trimmed@);
                }
                clean.push(string_from_chars(&lowered));
                proof {
                    assert(words_views(clean@) =~= words_views(pre).push(
                        spec_lower(spec_trim(raw_lines@[i as int]@)),
                    ));
                }
            }
        }
        proof {
            assert(words_views(clean@) =~= spec_clean_words(
                words_views(raw_lines@),
                words_views(blacklist@),
                i + 1,
            ));
        }
        i = i + 1;
    }
    clean
}

/// Precomputes, for every seven-letter word of the loaded dictionary, all
/// of the words constructible from some or all of its letters (the word
/// itself excluded); only seed words with at least
/// `min_words_necessary_to_save` such words are kept.
pub fn find_all_subwords_for_all_seven_letter_words(
    min_words_necessary_to_save: usize,
    dictionary: &DictionaryManager,
) -> (r: Vec<(String, Vec<String>)>)
    requires
        dictionary.wf(),
    ensures
        forall|i: int|
            0 <= i < r@.len() ==> {
                let entry = #[trigger] r@[i];
                &&& dictionary.has_word(entry.0@)
                &&& entry.0@.len() == 7
                &&& entry.1@.len() >= min_words_necessary_to_save
                &&& forall|j: int| 0 <= j < entry.1@.len() ==> (#[trigger] entry.1@[j])@
                    != entry.0@
                &&& exists|ls: Seq<char>|
                    subwords_entry_ok(
                        dictionary.words_view(),
                        dictionary.sorted_view(),
                        entry.0@,
                        words_views(entry.1@),
                        ls,
                    )
            },
{
    let mut precomputed: Vec<(String, Vec<String>)> = Vec::new();
    let words7 = match dictionary.get_all_words_of_length(7) {
        None => {
            return precomputed;
        },
        Some(v) => v,
    };
    let mut i: usize = 0;
    while i < words7.len()
        invariant
            dictionary.wf(),
            i <= words7@.len(),
            forall|p: int|
                0 <= p < words7@.len() ==> dictionary.has_word((#[trigger] words7@[p])@)
                    && words7@[p]@.len() == 7,
            forall|p: int|
                0 <= p < precomputed@.len() ==> {
                    let entry = #[trigger] precomputed@[p];
                    &&& dictionary.has_word(entry.0@)
                    &&& entry.0@.len() == 7
                    &&& entry.1@.len() >= min_words_necessary_to_save
                    &&& forall|j: int| 0 <= j < entry.1@.len() ==> (#[trigger] entry.1@[j])@
                        != entry.0@
                    &&& exists|ls: Seq<char>|
                        subwords_entry_ok(
                            dictionary.words_view(),
                            dictionary.sorted_view(),
                            entry.0@,
                            words_views(entry.1@),
                            ls,
                        )
                },
        decreases words7@.len() - i,
    {
        let one_seven_letter_word = &words7[i];
        let all_words_for_letters = dictionary.find_all_words_for_letters(
            one_seven_letter_word.as_str(),
            true,
        );
        let ghost ls = choose|ls: Seq<char>|
            chars_sorted(ls) && ls.to_multiset() == one_seven_letter_word@.to_multiset()
                && #[trigger] words_views(all_words_for_letters@) == buildable_words(
                dictionary.words_view(),
                dictionary.sorted_view(),
                ls,
                dictionary.words_view().len() as int,
            );
        // keep every constructible word except the seed word itself
        let mut kept: Vec<String> = Vec::new();
        let mut j: usize = 0;
        while j < all_words_for_letters.len()
            invariant
                j <= all_words_for_letters@.len(),
                words_views(kept@) == without_word(
                    words_views(all_words_for_letters@),
                    one_seven_letter_word@,
                    j as int,
                ),
                forall|q: int|
                    0 <= q < kept@.len() ==> (#[trigger] kept@[q])@ != one_seven_letter_word@,
            decreases all_words_for_letters@.len() - j,
        {
            let ghost prev = kept@;
            if !all_words_for_letters[j].eq(one_seven_letter_word) {
                kept.push(all_words_for_letters[j].clone());
                proof {
                    assert(words_views(kept@) =~= words_views(prev).push(
                        words_views(all_words_for_letters@)[j as int],
                    ));
                }
            }
            proof {
                assert(words_views(kept@) =~= without_word(
                    words_views(all_words_for_letters@),
                    one_seven_letter_word@,
                    j + 1,
                ));
            }
            j = j + 1;
        }
        if kept.len() >= min_words_necessary_to_save {
            let ghost pre_table = precomputed@;
            precomputed.push((one_seven_letter_word.clone(), kept));
            proof {
                let entry = precomputed@[pre_table.len() as int];
                assert(entry.0@ == one_seven_letter_word@);
                assert(words_views(all_words_for_letters@) == buildable_words(
                    dictionary.words_view(),
                    dictionary.sorted_view(),
                    ls,
                    dictionary.words_view().len() as int,
                ));
                assert(subwords_entry_ok(
                    dictionary.words_view(),
                    dictionary.sorted_view(),
                    entry.0@,
                    words_views(entry.1@),
                    ls,
                ));
                assert(forall|p: int|
                    0 <= p < pre_table.len() ==> #[trigger] precomputed@[p] == pre_table[p]);
            }
        }
        i = i + 1;
    }
    precomputed
}

/// The whole batch pipeline over the dictionary lines: build the clean
/// word list from the raw dictionary and the blacklist, load it, and
/// precompute the seed-word table. Returns the clean words and the table;
/// writing them to their files happens outside.
pub fn create_all_dictionary_files(
    raw_base_lines: &Vec<String>,
    bad_word_lines: &Vec<String>,
    min_words_necessary_to_save: usize,
) -> (r: (Vec<String>, Vec<(String, Vec<String>)>))
    ensures
        words_views(r.0@) == spec_clean_words(
            words_views(raw_base_lines@),
            words_views(bad_word_lines@),
            raw_base_lines@.len() as int,
        ),
        forall|i: int|
            0 <= i < r.1@.len() ==> {
                let entry = #[trigger] r.1@[i];
                &&& words_views(r.0@).contains(entry.0@)
                &&& entry.0@.len() == 7
                &&& entry.1@.len() >= min_words_necessary_to_save
                &&& forall|j: int| 0 <= j < entry.1@.len() ==> (#[trigger] entry.1@[j])@
                    != entry.0@
            },
{
    let clean = clean_words(raw_base_lines, bad_word_lines);
    let mut dictionary = DictionaryManager::new();
    dictionary.load_clean_dictionary(clone_list(&clean));
    let table = find_all_subwords_for_all_seven_letter_words(
        min_words_necessary_to_save,
        &dictionary,
    );
    proof {
        assert forall|i: int| 0 <= i < table@.len() implies words_views(clean@).contains(
            (#[trigger] table@[i]).0@,
        ) by {
            assert(dictionary.has_word(table@[i].0@));
            let q = choose|q: int|
                0 <= q < dictionary.words_view().len() && dictionary.words_view()[q]
                    == table@[i].0@;
            assert(words_views(clean@)[q] == table@[i].0@);
        }
    }
    (clean, table)
}

/// A copy of a word list, value for value.
fn clone_list(words: &Vec<String>) -> (r: Vec<String>)
    ensures
        r@ == words@,
{
    let mut out: Vec<String> = Vec::new();
    let mut i: usize = 0;
    while i < words.len()
        invariant
            i <= words@.len(),
            out@ == words@.take(i as int),
        decreases words@.len() - i,
    {
        out.push(words[i].clone());
        proof {
            assert(out@ =~= words@.take(i + 1));
        }
        i = i + 1;
    }
    proof {
        assert(out@ =~= words@);
    }
    out
}

} // verus!
