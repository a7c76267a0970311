//! Small helpers: index search within a word, randomness, and conversions
//! between strings and character vectors.

use vstd::prelude::*;

verus! {

/// Finds all of the indexes where the letter appears within the word, in
/// increasing order.
pub fn all_indicies_of(word: &str, letter_to_find: char) -> (r: Vec<usize>)
    ensures
        forall|j: int|
            0 <= j < r@.len() ==> r@[j] < word@.len() && word@[r@[j] as int] == letter_to_find,
        forall|i: int|
            0 <= i < word@.len() && word@[i] == letter_to_find ==> exists|j: int|
                0 <= j < r@.len() && r@[j] == i,
        forall|j1: int, j2: int| 0 <= j1 < j2 < r@.len() ==> r@[j1] < r@[j2],
{
    let mut indicies: Vec<usize> = Vec::new();
    let n = word.unicode_len();
    let mut idx: usize = 0;
    while idx < n
        invariant
            n == word@.len(),
            idx <= n,
            forall|j: int|
                0 <= j < indicies@.len() ==> indicies@[j] < idx && word@[indicies@[j] as int]
                    == letter_to_find,
            forall|i: int|
                0 <= i < idx && word@[i] == letter_to_find ==> exists|j: int|
                    0 <= j < indicies@.len() && indicies@[j] == i,
            forall|j1: int, j2: int|
                0 <= j1 < j2 < indicies@.len() ==> indicies@[j1] < indicies@[j2],
        decreases n - idx,
    {
        let letter_in_word = word.get_char(idx);
        if letter_in_word == letter_to_find {
            let ghost old_inds = indicies@;
            indicies.push(idx);
            proof {
                assert forall|i: int|
                    0 <= i < idx + 1 && word@[i] == letter_to_find implies exists|j: int|
                    0 <= j < indicies@.len() && indicies@[j] == i by {
                    if i < idx {
                        let j = choose|j: int| 0 <= j < old_inds.len() && old_inds[j] == i;
                        assert(indicies@[j] == i);
                    } else {
                        assert(indicies@[old_inds.len() as int] == idx);
                    }
                }
            }
        }
        idx = idx + 1;
    }
    indicies
}

/// Randomizes the order of the elements of a vector: the result holds
/// exactly the elements that went in, as a multiset.
///
/// Relies on `rand::seq::SliceRandom::shuffle` (rand 0.8): an in-place
/// Fisher-Yates permutation of the slice, driven by the thread-local
/// generator. Nothing is promised about the order that comes out.
#[verifier::external_body]
pub fn shuffle<T>(list: Vec<T>) -> (r: Vec<T>)
    ensures
        r@.len() == list@.len(),
        r@.to_multiset() == list@.to_multiset(),
{
    let mut shuffled_list = list;
    rand::seq::SliceRandom::shuffle(shuffled_list.as_mut_slice(), &mut rand::thread_rng());
    shuffled_list
}

/// Draws a number from `min_num` (inclusive) to `max_num` (exclusive).
///
/// Relies on `rand::Rng::gen_range` (rand 0.8): returns a uniformly
/// distributed value of the given range, and panics when the range is
/// empty, which the precondition rules out.
#[verifier::external_body]
pub fn get_random_int_in_range(min_num: usize, max_num: usize) -> (r: usize)
    requires
        min_num < max_num,
    ensures
        min_num <= r < max_num,
{
    let mut rng = rand::thread_rng();
    rand::Rng::gen_range(&mut rng, min_num..max_num)
}

/// The characters of a string, as a vector.
pub fn chars_of(s: &str) -> (r: Vec<char>)
    ensures
        r@ == s@,
{
    let n = s.unicode_len();
    let mut chars: Vec<char> = Vec::new();
    let mut i: usize = 0;
    while i < n
        invariant
            n == s@.len(),
            i <= n,
            chars@ == s@.take(i as int),
        decreases n - i,
    {
        chars.push(s.get_char(i));
        proof {
            assert(chars@ =~= s@.take(i + 1 as int));
        }
        i = i + 1;
    }
    proof {
        assert(chars@ =~= s@);
    }
    chars
}

/// The pieces joined into one sequence, with `sep` between each adjacent
/// pair and nowhere else.
pub open spec fn spec_join(pieces: Seq<Seq<char>>, sep: char) -> Seq<char>
    decreases pieces.len(),
{
    if pieces.len() == 0 {
        Seq::empty()
    } else if pieces.len() == 1 {
        pieces[0]
    } else {
        pieces[0] + seq![sep] + spec_join(pieces.drop_first(), sep)
    }
}

/// Joining one more piece appends a separator and the piece, except onto an
/// empty join.
pub proof fn lemma_join_push(pieces: Seq<Seq<char>>, x: Seq<char>, sep: char)
    ensures
        spec_join(pieces.push(x), sep) == if pieces.len() == 0 {
            x
        } else {
            spec_join(pieces, sep) + seq![sep] + x
        },
    decreases pieces.len(),
{
    if pieces.len() == 0 {
        assert(pieces.push(x)[0] == x);
        assert(spec_join(pieces.push(x), sep) == x);
    } else {
        assert(pieces.push(x).drop_first() =~= pieces.drop_first().push(x));
        lemma_join_push(pieces.drop_first(), x, sep);
        if pieces.len() == 1 {
            assert(pieces.drop_first().len() == 0);
            assert(spec_join(pieces.push(x), sep) == pieces[0] + seq![sep] + x);
            assert(spec_join(pieces, sep) == pieces[0]);
        } else {
            assert(spec_join(pieces.push(x), sep) == pieces[0] + seq![sep] + spec_join(
                pieces.drop_first().push(x),
                sep,
            ));
            assert(spec_join(pieces.drop_first().push(x), sep) == spec_join(
                pieces.drop_first(),
                sep,
            ) + seq![sep] + x);
            assert((pieces[0] + seq![sep] + (spec_join(pieces.drop_first(), sep) + seq![sep] + x))
                =~= (pieces[0] + seq![sep] + spec_join(pieces.drop_first(), sep)) + seq![sep] + x);
        }
    }
}

/// Joining pieces of one common length `len_each` gives a sequence of
/// predictable shape: its length is determined, piece `p` sits exactly at
/// offset `p * (len_each + 1)`, and a separator follows every piece but the
/// last. The piece index `p` is a parameter, so the lemma speaks of every
/// piece.
pub proof fn lemma_join_uniform(pieces: Seq<Seq<char>>, sep: char, len_each: nat, p: int)
    requires
        pieces.len() >= 1,
        forall|q: int| 0 <= q < pieces.len() ==> (#[trigger] pieces[q]).len() == len_each,
        0 <= p < pieces.len(),
    ensures
        spec_join(pieces, sep).len() == pieces.len() * (len_each + 1) - 1,
        spec_join(pieces, sep).subrange(p * (len_each + 1), p * (len_each + 1) + len_each)
            == pieces[p],
        p < pieces.len() - 1 ==> spec_join(pieces, sep)[p * (len_each + 1) + len_each] == sep,
    decreases pieces.len(),
{
    let j = spec_join(pieces, sep);
    let stride = len_each + 1;
    if pieces.len() == 1 {
        assert(j == pieces[0]);
        assert(j.subrange(0 * (stride as int), 0 * (stride as int) + len_each) =~= pieces[0]);
    } else {
        let rest = pieces.drop_first();
        lemma_join_uniform(rest, sep, len_each, if p == 0 { 0 } else { p - 1 });
        let jr = spec_join(rest, sep);
        assert(j == pieces[0] + seq![sep] + jr);
        assert(j.len() == len_each + 1 + (rest.len() * stride - 1));
        assert(pieces.len() * stride == stride + rest.len() * stride) by (nonlinear_arith)
            requires
                pieces.len() == rest.len() + 1,
                stride == len_each + 1,
        ;
        if p == 0 {
            assert(j.subrange(0 * (stride as int), 0 * (stride as int) + len_each) =~= pieces[0]);
            assert(j[len_each as int] == sep);
        } else {
            assert((p - 1) * stride == p * stride - stride) by (nonlinear_arith);
            assert(0 <= (p - 1) * stride && (p - 1) * stride + len_each <= jr.len()) by (
            nonlinear_arith)
                requires
                    1 <= p < pieces.len(),
                    stride == len_each + 1,
                    pieces.len() == rest.len() + 1,
                    jr.len() == rest.len() * stride - 1,
            ;
            assert(jr.subrange((p - 1) * stride, (p - 1) * stride + len_each) == rest[p - 1]);
            assert(j.subrange(p * stride, p * stride + len_each) =~= jr.subrange(
                (p - 1) * stride,
                (p - 1) * stride + len_each,
            ));
            assert(rest[p - 1] == pieces[p]);
            if p < pieces.len() - 1 {
                assert(0 <= (p - 1) * stride + len_each < jr.len()) by (nonlinear_arith)
                    requires
                        1 <= p < pieces.len() - 1,
                        stride == len_each + 1,
                        pieces.len() == rest.len() + 1,
                        jr.len() == rest.len() * stride - 1,
                ;
                assert(jr[(p - 1) * stride + len_each] == sep);
                assert(j[p * stride + len_each] == jr[(p - 1) * stride + len_each]);
            }
        }
    }
}

/// The character sequences of a list of strings.
pub open spec fn words_views(ws: Seq<String>) -> Seq<Seq<char>> {
    Seq::new(ws.len(), |i: int| ws[i]@)
}

/// The given words in one string, separated by `sep`.
pub fn join_words(words: &Vec<String>, sep: char) -> (r: String)
    ensures
        r@ == spec_join(words_views(words@), sep),
{
    let mut chars: Vec<char> = Vec::new();
    let mut i: usize = 0;
    while i < words.len()
        invariant
            i <= words.len(),
            chars@ == spec_join(words_views(words@).take(i as int), sep),
        decreases words.len() - i,
    {
        proof {
            lemma_join_push(words_views(words@).take(i as int), words@[i as int]@, sep);
            assert(words_views(words@).take(i as int).push(words@[i as int]@) =~= words_views(
                words@,
            ).take(i + 1));
        }
        if i > 0 {
            chars.push(sep);
        }
        let mut piece = chars_of(words[i].as_str());
        chars.append(&mut piece);
        i = i + 1;
    }
    proof {
        assert(words_views(words@).take(words@.len() as int) =~= words_views(words@));
    }
    string_from_chars(&chars)
}

/// A string holding exactly the given characters.
///
/// Relies on `String: FromIterator<char>` of std: collecting characters
/// builds the string holding them in order.
#[verifier::external_body]
pub fn string_from_chars(chars: &Vec<char>) -> (r: String)
    ensures
        r@ == chars@,
{
    chars.iter().collect()
}

} // verus!
