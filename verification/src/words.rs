//! Splitting a capitalised identifier into its words, acronyms included.
//!
//! An identifier such as `GRPCRouteRule` reads as `GRPC`, `Route`, `Rule`. The
//! split looks at the identifier through a window of three neighbouring
//! letters that moves one letter at a time; the last two letters, which no
//! window starts at, always close the last word.

use crate::text::texts;
use itertools::Itertools;
use vstd::prelude::*;

verus! {

/// The answer of `char::is_uppercase` for a character.
pub uninterp spec fn is_uppercase(c: char) -> bool;

/// The letters of an identifier: each character with whether it is uppercase.
pub open spec fn letters_of(s: Seq<char>) -> Seq<(char, bool)> {
    s.map_values(|c: char| (c, is_uppercase(c)))
}

/// The characters of a run of letters.
pub open spec fn chars_of(letters: Seq<(char, bool)>) -> Seq<char> {
    letters.map_values(|l: (char, bool)| l.0)
}

/// Whether a word ends with the letter at `i`, judged by the window of three
/// letters that starts there: an acronym ends before a capital that a small
/// letter follows, and a run of small letters ends before a capital.
pub open spec fn word_ends_at(letters: Seq<(char, bool)>, i: int) -> bool {
    &&& 0 <= i
    &&& i + 2 < letters.len()
    &&& if letters[i].1 {
        letters[i + 1].1 && !letters[i + 2].1
    } else {
        letters[i + 1].1
    }
}

/// The words from `start` on, where the letters from `start` up to `i` are
/// known to belong to one word.
pub open spec fn words_from(letters: Seq<(char, bool)>, start: int, i: int) -> Seq<Seq<char>>
    decreases letters.len() - i,
{
    if i < 0 || i + 2 >= letters.len() {
        seq![chars_of(letters).subrange(start, letters.len() as int)]
    } else if word_ends_at(letters, i) {
        seq![chars_of(letters).subrange(start, i + 1)] + words_from(letters, i + 1, i + 1)
    } else {
        words_from(letters, start, i + 1)
    }
}

/// The words of an identifier, in order. One of at most two letters is a
/// single word.
pub open spec fn words_of(letters: Seq<(char, bool)>) -> Seq<Seq<char>> {
    words_from(letters, 0, 0)
}

proof fn lemma_words_from(letters: Seq<(char, bool)>, start: int, i: int)
    requires
        0 <= start <= i,
        start < letters.len() || letters.len() == 0,
    ensures
        words_from(letters, start, i).flatten() == chars_of(letters).subrange(
            start,
            letters.len() as int,
        ),
        letters.len() > 0 ==> forall|k: int|
            0 <= k < words_from(letters, start, i).len() ==> (#[trigger] words_from(
                letters,
                start,
                i,
            )[k]).len() > 0,
    decreases letters.len() - i,
{
    let n = letters.len() as int;
    let chars = chars_of(letters);
    if i + 2 >= n {
        seq![chars.subrange(start, n)].lemma_flatten_one_element();
    } else if word_ends_at(letters, i) {
        let word = chars.subrange(start, i + 1);
        let rest = words_from(letters, i + 1, i + 1);
        lemma_words_from(letters, i + 1, i + 1);
        vstd::seq_lib::lemma_flatten_concat(seq![word], rest);
        seq![word].lemma_flatten_one_element();
        assert(word + chars.subrange(i + 1, n) =~= chars.subrange(start, n));
        assert forall|k: int| 0 <= k < words_from(letters, start, i).len() implies (
        #[trigger] words_from(letters, start, i)[k]).len() > 0 by {
            if k > 0 {
                assert(words_from(letters, start, i)[k] == rest[k - 1]);
            }
        }
    } else {
        lemma_words_from(letters, start, i + 1);
    }
}

/// The words of an identifier, put together, are the identifier, and no
/// word of an identifier with letters is empty.
pub proof fn law_words_make_the_identifier(letters: Seq<(char, bool)>)
    ensures
        words_of(letters).flatten() == chars_of(letters),
        letters.len() > 0 ==> forall|k: int|
            0 <= k < words_of(letters).len() ==> (#[trigger] words_of(letters)[k]).len() > 0,
{
    lemma_words_from(letters, 0, 0);
    assert(chars_of(letters).subrange(0, letters.len() as int) =~= chars_of(letters));
}

/// `char::is_uppercase` of std, which goes by Unicode's `Uppercase` property.
/// The contract gives the answer its name and says nothing of its value.
#[verifier::external_body]
fn char_is_uppercase(c: char) -> (r: bool)
    ensures
        r == is_uppercase(c),
{
    c.is_uppercase()
}

/// `String::push` of std: the character is appended at the end.
#[verifier::external_body]
fn push_char(s: &mut String, c: char)
    ensures
        final(s)@ == old(s)@.push(c),
{
    s.push(c)
}

/// `Itertools::tuple_windows` of itertools, taken at triples: every run of
/// three neighbours in order of its first element, and none where fewer than
/// three elements exist.
#[verifier::external_body]
fn letter_windows(letters: &Vec<(char, bool)>) -> (r: Vec<((char, bool), (char, bool), (char, bool))>)
    ensures
        r@.len() == (if letters@.len() >= 2 {
            letters@.len() - 2
        } else {
            0
        }),
        forall|i: int|
            0 <= i < r@.len() ==> #[trigger] r@[i] == (
                letters@[i],
                letters@[i + 1],
                letters@[i + 2],
            ),
{
    letters.iter().copied().tuple_windows().collect()
}

/// Splits a run of letters into words.
///
/// Each letter comes with the caller's judgement of whether it is uppercase,
/// so the split itself depends on nothing else.
pub fn split_words(letters: &Vec<(char, bool)>) -> (words: Vec<String>)
    ensures
        texts(words@) == words_of(letters@),
{
    let windows = letter_windows(letters);
    let mut words: Vec<String> = Vec::new();
    let mut current_word = String::new();
    let ghost mut start: int = 0;
    let mut i: usize = 0;
    assert(texts(words@) =~= Seq::empty());
    while i < windows.len()
        invariant
            windows@.len() == (if letters@.len() >= 2 {
                letters@.len() - 2
            } else {
                0
            }),
            forall|k: int|
                0 <= k < windows@.len() ==> #[trigger] windows@[k] == (
                    letters@[k],
                    letters@[k + 1],
                    letters@[k + 2],
                ),
            i <= windows.len(),
            0 <= start <= i,
            current_word@ == chars_of(letters@).subrange(start, i as int),
            words_of(letters@) == texts(words@) + words_from(letters@, start, i as int),
        decreases windows.len() - i,
    {
        let (current, next, next_next) = windows[i];
        let ghost before = texts(words@);
        let ghost word = chars_of(letters@).subrange(start, i + 1);
        assert(word == chars_of(letters@).subrange(start, i as int).push(current.0));
        if current.1 {
            if next.1 {
                push_char(&mut current_word, current.0);
                if !next_next.1 {
                    words.push(current_word);
                    current_word = String::new();
                    proof {
                        start = i + 1;
                    }
                }
            } else {
                push_char(&mut current_word, current.0);
            }
        } else {
            push_char(&mut current_word, current.0);
            if next.1 {
                words.push(current_word);
                current_word = String::new();
                proof {
                    start = i + 1;
                }
            }
        }
        proof {
            if word_ends_at(letters@, i as int) {
                let rest = words_from(letters@, i + 1, i + 1);
                assert(texts(words@) =~= before.push(word));
                assert(before + (seq![word] + rest) =~= before.push(word) + rest);
                assert(current_word@ =~= chars_of(letters@).subrange(i + 1, i + 1));
            }
        }
        i += 1;
    }
    // No window starts at the last two letters: they close the last word.
    // Of at most two letters no window starts at all, and they are the word.
    let mut j: usize = i;
    while j < letters.len()
        invariant
            i <= j <= letters.len(),
            0 <= start <= i,
            current_word@ == chars_of(letters@).subrange(start, j as int),
        decreases letters.len() - j,
    {
        assert(chars_of(letters@).subrange(start, j + 1) == chars_of(letters@).subrange(
            start,
            j as int,
        ).push(letters@[j as int].0));
        push_char(&mut current_word, letters[j].0);
        j += 1;
    }
    let ghost before = texts(words@);
    words.push(current_word);
    assert(texts(words@) =~= before.push(chars_of(letters@).subrange(start, letters@.len() as int)));
    words
}

/// Splits an identifier into its words, by the uppercase letters of std.
pub fn break_into_words(identifier: &str) -> (words: Vec<String>)
    ensures
        texts(words@) == words_of(letters_of(identifier@)),
{
    let mut letters: Vec<(char, bool)> = Vec::new();
    for c in it: identifier.chars()
        invariant
            it.seq() == identifier@,
            letters@ == letters_of(identifier@.take(it.index() as int)),
    {
        letters.push((c, char_is_uppercase(c)));
    }
    assert(identifier@.take(identifier@.len() as int) == identifier@);
    split_words(&letters)
}

} // verus!
