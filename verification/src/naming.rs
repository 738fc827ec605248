//! The name of a merged declaration: the words that the names it replaces
//! have in common, behind a fixed prefix.

use crate::name_map::NameMap;
use crate::text::{
    lemma_lex_lt_total, lemma_sorted_insert, lemma_strictly_sorted_unique, lex_lt, same_text,
    str_lt, strictly_sorted, texts,
};
use crate::words::{break_into_words, letters_of, words_of};
use vstd::prelude::*;
use vstd::string::StringExecFns;

verus! {

/// The word lists behind a slice of vectors of strings.
pub open spec fn word_lists(lists: Seq<Vec<String>>) -> Seq<Seq<Seq<char>>> {
    lists.map_values(|list: Vec<String>| texts(list@))
}

/// Whether a word occurs in each of the lists.
pub open spec fn in_every(lists: Seq<Seq<Seq<char>>>, word: Seq<char>) -> bool {
    forall|i: int| 0 <= i < lists.len() ==> (#[trigger] lists[i]).contains(word)
}

/// Whether `common` is what the lists have in common: each word that occurs
/// in every list, once, in ascending dictionary order. No lists have nothing
/// in common.
pub open spec fn is_common_words(lists: Seq<Seq<Seq<char>>>, common: Seq<Seq<char>>) -> bool {
    &&& strictly_sorted(common)
    &&& forall|word: Seq<char>| #[trigger]
        common.contains(word) <==> lists.len() > 0 && in_every(lists, word)
}

/// What the lists have in common; `lemma_common_words_unique` shows that
/// there is one such list only.
pub open spec fn common_words_of(lists: Seq<Seq<Seq<char>>>) -> Seq<Seq<char>> {
    choose|common: Seq<Seq<char>>| is_common_words(lists, common)
}

/// Any list that is what the lists have in common is `common_words_of`.
pub proof fn lemma_common_words_unique(lists: Seq<Seq<Seq<char>>>, common: Seq<Seq<char>>)
    requires
        is_common_words(lists, common),
    ensures
        common == common_words_of(lists),
{
    let other = common_words_of(lists);
    assert(is_common_words(lists, other));
    assert forall|word: Seq<char>| common.contains(word) <==> other.contains(word) by {
        assert(common.contains(word) <==> lists.len() > 0 && in_every(lists, word));
        assert(other.contains(word) <==> lists.len() > 0 && in_every(lists, word));
    }
    lemma_strictly_sorted_unique(common, other);
}

/// Puts a word into a sorted list of words, unless the list has it.
fn insert_sorted(list: &mut Vec<String>, word: String)
    requires
        strictly_sorted(texts(old(list)@)),
    ensures
        strictly_sorted(texts(final(list)@)),
        forall|w: Seq<char>| #[trigger]
            texts(final(list)@).contains(w) <==> texts(old(list)@).contains(w) || w == word@,
{
    let ghost before = texts(list@);
    let mut i: usize = 0;
    let mut passed = false;
    while i < list.len() && !passed
        invariant
            i <= list.len(),
            list@ == old(list)@,
            before == texts(list@),
            strictly_sorted(before),
            forall|j: int| 0 <= j < i ==> lex_lt(#[trigger] before[j], word@),
            passed ==> i < list.len() && lex_lt(word@, before[i as int]),
        decreases list.len() - i + (if passed { 0int } else { 1int }),
    {
        let entry = list[i].as_str();
        assert(entry@ == before[i as int]);
        if same_text(entry, word.as_str()) {
            assert(before.contains(word@));
            return ;
        }
        if str_lt(entry, word.as_str()) {
            i += 1;
        } else {
            proof {
                lemma_lex_lt_total(entry@, word@);
            }
            passed = true;
        }
    }
    proof {
        lemma_sorted_insert(before, i as int, word@);
    }
    list.insert(i, word);
    proof {
        let after = texts(list@);
        assert(after =~= before.insert(i as int, word@));
        assert forall|w: Seq<char>| #[trigger] after.contains(w) <==> before.contains(w) || w
            == word@ by {
            if after.contains(w) {
                let j = choose|j: int| 0 <= j < after.len() && after[j] == w;
                if j < i {
                    assert(before[j] == w);
                } else if j > i {
                    assert(before[j - 1] == w);
                }
            }
            if before.contains(w) {
                let j = choose|j: int| 0 <= j < before.len() && before[j] == w;
                if j < i {
                    assert(after[j] == w);
                } else {
                    assert(after[j + 1] == w);
                }
            }
            if w == word@ {
                assert(after[i as int] == w);
            }
        }
    }
}

/// Whether a word is in a list of words.
fn has_word(list: &Vec<String>, word: &str) -> (r: bool)
    ensures
        r == texts(list@).contains(word@),
{
    let mut i: usize = 0;
    while i < list.len()
        invariant
            i <= list.len(),
            forall|j: int| 0 <= j < i ==> (#[trigger] texts(list@)[j]) != word@,
        decreases list.len() - i,
    {
        if same_text(list[i].as_str(), word) {
            assert(texts(list@)[i as int] == word@);
            return true;
        }
        i += 1;
    }
    false
}

/// The words that all the lists have in common, each once, in ascending
/// dictionary order. Without any list the answer is empty.
pub fn common_words(words_sets: &[Vec<String>]) -> (r: Vec<String>)
    ensures
        is_common_words(word_lists(words_sets@), texts(r@)),
        texts(r@) == common_words_of(word_lists(words_sets@)),
{
    let ghost lists = word_lists(words_sets@);
    let mut intersection: Vec<String> = Vec::new();
    assert(texts(intersection@) =~= Seq::empty());
    if words_sets.len() == 0 {
        proof {
            lemma_common_words_unique(lists, texts(intersection@));
        }
        return intersection;
    }
    let first = &words_sets[0];
    assert(lists[0] == texts(first@));
    let mut i: usize = 0;
    while i < first.len()
        invariant
            i <= first.len(),
            lists == word_lists(words_sets@),
            words_sets@.len() > 0,
            lists[0] == texts(first@),
            strictly_sorted(texts(intersection@)),
            forall|word: Seq<char>| #[trigger]
                texts(intersection@).contains(word) <==> in_every(lists, word) && exists|j: int|
                    0 <= j < i && texts(first@)[j] == word,
        decreases first.len() - i,
    {
        let word = &first[i];
        assert(texts(first@)[i as int] == word@);
        let mut everywhere = true;
        let mut k: usize = 0;
        while k < words_sets.len()
            invariant
                k <= words_sets.len(),
                lists == word_lists(words_sets@),
                everywhere == (forall|j: int| 0 <= j < k ==> (#[trigger] lists[j]).contains(word@)),
            decreases words_sets.len() - k,
        {
            assert(lists[k as int] == texts(words_sets@[k as int]@));
            if !has_word(&words_sets[k], word.as_str()) {
                everywhere = false;
            }
            k += 1;
        }
        let ghost before = texts(intersection@);
        if everywhere {
            insert_sorted(&mut intersection, word.clone());
        }
        proof {
            let after = texts(intersection@);
            assert forall|w: Seq<char>| #[trigger]
                after.contains(w) <==> in_every(lists, w) && exists|j: int|
                    0 <= j < i + 1 && texts(first@)[j] == w by {
                if before.contains(w) {
                    let j = choose|j: int| 0 <= j < i && texts(first@)[j] == w;
                    assert(0 <= j < i + 1 && texts(first@)[j] == w);
                }
                if in_every(lists, w) && exists|j: int| 0 <= j < i + 1 && texts(first@)[j] == w {
                    let j = choose|j: int| 0 <= j < i + 1 && texts(first@)[j] == w;
                    if j < i {
                        assert(before.contains(w));
                    }
                }
            }
        }
        i += 1;
    }
    proof {
        let common = texts(intersection@);
        assert forall|word: Seq<char>| #[trigger]
            common.contains(word) <==> lists.len() > 0 && in_every(lists, word) by {
            if in_every(lists, word) {
                assert(lists[0].contains(word));
                let j = choose|j: int| 0 <= j < lists[0].len() && lists[0][j] == word;
                assert(0 <= j < first.len() && texts(first@)[j] == word);
            }
        }
        lemma_common_words_unique(lists, common);
    }
    intersection
}

/// The words of each of a list of names.
pub open spec fn name_words(names: Seq<Seq<char>>) -> Seq<Seq<Seq<char>>> {
    names.map_values(|name: Seq<char>| words_of(letters_of(name)))
}

/// The name made for the declarations that go by `names`: the prefix
/// `Common`, then the words that the names have in common, in ascending
/// dictionary order.
pub open spec fn generated_name(names: Seq<Seq<char>>) -> Seq<char> {
    "Common"@ + common_words_of(name_words(names)).flatten()
}

/// The name that the merged declaration gets: the made name, or what
/// `customized` puts in its place.
pub open spec fn substitute_name(
    customized: Map<Seq<char>, Seq<char>>,
    names: Seq<Seq<char>>,
) -> Seq<char> {
    let generated = generated_name(names);
    if customized.contains_key(generated) {
        customized[generated]
    } else {
        generated
    }
}

/// Names the declaration that takes the place of those that go by the names
/// in `v`.
pub fn create_type_name_substitute(customized_names_from_file: &NameMap, v: &Vec<String>) -> (r:
    String)
    ensures
        r@ == substitute_name(customized_names_from_file@, texts(v@)),
{
    let mut words: Vec<Vec<String>> = Vec::new();
    let mut i: usize = 0;
    while i < v.len()
        invariant
            i <= v.len(),
            word_lists(words@) == name_words(texts(v@).take(i as int)),
        decreases v.len() - i,
    {
        let ghost before = word_lists(words@);
        let split = break_into_words(v[i].as_str());
        words.push(split);
        assert(word_lists(words@) =~= before.push(words_of(letters_of(v@[i as int]@))));
        assert(texts(v@).take(i + 1) =~= texts(v@).take(i as int).push(v@[i as int]@));
        assert(name_words(texts(v@).take(i + 1)) =~= name_words(texts(v@).take(i as int)).push(
            words_of(letters_of(v@[i as int]@)),
        ));
        i += 1;
    }
    assert(texts(v@).take(v@.len() as int) =~= texts(v@));
    let common_words = common_words(words.as_slice());
    let ghost common = texts(common_words@);
    let mut new_name = String::from_str("Common");
    let mut k: usize = 0;
    assert(common.take(0).flatten() =~= Seq::<char>::empty());
    while k < common_words.len()
        invariant
            k <= common_words.len(),
            common == texts(common_words@),
            new_name@ == "Common"@ + common.take(k as int).flatten(),
        decreases common_words.len() - k,
    {
        new_name.append(common_words[k].as_str());
        proof {
            common.take(k as int).lemma_flatten_push(common[k as int]);
            assert(common.take(k + 1) =~= common.take(k as int).push(common[k as int]));
        }
        k += 1;
    }
    assert(common.take(common.len() as int) =~= common);
    if let Some(customized_name) = customized_names_from_file.get(new_name.as_str()) {
        customized_name.clone()
    } else {
        new_name
    }
}

} // verus!
