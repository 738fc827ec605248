//! The substitution file: a list of new names that is kept between runs.
//!
//! A line `name->other` says that `other` stands in for `name`. A line
//! without `->` says nothing and is passed over.

use crate::name_map::{keys_of, lemma_map_of_keys, values_of, NameMap};
use crate::order::compare_names;
use crate::syntax::views;
use crate::text::{
    lemma_lex_lt_total, lemma_strictly_sorted_distinct, lex_lt, strictly_sorted, texts,
};
use itertools::Itertools;
use vstd::prelude::*;
use vstd::string::StringExecFns;

verus! {

/// Whether the separator `->` begins at `i`.
pub open spec fn separator_at(line: Seq<char>, i: int) -> bool {
    0 <= i && i + 1 < line.len() && line[i] == '-' && line[i + 1] == '>'
}

/// Where the first separator at or after `from` begins; the line's length
/// where there is none.
pub open spec fn next_separator(line: Seq<char>, from: int) -> int
    decreases line.len() - from,
{
    if from >= line.len() {
        line.len() as int
    } else if separator_at(line, from) {
        from
    } else {
        next_separator(line, from + 1)
    }
}

/// What a line says: the text before its first separator, and the text from
/// there to the next separator or to the end. A line without a separator says
/// nothing.
pub open spec fn parse_line(line: Seq<char>) -> Option<(Seq<char>, Seq<char>)> {
    let at = next_separator(line, 0);
    if at >= line.len() {
        None
    } else {
        Some((line.subrange(0, at), line.subrange(at + 2, next_separator(line, at + 2))))
    }
}

/// What the first `upto` lines say together. A later line overrules an
/// earlier one with the same name.
pub open spec fn substitutions(lines: Seq<Seq<char>>, upto: int) -> Map<Seq<char>, Seq<char>>
    decreases upto,
{
    if upto <= 0 {
        Map::empty()
    } else {
        let earlier = substitutions(lines, upto - 1);
        match parse_line(lines[upto - 1]) {
            Some((name, other)) => earlier.insert(name, other),
            None => earlier,
        }
    }
}

/// The separator is found between `from` and the line's end.
pub proof fn lemma_next_separator(line: Seq<char>, from: int)
    requires
        0 <= from,
    ensures
        from <= next_separator(line, from) || next_separator(line, from) == line.len(),
        next_separator(line, from) <= line.len(),
        next_separator(line, from) < line.len() ==> separator_at(line, next_separator(line, from)),
        forall|i: int| from <= i < next_separator(line, from) ==> !separator_at(line, i),
    decreases line.len() - from,
{
    if from < line.len() && !separator_at(line, from) {
        lemma_next_separator(line, from + 1);
    }
}

/// Finds the first separator at or after `from`.
fn find_separator(line: &str, from: usize) -> (r: usize)
    ensures
        r == next_separator(line@, from as int),
{
    let n: usize = line.unicode_len();
    let mut i: usize = from;
    while i < n
        invariant
            n == line@.len(),
            from <= i,
            next_separator(line@, from as int) == next_separator(line@, i as int),
        decreases n - i,
    {
        if i + 1 < n && line.get_char(i) == '-' && line.get_char(i + 1) == '>' {
            return i;
        }
        i += 1;
    }
    n
}

/// Reads one line of a substitution file.
pub fn read_line(line: &str) -> (r: Option<(String, String)>)
    ensures
        match r {
            Some(pair) => parse_line(line@) == Some((pair.0@, pair.1@)),
            None => parse_line(line@) is None,
        },
{
    let n: usize = line.unicode_len();
    let at = find_separator(line, 0);
    if at >= n {
        None
    } else {
        proof {
            lemma_next_separator(line@, 0);
            lemma_next_separator(line@, at + 2);
        }
        let end = find_separator(line, at + 2);
        let name = line.substring_char(0, at).to_owned();
        let other = line.substring_char(at + 2, end).to_owned();
        Some((name, other))
    }
}

/// Reads the lines of a substitution file.
pub fn read_type_names(lines: &Vec<String>) -> (mapped_types: NameMap)
    ensures
        mapped_types@ == substitutions(texts(lines@), lines@.len() as int),
{
    let mut mapped_types = NameMap::new();
    let mut i: usize = 0;
    while i < lines.len()
        invariant
            i <= lines.len(),
            mapped_types@ == substitutions(texts(lines@), i as int),
        decreases lines.len() - i,
    {
        assert(texts(lines@)[i as int] == lines@[i as int]@);
        if let Some((name, other)) = read_line(lines[i].as_str()) {
            mapped_types.insert(name, other);
        }
        i += 1;
    }
    mapped_types
}

/// A list in which nothing comes before what precedes it.
pub open spec fn ascending(names: Seq<Seq<char>>) -> bool {
    forall|i: int, j: int| 0 <= i < j < names.len() ==> !lex_lt(#[trigger] names[j], #[trigger] names[i])
}

/// The list without the entries that repeat the entry before them.
pub open spec fn without_repeats(names: Seq<Seq<char>>) -> Seq<Seq<char>>
    decreases names.len(),
{
    if names.len() <= 1 {
        names
    } else {
        let front = without_repeats(names.drop_last());
        if names.last() == names[names.len() - 2] {
            front
        } else {
            front.push(names.last())
        }
    }
}

/// Without its repeats an ascending list is strictly sorted, and holds what
/// it held.
pub proof fn lemma_without_repeats(names: Seq<Seq<char>>)
    requires
        ascending(names),
    ensures
        strictly_sorted(without_repeats(names)),
        forall|w: Seq<char>| without_repeats(names).contains(w) <==> names.contains(w),
        names.len() > 0 ==> without_repeats(names).len() > 0 && without_repeats(names).last()
            == names.last(),
    decreases names.len(),
{
    if names.len() > 1 {
        let front = names.drop_last();
        let last = names.last();
        let prev = names[names.len() - 2];
        assert(ascending(front)) by {
            assert forall|i: int, j: int| 0 <= i < j < front.len() implies !lex_lt(
                #[trigger] front[j],
                #[trigger] front[i],
            ) by {
                assert(front[i] == names[i] && front[j] == names[j]);
            }
        }
        lemma_without_repeats(front);
        let kept = without_repeats(front);
        let all = without_repeats(names);
        assert(front.last() == prev);
        assert forall|w: Seq<char>| all.contains(w) <==> names.contains(w) by {
            if names.contains(w) {
                let i = choose|i: int| 0 <= i < names.len() && names[i] == w;
                if i < names.len() - 1 {
                    assert(front[i] == w);
                    assert(front.contains(w));
                    assert(kept.contains(w));
                    let k = choose|k: int| 0 <= k < kept.len() && kept[k] == w;
                    assert(all[k] == w);
                } else if last == prev {
                    assert(front[names.len() - 2] == w);
                    assert(front.contains(w));
                    assert(kept.contains(w));
                } else {
                    assert(all[all.len() - 1] == w);
                }
            }
            if all.contains(w) {
                let k = choose|k: int| 0 <= k < all.len() && all[k] == w;
                if k < kept.len() {
                    assert(kept[k] == w);
                    assert(kept.contains(w));
                    assert(front.contains(w));
                    let i = choose|i: int| 0 <= i < front.len() && front[i] == w;
                    assert(names[i] == w);
                } else {
                    assert(names[names.len() - 1] == w);
                }
            }
        }
        if last != prev {
            assert forall|i: int, j: int| 0 <= i < j < all.len() implies lex_lt(
                #[trigger] all[i],
                #[trigger] all[j],
            ) by {
                if j < kept.len() {
                    assert(all[i] == kept[i] && all[j] == kept[j]);
                } else {
                    assert(all[i] == kept[i]);
                    assert(kept.contains(kept[i]));
                    assert(front.contains(kept[i]));
                    let p = choose|p: int| 0 <= p < front.len() && front[p] == kept[i];
                    assert(names[p] == kept[i]);
                    // names[p] <= prev <= last, and prev differs from last
                    assert(!lex_lt(last, names[p]));
                    assert(!lex_lt(last, prev));
                    lemma_lex_lt_total(names[p], last);
                    lemma_lex_lt_total(prev, last);
                    if names[p] == last {
                        if p < names.len() - 2 {
                            assert(!lex_lt(prev, names[p]));
                        }
                    }
                }
            }
        }
    } else {
        if names.len() == 1 {
            assert(names.last() == names[0]);
        }
    }
}

/// `Itertools::sorted` of itertools on strings: the same strings, counted
/// with their repeats, in ascending order. Strings are ordered as std orders
/// them, which is the dictionary order by code point.
#[verifier::external_body]
fn sorted_names(names: Vec<String>) -> (r: Vec<String>)
    ensures
        texts(r@).to_multiset() == texts(names@).to_multiset(),
        ascending(texts(r@)),
{
    names.into_iter().sorted().collect()
}

/// `Itertools::dedup` of itertools on strings: an entry equal to the entry
/// before it is left out.
#[verifier::external_body]
fn dedup_names(names: Vec<String>) -> (r: Vec<String>)
    ensures
        texts(r@) == without_repeats(texts(names@)),
{
    names.into_iter().dedup().collect()
}

/// `Itertools::sorted_by` of itertools, comparing pairs by their second
/// parts: the same pairs, counted with their repeats, in ascending order of
/// their second parts. The sort is stable: of two pairs with the same second
/// part, the one that came first still comes first.
#[verifier::external_body]
fn sorted_by_value(pairs: Vec<(String, String)>) -> (r: Vec<(String, String)>)
    ensures
        views(r@).to_multiset() == views(pairs@).to_multiset(),
        ascending(values_of(views(r@))),
        forall|i: int, j: int|
            0 <= i < j < r@.len() && (#[trigger] views(r@)[i]).1 == (#[trigger] views(r@)[j]).1
                ==> exists|p: int, q: int|
                0 <= p < q < pairs@.len() && views(pairs@)[p] == views(r@)[i] && views(pairs@)[q]
                    == views(r@)[j],
{
    pairs.into_iter().sorted_by(|this, other| compare_names(&this.1, &other.1)).collect()
}

/// Pairs in ascending order of their values, and pairs with the same value
/// in ascending order of their keys.
pub open spec fn by_value_then_key(pairs: Seq<(Seq<char>, Seq<char>)>) -> bool {
    forall|i: int, j: int|
        0 <= i < j < pairs.len() ==> {
            let a = #[trigger] pairs[i];
            let b = #[trigger] pairs[j];
            lex_lt(a.1, b.1) || (a.1 == b.1 && lex_lt(a.0, b.0))
        }
}

/// The line of a substitution file that maps `pair.0` to `pair.1`.
pub open spec fn line_of(pair: (Seq<char>, Seq<char>)) -> Seq<char> {
    pair.0 + "->"@ + pair.1
}

/// The new names in a map, each once, in ascending order.
pub fn canonical_names(mapped_types: &NameMap) -> (r: Vec<String>)
    ensures
        strictly_sorted(texts(r@)),
        forall|name: Seq<char>|
            texts(r@).contains(name) <==> values_of(mapped_types.pairs()).contains(name),
{
    let entries = mapped_types.entries();
    let mut values: Vec<String> = Vec::new();
    let mut i: usize = 0;
    while i < entries.len()
        invariant
            i <= entries.len(),
            values@.len() == i,
            forall|j: int| 0 <= j < i ==> (#[trigger] values@[j])@ == entries@[j].1@,
        decreases entries.len() - i,
    {
        values.push(entries[i].1.clone());
        i += 1;
    }
    assert(texts(values@) =~= values_of(mapped_types.pairs()));
    let sorted = sorted_names(values);
    let names = dedup_names(sorted);
    proof {
        lemma_without_repeats(texts(sorted@));
        texts(sorted@).to_multiset_ensures();
        texts(values@).to_multiset_ensures();
        assert forall|name: Seq<char>|
            texts(names@).contains(name) <==> values_of(mapped_types.pairs()).contains(name) by {
            assert(texts(names@).contains(name) <==> texts(sorted@).contains(name));
            assert(texts(sorted@).contains(name) <==> texts(sorted@).to_multiset().count(name) > 0);
            assert(texts(values@).contains(name) <==> texts(values@).to_multiset().count(name) > 0);
        }
    }
    names
}

/// The pairs of a map in ascending order of their values, and pairs with
/// the same value in ascending order of their keys.
pub fn type_mappings(mapped_types: &NameMap) -> (r: Vec<(String, String)>)
    ensures
        by_value_then_key(views(r@)),
        views(r@).to_multiset() == mapped_types.pairs().to_multiset(),
{
    let entries = mapped_types.entries();
    let mut pairs: Vec<(String, String)> = Vec::new();
    let mut i: usize = 0;
    while i < entries.len()
        invariant
            i <= entries.len(),
            pairs@.len() == i,
            forall|j: int| 0 <= j < i ==> (#[trigger] pairs@[j])@ == entries@[j]@,
        decreases entries.len() - i,
    {
        pairs.push((entries[i].0.clone(), entries[i].1.clone()));
        i += 1;
    }
    assert(views(pairs@) =~= mapped_types.pairs());
    let sorted = sorted_by_value(pairs);
    proof {
        let before = mapped_types.pairs();
        let after = views(sorted@);
        assert forall|i: int, j: int| 0 <= i < j < after.len() implies {
            let a = #[trigger] after[i];
            let b = #[trigger] after[j];
            lex_lt(a.1, b.1) || (a.1 == b.1 && lex_lt(a.0, b.0))
        } by {
            let a = after[i];
            let b = after[j];
            assert(values_of(after)[i] == a.1 && values_of(after)[j] == b.1);
            lemma_lex_lt_total(a.1, b.1);
            if a.1 == b.1 {
                let (p, q) = choose|p: int, q: int|
                    0 <= p < q < before.len() && before[p] == after[i] && before[q] == after[j];
                assert(keys_of(before)[p] == a.0 && keys_of(before)[q] == b.0);
            }
        }
    }
    sorted
}

/// The lines of the two lists that are kept between runs: the new names,
/// each once, in ascending order; and a line for each pair of the map in
/// ascending order of the new names, and of the old names under one new name.
pub fn write_type_names(mapped_types: &NameMap) -> (r: (Vec<String>, Vec<String>))
    ensures
        strictly_sorted(texts(r.0@)),
        forall|name: Seq<char>|
            texts(r.0@).contains(name) <==> values_of(mapped_types.pairs()).contains(name),
        exists|pairs: Seq<(Seq<char>, Seq<char>)>|
            {
                &&& by_value_then_key(pairs)
                &&& pairs.to_multiset() == mapped_types.pairs().to_multiset()
                &&& texts(r.1@) == lines_of(pairs)
            },
{
    let names = canonical_names(mapped_types);
    let pairs = type_mappings(mapped_types);
    let mut lines: Vec<String> = Vec::new();
    let mut i: usize = 0;
    while i < pairs.len()
        invariant
            i <= pairs.len(),
            lines@.len() == i,
            forall|j: int| 0 <= j < i ==> (#[trigger] lines@[j])@ == line_of(views(pairs@)[j]),
        decreases pairs.len() - i,
    {
        let mut line = pairs[i].0.clone();
        line.append("->");
        line.append(pairs[i].1.as_str());
        assert(views(pairs@)[i as int] == pairs@[i as int]@);
        lines.push(line);
        i += 1;
    }
    assert(texts(lines@) =~= lines_of(views(pairs@)));
    (names, lines)
}

/// Whether a text holds the separator.
pub open spec fn has_separator(text: Seq<char>) -> bool {
    exists|i: int| separator_at(text, i)
}

/// The first separator from `from` on begins at `at` if one begins there
/// and none between `from` and `at`.
pub proof fn lemma_next_separator_is(line: Seq<char>, from: int, at: int)
    requires
        0 <= from <= at <= line.len(),
        at < line.len() ==> separator_at(line, at),
        forall|i: int| from <= i < at ==> !separator_at(line, i),
    ensures
        next_separator(line, from) == at,
    decreases at - from,
{
    if from < at {
        lemma_next_separator_is(line, from + 1, at);
    }
}

/// The line that is written for a pair is read as that pair, where neither
/// part of the pair holds the separator.
pub proof fn lemma_read_written_line(pair: (Seq<char>, Seq<char>))
    requires
        !has_separator(pair.0),
        !has_separator(pair.1),
    ensures
        parse_line(line_of(pair)) == Some(pair),
{
    reveal_strlit("->");
    let line = line_of(pair);
    let at = pair.0.len() as int;
    assert(line.len() == pair.0.len() + 2 + pair.1.len());
    assert(line[at] == '-' && line[at + 1] == '>');
    assert forall|i: int| 0 <= i < at implies !separator_at(line, i) by {
        if i + 1 < at {
            assert(line[i] == pair.0[i] && line[i + 1] == pair.0[i + 1]);
            assert(!separator_at(pair.0, i));
        } else {
            assert(line[i + 1] == '-');
        }
    }
    lemma_next_separator_is(line, 0, at);
    assert forall|i: int| at + 2 <= i < line.len() implies !separator_at(line, i) by {
        if i + 1 < line.len() {
            assert(line[i] == pair.1[i - at - 2] && line[i + 1] == pair.1[i - at - 1]);
            assert(!separator_at(pair.1, i - at - 2));
        }
    }
    lemma_next_separator_is(line, at + 2, line.len() as int);
    assert(line.subrange(0, at) =~= pair.0);
    assert(line.subrange(at + 2, line.len() as int) =~= pair.1);
}

/// The lines that are written for a list of pairs.
pub open spec fn lines_of(pairs: Seq<(Seq<char>, Seq<char>)>) -> Seq<Seq<char>> {
    pairs.map_values(|pair: (Seq<char>, Seq<char>)| line_of(pair))
}

proof fn lemma_read_written_lines(pairs: Seq<(Seq<char>, Seq<char>)>, upto: int)
    requires
        0 <= upto <= pairs.len(),
        forall|i: int|
            0 <= i < pairs.len() ==> !has_separator((#[trigger] pairs[i]).0) && !has_separator(
                pairs[i].1,
            ),
    ensures
        substitutions(lines_of(pairs), upto) == crate::name_map::map_of(pairs.take(upto)),
    decreases upto,
{
    if upto > 0 {
        lemma_read_written_lines(pairs, upto - 1);
        lemma_read_written_line(pairs[upto - 1]);
        assert(pairs.take(upto).drop_last() =~= pairs.take(upto - 1));
        assert(pairs.take(upto).last() == pairs[upto - 1]);
        assert(lines_of(pairs)[upto - 1] == line_of(pairs[upto - 1]));
    } else {
        assert(pairs.take(upto) =~= Seq::empty());
    }
}

/// The substitution file keeps a map. The lines that `write_type_names`
/// writes for a map are read by `read_type_names` as that map, provided
/// that no name in the map holds the separator.
pub proof fn law_written_names_are_read(
    pairs: Seq<(Seq<char>, Seq<char>)>,
    written: Seq<(Seq<char>, Seq<char>)>,
)
    requires
        strictly_sorted(keys_of(pairs)),
        by_value_then_key(written),
        written.to_multiset() == pairs.to_multiset(),
        forall|i: int|
            0 <= i < pairs.len() ==> !has_separator((#[trigger] pairs[i]).0) && !has_separator(
                pairs[i].1,
            ),
    ensures
        substitutions(lines_of(written), written.len() as int) == crate::name_map::map_of(pairs),
{
    pairs.to_multiset_ensures();
    written.to_multiset_ensures();
    assert forall|i: int| 0 <= i < written.len() implies !has_separator(
        (#[trigger] written[i]).0,
    ) && !has_separator(written[i].1) by {
        assert(written.contains(written[i]));
        assert(pairs.to_multiset().count(written[i]) > 0);
        assert(pairs.contains(written[i]));
        let p = choose|p: int| 0 <= p < pairs.len() && pairs[p] == written[i];
        assert(!has_separator(pairs[p].0));
    }
    lemma_read_written_lines(written, written.len() as int);
    assert(written.take(written.len() as int) =~= written);
    lemma_strictly_sorted_distinct(keys_of(pairs));
    assert forall|a: int, b: int|
        0 <= a < pairs.len() && 0 <= b < pairs.len() && a != b implies pairs[a].0
        != pairs[b].0 by {
        assert(keys_of(pairs)[a] != keys_of(pairs)[b]);
    }
    assert forall|a: int, b: int|
        0 <= a < written.len() && 0 <= b < written.len() && a != b implies written[a].0
        != written[b].0 by {
        if written[a].0 == written[b].0 {
            assert(written.contains(written[a]));
            assert(pairs.to_multiset().count(written[a]) > 0);
            assert(pairs.contains(written[a]));
            let p = choose|p: int| 0 <= p < pairs.len() && pairs[p] == written[a];
            assert(written.contains(written[b]));
            assert(pairs.to_multiset().count(written[b]) > 0);
            assert(pairs.contains(written[b]));
            let q = choose|q: int| 0 <= q < pairs.len() && pairs[q] == written[b];
            assert(p == q);
            crate::text::lemma_lex_lt_irreflexive(written[a].0);
            crate::text::lemma_lex_lt_irreflexive(written[a].1);
            if a < b {
                assert(by_value_then_key(written));
                let x = written[a];
                let y = written[b];
                assert(lex_lt(x.1, y.1) || (x.1 == y.1 && lex_lt(x.0, y.0)));
            } else {
                let x = written[b];
                let y = written[a];
                assert(lex_lt(x.1, y.1) || (x.1 == y.1 && lex_lt(x.0, y.0)));
            }
        }
    }
    lemma_map_of_keys(pairs);
    lemma_map_of_keys(written);
    let ours = crate::name_map::map_of(written);
    let theirs = crate::name_map::map_of(pairs);
    assert forall|k: Seq<char>| ours.contains_key(k) <==> theirs.contains_key(k) by {
        if keys_of(written).contains(k) {
            let i = choose|i: int| 0 <= i < written.len() && keys_of(written)[i] == k;
            assert(written.contains(written[i]));
            assert(pairs.to_multiset().count(written[i]) > 0);
            assert(pairs.contains(written[i]));
            let p = choose|p: int| 0 <= p < pairs.len() && pairs[p] == written[i];
            assert(keys_of(pairs)[p] == k);
        }
        if keys_of(pairs).contains(k) {
            let p = choose|p: int| 0 <= p < pairs.len() && keys_of(pairs)[p] == k;
            assert(pairs.contains(pairs[p]));
            assert(written.to_multiset().count(pairs[p]) > 0);
            assert(written.contains(pairs[p]));
            let i = choose|i: int| 0 <= i < written.len() && written[i] == pairs[p];
            assert(keys_of(written)[i] == k);
        }
    }
    assert forall|k: Seq<char>| ours.contains_key(k) implies ours[k] == theirs[k] by {
        let i = choose|i: int| 0 <= i < written.len() && keys_of(written)[i] == k;
        assert(written.contains(written[i]));
        assert(pairs.to_multiset().count(written[i]) > 0);
        assert(pairs.contains(written[i]));
        let p = choose|p: int| 0 <= p < pairs.len() && pairs[p] == written[i];
        crate::name_map::lemma_map_of_values(written, i);
        crate::name_map::lemma_map_of_values(pairs, p);
    }
    assert(ours =~= theirs);
}

} // verus!
