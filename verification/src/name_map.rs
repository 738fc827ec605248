//! A map from names to names, kept in ascending order of its keys.

use crate::syntax::views;
use crate::text::{
    lemma_lex_lt_total, lemma_sorted_insert, lemma_strictly_sorted_distinct, lex_lt, same_text,
    str_lt, strictly_sorted, texts,
};
use vstd::prelude::*;

verus! {

/// The keys of a list of pairs.
pub open spec fn keys_of(pairs: Seq<(Seq<char>, Seq<char>)>) -> Seq<Seq<char>> {
    pairs.map_values(|p: (Seq<char>, Seq<char>)| p.0)
}

/// The values of a list of pairs.
pub open spec fn values_of(pairs: Seq<(Seq<char>, Seq<char>)>) -> Seq<Seq<char>> {
    pairs.map_values(|p: (Seq<char>, Seq<char>)| p.1)
}

/// The map that a list of pairs spells out. Where a key occurs more than
/// once, the last pair with it counts.
pub open spec fn map_of(pairs: Seq<(Seq<char>, Seq<char>)>) -> Map<Seq<char>, Seq<char>>
    decreases pairs.len(),
{
    if pairs.len() == 0 {
        Map::empty()
    } else {
        map_of(pairs.drop_last()).insert(pairs.last().0, pairs.last().1)
    }
}

/// The keys of `map_of(pairs)` are the keys of the pairs.
pub proof fn lemma_map_of_keys(pairs: Seq<(Seq<char>, Seq<char>)>)
    ensures
        forall|k: Seq<char>| #[trigger] map_of(pairs).contains_key(k) <==> keys_of(pairs).contains(k),
    decreases pairs.len(),
{
    if pairs.len() > 0 {
        let front = pairs.drop_last();
        lemma_map_of_keys(front);
        assert forall|k: Seq<char>| #[trigger]
            map_of(pairs).contains_key(k) <==> keys_of(pairs).contains(k) by {
            assert(map_of(pairs).contains_key(k) <==> (k == pairs.last().0 || map_of(
                front,
            ).contains_key(k)));
            if keys_of(pairs).contains(k) {
                let i = choose|i: int| 0 <= i < pairs.len() && keys_of(pairs)[i] == k;
                if i < pairs.len() - 1 {
                    assert(front[i] == pairs[i]);
                    assert(keys_of(front)[i] == k);
                    assert(keys_of(front).contains(k));
                }
            }
            if keys_of(front).contains(k) {
                let i = choose|i: int| 0 <= i < front.len() && keys_of(front)[i] == k;
                assert(front[i] == pairs[i]);
                assert(keys_of(pairs)[i] == k);
            }
            if k == pairs.last().0 {
                assert(keys_of(pairs)[pairs.len() - 1] == k);
            }
        }
    }
}

/// Where no key occurs twice, each pair's key is mapped to that pair's value.
pub proof fn lemma_map_of_values(pairs: Seq<(Seq<char>, Seq<char>)>, i: int)
    requires
        0 <= i < pairs.len(),
        forall|a: int, b: int|
            0 <= a < pairs.len() && 0 <= b < pairs.len() && a != b ==> pairs[a].0 != pairs[b].0,
    ensures
        map_of(pairs).contains_key(pairs[i].0),
        map_of(pairs)[pairs[i].0] == pairs[i].1,
    decreases pairs.len(),
{
    if i < pairs.len() - 1 {
        let front = pairs.drop_last();
        assert forall|a: int, b: int|
            0 <= a < front.len() && 0 <= b < front.len() && a != b implies front[a].0
            != front[b].0 by {
            assert(front[a] == pairs[a] && front[b] == pairs[b]);
        }
        lemma_map_of_values(front, i);
        assert(front[i] == pairs[i]);
    }
}

/// A map from names to names. Its pairs are held in strictly ascending order
/// of their keys, so that they are walked in that order.
#[derive(Debug, PartialEq, Eq)]
pub struct NameMap {
    entries: Vec<(String, String)>,
}

impl View for NameMap {
    type V = Map<Seq<char>, Seq<char>>;

    open spec fn view(&self) -> Map<Seq<char>, Seq<char>> {
        map_of(self.pairs())
    }
}

impl NameMap {
    #[verifier::type_invariant]
    closed spec fn ordered(self) -> bool {
        strictly_sorted(keys_of(views(self.entries@)))
    }

    /// The pairs of the map in ascending order of their keys.
    pub closed spec fn pairs(self) -> Seq<(Seq<char>, Seq<char>)> {
        views(self.entries@)
    }

    /// The empty map.
    pub fn new() -> (r: NameMap)
        ensures
            r.pairs() == Seq::<(Seq<char>, Seq<char>)>::empty(),
            r@ == Map::<Seq<char>, Seq<char>>::empty(),
    {
        let r = NameMap { entries: Vec::new() };
        assert(r.pairs() =~= Seq::empty());
        r
    }

    /// The number of pairs.
    pub fn len(&self) -> (r: usize)
        ensures
            r == self.pairs().len(),
    {
        self.entries.len()
    }

    /// The pairs in ascending order of their keys.
    pub fn entries(&self) -> (r: &Vec<(String, String)>)
        ensures
            views(r@) == self.pairs(),
            strictly_sorted(keys_of(self.pairs())),
    {
        proof {
            use_type_invariant(self);
        }
        &self.entries
    }

    /// The keys in ascending order.
    pub fn keys(&self) -> (r: Vec<String>)
        ensures
            texts(r@) == keys_of(self.pairs()),
            texts(r@).to_set() == self@.dom(),
    {
        let mut keys: Vec<String> = Vec::new();
        let mut i: usize = 0;
        while i < self.entries.len()
            invariant
                i <= self.entries.len(),
                keys@.len() == i,
                forall|j: int| 0 <= j < i ==> (#[trigger] keys@[j])@ == self.entries@[j].0@,
            decreases self.entries.len() - i,
        {
            keys.push(self.entries[i].0.clone());
            i += 1;
        }
        proof {
            assert(texts(keys@) =~= keys_of(self.pairs()));
            lemma_map_of_keys(self.pairs());
            assert(texts(keys@).to_set() =~= self@.dom());
        }
        keys
    }

    /// Where `key` stands, or where it would have to be put.
    fn position(&self, key: &str) -> (r: (usize, bool))
        ensures
            r.0 <= self.pairs().len(),
            forall|i: int| 0 <= i < r.0 ==> lex_lt(#[trigger] keys_of(self.pairs())[i], key@),
            r.1 ==> r.0 < self.pairs().len() && keys_of(self.pairs())[r.0 as int] == key@,
            !r.1 ==> (r.0 < self.pairs().len() ==> lex_lt(key@, keys_of(self.pairs())[r.0 as int])),
            !r.1 ==> !keys_of(self.pairs()).contains(key@),
    {
        proof {
            use_type_invariant(self);
        }
        let ghost keys = keys_of(self.pairs());
        let mut i: usize = 0;
        while i < self.entries.len()
            invariant
                i <= self.entries.len(),
                keys == keys_of(self.pairs()),
                self.pairs() == views(self.entries@),
                strictly_sorted(keys),
                forall|j: int| 0 <= j < i ==> lex_lt(#[trigger] keys[j], key@),
            decreases self.entries.len() - i,
        {
            let entry_key = self.entries[i].0.as_str();
            assert(entry_key@ == keys[i as int]);
            if same_text(entry_key, key) {
                return (i, true);
            }
            if !str_lt(entry_key, key) {
                proof {
                    lemma_lex_lt_total(entry_key@, key@);
                    lemma_absent_below(keys, i as int, key@);
                }
                return (i, false);
            }
            i += 1;
        }
        proof {
            lemma_absent_below(keys, i as int, key@);
        }
        (i, false)
    }

    /// Whether the map has a value for `key`.
    pub fn contains_key(&self, key: &str) -> (r: bool)
        ensures
            r == self@.contains_key(key@),
    {
        let (_, found) = self.position(key);
        proof {
            lemma_map_of_keys(self.pairs());
        }
        found
    }

    /// The value for `key`, if there is one.
    pub fn get(&self, key: &str) -> (r: Option<&String>)
        ensures
            r is Some <==> self@.contains_key(key@),
            r is Some ==> r->0@ == self@[key@],
    {
        proof {
            use_type_invariant(self);
        }
        let (at, found) = self.position(key);
        proof {
            lemma_map_of_keys(self.pairs());
        }
        if found {
            proof {
                lemma_strictly_sorted_distinct(keys_of(self.pairs()));
                assert forall|a: int, b: int|
                    0 <= a < self.pairs().len() && 0 <= b < self.pairs().len() && a
                        != b implies self.pairs()[a].0 != self.pairs()[b].0 by {
                    assert(keys_of(self.pairs())[a] != keys_of(self.pairs())[b]);
                }
                lemma_map_of_values(self.pairs(), at as int);
            }
            Some(&self.entries[at].1)
        } else {
            None
        }
    }

    /// Sets the value for `key`, in place of the one it had, if any.
    pub fn insert(&mut self, key: String, value: String)
        ensures
            final(self)@ == old(self)@.insert(key@, value@),
    {
        proof {
            use_type_invariant(&*self);
        }
        let (at, found) = self.position(key.as_str());
        let ghost before = self.pairs();
        let ghost after = if found {
            before.update(at as int, (key@, value@))
        } else {
            before.insert(at as int, (key@, value@))
        };
        proof {
            if found {
                assert(keys_of(after) =~= keys_of(before));
            } else {
                lemma_sorted_insert(keys_of(before), at as int, key@);
                assert(keys_of(after) =~= keys_of(before).insert(at as int, key@));
            }
            lemma_put(before, after, at as int, found, key@, value@);
        }
        let mut entries: Vec<(String, String)> = Vec::new();
        assert(keys_of(views(entries@)) =~= Seq::empty());
        std::mem::swap(&mut self.entries, &mut entries);
        if found {
            entries.set(at, (key, value));
        } else {
            entries.insert(at, (key, value));
        }
        assert(views(entries@) =~= after);
        self.entries = entries;
    }
}

/// A key that is smaller than the entry at `at`, or that meets no entry
/// there, and larger than every entry before, is not in the list.
proof fn lemma_absent_below(keys: Seq<Seq<char>>, at: int, key: Seq<char>)
    requires
        strictly_sorted(keys),
        0 <= at <= keys.len(),
        forall|j: int| 0 <= j < at ==> lex_lt(#[trigger] keys[j], key),
        at < keys.len() ==> lex_lt(key, keys[at]),
    ensures
        !keys.contains(key),
{
    if keys.contains(key) {
        let i = choose|i: int| 0 <= i < keys.len() && keys[i] == key;
        crate::text::lemma_lex_lt_irreflexive(key);
        if i < at {
            assert(lex_lt(keys[i], key));
        } else if i > at {
            assert(lex_lt(keys[at], keys[i]));
            crate::text::lemma_lex_lt_transitive(key, keys[at], key);
        }
    }
}

/// Putting a pair into a sorted list of pairs, in place of the pair with its
/// key or at the place where that key belongs, puts it into the map.
proof fn lemma_put(
    before: Seq<(Seq<char>, Seq<char>)>,
    after: Seq<(Seq<char>, Seq<char>)>,
    at: int,
    found: bool,
    key: Seq<char>,
    value: Seq<char>,
)
    requires
        strictly_sorted(keys_of(before)),
        strictly_sorted(keys_of(after)),
        0 <= at <= before.len(),
        found ==> at < before.len() && before[at].0 == key && after == before.update(
            at,
            (key, value),
        ),
        !found ==> !keys_of(before).contains(key) && after == before.insert(at, (key, value)),
    ensures
        map_of(after) == map_of(before).insert(key, value),
{
    lemma_map_of_keys(before);
    lemma_map_of_keys(after);
    lemma_strictly_sorted_distinct(keys_of(before));
    lemma_strictly_sorted_distinct(keys_of(after));
    assert forall|a: int, b: int|
        0 <= a < before.len() && 0 <= b < before.len() && a != b implies before[a].0
        != before[b].0 by {
        assert(keys_of(before)[a] != keys_of(before)[b]);
    }
    assert forall|a: int, b: int|
        0 <= a < after.len() && 0 <= b < after.len() && a != b implies after[a].0
        != after[b].0 by {
        assert(keys_of(after)[a] != keys_of(after)[b]);
    }
    let want = map_of(before).insert(key, value);
    assert forall|k: Seq<char>| map_of(after).contains_key(k) <==> want.contains_key(k) by {
        if keys_of(after).contains(k) {
            let i = choose|i: int| 0 <= i < after.len() && keys_of(after)[i] == k;
            if found {
                assert(keys_of(before)[i] == k);
            } else if i < at {
                assert(keys_of(before)[i] == k);
            } else if i > at {
                assert(keys_of(before)[i - 1] == k);
            }
        }
        if keys_of(before).contains(k) {
            let i = choose|i: int| 0 <= i < before.len() && keys_of(before)[i] == k;
            if found {
                assert(keys_of(after)[i] == k);
            } else if i < at {
                assert(keys_of(after)[i] == k);
            } else {
                assert(keys_of(after)[i + 1] == k);
            }
        }
        if k == key {
            assert(keys_of(after)[at] == k);
        }
    }
    assert forall|k: Seq<char>| map_of(after).contains_key(k) implies map_of(after)[k]
        == want[k] by {
        let i = choose|i: int| 0 <= i < after.len() && keys_of(after)[i] == k;
        lemma_map_of_values(after, i);
        assert(after[i].0 == k);
        assert(after[at] == (key, value));
        if k != key {
            assert(i != at);
            let j = if found || i < at {
                i
            } else {
                i - 1
            };
            assert(before[j] == after[i]);
            lemma_map_of_values(before, j);
        } else {
            assert(keys_of(after)[at] == key);
            assert(i == at);
        }
    }
    assert(map_of(after) =~= want);
}

} // verus!
