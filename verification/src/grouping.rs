//! Sorting the simple leaves of all modules into buckets of declarations with
//! the same list of fields.
//!
//! Two lists of fields are the same only if they hold the same fields in the
//! same order, each with the same name, type and decorations in the same
//! order. Buckets come in the order of their first members, and the members
//! of a bucket in the order in which the modules hold them.

use crate::eligibility::{is_simple_leaf_item, simple_leaves, StructVisitor};
use crate::syntax::{
    same_fields, views, FieldView, Item, ItemView, Module, ModuleView, TypeDecl, TypeDeclView,
};
use multimap::MultiMap;
use vstd::prelude::*;

verus! {

/// Where a declaration stands: the module's place among the modules and the
/// item's place in the module.
#[derive(Clone, Copy, Debug, PartialEq, Eq)]
pub struct DeclRef {
    pub module: usize,
    pub item: usize,
}

/// The places in one module that `items` names.
pub open spec fn in_module(module: usize, items: Seq<usize>) -> Seq<DeclRef> {
    items.map_values(|item: usize| DeclRef { module, item })
}

/// The simple leaves of the first `upto` modules: module by module, and the
/// declarations of a module in the order of its items.
pub open spec fn candidates(modules: Seq<ModuleView>, upto: int) -> Seq<DeclRef>
    decreases upto,
{
    if upto <= 0 {
        Seq::empty()
    } else {
        candidates(modules, upto - 1) + in_module(
            (upto - 1) as usize,
            simple_leaves(modules[upto - 1].items, modules[upto - 1].items.len() as int),
        )
    }
}

/// Whether `at` is the place of a declaration.
pub open spec fn is_decl_at(modules: Seq<ModuleView>, at: DeclRef) -> bool {
    &&& at.module < modules.len()
    &&& at.item < modules[at.module as int].items.len()
    &&& modules[at.module as int].items[at.item as int] is Decl
}

/// The declaration that stands at `at`.
pub open spec fn decl_at(modules: Seq<ModuleView>, at: DeclRef) -> TypeDeclView {
    modules[at.module as int].items[at.item as int]->0
}

/// The lists of fields of the declarations at the given places.
pub open spec fn shapes(modules: Seq<ModuleView>, places: Seq<DeclRef>) -> Seq<Seq<FieldView>> {
    places.map_values(|at: DeclRef| decl_at(modules, at).fields)
}

/// The first position from `from` on, and at most `k`, whose entry equals
/// the entry at `k`.
pub open spec fn first_like_from<T>(s: Seq<T>, k: int, from: int) -> int
    decreases k - from,
{
    if from >= k {
        k
    } else if s[from] == s[k] {
        from
    } else {
        first_like_from(s, k, from + 1)
    }
}

/// The first position whose entry equals the entry at `k`.
pub open spec fn first_like<T>(s: Seq<T>, k: int) -> int {
    first_like_from(s, k, 0)
}

/// The positions below `upto` whose entries equal the entry at `key`, ascending.
pub open spec fn members<T>(s: Seq<T>, key: int, upto: int) -> Seq<usize>
    decreases upto,
{
    if upto <= 0 {
        Seq::empty()
    } else if s[upto - 1] == s[key] {
        members(s, key, upto - 1).push((upto - 1) as usize)
    } else {
        members(s, key, upto - 1)
    }
}

/// The entries sorted into groups of equal ones, where only groups whose
/// first member stands below `upto` are listed. A group lists the positions
/// of its members, ascending; the groups come in the order of their first
/// members.
pub open spec fn groups<T>(s: Seq<T>, upto: int) -> Seq<Seq<usize>>
    decreases upto,
{
    if upto <= 0 {
        Seq::empty()
    } else if first_like(s, upto - 1) == upto - 1 {
        groups(s, upto - 1).push(members(s, upto - 1, s.len() as int))
    } else {
        groups(s, upto - 1)
    }
}

/// The places that a group of positions among `places` stands for.
pub open spec fn places_of(places: Seq<DeclRef>, group: Seq<usize>) -> Seq<DeclRef> {
    group.map_values(|k: usize| places[k as int])
}

/// The buckets of the modules' simple leaves.
pub open spec fn buckets_of(modules: Seq<ModuleView>) -> Seq<Seq<DeclRef>> {
    let places = candidates(modules, modules.len() as int);
    groups(shapes(modules, places), places.len() as int).map_values(
        |group: Seq<usize>| places_of(places, group),
    )
}

/// The lists behind a list of vectors.
pub open spec fn lists<T>(v: Seq<Vec<T>>) -> Seq<Seq<T>> {
    v.map_values(|list: Vec<T>| list@)
}

/// The simple leaves that `simple_leaves` lists stand below `upto`.
pub proof fn lemma_simple_leaves(items: Seq<ItemView>, upto: int)
    requires
        0 <= upto <= items.len() <= usize::MAX,
    ensures
        forall|i: int|
            0 <= i < simple_leaves(items, upto).len() ==> {
                let at = #[trigger] simple_leaves(items, upto)[i];
                at < upto && is_simple_leaf_item(items[at as int])
            },
    decreases upto,
{
    if upto > 0 {
        lemma_simple_leaves(items, upto - 1);
        let earlier = simple_leaves(items, upto - 1);
        assert forall|i: int| 0 <= i < simple_leaves(items, upto).len() implies {
            let at = #[trigger] simple_leaves(items, upto)[i];
            at < upto && is_simple_leaf_item(items[at as int])
        } by {
            if i < earlier.len() {
                assert(simple_leaves(items, upto)[i] == earlier[i]);
            }
        }
    }
}

/// Every candidate is the place of a declaration that is a simple leaf.
pub proof fn lemma_candidates(modules: Seq<ModuleView>, upto: int)
    requires
        0 <= upto <= modules.len() <= usize::MAX,
        forall|m: int| 0 <= m < modules.len() ==> (#[trigger] modules[m]).items.len() <= usize::MAX,
    ensures
        forall|i: int|
            0 <= i < candidates(modules, upto).len() ==> {
                let at = #[trigger] candidates(modules, upto)[i];
                &&& at.module < upto
                &&& is_decl_at(modules, at)
                &&& is_simple_leaf_item(modules[at.module as int].items[at.item as int])
            },
    decreases upto,
{
    if upto > 0 {
        lemma_candidates(modules, upto - 1);
        let items = modules[upto - 1].items;
        lemma_simple_leaves(items, items.len() as int);
        let earlier = candidates(modules, upto - 1);
        let here = in_module((upto - 1) as usize, simple_leaves(items, items.len() as int));
        assert forall|i: int| 0 <= i < candidates(modules, upto).len() implies {
            let at = #[trigger] candidates(modules, upto)[i];
            &&& at.module < upto
            &&& is_decl_at(modules, at)
            &&& is_simple_leaf_item(modules[at.module as int].items[at.item as int])
        } by {
            if i < earlier.len() {
                assert(candidates(modules, upto)[i] == earlier[i]);
            } else {
                assert(candidates(modules, upto)[i] == here[i - earlier.len()]);
            }
        }
    }
}

/// The entry at `first_like` is the first that equals the entry at `k`.
pub proof fn lemma_first_like<T>(s: Seq<T>, k: int, from: int)
    requires
        0 <= from <= k < s.len(),
    ensures
        from <= first_like_from(s, k, from) <= k,
        s[first_like_from(s, k, from)] == s[k],
        forall|j: int| from <= j < first_like_from(s, k, from) ==> s[j] != s[k],
    decreases k - from,
{
    if from < k && s[from] != s[k] {
        lemma_first_like(s, k, from + 1);
    }
}

/// The first entry that equals the entry at `k` is at `q` if the entry at
/// `q` equals it and none before `q` does.
pub proof fn lemma_first_like_is<T>(s: Seq<T>, k: int, q: int, from: int)
    requires
        0 <= from <= q <= k < s.len(),
        s[q] == s[k],
        forall|j: int| from <= j < q ==> s[j] != s[k],
    ensures
        first_like_from(s, k, from) == q,
    decreases k - from,
{
    if from < q {
        lemma_first_like_is(s, k, q, from + 1);
    }
}

/// No position below `upto` is a member where no entry below `upto` equals
/// the entry at `key`.
pub proof fn lemma_no_members<T>(s: Seq<T>, key: int, upto: int)
    requires
        forall|j: int| 0 <= j < upto ==> s[j] != s[key],
    ensures
        members(s, key, upto) == Seq::<usize>::empty(),
    decreases upto,
{
    if upto > 0 {
        lemma_no_members(s, key, upto - 1);
    }
}

/// The members that `members` lists stand below `upto` and hold entries
/// equal to the entry at `key`. Where the entry at `key` itself stands below
/// `upto`, it is among them.
pub proof fn lemma_members<T>(s: Seq<T>, key: int, upto: int)
    requires
        0 <= upto <= s.len() <= usize::MAX,
        0 <= key < s.len(),
    ensures
        forall|i: int|
            0 <= i < members(s, key, upto).len() ==> {
                let k = #[trigger] members(s, key, upto)[i];
                k < upto && s[k as int] == s[key]
            },
        forall|i: int, j: int|
            0 <= i < j < members(s, key, upto).len() ==> members(s, key, upto)[i] < members(
                s,
                key,
                upto,
            )[j],
        forall|k: int|
            0 <= k < upto && s[k] == s[key] ==> members(s, key, upto).contains(k as usize),
    decreases upto,
{
    if upto > 0 {
        lemma_members(s, key, upto - 1);
        let earlier = members(s, key, upto - 1);
        let all = members(s, key, upto);
        assert forall|i: int| 0 <= i < all.len() implies {
            let k = #[trigger] all[i];
            k < upto && s[k as int] == s[key]
        } by {
            if i < earlier.len() {
                assert(all[i] == earlier[i]);
            }
        }
        assert forall|i: int, j: int| 0 <= i < j < all.len() implies all[i] < all[j] by {
            assert(all[i] == earlier[i]);
            if j < earlier.len() {
                assert(all[j] == earlier[j]);
            }
        }
        assert forall|k: int| 0 <= k < upto && s[k] == s[key] implies all.contains(
            k as usize,
        ) by {
            if k < upto - 1 {
                assert(earlier.contains(k as usize));
                let i = choose|i: int| 0 <= i < earlier.len() && earlier[i] == k as usize;
                assert(all[i] == k as usize);
            } else {
                assert(all[all.len() - 1] == k as usize);
            }
        }
    }
}

/// Each group is the list of all members of its first member, which stands
/// below `upto` and is the first with its entry.
pub proof fn lemma_groups<T>(s: Seq<T>, upto: int, g: int)
    requires
        0 <= upto <= s.len() <= usize::MAX,
        0 <= g < groups(s, upto).len(),
    ensures
        groups(s, upto)[g].len() > 0,
        groups(s, upto)[g][0] < upto,
        first_like(s, groups(s, upto)[g][0] as int) == groups(s, upto)[g][0],
        groups(s, upto)[g] == members(s, groups(s, upto)[g][0] as int, s.len() as int),
        forall|j: int| 0 <= j < groups(s, upto)[g].len() ==> #[trigger] groups(s, upto)[g][j] < s.len(),
    decreases upto,
{
    if upto > 0 {
        let earlier = groups(s, upto - 1);
        if g < earlier.len() {
            lemma_groups(s, upto - 1, g);
            assert(groups(s, upto)[g] == earlier[g]);
        } else {
            let key = upto - 1;
            let group = members(s, key, s.len() as int);
            assert(groups(s, upto)[g] == group);
            lemma_members(s, key, s.len() as int);
            lemma_first_like(s, key, 0);
            assert(group.contains(key as usize));
            // the first member is the key itself: no earlier entry equals it
            let first = group[0];
            if first != key {
                let i = choose|i: int| 0 <= i < group.len() && group[i] == key as usize;
                assert(group[0] < group[i]);
                assert(s[first as int] == s[key]);
            }
        }
    }
}

/// Whether the modules, their items and their simple leaves are few enough
/// to be counted by a machine.
pub open spec fn of_machine_size(modules: Seq<ModuleView>) -> bool {
    &&& modules.len() <= usize::MAX
    &&& forall|m: int| 0 <= m < modules.len() ==> (#[trigger] modules[m]).items.len() <= usize::MAX
    &&& candidates(modules, modules.len() as int).len() <= usize::MAX
}

/// A bucket is not empty; its members are simple leaves, and all have the
/// fields of the first.
pub proof fn lemma_buckets(modules: Seq<ModuleView>, b: int)
    requires
        of_machine_size(modules),
        0 <= b < buckets_of(modules).len(),
    ensures
        buckets_of(modules)[b].len() > 0,
        forall|j: int|
            0 <= j < buckets_of(modules)[b].len() ==> {
                let at = #[trigger] buckets_of(modules)[b][j];
                &&& candidates(modules, modules.len() as int).contains(at)
                &&& is_decl_at(modules, at)
                &&& is_simple_leaf_item(modules[at.module as int].items[at.item as int])
                &&& decl_at(modules, at).fields == decl_at(modules, buckets_of(modules)[b][0]).fields
            },
{
    let places = candidates(modules, modules.len() as int);
    let s = shapes(modules, places);
    lemma_candidates(modules, modules.len() as int);
    lemma_groups(s, places.len() as int, b);
    let group = groups(s, places.len() as int)[b];
    let bucket = buckets_of(modules)[b];
    assert(bucket == places_of(places, group));
    lemma_members(s, group[0] as int, s.len() as int);
    assert forall|j: int| 0 <= j < bucket.len() implies {
        let at = #[trigger] bucket[j];
        &&& places.contains(at)
        &&& is_decl_at(modules, at)
        &&& is_simple_leaf_item(modules[at.module as int].items[at.item as int])
        &&& decl_at(modules, at).fields == decl_at(modules, bucket[0]).fields
    } by {
        let k = group[j];
        assert(bucket[j] == places[k as int]);
        assert(bucket[0] == places[group[0] as int]);
        assert(s[k as int] == s[group[0] as int]);
    }
}

/// What a multimap holds: under each key the values put there, oldest first.
pub uninterp spec fn multimap_contents(m: MultiMap<usize, usize>) -> Map<usize, Seq<usize>>;

/// `MultiMap` of multimap, a map from a key to the list of values put under it.
#[verifier::external_type_specification]
#[verifier::external_body]
#[verifier::reject_recursive_types(K)]
#[verifier::reject_recursive_types(V)]
#[verifier::reject_recursive_types(S)]
pub struct ExMultiMap<K, V, S>(MultiMap<K, V, S>);

/// `MultiMap::new` of multimap: a multimap without keys.
#[verifier::external_body]
fn multimap_new() -> (m: MultiMap<usize, usize>)
    ensures
        forall|k: usize| !multimap_contents(m).contains_key(k),
{
    MultiMap::new()
}

/// `MultiMap::insert` of multimap: the value goes to the end of the key's
/// list, which is begun where the key is new. Other keys keep their lists.
#[verifier::external_body]
fn multimap_insert(m: &mut MultiMap<usize, usize>, k: usize, v: usize)
    ensures
        multimap_contents(*final(m)) == multimap_contents(*old(m)).insert(
            k,
            if multimap_contents(*old(m)).contains_key(k) {
                multimap_contents(*old(m))[k].push(v)
            } else {
                seq![v]
            },
        ),
{
    m.insert(k, v)
}

/// `MultiMap::iter_all` of multimap: every key with its list, each key once,
/// in an order that nothing fixes.
#[verifier::external_body]
fn multimap_iter_all(m: &MultiMap<usize, usize>) -> (r: Vec<(usize, Vec<usize>)>)
    ensures
        forall|i: int|
            0 <= i < r@.len() ==> multimap_contents(*m).contains_key((#[trigger] r@[i]).0)
                && r@[i].1@ == multimap_contents(*m)[r@[i].0],
        forall|k: usize|
            multimap_contents(*m).contains_key(k) ==> exists|i: int|
                0 <= i < r@.len() && (#[trigger] r@[i]).0 == k,
        forall|i: int, j: int| 0 <= i < j < r@.len() ==> (#[trigger] r@[i]).0 != (#[trigger] r@[j]).0,
{
    m.iter_all().map(|(k, v)| (*k, v.clone())).collect()
}

/// The declaration at a place.
pub(crate) fn declaration<'a>(modules: &'a Vec<Module>, at: DeclRef) -> (r: &'a TypeDecl)
    requires
        is_decl_at(views(modules@), at),
    ensures
        r@ == decl_at(views(modules@), at),
{
    let module = &modules[at.module];
    assert(views(modules@)[at.module as int] == module@);
    assert(module@.items[at.item as int] == module.items@[at.item as int]@);
    match &module.items[at.item] {
        Item::Decl(decl) => decl,
        Item::Other => unreached(),
    }
}

/// The places of the simple leaves of all modules.
pub fn collect_candidates(modules: &Vec<Module>) -> (r: Vec<DeclRef>)
    ensures
        r@ == candidates(views(modules@), modules@.len() as int),
{
    let mut places: Vec<DeclRef> = Vec::new();
    let mut m: usize = 0;
    while m < modules.len()
        invariant
            m <= modules.len(),
            places@ == candidates(views(modules@), m as int),
        decreases modules.len() - m,
    {
        let mut visitor = StructVisitor { name: modules[m].name.clone(), structs: Vec::new() };
        visitor.visit_file(&modules[m]);
        let ghost earlier = places@;
        let ghost found = visitor.structs@;
        assert(views(modules@)[m as int] == modules@[m as int]@);
        assert(found =~= simple_leaves(
            views(modules@)[m as int].items,
            views(modules@)[m as int].items.len() as int,
        ));
        let mut i: usize = 0;
        while i < visitor.structs.len()
            invariant
                i <= visitor.structs.len(),
                found == visitor.structs@,
                places@ == earlier + in_module(m, found.take(i as int)),
            decreases visitor.structs.len() - i,
        {
            places.push(DeclRef { module: m, item: visitor.structs[i] });
            assert(in_module(m, found.take(i + 1)) =~= in_module(m, found.take(i as int)).push(
                DeclRef { module: m, item: found[i as int] },
            ));
            i += 1;
        }
        assert(found.take(found.len() as int) =~= found);
        m += 1;
    }
    places
}

/// The position of the first place whose declaration has the same fields as
/// the declaration at the place with position `k`.
fn first_with_same_fields(modules: &Vec<Module>, places: &Vec<DeclRef>, k: usize) -> (r: usize)
    requires
        k < places@.len(),
        forall|i: int| 0 <= i < places@.len() ==> is_decl_at(views(modules@), #[trigger] places@[i]),
    ensures
        r == first_like(shapes(views(modules@), places@), k as int),
{
    let ghost s = shapes(views(modules@), places@);
    let fields = &declaration(modules, places[k]).fields;
    let mut j: usize = 0;
    while j < k
        invariant
            j <= k < places@.len(),
            s == shapes(views(modules@), places@),
            views(fields@) == s[k as int],
            forall|i: int|
                0 <= i < places@.len() ==> is_decl_at(views(modules@), #[trigger] places@[i]),
            first_like(s, k as int) == first_like_from(s, k as int, j as int),
        decreases k - j,
    {
        let other = &declaration(modules, places[j]).fields;
        assert(views(other@) == s[j as int]);
        if same_fields(other, fields) {
            return j;
        }
        j += 1;
    }
    k
}

/// Sorts the places into groups of declarations with the same fields.
fn group_positions(modules: &Vec<Module>, places: &Vec<DeclRef>) -> (r: Vec<Vec<usize>>)
    requires
        forall|i: int| 0 <= i < places@.len() ==> is_decl_at(views(modules@), #[trigger] places@[i]),
    ensures
        lists(r@) == groups(shapes(views(modules@), places@), places@.len() as int),
{
    let ghost s = shapes(views(modules@), places@);
    let n: usize = places.len();
    let mut potentially_similar_items = multimap_new();
    let mut k: usize = 0;
    while k < n
        invariant
            k <= n == places@.len() == s.len(),
            s == shapes(views(modules@), places@),
            forall|i: int|
                0 <= i < places@.len() ==> is_decl_at(views(modules@), #[trigger] places@[i]),
            forall|key: usize| #[trigger]
                multimap_contents(potentially_similar_items).contains_key(key) <==> key < k
                    && first_like(s, key as int) == key,
            forall|key: usize| #[trigger]
                multimap_contents(potentially_similar_items).contains_key(key) ==> multimap_contents(
                    potentially_similar_items,
                )[key] == members(s, key as int, k as int),
        decreases n - k,
    {
        let first = first_with_same_fields(modules, places, k);
        let ghost before = multimap_contents(potentially_similar_items);
        proof {
            lemma_first_like(s, k as int, 0);
            lemma_first_like_is(s, first as int, first as int, 0);
            if first == k {
                lemma_no_members(s, k as int, k as int);
            }
        }
        multimap_insert(&mut potentially_similar_items, first, k);
        proof {
            let after = multimap_contents(potentially_similar_items);
            assert forall|key: usize| #[trigger] after.contains_key(key) implies after[key]
                == members(s, key as int, k + 1) by {
                if key != first {
                    assert(before.contains_key(key));
                    if s[k as int] == s[key as int] {
                        lemma_first_like(s, key as int, 0);
                        lemma_first_like_is(s, k as int, key as int, 0);
                    }
                }
            }
        }
        k += 1;
    }
    // The multimap hands out its lists in no fixed order: take them in the
    // order of their keys, which is the order of the groups' first members.
    let similar_items = multimap_iter_all(&potentially_similar_items);
    proof {
        let contents = multimap_contents(potentially_similar_items);
        assert forall|q: usize| q < n && first_like(s, q as int) == q implies exists|i: int|
            0 <= i < similar_items@.len() && (#[trigger] similar_items@[i]).0 == q by {
            assert(contents.contains_key(q));
        }
    }
    let mut buckets: Vec<Vec<usize>> = Vec::new();
    let mut key: usize = 0;
    assert(lists(buckets@) =~= groups(s, 0));
    while key < n
        invariant
            key <= n == s.len(),
            forall|i: int|
                0 <= i < similar_items@.len() ==> {
                    let entry = #[trigger] similar_items@[i];
                    entry.0 < n && first_like(s, entry.0 as int) == entry.0 && entry.1@ == members(
                        s,
                        entry.0 as int,
                        n as int,
                    )
                },
            forall|q: usize|
                q < n && first_like(s, q as int) == q ==> exists|i: int|
                    0 <= i < similar_items@.len() && (#[trigger] similar_items@[i]).0 == q,
            lists(buckets@) == groups(s, key as int),
        decreases n - key,
    {
        let mut at: usize = 0;
        while at < similar_items.len() && similar_items[at].0 != key
            invariant
                at <= similar_items.len(),
                forall|i: int| 0 <= i < at ==> (#[trigger] similar_items@[i]).0 != key,
            decreases similar_items.len() - at,
        {
            at += 1;
        }
        if at < similar_items.len() {
            let ghost before = lists(buckets@);
            buckets.push(copy_positions(&similar_items[at].1));
            assert(lists(buckets@) =~= before.push(members(s, key as int, n as int)));
        }
        key += 1;
    }
    buckets
}

/// A copy of a list of positions.
fn copy_positions(list: &Vec<usize>) -> (r: Vec<usize>)
    ensures
        r@ == list@,
{
    let mut copy: Vec<usize> = Vec::new();
    let mut i: usize = 0;
    while i < list.len()
        invariant
            i <= list.len(),
            copy@ == list@.take(i as int),
        decreases list.len() - i,
    {
        copy.push(list[i]);
        assert(list@.take(i + 1) =~= list@.take(i as int).push(list@[i as int]));
        i += 1;
    }
    assert(list@.take(list@.len() as int) =~= list@);
    copy
}

/// Sorts the simple leaves of all modules into buckets of declarations with
/// the same list of fields. A declaration that shares its list with no other
/// is a bucket of its own.
pub fn group_by_fields(modules: &Vec<Module>) -> (r: Vec<Vec<DeclRef>>)
    ensures
        lists(r@) == buckets_of(views(modules@)),
        of_machine_size(views(modules@)),
{
    let places = collect_candidates(modules);
    proof {
        assert(modules@.len() == modules.len());
        assert forall|m: int| 0 <= m < views(modules@).len() implies (#[trigger] views(
            modules@,
        )[m]).items.len() <= usize::MAX by {
            assert(views(modules@)[m].items.len() == modules@[m].items.len());
        }
        lemma_candidates(views(modules@), modules@.len() as int);
    }
    let positions = group_positions(modules, &places);
    assert(places@.len() == places.len());
    let ghost s = shapes(views(modules@), places@);
    let mut buckets: Vec<Vec<DeclRef>> = Vec::new();
    let mut b: usize = 0;
    while b < positions.len()
        invariant
            b <= positions.len(),
            lists(positions@) == groups(s, places@.len() as int),
            s.len() == places@.len() <= usize::MAX,
            lists(buckets@) == lists(positions@).take(b as int).map_values(
                |group: Seq<usize>| places_of(places@, group),
            ),
        decreases positions.len() - b,
    {
        let group = &positions[b];
        assert(lists(positions@)[b as int] == group@);
        proof {
            lemma_groups(s, places@.len() as int, b as int);
        }
        let mut bucket: Vec<DeclRef> = Vec::new();
        let mut i: usize = 0;
        while i < group.len()
            invariant
                i <= group.len(),
                forall|j: int| 0 <= j < group@.len() ==> #[trigger] group@[j] < places@.len(),
                bucket@ == places_of(places@, group@.take(i as int)),
            decreases group.len() - i,
        {
            bucket.push(places[group[i]]);
            assert(places_of(places@, group@.take(i + 1)) =~= places_of(
                places@,
                group@.take(i as int),
            ).push(places@[group@[i as int] as int]));
            i += 1;
        }
        assert(group@.take(group@.len() as int) =~= group@);
        let ghost before = lists(buckets@);
        buckets.push(bucket);
        assert(lists(buckets@) =~= before.push(places_of(places@, group@)));
        assert(lists(positions@).take(b + 1) =~= lists(positions@).take(b as int).push(group@));
        b += 1;
    }
    assert(lists(positions@).take(positions@.len() as int) =~= lists(positions@));
    buckets
}

} // verus!
