//! What holds of deduplication as a whole.

use crate::canonical::{canonical_decl, two_names};
use crate::eligibility::{is_simple_leaf_item, simple_leaves, simple_type};
use crate::engine::{
    bucket_renames, module_after, names_at, rename_map, renames_of, shared_decls, shared_of,
    SharedDeclView,
};
use crate::grouping::{
    buckets_of, candidates, decl_at, first_like, groups, in_module, lemma_buckets,
    lemma_first_like, lemma_first_like_is, lemma_groups, lemma_members, members,
    of_machine_size, places_of, shapes, DeclRef,
};
use crate::naming::{generated_name, substitute_name};
use crate::rewrite::{
    is_replaced, rename_direct, rewrite_decl, rewrite_field, rewrite_item, rewrite_items,
    rewrite_type, surviving_below,
};
use crate::syntax::{ItemView, ModuleView, TypeRefView};
use vstd::prelude::*;

verus! {

/// Whether a type names `name`, itself or in an argument at any depth. The
/// name of a container is not a reference to a declaration.
pub open spec fn mentions(t: TypeRefView, name: Seq<char>) -> bool
    decreases t,
{
    match t {
        TypeRefView::Name(n) => n == name,
        TypeRefView::Generic { container, args } => exists|i: int|
            0 <= i < args.len() && mentions(#[trigger] args[i], name),
        TypeRefView::Opaque => false,
    }
}

/// Whether a type is a container none of whose arguments is a container.
pub open spec fn is_flat(t: TypeRefView) -> bool {
    t matches TypeRefView::Generic { container, args } ==> forall|i: int|
        0 <= i < args.len() ==> !(#[trigger] args[i] is Generic)
}

/// Whether the field types of all declarations among `items` are flat.
pub open spec fn all_flat(items: Seq<ItemView>) -> bool {
    forall|i: int, f: int|
        0 <= i < items.len() && items[i] is Decl && 0 <= f < items[i]->0.fields.len() ==> is_flat(
            (#[trigger] items[i]->0.fields[f]).ty,
        )
}

/// Whether no new name is the name of a declaration that is merged.
pub open spec fn new_names_are_fresh(names: Map<Seq<char>, Seq<char>>) -> bool {
    forall|key: Seq<char>| #[trigger] names.contains_key(key) ==> !names.contains_key(names[key])
}

/// Every item that survives is an item of the module, rewritten, and is no
/// declaration that was merged.
pub proof fn lemma_surviving(items: Seq<ItemView>, names: Set<Seq<char>>, upto: int, k: int)
    requires
        0 <= upto <= items.len() <= usize::MAX,
        0 <= k < surviving_below(items, names, upto).len(),
    ensures
        surviving_below(items, names, upto)[k] < upto,
        !is_replaced(items[surviving_below(items, names, upto)[k] as int], names),
    decreases upto,
{
    if upto > 0 {
        let earlier = surviving_below(items, names, upto - 1);
        if k < earlier.len() {
            lemma_surviving(items, names, upto - 1, k);
            assert(surviving_below(items, names, upto)[k] == earlier[k]);
        }
    }
}

/// After deduplication no field of a declaration that
/// is left in a module names a declaration that was merged, provided that no
/// new name is itself the name of a merged declaration and that no field's
/// type holds a container within a container, which renaming does not enter.
pub proof fn law_rename_complete(
    module: ModuleView,
    names: Map<Seq<char>, Seq<char>>,
    i: int,
    f: int,
    key: Seq<char>,
)
    requires
        module.items.len() <= usize::MAX,
        new_names_are_fresh(names),
        all_flat(module.items),
        0 <= i < module_after(module, names).items.len(),
        module_after(module, names).items[i] is Decl,
        0 <= f < module_after(module, names).items[i]->0.fields.len(),
        names.contains_key(key),
    ensures
        !mentions(module_after(module, names).items[i]->0.fields[f].ty, key),
{
    let rewritten = rewrite_items(module.items, names);
    lemma_surviving(rewritten, names.dom(), rewritten.len() as int, i);
    let at = surviving_below(rewritten, names.dom(), rewritten.len() as int)[i] as int;
    assert(module_after(module, names).items[i] == rewritten[at]);
    assert(rewritten[at] == rewrite_item(module.items[at], names));
    let before = module.items[at]->0;
    assert(rewrite_decl(before, names).fields[f] == rewrite_field(before.fields[f], names));
    let old_type = before.fields[f].ty;
    assert(is_flat(old_type));
    let new_type = rewrite_type(old_type, names);
    assert(module_after(module, names).items[i]->0.fields[f].ty == new_type);
    match old_type {
        TypeRefView::Generic { container, args } => {
            assert forall|a: int| 0 <= a < new_type->args.len() implies !mentions(
                #[trigger] new_type->args[a],
                key,
            ) by {
                assert(new_type->args[a] == rename_direct(args[a], names));
                assert(!(args[a] is Generic));
            }
        },
        _ => {},
    }
}

/// No declaration that is left in a module goes by the name of a
/// declaration that was merged.
pub proof fn law_merged_declarations_are_removed(
    module: ModuleView,
    names: Map<Seq<char>, Seq<char>>,
    i: int,
)
    requires
        module.items.len() <= usize::MAX,
        0 <= i < module_after(module, names).items.len(),
        module_after(module, names).items[i] is Decl,
    ensures
        !names.contains_key(module_after(module, names).items[i]->0.name),
{
    let rewritten = rewrite_items(module.items, names);
    lemma_surviving(rewritten, names.dom(), rewritten.len() as int, i);
}

/// Groups come in the order of their first members.
pub proof fn lemma_groups_ascend<T>(s: Seq<T>, upto: int, g1: int, g2: int)
    requires
        0 <= upto <= s.len() <= usize::MAX,
        0 <= g1 < g2 < groups(s, upto).len(),
    ensures
        groups(s, upto)[g1][0] < groups(s, upto)[g2][0],
    decreases upto,
{
    if upto > 0 {
        let earlier = groups(s, upto - 1);
        if g2 < earlier.len() {
            lemma_groups_ascend(s, upto - 1, g1, g2);
        } else {
            lemma_groups(s, upto - 1, g1);
            lemma_groups(s, upto, g2);
            lemma_members(s, upto - 1, s.len() as int);
            lemma_first_like(s, upto - 1, 0);
            let group = members(s, upto - 1, s.len() as int);
            assert(groups(s, upto)[g2] == group);
            assert(groups(s, upto)[g1] == earlier[g1]);
            assert(s[group[0] as int] == s[upto - 1]);
            assert(group[0] == upto - 1);
        }
    }
}

/// Every entry that is the first with its value has its group.
pub proof fn lemma_groups_complete<T>(s: Seq<T>, upto: int, first: int)
    requires
        0 <= first < upto <= s.len() <= usize::MAX,
        first_like(s, first) == first,
    ensures
        exists|g: int|
            0 <= g < groups(s, upto).len() && #[trigger] groups(s, upto)[g] == members(
                s,
                first,
                s.len() as int,
            ),
    decreases upto,
{
    if first == upto - 1 {
        let g = groups(s, upto).len() - 1;
        assert(groups(s, upto)[g] == members(s, first, s.len() as int));
    } else {
        lemma_groups_complete(s, upto - 1, first);
        let g = choose|g: int|
            0 <= g < groups(s, upto - 1).len() && #[trigger] groups(s, upto - 1)[g] == members(
                s,
                first,
                s.len() as int,
            );
        assert(groups(s, upto)[g] == groups(s, upto - 1)[g]);
    }
}

/// Every simple leaf below `upto` is listed.
pub proof fn lemma_simple_leaves_complete(items: Seq<ItemView>, upto: int, i: int)
    requires
        0 <= i < upto <= items.len() <= usize::MAX,
        is_simple_leaf_item(items[i]),
    ensures
        simple_leaves(items, upto).contains(i as usize),
    decreases upto,
{
    let all = simple_leaves(items, upto);
    if i == upto - 1 {
        assert(all[all.len() - 1] == i as usize);
    } else {
        lemma_simple_leaves_complete(items, upto - 1, i);
        let earlier = simple_leaves(items, upto - 1);
        let k = choose|k: int| 0 <= k < earlier.len() && earlier[k] == i as usize;
        assert(all[k] == i as usize);
    }
}

/// Every simple leaf of the first `upto` modules is a candidate.
pub proof fn lemma_candidates_complete(modules: Seq<ModuleView>, upto: int, at: DeclRef)
    requires
        0 <= upto <= modules.len() <= usize::MAX,
        forall|m: int| 0 <= m < modules.len() ==> (#[trigger] modules[m]).items.len() <= usize::MAX,
        at.module < upto,
        at.item < modules[at.module as int].items.len(),
        is_simple_leaf_item(modules[at.module as int].items[at.item as int]),
    ensures
        candidates(modules, upto).contains(at),
    decreases upto,
{
    let all = candidates(modules, upto);
    let earlier = candidates(modules, upto - 1);
    let items = modules[upto - 1].items;
    let here = in_module((upto - 1) as usize, simple_leaves(items, items.len() as int));
    if at.module == upto - 1 {
        lemma_simple_leaves_complete(items, items.len() as int, at.item as int);
        let leaves = simple_leaves(items, items.len() as int);
        let k = choose|k: int| 0 <= k < leaves.len() && leaves[k] == at.item;
        assert(here[k] == at);
        assert(all[earlier.len() + k] == at);
    } else {
        lemma_candidates_complete(modules, upto - 1, at);
        let k = choose|k: int| 0 <= k < earlier.len() && earlier[k] == at;
        assert(all[k] == at);
    }
}

/// A declaration is sorted into a bucket if the type of each of its fields
/// is one of the two primitive names or a container of such types to any
/// depth, and only then.
pub proof fn law_eligibility(modules: Seq<ModuleView>, at: DeclRef)
    requires
        of_machine_size(modules),
        at.module < modules.len(),
        at.item < modules[at.module as int].items.len(),
    ensures
        (exists|b: int, j: int|
            0 <= b < buckets_of(modules).len() && 0 <= j < buckets_of(modules)[b].len()
                && #[trigger] buckets_of(modules)[b][j] == at) <==> is_simple_leaf_item(
            modules[at.module as int].items[at.item as int],
        ),
{
    let buckets = buckets_of(modules);
    let places = candidates(modules, modules.len() as int);
    let s = shapes(modules, places);
    let n = places.len() as int;
    if exists|b: int, j: int|
        0 <= b < buckets.len() && 0 <= j < buckets[b].len() && #[trigger] buckets[b][j] == at {
        let (b, j) = choose|b: int, j: int|
            0 <= b < buckets.len() && 0 <= j < buckets[b].len() && #[trigger] buckets[b][j] == at;
        lemma_buckets(modules, b);
    }
    if is_simple_leaf_item(modules[at.module as int].items[at.item as int]) {
        lemma_candidates_complete(modules, modules.len() as int, at);
        let k = choose|k: int| 0 <= k < places.len() && places[k] == at;
        lemma_first_like(s, k, 0);
        let first = first_like(s, k);
        lemma_first_like_is(s, first, first, 0);
        lemma_groups_complete(s, n, first);
        let b = choose|b: int|
            0 <= b < groups(s, n).len() && #[trigger] groups(s, n)[b] == members(s, first, n);
        lemma_members(s, first, n);
        let group = members(s, first, n);
        assert(group.contains(k as usize));
        let j = choose|j: int| 0 <= j < group.len() && group[j] == k as usize;
        assert(buckets[b] == places_of(places, group));
        assert(buckets[b][j] == at);
    }
}

/// A simple type within a container is a simple type, whatever the container.
pub proof fn law_containers_keep_simple(container: Seq<char>, t: TypeRefView)
    requires
        simple_type(t),
    ensures
        simple_type(TypeRefView::Generic { container, args: seq![t] }),
{
    let wrapped = TypeRefView::Generic { container, args: seq![t] };
    assert forall|i: int| 0 <= i < wrapped->args.len() implies simple_type(
        #[trigger] wrapped->args[i],
    ) by {
        assert(wrapped->args[i] == t);
    }
}

/// Two declarations stand in the same bucket if they have the same list of
/// fields, and only then.
pub proof fn law_grouping_exact(modules: Seq<ModuleView>, b1: int, j1: int, b2: int, j2: int)
    requires
        of_machine_size(modules),
        0 <= b1 < buckets_of(modules).len(),
        0 <= j1 < buckets_of(modules)[b1].len(),
        0 <= b2 < buckets_of(modules).len(),
        0 <= j2 < buckets_of(modules)[b2].len(),
    ensures
        b1 == b2 <==> decl_at(modules, buckets_of(modules)[b1][j1]).fields == decl_at(
            modules,
            buckets_of(modules)[b2][j2],
        ).fields,
{
    let places = candidates(modules, modules.len() as int);
    let s = shapes(modules, places);
    let n = places.len() as int;
    lemma_buckets(modules, b1);
    lemma_buckets(modules, b2);
    lemma_groups(s, n, b1);
    lemma_groups(s, n, b2);
    let k1 = groups(s, n)[b1][0];
    let k2 = groups(s, n)[b2][0];
    assert(buckets_of(modules)[b1] == places_of(places, groups(s, n)[b1]));
    assert(buckets_of(modules)[b2] == places_of(places, groups(s, n)[b2]));
    assert(buckets_of(modules)[b1][0] == places[k1 as int]);
    assert(buckets_of(modules)[b2][0] == places[k2 as int]);
    assert(s[k1 as int] == decl_at(modules, places[k1 as int]).fields);
    assert(s[k2 as int] == decl_at(modules, places[k2 as int]).fields);
    if b1 < b2 {
        lemma_groups_ascend(s, n, b1, b2);
        lemma_first_like(s, k2 as int, 0);
    }
    if b2 < b1 {
        lemma_groups_ascend(s, n, b2, b1);
        lemma_first_like(s, k1 as int, 0);
    }
}

/// A list in which two different entries change places is another list: so
/// declarations whose lists of fields, or whose lists of decorations on a
/// field, differ in order alone are not merged.
pub proof fn law_order_counts<T>(list: Seq<T>, i: int, j: int)
    requires
        0 <= i < list.len(),
        0 <= j < list.len(),
        list[i] != list[j],
    ensures
        list.update(i, list[j]).update(j, list[i]) != list,
{
    assert(list.update(i, list[j]).update(j, list[i])[j] == list[i]);
}

/// Whether the members of a bucket do not all have the same name, so that
/// the bucket is merged into a shared declaration.
pub open spec fn is_merged(modules: Seq<ModuleView>, bucket: Seq<DeclRef>) -> bool {
    two_names(names_at(modules, bucket))
}

/// The new name of a bucket's members.
pub open spec fn new_name_of(
    modules: Seq<ModuleView>,
    customized: Map<Seq<char>, Seq<char>>,
    bucket: Seq<DeclRef>,
) -> Seq<char> {
    substitute_name(customized, names_at(modules, bucket))
}

/// The shared declaration of a bucket.
pub open spec fn shared_decl_of(
    modules: Seq<ModuleView>,
    customized: Map<Seq<char>, Seq<char>>,
    bucket: Seq<DeclRef>,
) -> SharedDeclView {
    SharedDeclView {
        template: bucket[0],
        decl: canonical_decl(decl_at(modules, bucket[0]), new_name_of(modules, customized, bucket)),
    }
}

/// The positions below `upto` of the buckets that are merged, ascending.
pub open spec fn merged_buckets(modules: Seq<ModuleView>, buckets: Seq<Seq<DeclRef>>, upto: int) -> Seq<
    int,
>
    decreases upto,
{
    if upto <= 0 {
        Seq::empty()
    } else if is_merged(modules, buckets[upto - 1]) {
        merged_buckets(modules, buckets, upto - 1).push(upto - 1)
    } else {
        merged_buckets(modules, buckets, upto - 1)
    }
}

/// The merged buckets are listed in ascending order, and all of them are.
pub proof fn lemma_merged_buckets(modules: Seq<ModuleView>, buckets: Seq<Seq<DeclRef>>, upto: int)
    requires
        0 <= upto <= buckets.len(),
    ensures
        forall|s: int|
            0 <= s < merged_buckets(modules, buckets, upto).len() ==> {
                let b = #[trigger] merged_buckets(modules, buckets, upto)[s];
                0 <= b < upto && is_merged(modules, buckets[b])
            },
        forall|s: int, t: int|
            0 <= s < t < merged_buckets(modules, buckets, upto).len() ==> merged_buckets(
                modules,
                buckets,
                upto,
            )[s] < merged_buckets(modules, buckets, upto)[t],
        forall|b: int|
            0 <= b < upto && is_merged(modules, #[trigger] buckets[b]) ==> merged_buckets(
                modules,
                buckets,
                upto,
            ).contains(b),
    decreases upto,
{
    if upto > 0 {
        lemma_merged_buckets(modules, buckets, upto - 1);
        let earlier = merged_buckets(modules, buckets, upto - 1);
        let all = merged_buckets(modules, buckets, upto);
        assert forall|s: int| 0 <= s < all.len() implies {
            let b = #[trigger] all[s];
            0 <= b < upto && is_merged(modules, buckets[b])
        } by {
            if s < earlier.len() {
                assert(all[s] == earlier[s]);
            }
        }
        assert forall|s: int, t: int| 0 <= s < t < all.len() implies all[s] < all[t] by {
            assert(all[s] == earlier[s]);
            if t < earlier.len() {
                assert(all[t] == earlier[t]);
            }
        }
        assert forall|b: int|
            0 <= b < upto && is_merged(modules, #[trigger] buckets[b]) implies all.contains(b) by {
            if b < upto - 1 {
                assert(earlier.contains(b));
                let s = choose|s: int| 0 <= s < earlier.len() && earlier[s] == b;
                assert(all[s] == b);
            } else {
                assert(all[all.len() - 1] == b);
            }
        }
    }
}

/// The shared declarations are those of the merged buckets, in their order.
pub proof fn lemma_shared_of(
    modules: Seq<ModuleView>,
    customized: Map<Seq<char>, Seq<char>>,
    buckets: Seq<Seq<DeclRef>>,
    upto: int,
)
    requires
        0 <= upto <= buckets.len(),
    ensures
        shared_of(modules, customized, buckets, upto).len() == merged_buckets(
            modules,
            buckets,
            upto,
        ).len(),
        forall|s: int|
            0 <= s < merged_buckets(modules, buckets, upto).len() ==> #[trigger] shared_of(
                modules,
                customized,
                buckets,
                upto,
            )[s] == shared_decl_of(
                modules,
                customized,
                buckets[merged_buckets(modules, buckets, upto)[s]],
            ),
    decreases upto,
{
    if upto > 0 {
        lemma_shared_of(modules, customized, buckets, upto - 1);
    }
}

/// A declaration is renamed by a merged bucket that holds a declaration of
/// its name.
pub proof fn lemma_renames_of(
    modules: Seq<ModuleView>,
    customized: Map<Seq<char>, Seq<char>>,
    buckets: Seq<Seq<DeclRef>>,
    upto: int,
    key: Seq<char>,
)
    requires
        0 <= upto <= buckets.len(),
        renames_of(modules, customized, buckets, upto).contains_key(key),
    ensures
        exists|b: int|
            {
                &&& 0 <= b < upto
                &&& is_merged(modules, #[trigger] buckets[b])
                &&& names_at(modules, buckets[b]).contains(key)
                &&& renames_of(modules, customized, buckets, upto)[key] == new_name_of(
                    modules,
                    customized,
                    buckets[b],
                )
            },
    decreases upto,
{
    if upto > 0 {
        let last = bucket_renames(customized, names_at(modules, buckets[upto - 1]));
        if last.contains_key(key) {
            assert(is_merged(modules, buckets[upto - 1]));
        } else {
            lemma_renames_of(modules, customized, buckets, upto - 1, key);
            let b = choose|b: int|
                {
                    &&& 0 <= b < upto - 1
                    &&& is_merged(modules, #[trigger] buckets[b])
                    &&& names_at(modules, buckets[b]).contains(key)
                    &&& renames_of(modules, customized, buckets, upto - 1)[key] == new_name_of(
                        modules,
                        customized,
                        buckets[b],
                    )
                };
            assert(0 <= b < upto && is_merged(modules, buckets[b]));
        }
    }
}

/// Whether no two merged buckets get the same new name.
pub open spec fn new_names_differ(
    modules: Seq<ModuleView>,
    customized: Map<Seq<char>, Seq<char>>,
) -> bool {
    forall|b1: int, b2: int|
        0 <= b1 < b2 < buckets_of(modules).len() && is_merged(
            modules,
            #[trigger] buckets_of(modules)[b1],
        ) && is_merged(modules, #[trigger] buckets_of(modules)[b2]) ==> new_name_of(
            modules,
            customized,
            buckets_of(modules)[b1],
        ) != new_name_of(modules, customized, buckets_of(modules)[b2])
}

/// Whatever is renamed is renamed to the name of a shared declaration: that of a merged bucket with
/// a member of the old name. Where no two merged buckets get the same new
/// name, one shared declaration only goes by that name.
pub proof fn law_shared_declaration_once(
    modules: Seq<ModuleView>,
    customized: Map<Seq<char>, Seq<char>>,
    key: Seq<char>,
)
    requires
        rename_map(modules, customized).contains_key(key),
    ensures
        exists|b: int, s: int|
            {
                &&& 0 <= b < buckets_of(modules).len()
                &&& is_merged(modules, #[trigger] buckets_of(modules)[b])
                &&& names_at(modules, buckets_of(modules)[b]).contains(key)
                &&& 0 <= s < shared_decls(modules, customized).len()
                &&& #[trigger] shared_decls(modules, customized)[s] == shared_decl_of(
                    modules,
                    customized,
                    buckets_of(modules)[b],
                )
                &&& shared_decls(modules, customized)[s].decl.name == rename_map(
                    modules,
                    customized,
                )[key]
            },
        new_names_differ(modules, customized) ==> forall|s: int, t: int|
            0 <= s < shared_decls(modules, customized).len() && 0 <= t < shared_decls(
                modules,
                customized,
            ).len() && (#[trigger] shared_decls(modules, customized)[s]).decl.name == (
            #[trigger] shared_decls(modules, customized)[t]).decl.name ==> s == t,
{
    let buckets = buckets_of(modules);
    let n = buckets.len() as int;
    let merged = merged_buckets(modules, buckets, n);
    let shared = shared_decls(modules, customized);
    lemma_renames_of(modules, customized, buckets, n, key);
    lemma_merged_buckets(modules, buckets, n);
    lemma_shared_of(modules, customized, buckets, n);
    let b = choose|b: int|
        {
            &&& 0 <= b < n
            &&& is_merged(modules, #[trigger] buckets[b])
            &&& names_at(modules, buckets[b]).contains(key)
            &&& renames_of(modules, customized, buckets, n)[key] == new_name_of(
                modules,
                customized,
                buckets[b],
            )
        };
    assert(merged.contains(b));
    let s = choose|s: int| 0 <= s < merged.len() && merged[s] == b;
    assert(shared[s] == shared_decl_of(modules, customized, buckets[merged[s]]));
    if new_names_differ(modules, customized) {
        assert forall|s: int, t: int|
            0 <= s < shared.len() && 0 <= t < shared.len() && (#[trigger] shared[s]).decl.name == (
            #[trigger] shared[t]).decl.name implies s == t by {
            assert(shared[s] == shared_decl_of(modules, customized, buckets[merged[s]]));
            assert(shared[t] == shared_decl_of(modules, customized, buckets[merged[t]]));
            if s < t {
                assert(merged[s] < merged[t]);
                assert(is_merged(modules, buckets[merged[s]]));
                assert(is_merged(modules, buckets[merged[t]]));
            }
            if t < s {
                assert(merged[t] < merged[s]);
                assert(is_merged(modules, buckets[merged[s]]));
                assert(is_merged(modules, buckets[merged[t]]));
            }
        }
    }
}

/// The names that get a new name are the names of the declarations that
/// are removed from their modules.
pub proof fn law_renamed_names_are_removed(
    modules: Seq<ModuleView>,
    customized: Map<Seq<char>, Seq<char>>,
    key: Seq<char>,
)
    requires
        of_machine_size(modules),
    ensures
        rename_map(modules, customized).contains_key(key) <==> exists|m: int, i: int|
            {
                &&& 0 <= m < modules.len()
                &&& 0 <= i < modules[m].items.len()
                &&& is_replaced(
                    #[trigger] modules[m].items[i],
                    rename_map(modules, customized).dom(),
                )
                &&& modules[m].items[i]->0.name == key
            },
{
    let buckets = buckets_of(modules);
    let names = rename_map(modules, customized);
    if names.contains_key(key) {
        lemma_renames_of(modules, customized, buckets, buckets.len() as int, key);
        let b = choose|b: int|
            {
                &&& 0 <= b < buckets.len()
                &&& is_merged(modules, #[trigger] buckets[b])
                &&& names_at(modules, buckets[b]).contains(key)
            };
        lemma_buckets(modules, b);
        let member_names = names_at(modules, buckets[b]);
        let j = choose|j: int| 0 <= j < member_names.len() && member_names[j] == key;
        let at = buckets[b][j];
        assert(member_names[j] == decl_at(modules, at).name);
        let m = at.module as int;
        let i = at.item as int;
        assert(is_replaced(modules[m].items[i], names.dom()));
    }
}

/// A simple leaf whose fields no other simple leaf has is the template of
/// no shared declaration, and it keeps its name unless a merged bucket holds
/// a declaration of the same name.
pub proof fn law_lone_declaration(
    modules: Seq<ModuleView>,
    customized: Map<Seq<char>, Seq<char>>,
    at: DeclRef,
)
    requires
        of_machine_size(modules),
        forall|k: int|
            0 <= k < candidates(modules, modules.len() as int).len() && #[trigger] candidates(
                modules,
                modules.len() as int,
            )[k] != at ==> decl_at(modules, candidates(modules, modules.len() as int)[k]).fields
                != decl_at(modules, at).fields,
    ensures
        forall|s: int|
            0 <= s < shared_decls(modules, customized).len() ==> (#[trigger] shared_decls(
                modules,
                customized,
            )[s]).template != at,
        (forall|b: int|
            0 <= b < buckets_of(modules).len() && is_merged(
                modules,
                #[trigger] buckets_of(modules)[b],
            ) ==> !names_at(modules, buckets_of(modules)[b]).contains(decl_at(modules, at).name))
            ==> !rename_map(modules, customized).contains_key(decl_at(modules, at).name),
{
    let buckets = buckets_of(modules);
    let n = buckets.len() as int;
    let places = candidates(modules, modules.len() as int);
    let merged = merged_buckets(modules, buckets, n);
    let shared = shared_decls(modules, customized);
    lemma_merged_buckets(modules, buckets, n);
    lemma_shared_of(modules, customized, buckets, n);
    assert forall|s: int| 0 <= s < shared.len() implies (#[trigger] shared[s]).template != at by {
        let b = merged[s];
        let bucket = buckets[b];
        assert(shared[s] == shared_decl_of(modules, customized, bucket));
        assert(is_merged(modules, bucket));
        if bucket[0] == at {
            lemma_buckets(modules, b);
            let names = names_at(modules, bucket);
            let i = choose|i: int| 0 <= i < names.len() && #[trigger] names[i] != names[0];
            let other = bucket[i];
            assert(places.contains(other));
            let k = choose|k: int| 0 <= k < places.len() && places[k] == other;
            assert(decl_at(modules, places[k]).fields == decl_at(modules, at).fields);
            assert(other == at);
            assert(names[i] == decl_at(modules, bucket[i]).name);
            assert(names[0] == decl_at(modules, bucket[0]).name);
        }
    }
    let name = decl_at(modules, at).name;
    if rename_map(modules, customized).contains_key(name) {
        lemma_renames_of(modules, customized, buckets, n, name);
    }
}

/// Where the new names of one run are handed to a second
/// run over the same modules as the names to be substituted, the second run
/// gives the same new names, provided that none of the names that the runs
/// make up is itself the name of a declaration that was merged.
pub proof fn law_names_are_stable(modules: Seq<ModuleView>, first: Map<Seq<char>, Seq<char>>)
    requires
        first == rename_map(modules, Map::empty()),
        forall|b: int|
            0 <= b < buckets_of(modules).len() && is_merged(
                modules,
                #[trigger] buckets_of(modules)[b],
            ) ==> !first.contains_key(generated_name(names_at(modules, buckets_of(modules)[b]))),
    ensures
        rename_map(modules, first) == first,
{
    lemma_same_renames(modules, first, buckets_of(modules), buckets_of(modules).len() as int);
}

proof fn lemma_same_renames(
    modules: Seq<ModuleView>,
    first: Map<Seq<char>, Seq<char>>,
    buckets: Seq<Seq<DeclRef>>,
    upto: int,
)
    requires
        0 <= upto <= buckets.len(),
        forall|b: int|
            0 <= b < buckets.len() && is_merged(modules, #[trigger] buckets[b])
                ==> !first.contains_key(generated_name(names_at(modules, buckets[b]))),
    ensures
        renames_of(modules, first, buckets, upto) == renames_of(
            modules,
            Map::empty(),
            buckets,
            upto,
        ),
    decreases upto,
{
    if upto > 0 {
        lemma_same_renames(modules, first, buckets, upto - 1);
        let names = names_at(modules, buckets[upto - 1]);
        if two_names(names) {
            assert(is_merged(modules, buckets[upto - 1]));
            assert(substitute_name(first, names) == substitute_name(Map::empty(), names));
        }
        assert(bucket_renames(first, names) =~= bucket_renames(Map::empty(), names));
    }
}

} // verus!
