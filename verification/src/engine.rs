//! Deduplication from end to end: sort the simple leaves into buckets, name
//! each bucket that merges declarations of different names, redirect every
//! reference to a merged declaration, and remove the merged declarations.

use crate::canonical::{canonical_declaration, canonical_decl, has_two_names, two_names};
use crate::grouping::{
    buckets_of, decl_at, group_by_fields, is_decl_at, lemma_buckets, lists, of_machine_size, DeclRef,
};
use crate::name_map::NameMap;
use crate::naming::{create_type_name_substitute, substitute_name};
use crate::rewrite::{
    delete_replaced_structs, items_touched, rewrite_items, surviving, surviving_below,
    surviving_positions, StructRenamer,
};
use crate::syntax::{views, Module, ModuleView, TypeDecl, TypeDeclView};
use crate::text::texts;
use vstd::prelude::*;

verus! {

/// The names of the declarations at the given places.
pub open spec fn names_at(modules: Seq<ModuleView>, places: Seq<DeclRef>) -> Seq<Seq<char>> {
    places.map_values(|at: DeclRef| decl_at(modules, at).name)
}

/// The new names that one bucket gives rise to, by the names of its members:
/// where these are not all the same, each gets the bucket's new name.
pub open spec fn bucket_renames(customized: Map<Seq<char>, Seq<char>>, names: Seq<Seq<char>>) -> Map<
    Seq<char>,
    Seq<char>,
> {
    if two_names(names) {
        Map::new(
            |name: Seq<char>| names.contains(name),
            |name: Seq<char>| substitute_name(customized, names),
        )
    } else {
        Map::empty()
    }
}

/// The new names that the first `upto` buckets give rise to. Where two
/// buckets hold a declaration of the same name, the later bucket decides.
pub open spec fn renames_of(
    modules: Seq<ModuleView>,
    customized: Map<Seq<char>, Seq<char>>,
    buckets: Seq<Seq<DeclRef>>,
    upto: int,
) -> Map<Seq<char>, Seq<char>>
    decreases upto,
{
    if upto <= 0 {
        Map::empty()
    } else {
        renames_of(modules, customized, buckets, upto - 1).union_prefer_right(
            bucket_renames(customized, names_at(modules, buckets[upto - 1])),
        )
    }
}

/// The new name of every declaration that is merged.
pub open spec fn rename_map(modules: Seq<ModuleView>, customized: Map<Seq<char>, Seq<char>>) -> Map<
    Seq<char>,
    Seq<char>,
> {
    renames_of(modules, customized, buckets_of(modules), buckets_of(modules).len() as int)
}

/// A declaration that takes the place of a bucket's members.
#[derive(Debug, PartialEq, Eq)]
pub struct SharedDecl {
    /// Where the bucket's first member stood.
    pub template: DeclRef,
    /// The declaration itself.
    pub decl: TypeDecl,
}

pub struct SharedDeclView {
    pub template: DeclRef,
    pub decl: TypeDeclView,
}

impl View for SharedDecl {
    type V = SharedDeclView;

    open spec fn view(&self) -> SharedDeclView {
        SharedDeclView { template: self.template, decl: self.decl@ }
    }
}

/// The shared declarations that the first `upto` buckets give rise to, one
/// for each bucket whose members do not all have the same name.
pub open spec fn shared_of(
    modules: Seq<ModuleView>,
    customized: Map<Seq<char>, Seq<char>>,
    buckets: Seq<Seq<DeclRef>>,
    upto: int,
) -> Seq<SharedDeclView>
    decreases upto,
{
    if upto <= 0 {
        Seq::empty()
    } else {
        let earlier = shared_of(modules, customized, buckets, upto - 1);
        let bucket = buckets[upto - 1];
        let names = names_at(modules, bucket);
        if two_names(names) {
            earlier.push(
                SharedDeclView {
                    template: bucket[0],
                    decl: canonical_decl(
                        decl_at(modules, bucket[0]),
                        substitute_name(customized, names),
                    ),
                },
            )
        } else {
            earlier
        }
    }
}

/// The shared declarations, in the order of their buckets.
pub open spec fn shared_decls(
    modules: Seq<ModuleView>,
    customized: Map<Seq<char>, Seq<char>>,
) -> Seq<SharedDeclView> {
    shared_of(modules, customized, buckets_of(modules), buckets_of(modules).len() as int)
}

/// A module after deduplication: its references are redirected, then the
/// declarations that were merged are removed.
pub open spec fn module_after(module: ModuleView, names: Map<Seq<char>, Seq<char>>) -> ModuleView {
    ModuleView { name: module.name, items: surviving(rewrite_items(module.items, names), names.dom()) }
}

/// What became of one module.
#[derive(Debug, PartialEq, Eq)]
pub struct ModuleOutcome {
    /// The module after deduplication.
    pub module: Module,
    /// Whether a reference in it was redirected.
    pub changed: bool,
    /// Where each item of `module` stood before the merged declarations
    /// were removed.
    pub kept: Vec<usize>,
}

/// The outcome of deduplication.
#[derive(Debug, PartialEq, Eq)]
pub struct Deduplication {
    /// The new name of every declaration that was merged.
    pub names: NameMap,
    /// The declarations that take the place of the merged ones.
    pub shared: Vec<SharedDecl>,
    /// What became of each module, in the order of the modules.
    pub modules: Vec<ModuleOutcome>,
}

/// Whether `outcome` is what becomes of `module` under the new names.
pub open spec fn is_outcome_of(
    outcome: ModuleOutcome,
    module: ModuleView,
    names: Map<Seq<char>, Seq<char>>,
) -> bool {
    &&& outcome.module@ == module_after(module, names)
    &&& outcome.changed == items_touched(module.items, names)
    &&& outcome.kept@ == surviving_below(
        rewrite_items(module.items, names),
        names.dom(),
        module.items.len() as int,
    )
}

/// The names of the members of a bucket.
fn member_names(modules: &Vec<Module>, bucket: &Vec<DeclRef>) -> (r: Vec<String>)
    requires
        forall|j: int| 0 <= j < bucket@.len() ==> is_decl_at(views(modules@), #[trigger] bucket@[j]),
    ensures
        texts(r@) == names_at(views(modules@), bucket@),
{
    let mut names: Vec<String> = Vec::new();
    let mut j: usize = 0;
    while j < bucket.len()
        invariant
            j <= bucket.len(),
            forall|i: int|
                0 <= i < bucket@.len() ==> is_decl_at(views(modules@), #[trigger] bucket@[i]),
            names@.len() == j,
            forall|i: int|
                0 <= i < j ==> (#[trigger] names@[i])@ == decl_at(views(modules@), bucket@[i]).name,
        decreases bucket.len() - j,
    {
        names.push(crate::grouping::declaration(modules, bucket[j]).name.clone());
        j += 1;
    }
    assert(texts(names@) =~= names_at(views(modules@), bucket@));
    names
}

/// Gives every name in `members` the new name `new_name`.
fn map_names(names: &mut NameMap, members: &Vec<String>, new_name: &String)
    ensures
        final(names)@ == old(names)@.union_prefer_right(
            Map::new(
                |name: Seq<char>| texts(members@).contains(name),
                |name: Seq<char>| new_name@,
            ),
        ),
{
    let mut i: usize = 0;
    assert(names@ =~= old(names)@.union_prefer_right(
        Map::new(
            |name: Seq<char>| texts(members@).take(0).contains(name),
            |name: Seq<char>| new_name@,
        ),
    ));
    while i < members.len()
        invariant
            i <= members.len(),
            names@ == old(names)@.union_prefer_right(
                Map::new(
                    |name: Seq<char>| texts(members@).take(i as int).contains(name),
                    |name: Seq<char>| new_name@,
                ),
            ),
        decreases members.len() - i,
    {
        let ghost before = names@;
        names.insert(members[i].clone(), new_name.clone());
        proof {
            let done = texts(members@).take(i as int);
            let next = texts(members@).take(i + 1);
            assert(next =~= done.push(members@[i as int]@));
            assert forall|name: Seq<char>| next.contains(name) <==> done.contains(name) || name
                == members@[i as int]@ by {
                if done.contains(name) {
                    let j = choose|j: int| 0 <= j < done.len() && done[j] == name;
                    assert(next[j] == name);
                }
                if name == members@[i as int]@ {
                    assert(next[i as int] == name);
                }
            }
            assert(names@ =~= old(names)@.union_prefer_right(
                Map::new(|name: Seq<char>| next.contains(name), |name: Seq<char>| new_name@),
            ));
        }
        i += 1;
    }
    assert(texts(members@).take(members@.len() as int) =~= texts(members@));
}

/// Merges the simple leaves that have the same fields under different names.
///
/// Each bucket whose members do not all have the same name gets one shared
/// declaration and one new name, which `customized` may replace. Every
/// field type that names a merged declaration, itself or as an argument of a
/// container, is redirected to the new name, and the merged declarations are
/// removed from their modules.
pub fn deduplicate(modules: Vec<Module>, customized: &NameMap) -> (r: Deduplication)
    ensures
        r.names@ == rename_map(views(modules@), customized@),
        views(r.shared@) == shared_decls(views(modules@), customized@),
        r.modules@.len() == modules@.len(),
        forall|m: int|
            0 <= m < modules@.len() ==> is_outcome_of(
                #[trigger] r.modules@[m],
                modules@[m]@,
                r.names@,
            ),
{
    let ghost ms = views(modules@);
    let ghost all = buckets_of(ms);
    let buckets = group_by_fields(&modules);
    let mut names = NameMap::new();
    let mut shared: Vec<SharedDecl> = Vec::new();
    let mut b: usize = 0;
    assert(views(shared@) =~= Seq::empty());
    while b < buckets.len()
        invariant
            b <= buckets.len(),
            ms == views(modules@),
            all == buckets_of(ms),
            lists(buckets@) == all,
            of_machine_size(ms),
            names@ == renames_of(ms, customized@, all, b as int),
            views(shared@) == shared_of(ms, customized@, all, b as int),
        decreases buckets.len() - b,
    {
        let bucket = &buckets[b];
        proof {
            assert(lists(buckets@)[b as int] == bucket@);
            lemma_buckets(ms, b as int);
        }
        let ghost member_texts = names_at(ms, bucket@);
        if bucket.len() > 1 {
            let mapped_type_names = member_names(&modules, bucket);
            let type_new_name = create_type_name_substitute(customized, &mapped_type_names);
            if has_two_names(&mapped_type_names) {
                let ghost before = views(shared@);
                let new_struct = canonical_declaration(
                    crate::grouping::declaration(&modules, bucket[0]),
                    type_new_name.clone(),
                );
                shared.push(SharedDecl { template: bucket[0], decl: new_struct });
                assert(views(shared@) =~= before.push(
                    SharedDeclView {
                        template: bucket@[0],
                        decl: canonical_decl(
                            decl_at(ms, bucket@[0]),
                            substitute_name(customized@, member_texts),
                        ),
                    },
                ));
                let ghost earlier = names@;
                map_names(&mut names, &mapped_type_names, &type_new_name);
                assert(names@ =~= earlier.union_prefer_right(
                    bucket_renames(customized@, member_texts),
                ));
            } else {
                assert(names@ =~= names@.union_prefer_right(
                    bucket_renames(customized@, member_texts),
                ));
            }
        } else {
            assert(!two_names(member_texts));
            assert(names@ =~= names@.union_prefer_right(bucket_renames(customized@, member_texts)));
        }
        b += 1;
    }
    let mut renaming_visitor = StructRenamer { changed: false, names };
    let ghost renames = renaming_visitor.names@;
    let count: usize = modules.len();
    let mut outcomes: Vec<ModuleOutcome> = Vec::new();
    for module in it: modules
        invariant
            ms == views(it.seq()),
            it.seq().len() == count,
            renaming_visitor.names@ == renames,
            outcomes@.len() == it.index(),
            forall|m: int|
                0 <= m < it.index() ==> is_outcome_of(#[trigger] outcomes@[m], ms[m], renames),
    {
        let ghost before = module@;
        assert(ms[it.index() as int] == before);
        let mut f = module;
        renaming_visitor.changed = false;
        renaming_visitor.visit_file_mut(&mut f);
        let kept = surviving_positions(&f, &renaming_visitor.names.keys());
        let new_file = delete_replaced_structs(f, renaming_visitor.names.keys());
        outcomes.push(
            ModuleOutcome { module: new_file, changed: renaming_visitor.changed, kept },
        );
    }
    Deduplication { names: renaming_visitor.names, shared, modules: outcomes }
}

} // verus!
