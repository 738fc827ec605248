//! Redirecting references to merged declarations, and removing the
//! declarations that were merged.

use crate::name_map::NameMap;
use crate::syntax::{
    lemma_generic_args, views, FieldView, Item, ItemView, Module, TypeDecl, TypeDeclView, TypeRef,
    TypeRefView,
};
use crate::text::{same_text, texts};
use vstd::prelude::*;

verus! {

/// Whether a type is a bare name that has a new name.
pub open spec fn names_a_key(t: TypeRefView, names: Map<Seq<char>, Seq<char>>) -> bool {
    t matches TypeRefView::Name(name) && names.contains_key(name)
}

/// A bare name that has a new name becomes that name; anything else stays.
pub open spec fn rename_direct(t: TypeRefView, names: Map<Seq<char>, Seq<char>>) -> TypeRefView {
    match t {
        TypeRefView::Name(name) => if names.contains_key(name) {
            TypeRefView::Name(names[name])
        } else {
            t
        },
        _ => t,
    }
}

/// A field's type after renaming: a bare name is renamed, and so is each
/// argument of a container that is a bare name. Arguments of arguments stay.
pub open spec fn rewrite_type(t: TypeRefView, names: Map<Seq<char>, Seq<char>>) -> TypeRefView {
    match t {
        TypeRefView::Generic { container, args } => TypeRefView::Generic {
            container,
            args: args.map_values(|a: TypeRefView| rename_direct(a, names)),
        },
        _ => rename_direct(t, names),
    }
}

/// Whether renaming finds anything to rename in a field's type.
pub open spec fn type_touched(t: TypeRefView, names: Map<Seq<char>, Seq<char>>) -> bool {
    match t {
        TypeRefView::Generic { container, args } => exists|i: int|
            0 <= i < args.len() && names_a_key(#[trigger] args[i], names),
        _ => names_a_key(t, names),
    }
}

/// Renames a bare name that has a new name; says whether it did.
fn rename_name(path: &mut TypeRef, names: &NameMap) -> (changed: bool)
    ensures
        final(path)@ == rename_direct(old(path)@, names@),
        changed == names_a_key(old(path)@, names@),
{
    match path {
        TypeRef::Name(ident) => {
            if let Some(new_name) = names.get(ident.as_str()) {
                *ident = new_name.clone();
                true
            } else {
                false
            }
        },
        _ => false,
    }
}

/// Renames each argument that is a bare name with a new name.
fn rename_arguments(args: &mut Vec<TypeRef>, names: &NameMap) -> (changed: bool)
    ensures
        views(final(args)@) == views(old(args)@).map_values(
            |a: TypeRefView| rename_direct(a, names@),
        ),
        changed == (exists|i: int|
            0 <= i < old(args)@.len() && names_a_key(#[trigger] views(old(args)@)[i], names@)),
{
    let mut changed = false;
    let mut i: usize = 0;
    while i < args.len()
        invariant
            i <= args.len(),
            args@.len() == old(args)@.len(),
            forall|j: int|
                0 <= j < i ==> (#[trigger] args@[j])@ == rename_direct(old(args)@[j]@, names@),
            forall|j: int| i <= j < args.len() ==> #[trigger] args@[j] == old(args)@[j],
            changed == (exists|j: int|
                0 <= j < i && names_a_key(#[trigger] views(old(args)@)[j], names@)),
        decreases args.len() - i,
    {
        let ghost seen = changed;
        let arg_changed = rename_name(&mut args[i], names);
        changed = changed || arg_changed;
        proof {
            let before = views(old(args)@);
            assert(before[i as int] == old(args)@[i as int]@);
            if seen {
                let j = choose|j: int| 0 <= j < i && names_a_key(#[trigger] before[j], names@);
                assert(0 <= j < i + 1 && names_a_key(before[j], names@));
            }
            if arg_changed {
                assert(0 <= i < i + 1 && names_a_key(before[i as int], names@));
            }
        }
        i += 1;
    }
    assert(views(args@) =~= views(old(args)@).map_values(
        |a: TypeRefView| rename_direct(a, names@),
    ));
    changed
}

/// Renames what a field's type names; says whether it found anything to rename.
pub fn rewrite_ident(path: &mut TypeRef, names: &NameMap) -> (file_changed: bool)
    ensures
        final(path)@ == rewrite_type(old(path)@, names@),
        file_changed == type_touched(old(path)@, names@),
{
    let file_changed = match path {
        TypeRef::Generic { container, args } => rename_arguments(args, names),
        _ => rename_name(path, names),
    };
    proof {
        if *old(path) is Generic {
            lemma_generic_args(*old(path));
            lemma_generic_args(*path);
        }
    }
    file_changed
}

/// A field after renaming: its type is rewritten, the rest stays.
pub open spec fn rewrite_field(f: FieldView, names: Map<Seq<char>, Seq<char>>) -> FieldView {
    FieldView { name: f.name, ty: rewrite_type(f.ty, names), decorations: f.decorations }
}

/// A declaration after renaming: each field is rewritten; the declaration's
/// own name and decorations stay.
pub open spec fn rewrite_decl(d: TypeDeclView, names: Map<Seq<char>, Seq<char>>) -> TypeDeclView {
    TypeDeclView {
        name: d.name,
        decorations: d.decorations,
        fields: d.fields.map_values(|f: FieldView| rewrite_field(f, names)),
    }
}

/// Whether renaming finds anything to rename in a declaration.
pub open spec fn decl_touched(d: TypeDeclView, names: Map<Seq<char>, Seq<char>>) -> bool {
    exists|i: int| 0 <= i < d.fields.len() && type_touched((#[trigger] d.fields[i]).ty, names)
}

/// An item after renaming.
pub open spec fn rewrite_item(item: ItemView, names: Map<Seq<char>, Seq<char>>) -> ItemView {
    match item {
        ItemView::Decl(d) => ItemView::Decl(rewrite_decl(d, names)),
        ItemView::Other => ItemView::Other,
    }
}

/// Whether renaming finds anything to rename in an item.
pub open spec fn item_touched(item: ItemView, names: Map<Seq<char>, Seq<char>>) -> bool {
    item matches ItemView::Decl(d) && decl_touched(d, names)
}

/// The items of a module after renaming.
pub open spec fn rewrite_items(items: Seq<ItemView>, names: Map<Seq<char>, Seq<char>>) -> Seq<
    ItemView,
> {
    items.map_values(|item: ItemView| rewrite_item(item, names))
}

/// Whether renaming finds anything to rename among the items of a module.
pub open spec fn items_touched(items: Seq<ItemView>, names: Map<Seq<char>, Seq<char>>) -> bool {
    exists|i: int| 0 <= i < items.len() && item_touched(#[trigger] items[i], names)
}

/// Walks a module and redirects what its declarations refer to.
pub struct StructRenamer {
    /// Whether anything was renamed since this was last cleared.
    pub changed: bool,
    /// The new name of each declaration that was merged.
    pub names: NameMap,
}

impl StructRenamer {
    /// Rewrites the type of each field of a declaration.
    pub fn visit_item_struct_mut(&mut self, node: &mut TypeDecl)
        ensures
            final(self).names == old(self).names,
            final(self).changed == (old(self).changed || decl_touched(
                old(node)@,
                old(self).names@,
            )),
            final(node)@ == rewrite_decl(old(node)@, old(self).names@),
    {
        let ghost names = self.names@;
        let ghost before = old(node)@;
        let mut i: usize = 0;
        while i < node.fields.len()
            invariant
                i <= node.fields.len(),
                self.names == old(self).names,
                names == self.names@,
                before == old(node)@,
                node.name == old(node).name,
                node.decorations == old(node).decorations,
                node.fields@.len() == before.fields.len(),
                forall|j: int|
                    0 <= j < i ==> (#[trigger] node.fields@[j])@ == rewrite_field(
                        before.fields[j],
                        names,
                    ),
                forall|j: int|
                    i <= j < node.fields.len() ==> (#[trigger] node.fields@[j])@ == before.fields[j],
                self.changed == (old(self).changed || exists|j: int|
                    0 <= j < i && type_touched((#[trigger] before.fields[j]).ty, names)),
            decreases node.fields.len() - i,
        {
            let ghost seen = exists|j: int|
                0 <= j < i && type_touched((#[trigger] before.fields[j]).ty, names);
            let field_changed = rewrite_ident(&mut node.fields[i].ty, &self.names);
            self.changed = self.changed || field_changed;
            proof {
                if seen {
                    let j = choose|j: int|
                        0 <= j < i && type_touched((#[trigger] before.fields[j]).ty, names);
                    assert(0 <= j < i + 1 && type_touched(before.fields[j].ty, names));
                }
                if field_changed {
                    assert(0 <= i < i + 1 && type_touched(before.fields[i as int].ty, names));
                }
            }
            i += 1;
        }
        assert(node@.fields =~= rewrite_decl(before, names).fields);
    }

    /// Rewrites every declaration of a module.
    pub fn visit_file_mut(&mut self, file: &mut Module)
        ensures
            final(self).names == old(self).names,
            final(self).changed == (old(self).changed || items_touched(
                old(file)@.items,
                old(self).names@,
            )),
            final(file).name == old(file).name,
            final(file)@.items == rewrite_items(old(file)@.items, old(self).names@),
    {
        let ghost names = self.names@;
        let ghost before = old(file)@.items;
        let mut i: usize = 0;
        while i < file.items.len()
            invariant
                i <= file.items.len(),
                self.names == old(self).names,
                names == self.names@,
                before == old(file)@.items,
                file.name == old(file).name,
                file.items@.len() == before.len(),
                forall|j: int|
                    0 <= j < i ==> (#[trigger] file.items@[j])@ == rewrite_item(before[j], names),
                forall|j: int| i <= j < file.items.len() ==> (#[trigger] file.items@[j])@ == before[j],
                self.changed == (old(self).changed || exists|j: int|
                    0 <= j < i && item_touched(#[trigger] before[j], names)),
            decreases file.items.len() - i,
        {
            let ghost seen = exists|j: int| 0 <= j < i && item_touched(#[trigger] before[j], names);
            let ghost was = self.changed;
            match &mut file.items[i] {
                Item::Decl(node) => {
                    self.visit_item_struct_mut(node);
                },
                Item::Other => {},
            }
            proof {
                if seen {
                    let j = choose|j: int| 0 <= j < i && item_touched(#[trigger] before[j], names);
                    assert(0 <= j < i + 1 && item_touched(before[j], names));
                }
                if item_touched(before[i as int], names) {
                    assert(0 <= i < i + 1 && item_touched(before[i as int], names));
                }
            }
            i += 1;
        }
        assert(file@.items =~= rewrite_items(before, names));
    }
}

/// Whether an item is a declaration with one of the given names.
pub open spec fn is_replaced(item: ItemView, names: Set<Seq<char>>) -> bool {
    item matches ItemView::Decl(d) && names.contains(d.name)
}

/// The positions below `upto` of the items that are not replaced, ascending.
pub open spec fn surviving_below(items: Seq<ItemView>, names: Set<Seq<char>>, upto: int) -> Seq<
    usize,
>
    decreases upto,
{
    if upto <= 0 {
        Seq::empty()
    } else if is_replaced(items[upto - 1], names) {
        surviving_below(items, names, upto - 1)
    } else {
        surviving_below(items, names, upto - 1).push((upto - 1) as usize)
    }
}

/// The items that are not replaced, in their order.
pub open spec fn surviving(items: Seq<ItemView>, names: Set<Seq<char>>) -> Seq<ItemView> {
    surviving_below(items, names, items.len() as int).map_values(|at: usize| items[at as int])
}

/// Whether `name` is one of `names`.
pub fn contains_name(names: &Vec<String>, name: &str) -> (r: bool)
    ensures
        r == texts(names@).contains(name@),
{
    let mut i: usize = 0;
    while i < names.len()
        invariant
            i <= names.len(),
            forall|j: int| 0 <= j < i ==> (#[trigger] texts(names@)[j]) != name@,
        decreases names.len() - i,
    {
        if same_text(names[i].as_str(), name) {
            assert(texts(names@)[i as int] == name@);
            return true;
        }
        i += 1;
    }
    false
}

/// Where the items stand that `delete_replaced_structs` keeps.
pub fn surviving_positions(file: &Module, names: &Vec<String>) -> (r: Vec<usize>)
    ensures
        r@ == surviving_below(file@.items, texts(names@).to_set(), file@.items.len() as int),
{
    let mut kept: Vec<usize> = Vec::new();
    let mut i: usize = 0;
    while i < file.items.len()
        invariant
            i <= file.items.len(),
            kept@ == surviving_below(file@.items, texts(names@).to_set(), i as int),
        decreases file.items.len() - i,
    {
        assert(file@.items[i as int] == file.items@[i as int]@);
        let replaced = match &file.items[i] {
            Item::Decl(item) => contains_name(names, item.name.as_str()),
            Item::Other => false,
        };
        if !replaced {
            kept.push(i);
        }
        i += 1;
    }
    kept
}

/// Removes the declarations that go by one of the given names. Every other
/// item stays, in its place among those that stay.
pub fn delete_replaced_structs(file: Module, names: Vec<String>) -> (r: Module)
    ensures
        r.name == file.name,
        r@.items == surviving(file@.items, texts(names@).to_set()),
{
    let Module { name, items } = file;
    let ghost before = views(items@);
    let count: usize = items.len();
    let mut kept: Vec<Item> = Vec::new();
    for item in it: items
        invariant
            before == views(it.seq()),
            it.seq().len() == count,
            views(kept@) == surviving_below(
                before,
                texts(names@).to_set(),
                it.index() as int,
            ).map_values(
                |at: usize| before[at as int],
            ),
    {
        let ghost at = it.index() as int;
        let ghost positions = surviving_below(before, texts(names@).to_set(), at);
        assert(before[at] == item@);
        let replaced = match &item {
            Item::Decl(item) => contains_name(&names, item.name.as_str()),
            Item::Other => false,
        };
        if !replaced {
            let ghost kept_before = views(kept@);
            kept.push(item);
            assert(views(kept@) =~= kept_before.push(before[at]));
            assert(positions.push(at as usize).map_values(|p: usize| before[p as int])
                =~= positions.map_values(|p: usize| before[p as int]).push(before[at]));
        }
    }
    Module { name, items: kept }
}

} // verus!
