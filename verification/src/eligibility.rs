//! Which declarations are simple leaves, and so may be merged.
//!
//! A type is simple if it is one of the two primitive names, or a container
//! all of whose arguments are simple, to any depth. A declaration is a simple
//! leaf if the type of every field is simple.

use crate::syntax::{Item, ItemView, Module, TypeDecl, TypeDeclView, TypeRef, TypeRefView};
use crate::text::same_text;
use vstd::prelude::*;

verus! {

/// The two names that count as primitive.
pub open spec fn is_primitive_name(name: Seq<char>) -> bool {
    name == "String"@ || name == "i32"@
}

/// Whether a type is built from the primitive names alone.
pub open spec fn simple_type(t: TypeRefView) -> bool
    decreases t,
{
    match t {
        TypeRefView::Name(name) => is_primitive_name(name),
        TypeRefView::Generic { container, args } => forall|i: int|
            0 <= i < args.len() ==> simple_type(#[trigger] args[i]),
        TypeRefView::Opaque => false,
    }
}

/// Whether every field of a declaration has a simple type.
pub open spec fn simple_leaf(d: TypeDeclView) -> bool {
    forall|i: int| 0 <= i < d.fields.len() ==> simple_type((#[trigger] d.fields[i]).ty)
}

/// Whether an item is a declaration that is a simple leaf.
pub open spec fn is_simple_leaf_item(item: ItemView) -> bool {
    item matches ItemView::Decl(d) && simple_leaf(d)
}

/// The positions below `upto` of the simple leaves among `items`, ascending.
pub open spec fn simple_leaves(items: Seq<ItemView>, upto: int) -> Seq<usize>
    decreases upto,
{
    if upto <= 0 {
        Seq::empty()
    } else if is_simple_leaf_item(items[upto - 1]) {
        simple_leaves(items, upto - 1).push((upto - 1) as usize)
    } else {
        simple_leaves(items, upto - 1)
    }
}

/// Clears `is_simple` unless the type is simple; never sets it.
pub fn check_simple_type(path: &TypeRef, is_simple: &mut bool)
    ensures
        *final(is_simple) == (*old(is_simple) && simple_type(path@)),
    decreases path,
{
    match path {
        TypeRef::Name(ident) => {
            if same_text(ident.as_str(), "String") || same_text(ident.as_str(), "i32") {
            } else {
                *is_simple = false;
            }
        },
        TypeRef::Generic { container, args } => {
            let ghost before = *is_simple;
            let mut i: usize = 0;
            while i < args.len()
                invariant
                    decreases_to!(path => args),
                    *path == (TypeRef::Generic { container: *container, args: *args }),
                    i <= args.len(),
                    *is_simple == (before && forall|j: int|
                        0 <= j < i ==> simple_type(#[trigger] path@->args[j])),
                decreases args.len() - i,
            {
                proof {
                    vstd::std_specs::vec::axiom_vec_index_decreases(*args, i as int);
                }
                let arg = &args[i];
                assert(path@->args[i as int] == arg@);
                check_simple_type(arg, is_simple);
                i += 1;
            }
        },
        TypeRef::Opaque => {
            *is_simple = false;
        },
    }
}

/// Whether a declaration is a simple leaf.
pub fn is_simple_leaf(node: &TypeDecl) -> (r: bool)
    ensures
        r == simple_leaf(node@),
{
    let mut is_simple_leaf = true;
    let mut i: usize = 0;
    while i < node.fields.len()
        invariant
            i <= node.fields.len(),
            is_simple_leaf == (forall|j: int|
                0 <= j < i ==> simple_type((#[trigger] node@.fields[j]).ty)),
        decreases node.fields.len() - i,
    {
        assert(node@.fields[i as int] == node.fields@[i as int]@);
        check_simple_type(&node.fields[i].ty, &mut is_simple_leaf);
        i += 1;
    }
    is_simple_leaf
}

/// Walks one module and notes where its simple leaves stand.
pub struct StructVisitor {
    /// The module's name.
    pub name: String,
    /// The positions of the simple leaves seen so far.
    pub structs: Vec<usize>,
}

impl StructVisitor {
    /// Looks at the declaration that stands at `index` and notes the position
    /// if it is a simple leaf.
    pub fn visit_item_struct(&mut self, index: usize, node: &TypeDecl)
        ensures
            final(self).name == old(self).name,
            final(self).structs@ == (if simple_leaf(node@) {
                old(self).structs@.push(index)
            } else {
                old(self).structs@
            }),
    {
        if is_simple_leaf(node) {
            self.structs.push(index);
        }
    }

    /// Looks at every item of a module in order.
    pub fn visit_file(&mut self, file: &Module)
        ensures
            final(self).name == old(self).name,
            final(self).structs@ == old(self).structs@ + simple_leaves(
                file@.items,
                file@.items.len() as int,
            ),
    {
        let mut i: usize = 0;
        while i < file.items.len()
            invariant
                i <= file.items.len(),
                self.name == old(self).name,
                self.structs@ == old(self).structs@ + simple_leaves(file@.items, i as int),
            decreases file.items.len() - i,
        {
            assert(file@.items[i as int] == file.items@[i as int]@);
            let ghost seen = simple_leaves(file@.items, i as int);
            match &file.items[i] {
                Item::Decl(node) => {
                    self.visit_item_struct(i, node);
                    assert(old(self).structs@ + seen.push(i) =~= (old(self).structs@ + seen).push(
                        i,
                    ));
                },
                Item::Other => {},
            }
            i += 1;
        }
    }
}

} // verus!
