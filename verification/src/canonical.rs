//! The declaration that takes the place of a bucket's members.
//!
//! It is the bucket's first member under the bucket's new name, without the
//! documentation on the declaration and on its fields.

use crate::syntax::{
    is_documentation, views, Decoration, DecorationView, Field, FieldView, TypeDecl, TypeDeclView,
};
use crate::text::{same_text, texts};
use vstd::prelude::*;

verus! {

/// The decorations that are no documentation, in their order.
pub open spec fn without_documentation(decorations: Seq<DecorationView>) -> Seq<DecorationView>
    decreases decorations.len(),
{
    if decorations.len() == 0 {
        decorations
    } else {
        let front = without_documentation(decorations.drop_last());
        if is_documentation(decorations.last()) {
            front
        } else {
            front.push(decorations.last())
        }
    }
}

/// A field without its documentation.
pub open spec fn plain_field(f: FieldView) -> FieldView {
    FieldView { name: f.name, ty: f.ty, decorations: without_documentation(f.decorations) }
}

/// The template under a new name and without documentation.
pub open spec fn canonical_decl(template: TypeDeclView, name: Seq<char>) -> TypeDeclView {
    TypeDeclView {
        name,
        decorations: without_documentation(template.decorations),
        fields: template.fields.map_values(|f: FieldView| plain_field(f)),
    }
}

/// Whether the names are not all the same.
pub open spec fn two_names(names: Seq<Seq<char>>) -> bool {
    exists|i: int| 0 <= i < names.len() && #[trigger] names[i] != names[0]
}

/// Copies the decorations that are no documentation.
pub fn strip_documentation(decorations: &Vec<Decoration>) -> (r: Vec<Decoration>)
    ensures
        views(r@) == without_documentation(views(decorations@)),
{
    let ghost all = views(decorations@);
    let mut kept: Vec<Decoration> = Vec::new();
    let mut i: usize = 0;
    assert(all.take(0) =~= Seq::empty());
    assert(views(kept@) =~= Seq::empty());
    while i < decorations.len()
        invariant
            i <= decorations.len(),
            all == views(decorations@),
            views(kept@) == without_documentation(all.take(i as int)),
        decreases decorations.len() - i,
    {
        assert(all.take(i + 1).drop_last() =~= all.take(i as int));
        assert(all.take(i + 1).last() == decorations@[i as int]@);
        if !decorations[i].is_documentation() {
            let ghost before = views(kept@);
            kept.push(decorations[i].clone());
            assert(views(kept@) =~= before.push(decorations@[i as int]@));
        }
        i += 1;
    }
    assert(all.take(all.len() as int) =~= all);
    kept
}

/// Makes the declaration that takes the place of `template` and of the
/// declarations with the same fields.
pub fn canonical_declaration(template: &TypeDecl, name: String) -> (r: TypeDecl)
    ensures
        r@ == canonical_decl(template@, name@),
{
    let mut fields: Vec<Field> = Vec::new();
    let mut i: usize = 0;
    while i < template.fields.len()
        invariant
            i <= template.fields.len(),
            fields@.len() == i,
            forall|j: int| 0 <= j < i ==> (#[trigger] fields@[j])@ == plain_field(template@.fields[j]),
        decreases template.fields.len() - i,
    {
        let f = &template.fields[i];
        assert(template@.fields[i as int] == f@);
        fields.push(
            Field {
                name: f.name.clone(),
                ty: f.ty.clone(),
                decorations: strip_documentation(&f.decorations),
            },
        );
        i += 1;
    }
    let r = TypeDecl { name, decorations: strip_documentation(&template.decorations), fields };
    assert(r@.fields =~= canonical_decl(template@, name@).fields);
    r
}

/// Whether the names are not all the same.
pub fn has_two_names(names: &Vec<String>) -> (r: bool)
    ensures
        r == two_names(texts(names@)),
{
    let mut i: usize = 1;
    while i < names.len()
        invariant
            1 <= i,
            forall|j: int|
                0 <= j < i && j < names.len() ==> #[trigger] texts(names@)[j] == texts(names@)[0],
        decreases names.len() - i,
    {
        if !same_text(names[i].as_str(), names[0].as_str()) {
            assert(texts(names@)[i as int] != texts(names@)[0]);
            return true;
        }
        i += 1;
    }
    false
}

} // verus!
