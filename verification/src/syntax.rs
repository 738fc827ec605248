//! The part of a module's syntax that deduplication reads.
//!
//! A module is a list of top-level items. Of a type declaration the name, the
//! decorations and the fields are kept; of a field its name, its decorations
//! and its type. Every other item, and every type that is neither a bare name
//! nor a container applied to arguments, is carried as an opaque mark.
//!
//! Each type has a view made of sequences, and the contracts of the crate
//! speak of views only: two values with the same view are the same syntax.

use crate::text::same_text;
use vstd::prelude::*;

verus! {

/// The views of a list of values.
pub open spec fn views<T: View>(v: Seq<T>) -> Seq<T::V> {
    v.map_values(|x: T| x@)
}

/// An annotation on a declaration or on a field.
#[derive(Debug, PartialEq, Eq)]
pub struct Decoration {
    /// The annotation's name where it is a single word, else empty.
    pub name: String,
    /// The annotation as it is written.
    pub text: String,
}

pub struct DecorationView {
    pub name: Seq<char>,
    pub text: Seq<char>,
}

impl View for Decoration {
    type V = DecorationView;

    open spec fn view(&self) -> DecorationView {
        DecorationView { name: self.name@, text: self.text@ }
    }
}

/// Documentation is the decoration named `doc`.
pub open spec fn is_documentation(d: DecorationView) -> bool {
    d.name == "doc"@
}

/// A reference to a type, as a field's type or as a type argument.
#[derive(Debug, PartialEq, Eq)]
pub enum TypeRef {
    /// A bare name without type arguments.
    Name(String),
    /// A container applied to type arguments.
    Generic { container: String, args: Vec<TypeRef> },
    /// Any other form of type; nothing is read from it.
    Opaque,
}

pub enum TypeRefView {
    Name(Seq<char>),
    Generic { container: Seq<char>, args: Seq<TypeRefView> },
    Opaque,
}

impl View for TypeRef {
    type V = TypeRefView;

    open spec fn view(&self) -> TypeRefView
        decreases self,
    {
        match self {
            TypeRef::Name(name) => TypeRefView::Name(name@),
            TypeRef::Generic { container, args } => TypeRefView::Generic {
                container: container@,
                args: Seq::new(
                    args.len() as nat,
                    |i: int|
                        if 0 <= i < args.len() {
                            args[i]@
                        } else {
                            TypeRefView::Opaque
                        },
                ),
            },
            TypeRef::Opaque => TypeRefView::Opaque,
        }
    }
}

/// A field of a type declaration.
#[derive(Debug, PartialEq, Eq)]
pub struct Field {
    pub name: String,
    pub ty: TypeRef,
    pub decorations: Vec<Decoration>,
}

pub struct FieldView {
    pub name: Seq<char>,
    pub ty: TypeRefView,
    pub decorations: Seq<DecorationView>,
}

impl View for Field {
    type V = FieldView;

    open spec fn view(&self) -> FieldView {
        FieldView { name: self.name@, ty: self.ty@, decorations: views(self.decorations@) }
    }
}

/// A named type with an ordered list of fields.
#[derive(Debug, PartialEq, Eq)]
pub struct TypeDecl {
    pub name: String,
    pub decorations: Vec<Decoration>,
    pub fields: Vec<Field>,
}

pub struct TypeDeclView {
    pub name: Seq<char>,
    pub decorations: Seq<DecorationView>,
    pub fields: Seq<FieldView>,
}

impl View for TypeDecl {
    type V = TypeDeclView;

    open spec fn view(&self) -> TypeDeclView {
        TypeDeclView {
            name: self.name@,
            decorations: views(self.decorations@),
            fields: views(self.fields@),
        }
    }
}

/// A top-level item of a module.
#[derive(Debug, PartialEq, Eq)]
pub enum Item {
    Decl(TypeDecl),
    /// Anything that is no type declaration.
    Other,
}

pub enum ItemView {
    Decl(TypeDeclView),
    Other,
}

impl View for Item {
    type V = ItemView;

    open spec fn view(&self) -> ItemView {
        match self {
            Item::Decl(decl) => ItemView::Decl(decl@),
            Item::Other => ItemView::Other,
        }
    }
}

/// A named module: the unit that is read and written.
#[derive(Debug, PartialEq, Eq)]
pub struct Module {
    pub name: String,
    pub items: Vec<Item>,
}

pub struct ModuleView {
    pub name: Seq<char>,
    pub items: Seq<ItemView>,
}

impl View for Module {
    type V = ModuleView;

    open spec fn view(&self) -> ModuleView {
        ModuleView { name: self.name@, items: views(self.items@) }
    }
}

/// The arguments of a generic reference are the views of its `args`.
pub proof fn lemma_generic_args(t: TypeRef)
    requires
        t is Generic,
    ensures
        t@ is Generic,
        t@->container == t->container@,
        t@->args == views(t->args@),
{
    assert(t@->args =~= views(t->args@));
}

impl Decoration {
    /// Whether this is a piece of documentation.
    pub fn is_documentation(&self) -> (r: bool)
        ensures
            r == is_documentation(self@),
    {
        same_text(self.name.as_str(), "doc")
    }

    /// Whether two decorations are written alike.
    pub fn same_as(&self, other: &Decoration) -> (r: bool)
        ensures
            r == (self@ == other@),
    {
        same_text(self.name.as_str(), other.name.as_str()) && same_text(
            self.text.as_str(),
            other.text.as_str(),
        )
    }
}

impl Clone for Decoration {
    fn clone(&self) -> (r: Decoration)
        ensures
            r@ == self@,
    {
        Decoration { name: self.name.clone(), text: self.text.clone() }
    }
}

/// Whether two lists of decorations are alike, order included.
pub fn same_decorations(a: &Vec<Decoration>, b: &Vec<Decoration>) -> (r: bool)
    ensures
        r == (views(a@) == views(b@)),
{
    if a.len() != b.len() {
        assert(views(a@).len() != views(b@).len());
        return false;
    }
    let mut i: usize = 0;
    while i < a.len()
        invariant
            a.len() == b.len(),
            i <= a.len(),
            forall|j: int| 0 <= j < i ==> (#[trigger] a@[j])@ == b@[j]@,
        decreases a.len() - i,
    {
        if !a[i].same_as(&b[i]) {
            assert(views(a@)[i as int] != views(b@)[i as int]);
            return false;
        }
        i += 1;
    }
    assert(views(a@) =~= views(b@));
    true
}

/// A copy of a list of decorations.
pub fn copy_decorations(a: &Vec<Decoration>) -> (r: Vec<Decoration>)
    ensures
        views(r@) == views(a@),
{
    let mut copies: Vec<Decoration> = Vec::new();
    let mut i: usize = 0;
    while i < a.len()
        invariant
            i <= a.len(),
            copies@.len() == i,
            forall|j: int| 0 <= j < i ==> (#[trigger] copies@[j])@ == a@[j]@,
        decreases a.len() - i,
    {
        copies.push(a[i].clone());
        i += 1;
    }
    assert(views(copies@) =~= views(a@));
    copies
}

impl TypeRef {
    /// Whether two type references are alike.
    pub fn same_as(&self, other: &TypeRef) -> (r: bool)
        ensures
            r == (self@ == other@),
        decreases self,
    {
        match self {
            TypeRef::Name(name) => match other {
                TypeRef::Name(other_name) => same_text(name.as_str(), other_name.as_str()),
                _ => false,
            },
            TypeRef::Generic { container, args } => match other {
                TypeRef::Generic { container: other_container, args: other_args } => {
                    if !same_text(container.as_str(), other_container.as_str()) {
                        return false;
                    }
                    if args.len() != other_args.len() {
                        assert(self@->args.len() != other@->args.len());
                        return false;
                    }
                    let mut i: usize = 0;
                    while i < args.len()
                        invariant
                            decreases_to!(self => args),
                            *self == (TypeRef::Generic { container: *container, args: *args }),
                            *other == (TypeRef::Generic {
                                container: *other_container,
                                args: *other_args,
                            }),
                            container@ == other_container@,
                            args.len() == other_args.len(),
                            i <= args.len(),
                            forall|j: int| 0 <= j < i ==> (#[trigger] args@[j])@ == other_args@[j]@,
                        decreases args.len() - i,
                    {
                        proof {
                            vstd::std_specs::vec::axiom_vec_index_decreases(*args, i as int);
                        }
                        let arg = &args[i];
                        if !arg.same_as(&other_args[i]) {
                            assert(self@->args[i as int] != other@->args[i as int]);
                            return false;
                        }
                        i += 1;
                    }
                    assert(self@->args =~= other@->args);
                    true
                },
                _ => false,
            },
            TypeRef::Opaque => match other {
                TypeRef::Opaque => true,
                _ => false,
            },
        }
    }
}

impl Clone for TypeRef {
    fn clone(&self) -> (r: TypeRef)
        ensures
            r@ == self@,
        decreases self,
    {
        match self {
            TypeRef::Name(name) => TypeRef::Name(name.clone()),
            TypeRef::Generic { container, args } => {
                let mut copies: Vec<TypeRef> = Vec::new();
                let mut i: usize = 0;
                while i < args.len()
                    invariant
                        decreases_to!(self => args),
                        *self == (TypeRef::Generic { container: *container, args: *args }),
                        i <= args.len(),
                        copies@.len() == i,
                        forall|j: int| 0 <= j < i ==> (#[trigger] copies@[j])@ == args@[j]@,
                    decreases args.len() - i,
                {
                    proof {
                        vstd::std_specs::vec::axiom_vec_index_decreases(*args, i as int);
                    }
                    let arg = &args[i];
                    copies.push(arg.clone());
                    i += 1;
                }
                let r = TypeRef::Generic { container: container.clone(), args: copies };
                assert(r@->args =~= self@->args);
                r
            },
            TypeRef::Opaque => TypeRef::Opaque,
        }
    }
}

impl Field {
    /// Whether two fields are alike: name, type and decorations.
    pub fn same_as(&self, other: &Field) -> (r: bool)
        ensures
            r == (self@ == other@),
    {
        same_text(self.name.as_str(), other.name.as_str()) && self.ty.same_as(&other.ty)
            && same_decorations(&self.decorations, &other.decorations)
    }
}

impl Clone for Field {
    fn clone(&self) -> (r: Field)
        ensures
            r@ == self@,
    {
        Field {
            name: self.name.clone(),
            ty: self.ty.clone(),
            decorations: copy_decorations(&self.decorations),
        }
    }
}

/// Whether two lists of fields are alike: the same fields in the same order,
/// each with the same decorations in the same order.
pub fn same_fields(a: &Vec<Field>, b: &Vec<Field>) -> (r: bool)
    ensures
        r == (views(a@) == views(b@)),
{
    if a.len() != b.len() {
        assert(views(a@).len() != views(b@).len());
        return false;
    }
    let mut i: usize = 0;
    while i < a.len()
        invariant
            a.len() == b.len(),
            i <= a.len(),
            forall|j: int| 0 <= j < i ==> (#[trigger] a@[j])@ == b@[j]@,
        decreases a.len() - i,
    {
        if !a[i].same_as(&b[i]) {
            assert(views(a@)[i as int] != views(b@)[i as int]);
            return false;
        }
        i += 1;
    }
    assert(views(a@) =~= views(b@));
    true
}

/// A copy of a list of fields.
pub fn copy_fields(a: &Vec<Field>) -> (r: Vec<Field>)
    ensures
        views(r@) == views(a@),
{
    let mut copies: Vec<Field> = Vec::new();
    let mut i: usize = 0;
    while i < a.len()
        invariant
            i <= a.len(),
            copies@.len() == i,
            forall|j: int| 0 <= j < i ==> (#[trigger] copies@[j])@ == a@[j]@,
        decreases a.len() - i,
    {
        copies.push(a[i].clone());
        i += 1;
    }
    assert(views(copies@) =~= views(a@));
    copies
}

impl Clone for TypeDecl {
    fn clone(&self) -> (r: TypeDecl)
        ensures
            r@ == self@,
    {
        TypeDecl {
            name: self.name.clone(),
            decorations: copy_decorations(&self.decorations),
            fields: copy_fields(&self.fields),
        }
    }
}

impl Clone for Item {
    fn clone(&self) -> (r: Item)
        ensures
            r@ == self@,
    {
        match self {
            Item::Decl(decl) => Item::Decl(decl.clone()),
            Item::Other => Item::Other,
        }
    }
}

impl Clone for Module {
    fn clone(&self) -> (r: Module)
        ensures
            r@ == self@,
    {
        let mut copies: Vec<Item> = Vec::new();
        let mut i: usize = 0;
        while i < self.items.len()
            invariant
                i <= self.items.len(),
                copies@.len() == i,
                forall|j: int| 0 <= j < i ==> (#[trigger] copies@[j])@ == self.items@[j]@,
            decreases self.items.len() - i,
        {
            copies.push(self.items[i].clone());
            i += 1;
        }
        assert(views(copies@) =~= views(self.items@));
        Module { name: self.name.clone(), items: copies }
    }
}

} // verus!
