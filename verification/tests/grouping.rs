use struct_dedup::grouping::{collect_candidates, group_by_fields, DeclRef};
use struct_dedup::syntax::{
    copy_decorations, copy_fields, same_decorations, same_fields, Decoration, Field, Item, Module,
    TypeDecl, TypeRef,
};

fn at(module: usize, item: usize) -> DeclRef {
    DeclRef { module, item }
}

fn note(name: &str, text: &str) -> Decoration {
    Decoration { name: name.to_string(), text: text.to_string() }
}

fn field(name: &str, ty: &str, decorations: Vec<Decoration>) -> Field {
    Field { name: name.to_string(), ty: TypeRef::Name(ty.to_string()), decorations }
}

fn decl(name: &str, fields: Vec<Field>) -> Item {
    Item::Decl(TypeDecl { name: name.to_string(), decorations: vec![], fields })
}

fn module(name: &str, items: Vec<Item>) -> Module {
    Module { name: name.to_string(), items }
}

fn name_and_count() -> Vec<Field> {
    vec![field("name", "String", vec![]), field("count", "i32", vec![])]
}

#[test]
fn candidates_are_the_simple_leaves_in_the_order_of_the_modules() {
    let modules = vec![
        module(
            "a.rs",
            vec![Item::Other, decl("A", name_and_count()), decl("B", vec![field("a", "A", vec![])])],
        ),
        module("b.rs", vec![]),
        module("c.rs", vec![decl("C", vec![]), Item::Other, decl("D", name_and_count())]),
    ];
    assert_eq!(collect_candidates(&modules), vec![at(0, 1), at(2, 0), at(2, 2)]);
}

#[test]
fn declarations_with_the_same_fields_share_a_bucket() {
    let modules = vec![
        module("a.rs", vec![decl("A", name_and_count()), decl("Lone", vec![field("x", "i32", vec![])])]),
        module("b.rs", vec![Item::Other, decl("B", name_and_count())]),
        module("c.rs", vec![decl("C", name_and_count())]),
    ];
    assert_eq!(
        group_by_fields(&modules),
        vec![vec![at(0, 0), at(1, 1), at(2, 0)], vec![at(0, 1)]]
    );
}

#[test]
fn buckets_come_in_the_order_of_their_first_members() {
    let x = || vec![field("x", "i32", vec![])];
    let y = || vec![field("y", "i32", vec![])];
    let z = || vec![field("z", "String", vec![])];
    let modules = vec![
        module("a.rs", vec![decl("X1", x()), decl("Y1", y()), decl("X2", x())]),
        module("b.rs", vec![decl("Z1", z()), decl("Y2", y()), decl("X3", x())]),
    ];
    assert_eq!(
        group_by_fields(&modules),
        vec![vec![at(0, 0), at(0, 2), at(1, 2)], vec![at(0, 1), at(1, 1)], vec![at(1, 0)]]
    );
}

#[test]
fn fields_in_another_order_are_other_fields() {
    let forward = name_and_count();
    let backward = vec![field("count", "i32", vec![]), field("name", "String", vec![])];
    assert!(!same_fields(&forward, &backward));
    let modules = vec![module("a.rs", vec![decl("A", forward), decl("B", backward)])];
    assert_eq!(group_by_fields(&modules), vec![vec![at(0, 0)], vec![at(0, 1)]]);
}

#[test]
fn decorations_in_another_order_are_other_fields() {
    let one = vec![field("name", "String", vec![note("doc", "/// a"), note("serde", "#[serde(x)]")])];
    let two = vec![field("name", "String", vec![note("serde", "#[serde(x)]"), note("doc", "/// a")])];
    assert!(!same_fields(&one, &two));
    assert!(!same_decorations(&one[0].decorations, &two[0].decorations));
    let modules = vec![module("a.rs", vec![decl("A", one), decl("B", two)])];
    assert_eq!(group_by_fields(&modules), vec![vec![at(0, 0)], vec![at(0, 1)]]);
}

#[test]
fn documentation_counts_when_fields_are_compared() {
    let plain = vec![field("name", "String", vec![])];
    let documented = vec![field("name", "String", vec![note("doc", "/// the name")])];
    let modules = vec![module("a.rs", vec![decl("A", plain), decl("B", documented)])];
    assert_eq!(group_by_fields(&modules), vec![vec![at(0, 0)], vec![at(0, 1)]]);
}

#[test]
fn fields_differ_by_name_type_and_decoration() {
    let base = vec![field("name", "String", vec![note("serde", "#[serde(a)]")])];
    assert!(same_fields(&base, &copy_fields(&base)));
    assert!(same_decorations(&base[0].decorations, &copy_decorations(&base[0].decorations)));
    assert!(!same_fields(&base, &vec![field("title", "String", vec![note("serde", "#[serde(a)]")])]));
    assert!(!same_fields(&base, &vec![field("name", "i32", vec![note("serde", "#[serde(a)]")])]));
    assert!(!same_fields(&base, &vec![field("name", "String", vec![note("serde", "#[serde(b)]")])]));
    assert!(!same_fields(&base, &vec![field("name", "String", vec![note("other", "#[serde(a)]")])]));
    assert!(!same_fields(&base, &vec![]));
    let nested = |inner: &str| {
        vec![Field {
            name: "list".to_string(),
            ty: TypeRef::Generic {
                container: "Vec".to_string(),
                args: vec![TypeRef::Generic {
                    container: "Option".to_string(),
                    args: vec![TypeRef::Name(inner.to_string())],
                }],
            },
            decorations: vec![],
        }]
    };
    assert!(same_fields(&nested("i32"), &nested("i32")));
    assert!(!same_fields(&nested("i32"), &nested("String")));
}

#[test]
fn modules_without_simple_leaves_give_no_buckets() {
    let modules = vec![
        module("a.rs", vec![Item::Other, decl("A", vec![field("b", "B", vec![])])]),
        module("b.rs", vec![]),
    ];
    assert_eq!(group_by_fields(&modules), Vec::<Vec<DeclRef>>::new());
    assert_eq!(group_by_fields(&vec![]), Vec::<Vec<DeclRef>>::new());
}
