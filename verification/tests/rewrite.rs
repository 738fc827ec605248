use struct_dedup::name_map::NameMap;
use struct_dedup::rewrite::{
    contains_name, delete_replaced_structs, rewrite_ident, surviving_positions, StructRenamer,
};
use struct_dedup::syntax::{Field, Item, Module, TypeDecl, TypeRef};

fn name(text: &str) -> TypeRef {
    TypeRef::Name(text.to_string())
}

fn generic(container: &str, args: Vec<TypeRef>) -> TypeRef {
    TypeRef::Generic { container: container.to_string(), args }
}

fn names(pairs: &[(&str, &str)]) -> NameMap {
    let mut map = NameMap::new();
    for (key, value) in pairs {
        map.insert(key.to_string(), value.to_string());
    }
    map
}

fn decl(decl_name: &str, fields: Vec<(&str, TypeRef)>) -> TypeDecl {
    TypeDecl {
        name: decl_name.to_string(),
        decorations: vec![],
        fields: fields
            .into_iter()
            .map(|(field, ty)| Field { name: field.to_string(), ty, decorations: vec![] })
            .collect(),
    }
}

#[test]
fn a_bare_name_with_a_new_name_is_renamed() {
    let map = names(&[("Old", "New")]);
    let mut ty = name("Old");
    assert!(rewrite_ident(&mut ty, &map));
    assert_eq!(ty, name("New"));
    let mut ty = name("Other");
    assert!(!rewrite_ident(&mut ty, &map));
    assert_eq!(ty, name("Other"));
    let mut ty = TypeRef::Opaque;
    assert!(!rewrite_ident(&mut ty, &map));
    assert_eq!(ty, TypeRef::Opaque);
}

#[test]
fn the_arguments_of_a_container_are_renamed() {
    let map = names(&[("Old", "New"), ("Vec", "List")]);
    let mut ty = generic("Vec", vec![name("Old")]);
    assert!(rewrite_ident(&mut ty, &map));
    // the container keeps its name, even where that name has a new name
    assert_eq!(ty, generic("Vec", vec![name("New")]));
    let mut ty = generic("BTreeMap", vec![name("String"), name("Old"), TypeRef::Opaque, name("Old")]);
    assert!(rewrite_ident(&mut ty, &map));
    assert_eq!(
        ty,
        generic("BTreeMap", vec![name("String"), name("New"), TypeRef::Opaque, name("New")])
    );
    let mut ty = generic("Option", vec![name("String")]);
    assert!(!rewrite_ident(&mut ty, &map));
    assert_eq!(ty, generic("Option", vec![name("String")]));
}

#[test]
fn the_arguments_of_arguments_are_not_renamed() {
    let map = names(&[("Old", "New")]);
    let mut ty = generic("Option", vec![generic("Vec", vec![name("Old")])]);
    assert!(!rewrite_ident(&mut ty, &map));
    assert_eq!(ty, generic("Option", vec![generic("Vec", vec![name("Old")])]));
    let mut ty = generic("Pair", vec![name("Old"), generic("Vec", vec![name("Old")])]);
    assert!(rewrite_ident(&mut ty, &map));
    assert_eq!(ty, generic("Pair", vec![name("New"), generic("Vec", vec![name("Old")])]));
}

#[test]
fn renaming_to_the_same_name_counts_as_a_change() {
    let map = names(&[("Same", "Same")]);
    let mut ty = name("Same");
    assert!(rewrite_ident(&mut ty, &map));
    assert_eq!(ty, name("Same"));
}

#[test]
fn the_renamer_rewrites_the_fields_of_a_declaration() {
    let mut renamer = StructRenamer { changed: false, names: names(&[("Old", "New")]) };
    let mut node = decl(
        "Old",
        vec![("a", name("Old")), ("b", name("String")), ("c", generic("Vec", vec![name("Old")]))],
    );
    renamer.visit_item_struct_mut(&mut node);
    assert!(renamer.changed);
    // the declaration's own name is not a reference
    assert_eq!(
        node,
        decl(
            "Old",
            vec![("a", name("New")), ("b", name("String")), ("c", generic("Vec", vec![name("New")]))],
        )
    );
    renamer.changed = false;
    let mut untouched = decl("Holder", vec![("b", name("String"))]);
    renamer.visit_item_struct_mut(&mut untouched);
    assert!(!renamer.changed);
    assert_eq!(untouched, decl("Holder", vec![("b", name("String"))]));
    // the flag is only ever set
    renamer.changed = true;
    renamer.visit_item_struct_mut(&mut untouched);
    assert!(renamer.changed);
}

#[test]
fn the_renamer_rewrites_every_declaration_of_a_module() {
    let mut renamer = StructRenamer { changed: false, names: names(&[("Old", "New")]) };
    let mut file = Module {
        name: "a.rs".to_string(),
        items: vec![
            Item::Decl(decl("A", vec![("x", name("i32"))])),
            Item::Other,
            Item::Decl(decl("B", vec![("old", generic("Option", vec![name("Old")]))])),
        ],
    };
    renamer.visit_file_mut(&mut file);
    assert!(renamer.changed);
    assert_eq!(
        file,
        Module {
            name: "a.rs".to_string(),
            items: vec![
                Item::Decl(decl("A", vec![("x", name("i32"))])),
                Item::Other,
                Item::Decl(decl("B", vec![("old", generic("Option", vec![name("New")]))])),
            ],
        }
    );
    assert_eq!(renamer.names, names(&[("Old", "New")]));
}

#[test]
fn declarations_with_the_given_names_are_removed() {
    let file = Module {
        name: "a.rs".to_string(),
        items: vec![
            Item::Decl(decl("A", vec![])),
            Item::Other,
            Item::Decl(decl("B", vec![("x", name("i32"))])),
            Item::Decl(decl("C", vec![])),
            Item::Other,
        ],
    };
    let gone = vec!["C".to_string(), "A".to_string(), "Z".to_string()];
    assert_eq!(surviving_positions(&file, &gone), vec![1, 2, 4]);
    let left = delete_replaced_structs(file, gone);
    assert_eq!(
        left,
        Module {
            name: "a.rs".to_string(),
            items: vec![Item::Other, Item::Decl(decl("B", vec![("x", name("i32"))])), Item::Other],
        }
    );
}

#[test]
fn without_names_nothing_is_removed() {
    let file = Module {
        name: "a.rs".to_string(),
        items: vec![Item::Decl(decl("A", vec![])), Item::Other],
    };
    assert_eq!(surviving_positions(&file, &vec![]), vec![0, 1]);
    let left = delete_replaced_structs(file, vec![]);
    assert_eq!(left.items.len(), 2);
    let empty = Module { name: "b.rs".to_string(), items: vec![] };
    assert_eq!(delete_replaced_structs(empty, vec!["A".to_string()]).items, vec![]);
}

#[test]
fn contains_name_looks_for_the_whole_name() {
    let list = vec!["Alpha".to_string(), "Beta".to_string()];
    assert!(contains_name(&list, "Alpha"));
    assert!(contains_name(&list, "Beta"));
    assert!(!contains_name(&list, "Alph"));
    assert!(!contains_name(&list, "alpha"));
    assert!(!contains_name(&vec![], "Alpha"));
}
