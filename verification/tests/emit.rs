use struct_dedup::emit::{
    emit, index_text, is_module_file, lines_text, module_text, shared_text, COMMON_TYPES_FILE,
    COMMON_TYPES_FILE_PREAMBLE, COMMON_TYPES_USE_PREAMBLE, GENERATED_PREAMBLE, INDEX_FILE,
    MODULE_SUFFIX,
};

#[test]
fn modules_are_the_files_with_the_suffix_but_for_the_index() {
    assert_eq!(MODULE_SUFFIX, ".rs");
    assert!(is_module_file("grpcroutes.rs"));
    assert!(is_module_file("a.rs"));
    assert!(is_module_file(".rs"));
    assert!(is_module_file("common_types.rs"));
    assert!(is_module_file("mod.rs.rs"));
    assert!(!is_module_file("mod.rs"));
    assert!(!is_module_file("grpcroutes.txt"));
    assert!(!is_module_file("grpcroutes.rs.bak"));
    assert!(!is_module_file("rs"));
    assert!(!is_module_file(""));
    assert!(!is_module_file("grpcroutes.RS"));
}

#[test]
fn the_preambles_are_fixed_texts() {
    assert_eq!(GENERATED_PREAMBLE, "// WARNING! generated file do not edit\n\n");
    assert_eq!(COMMON_TYPES_USE_PREAMBLE, "use super::common_types::*;\n\n");
    assert!(COMMON_TYPES_FILE_PREAMBLE.starts_with("#[allow(unused_imports)]\nmod prelude {\n"));
    assert!(COMMON_TYPES_FILE_PREAMBLE.ends_with("}\nuse self::prelude::*;"));
    assert_eq!(COMMON_TYPES_FILE_PREAMBLE.lines().count(), 9);
    assert_eq!(INDEX_FILE, "mod.rs");
    assert_eq!(COMMON_TYPES_FILE, "common_types.rs");
}

#[test]
fn the_index_lists_the_shared_declarations_and_every_module() {
    let names = vec!["grpcroutes.rs".to_string(), "httproutes.rs".to_string()];
    assert_eq!(
        index_text(&names),
        "// WARNING! generated file do not edit\n\npub mod common_types;\n\npub mod grpcroutes;\npub mod httproutes;\n"
    );
    assert_eq!(
        index_text(&vec![]),
        "// WARNING! generated file do not edit\n\npub mod common_types;\n\n"
    );
}

#[test]
fn the_index_drops_three_characters_of_each_name() {
    let names = vec!["a.rs".to_string(), ".rs".to_string(), "rs".to_string(), "abcdef".to_string()];
    assert_eq!(
        index_text(&names),
        "// WARNING! generated file do not edit\n\npub mod common_types;\n\npub mod a;\npub mod ;\npub mod ;\npub mod abc;\n"
    );
}

#[test]
fn a_module_begins_with_the_warning_and_the_import() {
    assert_eq!(
        module_text("pub struct A;\n"),
        "// WARNING! generated file do not edit\n\nuse super::common_types::*;\n\npub struct A;\n"
    );
    assert_eq!(
        module_text(""),
        "// WARNING! generated file do not edit\n\nuse super::common_types::*;\n\n"
    );
}

#[test]
fn the_shared_declarations_follow_their_preamble() {
    let text = shared_text("pub struct CommonFoo;\n");
    assert_eq!(text, format!("{}\n\n\npub struct CommonFoo;\n", COMMON_TYPES_FILE_PREAMBLE));
}

#[test]
fn only_changed_modules_are_written() {
    let modules = vec![
        ("a.rs".to_string(), "struct A;\n".to_string(), true),
        ("b.rs".to_string(), "struct B;\n".to_string(), false),
        ("c.rs".to_string(), "struct C;\n".to_string(), true),
    ];
    let files = emit(&modules, "struct CommonFoo;\n");
    assert_eq!(
        files,
        vec![
            (
                "mod.rs".to_string(),
                "// WARNING! generated file do not edit\n\npub mod common_types;\n\npub mod a;\npub mod b;\npub mod c;\n"
                    .to_string()
            ),
            ("a.rs".to_string(), module_text("struct A;\n")),
            ("c.rs".to_string(), module_text("struct C;\n")),
            ("common_types.rs".to_string(), shared_text("struct CommonFoo;\n")),
        ]
    );
}

#[test]
fn without_modules_the_index_and_the_shared_declarations_are_written() {
    let files = emit(&vec![], "");
    assert_eq!(
        files,
        vec![
            ("mod.rs".to_string(), index_text(&vec![])),
            ("common_types.rs".to_string(), shared_text("")),
        ]
    );
}

#[test]
fn lines_are_closed_by_line_feeds() {
    assert_eq!(lines_text(&vec!["a->b".to_string(), "c->d".to_string()]), "a->b\nc->d\n");
    assert_eq!(lines_text(&vec![]), "");
    assert_eq!(lines_text(&vec![String::new()]), "\n");
}
