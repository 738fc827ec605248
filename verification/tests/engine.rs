use struct_dedup::engine::{deduplicate, Deduplication, ModuleOutcome, SharedDecl};
use struct_dedup::grouping::DeclRef;
use struct_dedup::name_map::NameMap;
use struct_dedup::persist::{read_type_names, write_type_names};
use struct_dedup::syntax::{Decoration, Field, Item, Module, TypeDecl, TypeRef};

fn name(text: &str) -> TypeRef {
    TypeRef::Name(text.to_string())
}

fn generic(container: &str, args: Vec<TypeRef>) -> TypeRef {
    TypeRef::Generic { container: container.to_string(), args }
}

fn decl(decl_name: &str, fields: Vec<(&str, TypeRef)>) -> TypeDecl {
    TypeDecl {
        name: decl_name.to_string(),
        decorations: vec![],
        fields: fields
            .into_iter()
            .map(|(field, ty)| Field { name: field.to_string(), ty, decorations: vec![] })
            .collect(),
    }
}

fn request(decl_name: &str) -> TypeDecl {
    decl(decl_name, vec![("name", name("String")), ("count", name("i32"))])
}

fn module(module_name: &str, items: Vec<Item>) -> Module {
    Module { name: module_name.to_string(), items }
}

fn names(pairs: &[(&str, &str)]) -> NameMap {
    let mut map = NameMap::new();
    for (key, value) in pairs {
        map.insert(key.to_string(), value.to_string());
    }
    map
}

fn two_services() -> Vec<Module> {
    vec![
        module(
            "alpha.rs",
            vec![
                Item::Decl(request("AlphaFooRequest")),
                Item::Decl(decl(
                    "AlphaCall",
                    vec![
                        ("request", name("AlphaFooRequest")),
                        ("all", generic("Vec", vec![name("AlphaFooRequest")])),
                    ],
                )),
                Item::Other,
            ],
        ),
        module(
            "beta.rs",
            vec![
                Item::Other,
                Item::Decl(request("BetaFooRequest")),
                Item::Decl(decl(
                    "BetaCall",
                    vec![("request", generic("Option", vec![name("BetaFooRequest")]))],
                )),
            ],
        ),
    ]
}

#[test]
fn two_declarations_with_the_same_fields_are_merged() {
    let outcome = deduplicate(two_services(), &NameMap::new());
    assert_eq!(
        outcome,
        Deduplication {
            names: names(&[
                ("AlphaFooRequest", "CommonFooRequest"),
                ("BetaFooRequest", "CommonFooRequest"),
            ]),
            shared: vec![SharedDecl {
                template: DeclRef { module: 0, item: 0 },
                decl: request("CommonFooRequest"),
            }],
            modules: vec![
                ModuleOutcome {
                    module: module(
                        "alpha.rs",
                        vec![
                            Item::Decl(decl(
                                "AlphaCall",
                                vec![
                                    ("request", name("CommonFooRequest")),
                                    ("all", generic("Vec", vec![name("CommonFooRequest")])),
                                ],
                            )),
                            Item::Other,
                        ],
                    ),
                    changed: true,
                    kept: vec![1, 2],
                },
                ModuleOutcome {
                    module: module(
                        "beta.rs",
                        vec![
                            Item::Other,
                            Item::Decl(decl(
                                "BetaCall",
                                vec![("request", generic("Option", vec![name("CommonFooRequest")]))],
                            )),
                        ],
                    ),
                    changed: true,
                    kept: vec![0, 2],
                },
            ],
        }
    );
}

#[test]
fn declarations_of_one_name_are_not_merged() {
    let modules = vec![
        module(
            "alpha.rs",
            vec![
                Item::Decl(request("FooRequest")),
                Item::Decl(decl("AlphaCall", vec![("request", name("FooRequest"))])),
            ],
        ),
        module(
            "beta.rs",
            vec![
                Item::Decl(request("FooRequest")),
                Item::Decl(decl("BetaCall", vec![("request", name("FooRequest"))])),
            ],
        ),
    ];
    let before = modules.clone();
    let outcome = deduplicate(modules, &NameMap::new());
    assert_eq!(outcome.names, NameMap::new());
    assert_eq!(outcome.shared, vec![]);
    assert_eq!(outcome.modules.len(), 2);
    for (result, module) in outcome.modules.iter().zip(before.iter()) {
        assert_eq!(&result.module, module);
        assert!(!result.changed);
        assert_eq!(result.kept, vec![0, 1]);
    }
}

#[test]
fn a_declaration_without_a_double_is_left_alone() {
    let modules = vec![
        module(
            "alpha.rs",
            vec![
                Item::Decl(request("AlphaFooRequest")),
                Item::Decl(decl("Lone", vec![("id", name("i32"))])),
                Item::Decl(decl("Uses", vec![("lone", name("Lone"))])),
            ],
        ),
        module("beta.rs", vec![Item::Decl(request("BetaFooRequest"))]),
    ];
    let outcome = deduplicate(modules, &NameMap::new());
    assert!(!outcome.names.contains_key("Lone"));
    assert!(outcome.shared.iter().all(|shared| shared.template != DeclRef { module: 0, item: 1 }));
    assert_eq!(outcome.shared.len(), 1);
    assert_eq!(
        outcome.modules[0].module.items,
        vec![
            Item::Decl(decl("Lone", vec![("id", name("i32"))])),
            Item::Decl(decl("Uses", vec![("lone", name("Lone"))])),
        ]
    );
    // the module lost a declaration, but no reference in it was redirected
    assert!(!outcome.modules[0].changed);
    assert_eq!(outcome.modules[0].kept, vec![1, 2]);
    assert_eq!(outcome.modules[1].module.items, vec![]);
    assert!(!outcome.modules[1].changed);
}

#[test]
fn without_doubles_nothing_happens() {
    let modules = vec![
        module("alpha.rs", vec![Item::Decl(decl("A", vec![("id", name("i32"))])), Item::Other]),
        module("beta.rs", vec![Item::Decl(decl("B", vec![("id", name("String"))]))]),
        module("gamma.rs", vec![]),
    ];
    let before = modules.clone();
    let outcome = deduplicate(modules, &NameMap::new());
    assert_eq!(outcome.names, NameMap::new());
    assert_eq!(outcome.shared, vec![]);
    let after: Vec<Module> = outcome.modules.iter().map(|m| m.module.clone()).collect();
    assert_eq!(after, before);
    assert!(outcome.modules.iter().all(|m| !m.changed));
    assert_eq!(deduplicate(vec![], &NameMap::new()).modules, vec![]);
}

#[test]
fn a_customized_name_is_used_for_the_shared_declaration() {
    let customized = names(&[("CommonFooRequest", "FooRequest"), ("CommonOther", "Other")]);
    let outcome = deduplicate(two_services(), &customized);
    assert_eq!(
        outcome.names,
        names(&[("AlphaFooRequest", "FooRequest"), ("BetaFooRequest", "FooRequest")])
    );
    assert_eq!(outcome.shared.len(), 1);
    assert_eq!(outcome.shared[0].decl, request("FooRequest"));
    assert_eq!(
        outcome.modules[1].module.items[1],
        Item::Decl(decl("BetaCall", vec![("request", generic("Option", vec![name("FooRequest")]))]))
    );
}

#[test]
fn the_shared_declaration_is_the_first_member_without_its_documentation() {
    let documented = |decl_name: &str, text: &str| TypeDecl {
        name: decl_name.to_string(),
        decorations: vec![
            Decoration { name: "doc".to_string(), text: text.to_string() },
            Decoration { name: "derive".to_string(), text: "#[derive(Clone)]".to_string() },
        ],
        fields: vec![Field {
            name: "name".to_string(),
            ty: name("String"),
            decorations: vec![Decoration { name: "doc".to_string(), text: "/// name".to_string() }],
        }],
    };
    let modules = vec![
        module("a.rs", vec![Item::Decl(documented("GRPCRouteName", "/// of a gRPC route"))]),
        module("b.rs", vec![Item::Decl(documented("HTTPRouteName", "/// of an HTTP route"))]),
    ];
    let outcome = deduplicate(modules, &NameMap::new());
    assert_eq!(
        outcome.shared,
        vec![SharedDecl {
            template: DeclRef { module: 0, item: 0 },
            decl: TypeDecl {
                name: "CommonNameRoute".to_string(),
                decorations: vec![Decoration {
                    name: "derive".to_string(),
                    text: "#[derive(Clone)]".to_string(),
                }],
                fields: vec![Field { name: "name".to_string(), ty: name("String"), decorations: vec![] }],
            },
        }]
    );
}

#[test]
fn each_bucket_gets_its_own_shared_declaration() {
    let point = |decl_name: &str| decl(decl_name, vec![("x", name("i32")), ("y", name("i32"))]);
    let modules = vec![
        module(
            "alpha.rs",
            vec![Item::Decl(point("AlphaPoint")), Item::Decl(request("AlphaFooRequest"))],
        ),
        module(
            "beta.rs",
            vec![
                Item::Decl(request("BetaFooRequest")),
                Item::Decl(point("BetaPoint")),
                Item::Decl(decl("Path", vec![("points", generic("Vec", vec![name("BetaPoint")]))])),
            ],
        ),
    ];
    let outcome = deduplicate(modules, &NameMap::new());
    assert_eq!(
        outcome.names,
        names(&[
            ("AlphaFooRequest", "CommonFooRequest"),
            ("AlphaPoint", "CommonPoint"),
            ("BetaFooRequest", "CommonFooRequest"),
            ("BetaPoint", "CommonPoint"),
        ])
    );
    assert_eq!(
        outcome.shared,
        vec![
            SharedDecl { template: DeclRef { module: 0, item: 0 }, decl: point("CommonPoint") },
            SharedDecl {
                template: DeclRef { module: 0, item: 1 },
                decl: request("CommonFooRequest"),
            },
        ]
    );
    assert_eq!(outcome.modules[0].module.items, vec![]);
    assert!(!outcome.modules[0].changed);
    assert_eq!(
        outcome.modules[1].module.items,
        vec![Item::Decl(decl("Path", vec![("points", generic("Vec", vec![name("CommonPoint")]))]))]
    );
    assert!(outcome.modules[1].changed);
    assert_eq!(outcome.modules[1].kept, vec![2]);
}

fn mentions(ty: &TypeRef, wanted: &str) -> bool {
    match ty {
        TypeRef::Name(found) => found == wanted,
        TypeRef::Generic { args, .. } => args.iter().any(|arg| mentions(arg, wanted)),
        TypeRef::Opaque => false,
    }
}

#[test]
fn no_reference_to_a_merged_declaration_is_left() {
    let outcome = deduplicate(two_services(), &NameMap::new());
    for key in outcome.names.keys() {
        for result in &outcome.modules {
            for item in &result.module.items {
                if let Item::Decl(found) = item {
                    assert_ne!(found.name, key);
                    for field in &found.fields {
                        assert!(!mentions(&field.ty, &key));
                    }
                }
            }
        }
    }
}

#[test]
fn a_reference_within_a_container_within_a_container_is_left() {
    let mut modules = two_services();
    modules[1].items.push(Item::Decl(decl(
        "Deep",
        vec![("requests", generic("Option", vec![generic("Vec", vec![name("BetaFooRequest")])]))],
    )));
    let outcome = deduplicate(modules, &NameMap::new());
    assert_eq!(
        outcome.modules[1].module.items[2],
        Item::Decl(decl(
            "Deep",
            vec![("requests", generic("Option", vec![generic("Vec", vec![name("BetaFooRequest")])]))],
        ))
    );
}

#[test]
fn every_merged_declaration_is_gone_and_its_new_name_is_shared_once() {
    let outcome = deduplicate(two_services(), &NameMap::new());
    for (old_name, new_name) in outcome.names.entries() {
        for result in &outcome.modules {
            for item in &result.module.items {
                if let Item::Decl(found) = item {
                    assert_ne!(&found.name, old_name);
                }
            }
        }
        let count = outcome.shared.iter().filter(|shared| &shared.decl.name == new_name).count();
        assert_eq!(count, 1);
    }
}

#[test]
fn a_second_run_with_the_written_names_gives_the_same_names() {
    let first = deduplicate(two_services(), &NameMap::new());
    let (_, mappings) = write_type_names(&first.names);
    let customized = read_type_names(&mappings);
    assert_eq!(customized, first.names);
    let second = deduplicate(two_services(), &customized);
    assert_eq!(second.names, first.names);
    assert_eq!(second, first);
}

#[test]
fn two_buckets_with_the_same_common_words_get_the_same_name() {
    let point = |decl_name: &str| decl(decl_name, vec![("x", name("i32"))]);
    let label = |decl_name: &str| decl(decl_name, vec![("y", name("String"))]);
    let modules = vec![
        module("a.rs", vec![Item::Decl(point("AFoo")), Item::Decl(label("CFoo"))]),
        module("b.rs", vec![Item::Decl(point("BFoo")), Item::Decl(label("DFoo"))]),
    ];
    let outcome = deduplicate(modules, &NameMap::new());
    assert_eq!(
        outcome.names,
        names(&[
            ("AFoo", "CommonFoo"),
            ("BFoo", "CommonFoo"),
            ("CFoo", "CommonFoo"),
            ("DFoo", "CommonFoo"),
        ])
    );
    assert_eq!(
        outcome.shared,
        vec![
            SharedDecl { template: DeclRef { module: 0, item: 0 }, decl: point("CommonFoo") },
            SharedDecl { template: DeclRef { module: 0, item: 1 }, decl: label("CommonFoo") },
        ]
    );
}

#[test]
fn a_customized_name_may_be_the_name_of_a_merged_declaration() {
    let customized = names(&[("CommonFooRequest", "AlphaFooRequest")]);
    let outcome = deduplicate(two_services(), &customized);
    assert_eq!(
        outcome.names,
        names(&[("AlphaFooRequest", "AlphaFooRequest"), ("BetaFooRequest", "AlphaFooRequest")])
    );
    assert_eq!(outcome.shared[0].decl, request("AlphaFooRequest"));
    // the declaration moves to the shared declarations, and the references
    // to it count as redirected
    assert_eq!(
        outcome.modules[0].module.items,
        vec![
            Item::Decl(decl(
                "AlphaCall",
                vec![
                    ("request", name("AlphaFooRequest")),
                    ("all", generic("Vec", vec![name("AlphaFooRequest")])),
                ],
            )),
            Item::Other,
        ]
    );
    assert!(outcome.modules[0].changed);
}

#[test]
fn a_made_name_that_is_the_name_of_a_merged_declaration_is_not_stable() {
    let point = |decl_name: &str| decl(decl_name, vec![("x", name("i32"))]);
    let label = |decl_name: &str| decl(decl_name, vec![("y", name("String"))]);
    let modules = || {
        vec![
            module("a.rs", vec![Item::Decl(point("AFoo")), Item::Decl(label("CommonFoo"))]),
            module("b.rs", vec![Item::Decl(point("BFoo")), Item::Decl(label("CommonFooBar"))]),
        ]
    };
    let first = deduplicate(modules(), &NameMap::new());
    assert_eq!(
        first.names,
        names(&[
            ("AFoo", "CommonFoo"),
            ("BFoo", "CommonFoo"),
            ("CommonFoo", "CommonCommonFoo"),
            ("CommonFooBar", "CommonCommonFoo"),
        ])
    );
    let second = deduplicate(modules(), &first.names);
    assert_eq!(second.names.get("AFoo"), Some(&"CommonCommonFoo".to_string()));
    assert_ne!(second.names, first.names);
}
