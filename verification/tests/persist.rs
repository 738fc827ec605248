use struct_dedup::name_map::NameMap;
use struct_dedup::persist::{
    canonical_names, read_line, read_type_names, type_mappings, write_type_names,
};

fn pair(key: &str, value: &str) -> (String, String) {
    (key.to_string(), value.to_string())
}

fn names(pairs: &[(&str, &str)]) -> NameMap {
    let mut map = NameMap::new();
    for (key, value) in pairs {
        map.insert(key.to_string(), value.to_string());
    }
    map
}

fn lines(list: &[&str]) -> Vec<String> {
    list.iter().map(|line| line.to_string()).collect()
}

#[test]
fn a_line_is_split_at_its_first_separator() {
    assert_eq!(read_line("a->b"), Some(pair("a", "b")));
    assert_eq!(read_line("CommonFoo->Foo"), Some(pair("CommonFoo", "Foo")));
    assert_eq!(read_line("a->"), Some(pair("a", "")));
    assert_eq!(read_line("->b"), Some(pair("", "b")));
    assert_eq!(read_line("->"), Some(pair("", "")));
    assert_eq!(read_line("a-->b"), Some(pair("a-", "b")));
    assert_eq!(read_line("a->>b"), Some(pair("a", ">b")));
    assert_eq!(read_line("a - > b -> c"), Some(pair("a - > b ", " c")));
}

#[test]
fn what_follows_a_second_separator_is_dropped() {
    assert_eq!(read_line("a->b->c"), Some(pair("a", "b")));
    assert_eq!(read_line("a->->c"), Some(pair("a", "")));
    assert_eq!(read_line("a->b->"), Some(pair("a", "b")));
}

#[test]
fn a_line_without_a_separator_says_nothing() {
    assert_eq!(read_line(""), None);
    assert_eq!(read_line("a"), None);
    assert_eq!(read_line("a-b"), None);
    assert_eq!(read_line("a>-b"), None);
    assert_eq!(read_line("-"), None);
    assert_eq!(read_line(">"), None);
    assert_eq!(read_line("a=>b"), None);
}

#[test]
fn lines_are_read_into_a_map_and_malformed_lines_are_passed_over() {
    let map = read_type_names(&lines(&[
        "CommonFoo->Foo",
        "nothing here",
        "",
        "CommonBar->Bar",
        "CommonFoo->Other",
    ]));
    assert_eq!(map, names(&[("CommonBar", "Bar"), ("CommonFoo", "Other")]));
    assert_eq!(read_type_names(&vec![]), NameMap::new());
}

#[test]
fn the_new_names_are_listed_once_in_ascending_order() {
    let map = names(&[("A", "CommonZ"), ("B", "CommonA"), ("C", "CommonZ"), ("D", "CommonM")]);
    assert_eq!(canonical_names(&map), vec!["CommonA", "CommonM", "CommonZ"]);
    assert_eq!(canonical_names(&NameMap::new()), Vec::<String>::new());
}

#[test]
fn the_pairs_are_listed_by_new_name_and_then_by_old_name() {
    let map = names(&[("D", "CommonM"), ("C", "CommonZ"), ("B", "CommonA"), ("A", "CommonZ")]);
    assert_eq!(
        type_mappings(&map),
        vec![
            pair("B", "CommonA"),
            pair("D", "CommonM"),
            pair("A", "CommonZ"),
            pair("C", "CommonZ"),
        ]
    );
    assert_eq!(type_mappings(&NameMap::new()), vec![]);
}

#[test]
fn both_lists_are_written_as_lines() {
    let map = names(&[("D", "CommonM"), ("C", "CommonZ"), ("B", "CommonA"), ("A", "CommonZ")]);
    let (new_names, mappings) = write_type_names(&map);
    assert_eq!(new_names, vec!["CommonA", "CommonM", "CommonZ"]);
    assert_eq!(mappings, vec!["B->CommonA", "D->CommonM", "A->CommonZ", "C->CommonZ"]);
}

#[test]
fn what_is_written_is_read_as_the_same_map() {
    let map = names(&[
        ("GRPCRouteFilter", "CommonFilterRoute"),
        ("HTTPRouteFilter", "CommonFilterRoute"),
        ("AlphaFooRequest", "CommonFooRequest"),
        ("BetaFooRequest", "CommonFooRequest"),
        ("odd-name", "odd>name"),
    ]);
    let (_, mappings) = write_type_names(&map);
    assert_eq!(read_type_names(&mappings), map);
}
