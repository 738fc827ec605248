use struct_dedup::name_map::NameMap;
use struct_dedup::naming::{common_words, create_type_name_substitute};

fn words(list: &[&str]) -> Vec<String> {
    list.iter().map(|word| word.to_string()).collect()
}

#[test]
fn no_lists_have_nothing_in_common() {
    let lists: Vec<Vec<String>> = vec![];
    assert_eq!(common_words(&lists), Vec::<String>::new());
}

#[test]
fn one_list_has_its_own_words_in_common_sorted_and_once() {
    let lists = vec![words(&["Route", "GRPC", "Backend", "Route", "Backend"])];
    assert_eq!(common_words(&lists), vec!["Backend", "GRPC", "Route"]);
}

#[test]
fn common_words_are_those_of_every_list() {
    let lists = vec![
        words(&["GRPC", "Route", "Rules", "Backend", "Ref"]),
        words(&["HTTP", "Route", "Rules", "Backend", "Ref"]),
        words(&["Ref", "TCP", "Backend", "Route"]),
    ];
    assert_eq!(common_words(&lists), vec!["Backend", "Ref", "Route"]);
}

#[test]
fn lists_without_a_shared_word_have_nothing_in_common() {
    let lists = vec![words(&["A", "B"]), words(&["C"]), words(&["A"])];
    assert_eq!(common_words(&lists), Vec::<String>::new());
    let lists = vec![words(&["A", "B"]), words(&[])];
    assert_eq!(common_words(&lists), Vec::<String>::new());
}

#[test]
fn common_words_come_in_dictionary_order_by_code_point() {
    let lists = vec![words(&["b", "a", "B", "ab", "A"]), words(&["A", "B", "a", "ab", "b"])];
    assert_eq!(common_words(&lists), vec!["A", "B", "a", "ab", "b"]);
}

#[test]
fn the_new_name_is_the_prefix_and_the_common_words() {
    let customized = NameMap::new();
    let names = words(&["GRPCRouteRulesBackendRefs", "HTTPRouteRulesBackendRefs"]);
    assert_eq!(
        create_type_name_substitute(&customized, &names),
        "CommonBackendRefsRouteRules"
    );
}

#[test]
fn names_without_a_common_word_get_the_bare_prefix() {
    let customized = NameMap::new();
    let names = words(&["Alpha", "Beta"]);
    assert_eq!(create_type_name_substitute(&customized, &names), "Common");
    assert_eq!(create_type_name_substitute(&customized, &vec![]), "Common");
}

#[test]
fn a_customized_name_takes_the_place_of_the_new_name() {
    let mut customized = NameMap::new();
    customized.insert("CommonFooRequest".to_string(), "FooRequest".to_string());
    customized.insert("AlphaFooRequest".to_string(), "Unused".to_string());
    let names = words(&["AlphaFooRequest", "BetaFooRequest"]);
    assert_eq!(create_type_name_substitute(&customized, &names), "FooRequest");
    let other = words(&["AlphaBarRequest", "BetaBarRequest"]);
    assert_eq!(create_type_name_substitute(&customized, &other), "CommonBarRequest");
}
