use struct_dedup::name_map::NameMap;

fn pair(key: &str, value: &str) -> (String, String) {
    (key.to_string(), value.to_string())
}

#[test]
fn a_new_map_is_empty() {
    let map = NameMap::new();
    assert_eq!(map.len(), 0);
    assert!(map.entries().is_empty());
    assert!(map.keys().is_empty());
    assert_eq!(map.get("a"), None);
    assert!(!map.contains_key(""));
}

#[test]
fn pairs_are_kept_in_ascending_order_of_their_keys() {
    let mut map = NameMap::new();
    map.insert("b".to_string(), "2".to_string());
    map.insert("a".to_string(), "1".to_string());
    map.insert("c".to_string(), "3".to_string());
    map.insert("B".to_string(), "0".to_string());
    map.insert("ab".to_string(), "4".to_string());
    assert_eq!(
        map.entries(),
        &vec![pair("B", "0"), pair("a", "1"), pair("ab", "4"), pair("b", "2"), pair("c", "3")]
    );
    assert_eq!(map.keys(), vec!["B", "a", "ab", "b", "c"]);
    assert_eq!(map.len(), 5);
}

#[test]
fn a_second_value_for_a_key_takes_the_place_of_the_first() {
    let mut map = NameMap::new();
    map.insert("a".to_string(), "1".to_string());
    map.insert("b".to_string(), "2".to_string());
    map.insert("a".to_string(), "3".to_string());
    assert_eq!(map.entries(), &vec![pair("a", "3"), pair("b", "2")]);
    assert_eq!(map.get("a"), Some(&"3".to_string()));
    assert_eq!(map.get("b"), Some(&"2".to_string()));
    assert_eq!(map.get("c"), None);
    assert!(map.contains_key("a"));
    assert!(!map.contains_key("A"));
}

#[test]
fn keys_are_ordered_by_code_point() {
    let mut map = NameMap::new();
    map.insert("é".to_string(), "3".to_string());
    map.insert("z".to_string(), "2".to_string());
    map.insert("Z".to_string(), "1".to_string());
    map.insert("".to_string(), "0".to_string());
    assert_eq!(map.keys(), vec!["", "Z", "z", "é"]);
}
