use struct_dedup::words::{break_into_words, split_words};

#[test]
fn test_word_breaking() {
    let expected_words = [
        "GRPC", "Route", "Rules", "Backend", "Refs", "Filters", "Request", "Mirror", "Backend",
        "Ref",
    ];
    let words = break_into_words("GRPCRouteRulesBackendRefsFiltersRequestMirrorBackendRef");
    assert_eq!(expected_words.to_vec(), words);

    let expected_words = [
        "GRPC", "Route", "Rules", "Backend", "Refs", "Filters", "Request", "HTTPS", "Mirror",
        "Backend", "Ref",
    ];
    let words =
        break_into_words("GRPCRouteRulesBackendRefsFiltersRequestHTTPSMirrorBackendRef");
    assert_eq!(expected_words.to_vec(), words);

    let expected_words = ["f", "RP"];
    let words = break_into_words("fRP");
    assert_eq!(expected_words.to_vec(), words);
}

#[test]
fn short_identifiers_are_one_word() {
    assert_eq!(break_into_words(""), vec![String::new()]);
    assert_eq!(break_into_words("a"), vec!["a".to_string()]);
    assert_eq!(break_into_words("AB"), vec!["AB".to_string()]);
    assert_eq!(break_into_words("aB"), vec!["aB".to_string()]);
}

#[test]
fn split_goes_by_the_given_flags() {
    let letters = vec![('a', true), ('b', true), ('c', false), ('d', false), ('e', true), ('f', false)];
    assert_eq!(split_words(&letters), vec!["a", "bcd", "ef"]);
}

#[test]
fn letters_beyond_ascii_count_as_single_characters() {
    assert_eq!(break_into_words("ÄpfelÖl"), vec!["Äpfel", "Öl"]);
    assert_eq!(break_into_words("éÉ"), vec!["éÉ"]);
    assert_eq!(break_into_words("naïveCafé"), vec!["naïve", "Café"]);
}

#[test]
fn acronyms_end_before_the_capital_of_the_next_word() {
    assert_eq!(break_into_words("HTTPRoute"), vec!["HTTP", "Route"]);
    assert_eq!(break_into_words("HTTPSRouteTLS"), vec!["HTTPS", "Route", "TLS"]);
    assert_eq!(break_into_words("TCPRouteRulesBackendRefs"), vec!["TCP", "Route", "Rules", "Backend", "Refs"]);
    assert_eq!(break_into_words("lowerCamelCase"), vec!["lower", "Camel", "Case"]);
    assert_eq!(break_into_words("ABC"), vec!["ABC"]);
    assert_eq!(break_into_words("ABc"), vec!["A", "Bc"]);
    assert_eq!(break_into_words("abc"), vec!["abc"]);
    assert_eq!(break_into_words("aBC"), vec!["a", "BC"]);
    assert_eq!(break_into_words("Route53Zone"), vec!["Route53", "Zone"]);
}
