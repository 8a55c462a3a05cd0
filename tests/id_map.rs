use jut::IdMap;

#[test]
fn no_collision() {
    let ids: Vec<String> = vec!["abcd1234".into(), "efgh5678".into()];
    let map = IdMap::build(&ids);
    assert_eq!(map.resolve("abcd"), Some("abcd1234"));
    assert_eq!(map.resolve("efgh"), Some("efgh5678"));
    assert_eq!(map.short_id("abcd1234"), "abcd");
}

#[test]
fn collision_extends() {
    let ids: Vec<String> = vec!["abcd1234".into(), "abcd5678".into()];
    let map = IdMap::build(&ids);
    // Both should be resolvable
    assert!(map.resolve("abcd1").is_some());
    assert!(map.resolve("abcd5").is_some());
    // The 4-char prefix should NOT resolve (ambiguous)
    assert!(map.resolve("abcd").is_none());
}

#[test]
fn collision_short_ids_and_exact_resolution() {
    let ids: Vec<String> = vec!["abcd1234".into(), "abcd5678".into()];
    let map = IdMap::build(&ids);
    assert_eq!(map.short_id("abcd1234"), "abcd1");
    assert_eq!(map.short_id("abcd5678"), "abcd5");
    assert_eq!(map.resolve("abcd1"), Some("abcd1234"));
    assert_eq!(map.resolve("abcd5"), Some("abcd5678"));
}

#[test]
fn third_identifier_extends_further() {
    let ids: Vec<String> = vec!["abcd1234".into(), "abcd1299".into(), "abcd5555".into()];
    let map = IdMap::build(&ids);
    assert_eq!(map.short_id("abcd1234"), "abcd123");
    assert_eq!(map.short_id("abcd1299"), "abcd129");
    assert_eq!(map.short_id("abcd5555"), "abcd5");
    for id in &ids {
        let short = map.short_id(id);
        assert_eq!(map.resolve(&short), Some(id.as_str()));
    }
    // "abcd12" is a prefix of two identifiers: ambiguous
    assert_eq!(map.resolve("abcd12"), None);
}

#[test]
fn identifier_that_prefixes_another_maps_to_itself() {
    let ids: Vec<String> = vec!["abcd".into(), "abcdef".into()];
    let map = IdMap::build(&ids);
    assert_eq!(map.short_id("abcd"), "abcd");
    assert_eq!(map.short_id("abcde" ), "abcd");
    assert_eq!(map.short_id("abcdef"), "abcde");
    assert_eq!(map.resolve("abcd"), Some("abcd"));
    assert_eq!(map.resolve("abcde"), Some("abcdef"));
}

#[test]
fn short_identifiers_keep_their_length() {
    let ids: Vec<String> = vec!["ab".into(), "xyz9".into()];
    let map = IdMap::build(&ids);
    assert_eq!(map.short_id("ab"), "ab");
    assert_eq!(map.resolve("ab"), Some("ab"));
    assert_eq!(map.resolve("xy"), Some("xyz9"));
    assert_eq!(map.resolve("q"), None);
}

#[test]
fn repeated_identifiers_are_mapped_once() {
    let ids: Vec<String> = vec!["abcd1234".into(), "abcd1234".into()];
    let map = IdMap::build(&ids);
    assert_eq!(map.entries.len(), 1);
    assert_eq!(map.short_id("abcd1234"), "abcd");
    assert_eq!(map.resolve("abcd"), Some("abcd1234"));
}

#[test]
fn unknown_full_id_falls_back_to_four_characters() {
    let ids: Vec<String> = vec!["abcd1234".into()];
    let map = IdMap::build(&ids);
    assert_eq!(map.short_id("zzzz9999"), "zzzz");
    assert_eq!(map.short_id("zz"), "zz");
}
