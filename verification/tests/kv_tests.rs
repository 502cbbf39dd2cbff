use steam_meta::kv::parse_u64;
use steam_meta::kv::parse_vdf_text;
use steam_meta::kv::u64_to_decimal;
use steam_meta::kv::Node;

#[test]
fn nested_lookup_walks_the_tree() {
    let doc = Node::Obj(vec![
        (
            "Software".to_string(),
            Node::Obj(vec![(
                "Valve".to_string(),
                Node::Obj(vec![("Steam".to_string(), Node::Str("ok".to_string()))]),
            )]),
        ),
        ("other".to_string(), Node::Str("x".to_string())),
    ]);
    let path = vec!["Software".to_string(), "Valve".to_string(), "Steam".to_string()];
    let node = doc.get_nested(&path, false).unwrap();
    assert_eq!(node.as_str_value().unwrap(), "ok");
}

#[test]
fn nested_lookup_names_the_missing_segment() {
    let doc = Node::Obj(vec![("Software".to_string(), Node::Obj(vec![]))]);
    let path = vec!["Software".to_string(), "Valve".to_string(), "Steam".to_string()];
    let err = doc.get_nested(&path, false).unwrap_err();
    assert_eq!(err, 1);
    assert_eq!(path[err], "Valve");
}

#[test]
fn case_fallback_matches_the_lowercased_key() {
    let doc = Node::Obj(vec![("valve".to_string(), Node::Str("lower".to_string()))]);
    let key = "Valve".to_string();
    assert!(doc.get(&key, false).is_none());
    let hit = doc.get(&key, true).unwrap();
    assert_eq!(hit.as_str_value().unwrap(), "lower");
}

#[test]
fn exact_match_wins_over_fallback() {
    let doc = Node::Obj(vec![
        ("valve".to_string(), Node::Str("lower".to_string())),
        ("Valve".to_string(), Node::Str("exact".to_string())),
    ]);
    let key = "Valve".to_string();
    let hit = doc.get(&key, true).unwrap();
    assert_eq!(hit.as_str_value().unwrap(), "exact");
}

#[test]
fn parse_vdf_text_reads_duplicate_keys_in_order() {
    let text = r#""root"
        {
            "k" "first"
            "k" "second"
            "other" { "x" "1" }
        }"#;
    let (root_key, root) = parse_vdf_text(text).unwrap();
    assert_eq!(root_key, "root");
    let entries = root.as_entries().unwrap();
    let ks: Vec<&str> = entries
        .iter()
        .filter(|(k, _)| k == "k")
        .map(|(_, v)| v.as_str_value().unwrap().as_str())
        .collect();
    assert_eq!(ks, vec!["first", "second"]);
}

#[test]
fn parse_vdf_text_rejects_malformed_text() {
    assert!(parse_vdf_text("\"open\" {").is_none());
}

#[test]
fn parse_u64_reads_digits_only() {
    assert_eq!(parse_u64(&"730".to_string()), Some(730));
    assert_eq!(parse_u64(&"0".to_string()), Some(0));
    assert_eq!(parse_u64(&"".to_string()), None);
    assert_eq!(parse_u64(&"12a".to_string()), None);
    assert_eq!(parse_u64(&"-3".to_string()), None);
}

#[test]
fn parse_u64_handles_the_64_bit_boundary() {
    assert_eq!(
        parse_u64(&"18446744073709551615".to_string()),
        Some(u64::MAX)
    );
    assert_eq!(parse_u64(&"18446744073709551616".to_string()), None);
}

#[test]
fn u64_to_decimal_renders_canonical_digits() {
    assert_eq!(u64_to_decimal(0), "0");
    assert_eq!(u64_to_decimal(907), "907");
    assert_eq!(u64_to_decimal(u64::MAX), "18446744073709551615");
    assert_eq!(parse_u64(&u64_to_decimal(123456789)), Some(123456789));
}
