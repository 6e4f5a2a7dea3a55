use consul_publisher::error::Error;
use consul_publisher::kv::KVConfig;

#[test]
fn test_parse_kv_line() {
    assert_eq!(
        KVConfig::handle_line("foo=bar").unwrap(),
        ("foo".to_string(), "bar".to_string())
    );
    assert_eq!(
        KVConfig::handle_line("foo = bar ").unwrap(),
        ("foo".to_string(), "bar".to_string())
    );
    assert!(KVConfig::handle_line("foo=").is_err());
    assert!(KVConfig::handle_line("=bar").is_err());
    assert!(KVConfig::handle_line("foo").is_err());
    // A key or value of only whitespace is empty after trimming.
    assert!(KVConfig::handle_line(" =bar").is_err());
    assert!(KVConfig::handle_line("foo= ").is_err());
    assert_eq!(
        KVConfig::handle_line("foo=bar=baz").unwrap(),
        ("foo".to_string(), "bar=baz".to_string())
    );
}

#[test]
fn parse_file_basic() {
    let lines = vec!["a = 1".to_string(), "b=2".to_string()];
    let cfg = KVConfig::new(&lines).unwrap();
    assert_eq!(cfg.len(), 2);
    assert_eq!(cfg.key_at(0).as_str(), "a");
    assert_eq!(cfg.value_at(0).as_str(), "1");
    assert_eq!(cfg.key_at(1).as_str(), "b");
    assert_eq!(cfg.value_at(1).as_str(), "2");
    assert_eq!(cfg.get("a").unwrap().as_str(), "1");
    assert!(cfg.get("c").is_none());
}

#[test]
fn parse_file_skips_blank_lines() {
    let lines = vec![
        "".to_string(),
        "a=1".to_string(),
        "   ".to_string(),
        "b=2".to_string(),
    ];
    let cfg = KVConfig::new(&lines).unwrap();
    assert_eq!(cfg.len(), 2);
}

#[test]
fn parse_file_excludes_private_and_comment_keys() {
    let lines = vec![
        "_disabled=1".to_string(),
        "#note=2".to_string(),
        "kept=3".to_string(),
    ];
    let cfg = KVConfig::new(&lines).unwrap();
    assert_eq!(cfg.len(), 1);
    assert_eq!(cfg.key_at(0).as_str(), "kept");
}

#[test]
fn duplicate_key_fails() {
    let lines = vec!["foo=1".to_string(), "foo=2".to_string()];
    match KVConfig::new(&lines) {
        Err(Error::DuplicateKey(k)) => assert_eq!(k, "foo"),
        _ => panic!("expected a duplicate-key error"),
    }
}

#[test]
fn duplicate_excluded_key_still_fails() {
    // Duplicates are caught before filtering, even among excluded keys.
    let lines = vec!["_x=1".to_string(), "_x=2".to_string()];
    match KVConfig::new(&lines) {
        Err(Error::DuplicateKey(k)) => assert_eq!(k, "_x"),
        _ => panic!("expected a duplicate-key error"),
    }
}

#[test]
fn malformed_line_fails_with_format_error() {
    let lines = vec!["good=1".to_string(), "bad".to_string()];
    match KVConfig::new(&lines) {
        Err(Error::ConfigFormat(_)) => {}
        _ => panic!("expected a format error"),
    }
}

#[test]
fn whitespace_only_key_or_value_fails() {
    match KVConfig::new(&vec![" =bar".to_string()]) {
        Err(Error::ConfigFormat(_)) => {}
        _ => panic!("expected a format error"),
    }
    match KVConfig::new(&vec!["foo= ".to_string()]) {
        Err(Error::ConfigFormat(_)) => {}
        _ => panic!("expected a format error"),
    }
}

#[test]
fn missing_keys_are_those_absent_locally() {
    let lines = vec!["a=1".to_string(), "b=2".to_string()];
    let cfg = KVConfig::new(&lines).unwrap();
    let existing = vec!["a".to_string(), "c".to_string(), "d".to_string()];
    let missing = cfg.missing_keys(&existing);
    assert_eq!(missing, vec!["c".to_string(), "d".to_string()]);
}
