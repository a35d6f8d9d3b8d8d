use pass_rust::parse::{parse_kv, ParsedPassword};

fn field(parsed: &ParsedPassword, key: &str) -> Option<String> {
    match parsed {
        ParsedPassword::KeyValue(entries) => entries.get(&String::from(key)).cloned(),
        ParsedPassword::Raw(_) => panic!("expected a key/value record"),
    }
}

fn raw(parsed: &ParsedPassword) -> String {
    match parsed {
        ParsedPassword::Raw(s) => s.clone(),
        ParsedPassword::KeyValue(_) => panic!("expected an opaque secret"),
    }
}

#[test]
fn classifies_two_fields() {
    let parsed = parse_kv("user: alice\npass: s3cret\n");
    assert_eq!(field(&parsed, "user"), Some(String::from("alice")));
    assert_eq!(field(&parsed, "pass"), Some(String::from("s3cret")));
    assert_eq!(field(&parsed, "missing"), None);
}

#[test]
fn classifies_raw_without_colon() {
    let parsed = parse_kv("justasecret\n");
    assert_eq!(raw(&parsed), "justasecret");
}

#[test]
fn duplicate_key_last_write_wins() {
    let parsed = parse_kv("k: v1\nk: v2\n");
    assert_eq!(field(&parsed, "k"), Some(String::from("v2")));
    match &parsed {
        ParsedPassword::KeyValue(entries) => assert_eq!(entries.len(), 1),
        ParsedPassword::Raw(_) => panic!("expected a key/value record"),
    }
}

#[test]
fn empty_input_is_raw_empty() {
    assert_eq!(raw(&parse_kv("")), "");
}

#[test]
fn whitespace_only_is_raw_empty() {
    assert_eq!(raw(&parse_kv("   \n  \n")), "");
}

#[test]
fn colon_without_value_is_raw() {
    assert_eq!(raw(&parse_kv("key:\n")), "key:");
}

#[test]
fn colon_with_blank_value_is_raw() {
    assert_eq!(raw(&parse_kv("key:   \n")), "key:");
}

#[test]
fn key_with_invalid_character_is_raw() {
    assert_eq!(raw(&parse_kv("a!b: c\n")), "a!b: c");
}

#[test]
fn key_may_contain_spaces() {
    let parsed = parse_kv("my key: val\n");
    assert_eq!(field(&parsed, "my key"), Some(String::from("val")));
}

#[test]
fn non_matching_lines_are_skipped() {
    let parsed = parse_kv("some notes here\nuser: bob\n");
    assert_eq!(field(&parsed, "user"), Some(String::from("bob")));
    match &parsed {
        ParsedPassword::KeyValue(entries) => assert_eq!(entries.len(), 1),
        ParsedPassword::Raw(_) => panic!("expected a key/value record"),
    }
}

#[test]
fn value_may_contain_colons() {
    let parsed = parse_kv("url: https://example.org/a\n");
    assert_eq!(field(&parsed, "url"), Some(String::from("https://example.org/a")));
}

#[test]
fn surrounding_whitespace_is_trimmed() {
    let parsed = parse_kv("  user :   alice  \n");
    assert_eq!(field(&parsed, "user"), Some(String::from("alice")));
}

#[test]
fn raw_is_trimmed() {
    assert_eq!(raw(&parse_kv("  secret value \n")), "secret value");
}
