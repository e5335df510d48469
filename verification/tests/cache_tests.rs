use refactorer::cache::DoneSet;

#[test]
fn new_set_is_empty() {
    let s = DoneSet::new();
    assert_eq!(s.len(), 0);
    assert!(!s.contains(&"src/lib.rs".to_string()));
}

#[test]
fn insert_then_contains() {
    let mut s = DoneSet::new();
    s.insert("src/lib.rs".to_string());
    assert!(s.contains(&"src/lib.rs".to_string()));
    assert!(!s.contains(&"src/other.rs".to_string()));
    assert_eq!(s.len(), 1);
}

#[test]
fn insert_twice_records_once() {
    let mut s = DoneSet::new();
    s.insert("src/lib.rs".to_string());
    s.insert("src/lib.rs".to_string());
    assert_eq!(s.len(), 1);
    assert!(s.contains(&"src/lib.rs".to_string()));
}

#[test]
fn parse_empty_content_is_empty_set() {
    let s = DoneSet::parse("");
    assert_eq!(s.len(), 0);
}

#[test]
fn parse_splits_lines() {
    let s = DoneSet::parse("a.rs\nb.rs");
    assert_eq!(s.len(), 2);
    assert!(s.contains(&"a.rs".to_string()));
    assert!(s.contains(&"b.rs".to_string()));
}

#[test]
fn parse_ignores_trailing_newline() {
    let s = DoneSet::parse("a.rs\nb.rs\n");
    assert_eq!(s.len(), 2);
    assert!(!s.contains(&"".to_string()));
}

#[test]
fn parse_deduplicates_lines() {
    let s = DoneSet::parse("a.rs\na.rs\nb.rs");
    assert_eq!(s.len(), 2);
}

#[test]
fn serialize_then_parse_round_trip() {
    let mut s = DoneSet::new();
    s.insert("src/a.rs".to_string());
    s.insert("src/b.rs".to_string());
    s.insert("tests/c.rs".to_string());
    let content = s.serialize();
    let back = DoneSet::parse(&content);
    assert_eq!(back.len(), 3);
    assert!(back.contains(&"src/a.rs".to_string()));
    assert!(back.contains(&"src/b.rs".to_string()));
    assert!(back.contains(&"tests/c.rs".to_string()));
}

#[test]
fn serialize_empty_set_is_empty_content() {
    let s = DoneSet::new();
    assert_eq!(s.serialize(), "");
}
