use regex_table::node::IdAlloc;
use regex_table::regex_gen::{ParseError, RegexItem};
use regex_table::transtable::TransTable;

fn table_of(pattern: &[u8]) -> TransTable {
    let r = RegexItem::from_pattern(pattern).unwrap();
    assert!(r.buildable());
    let mut ids = IdAlloc::new();
    TransTable::from_nfa(&r.nfa_graph(&mut ids))
}

#[test]
fn test_print_graph() {
    let t = table_of(br#"abc"#);
    assert_eq!(t.state_count(), 6);
    assert_eq!(t.edge_count(), 5);

    let t = table_of(br#"[bc]"#);
    assert_eq!(t.edge_count(), 6);

    let t = table_of(br#"[bc]+"#);
    assert_eq!(t.edge_count(), 7);

    let t = table_of(br#"(a*|[bc]?d)+"#);
    assert_eq!(t.state_count(), 12);
    assert_eq!(t.edge_count(), 17);

    let t = table_of(br#"\d+"#);
    assert_eq!(t.state_count(), 2);
    assert_eq!(t.edge_count(), 2);

    let t = table_of(br#"(.+|\d+)?"#);
    assert_eq!(t.state_count(), 6);
    assert_eq!(t.edge_count(), 9);

    let t = table_of(br#"[^a-z5]"#);
    assert_eq!(t.state_count(), 2);
    assert_eq!(t.edge_count(), 1);

    let t = table_of(br#"[^a-z5]+"#);
    assert_eq!(t.state_count(), 2);
    assert_eq!(t.edge_count(), 2);
}

#[test]
fn test_parse() {
    let r1 = RegexItem::from_pattern(br#"a[-a\\bd\[\]\d]+"#).unwrap();
    let r2 = RegexItem::from_pattern(br#"a[-a\\bd\[\]0-9]+"#).unwrap();
    assert_eq!(r1, r2);

    let s = r#"a(bc|de)f"#;
    let r = RegexItem::from_pattern(s.as_bytes()).unwrap();
    assert_eq!(r.to_string(), "a(bc|de)f".to_string());
    assert_eq!(r.to_string(), s);

    let s = r#"a(b+[cde]*|de)f"#;
    let r = RegexItem::from_pattern(s.as_bytes()).unwrap();
    assert_eq!(r.to_string(), "a(b+[cde]*|de)f".to_string());
    assert_eq!(r.to_string(), s);

    let s = r#".+"#;
    let r = RegexItem::from_pattern(s.as_bytes()).unwrap();
    assert_eq!(r.to_string(), s);
}

#[test]
fn test_parse_error_unexpected_end() {
    assert_eq!(RegexItem::from_pattern(b"(ab"), Err(ParseError::UnexpectedEnd));
    assert_eq!(RegexItem::from_pattern(b"[ab"), Err(ParseError::UnexpectedEnd));
}

#[test]
fn test_parse_error_invalid_escape() {
    assert_eq!(RegexItem::from_pattern(br#"ab\"#), Err(ParseError::InvalidEscape));
    assert_eq!(RegexItem::from_pattern(br#"[ab\"#), Err(ParseError::InvalidEscape));
}

#[test]
fn test_parse_error_invalid_range() {
    assert_eq!(RegexItem::from_pattern(b"[a-b]"), Err(ParseError::InvalidRange));
    assert_eq!(RegexItem::from_pattern(b"[A-c]"), Err(ParseError::InvalidRange));
    assert_eq!(RegexItem::from_pattern(b"[0-8]"), Err(ParseError::InvalidRange));
}

#[test]
fn test_empty_pattern_not_buildable() {
    let r = RegexItem::from_pattern(b"").unwrap();
    assert!(!r.buildable());
    let r = RegexItem::from_pattern(b"a()b").unwrap();
    assert!(!r.buildable());
    let r = RegexItem::from_pattern(b"ab").unwrap();
    assert!(r.buildable());
}

#[test]
fn test_round_trip_literals() {
    for s in ["abc", "[abc]", "[^ab]", "(a|b)c", "a+b?c*", "x-y", "[0-9]+", "a.b"] {
        let r = RegexItem::from_pattern(s.as_bytes()).unwrap();
        assert_eq!(r.to_string(), s);
    }
}

#[test]
fn test_nested_group_round_trip() {
    for s in ["((a|b)c)", "(a(b|c)d|e)f", "((x))"] {
        let r = RegexItem::from_pattern(s.as_bytes()).unwrap();
        assert!(r.buildable());
        assert_eq!(r.to_string(), s);
    }
}
