use regex_table::execute_engine::ExecuteEngine;
use regex_table::node::IdAlloc;
use regex_table::regex_gen::RegexItem;
use regex_table::transtable::TransTable;

fn engine_of(pattern: &[u8]) -> ExecuteEngine {
    let r = RegexItem::from_pattern(pattern).unwrap();
    assert!(r.buildable());
    let mut ids = IdAlloc::new();
    let mut t = TransTable::from_nfa(&r.nfa_graph(&mut ids));
    t.as_dfa();
    ExecuteEngine::with_transtable(t)
}

#[test]
fn test_execute_not() {
    let ee = engine_of(br#"[^\dab]+"#);
    assert_eq!(ee.exact_match(b"a"), false);
    assert_eq!(ee.exact_match(b"ab"), false);
    assert_eq!(ee.exact_match(b"aab"), false);
    assert_eq!(ee.exact_match(b"a0"), false);
    assert_eq!(ee.exact_match(b""), false);
    assert_eq!(ee.exact_match(b"c"), true);
    assert_eq!(ee.exact_match(b"cc"), true);
}

#[test]
fn test_execute_engine() {
    let ee = engine_of(br#"a\d+b"#);
    assert_eq!(ee.exact_match(b"a"), false);
    assert_eq!(ee.exact_match(b"ab"), false);
    assert_eq!(ee.exact_match(b"aab"), false);
    assert_eq!(ee.exact_match(b"a0"), false);
    assert_eq!(ee.exact_match(b"a0b"), true);
    assert_eq!(ee.exact_match(b"a0123456789b"), true);

    let ee = engine_of(br#"[ab]+\d?"#);
    assert_eq!(ee.exact_match(b"a"), true);
    assert_eq!(ee.exact_match(b"ab"), true);
    assert_eq!(ee.exact_match(b"aab"), true);
    assert_eq!(ee.exact_match(b"a0"), true);
    assert_eq!(ee.exact_match(b"a0b"), false);
    assert_eq!(ee.exact_match(b"0b"), false);
    assert_eq!(ee.exact_match(b"0"), false);
    assert_eq!(ee.exact_match(b"00"), false);
    assert_eq!(ee.exact_match(b"ba"), true);

    let ee = engine_of(br#"(a+|b?)"#);
    assert_eq!(ee.exact_match(b"a"), true);
    assert_eq!(ee.exact_match(b"aa"), true);
    assert_eq!(ee.exact_match(b""), true);
    assert_eq!(ee.exact_match(b"b"), true);
    assert_eq!(ee.exact_match(b"bb"), false);
    assert_eq!(ee.exact_match(b"c"), false);
}

#[test]
fn test_execute_dot() {
    let ee = engine_of(br#".+"#);
    assert_eq!(ee.exact_match(b"hello"), true);
    assert_eq!(ee.exact_match(b"\n"), false);
    assert_eq!(ee.exact_match(b""), false);
}

#[test]
fn test_compile_twice_same_language() {
    let inputs: [&[u8]; 6] = [b"", b"a", b"ab", b"a7b", b"a77b", b"xyz"];
    let e1 = engine_of(br#"a\d*b"#);
    let e2 = engine_of(br#"a\d*b"#);
    for s in inputs {
        assert_eq!(e1.exact_match(s), e2.exact_match(s));
    }
}

#[test]
fn test_renumber_keeps_language() {
    let inputs: [&[u8]; 6] = [b"", b"a", b"b", b"ab", b"ba", b"aab"];
    let plain = engine_of(br#"(a|b)+"#);
    let r = RegexItem::from_pattern(br#"(a|b)+"#).unwrap();
    let mut ids = IdAlloc::new();
    let mut t = TransTable::from_nfa(&r.nfa_graph(&mut ids));
    t.compact();
    let renumbered = ExecuteEngine::with_transtable(t);
    for s in inputs {
        assert_eq!(plain.exact_match(s), renumbered.exact_match(s));
    }
}

#[test]
fn test_nested_groups() {
    let ee = engine_of(br#"((a|b)c)"#);
    assert_eq!(ee.exact_match(b"ac"), true);
    assert_eq!(ee.exact_match(b"bc"), true);
    assert_eq!(ee.exact_match(b"c"), false);
    assert_eq!(ee.exact_match(b"a"), false);
    assert_eq!(ee.exact_match(b"abc"), false);

    let ee = engine_of(br#"(a(b|c)+|d)e"#);
    assert_eq!(ee.exact_match(b"abe"), true);
    assert_eq!(ee.exact_match(b"abcbe"), true);
    assert_eq!(ee.exact_match(b"de"), true);
    assert_eq!(ee.exact_match(b"ae"), false);
}
