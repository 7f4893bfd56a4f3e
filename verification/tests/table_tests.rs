use regex_table::node::IdAlloc;
use regex_table::regex_gen::RegexItem;
use regex_table::transtable::TransTable;

fn table_of(pattern: &[u8]) -> TransTable {
    let r = RegexItem::from_pattern(pattern).unwrap();
    assert!(r.buildable());
    let mut ids = IdAlloc::new();
    TransTable::from_nfa(&r.nfa_graph(&mut ids))
}

fn sorted_move(t: &TransTable, q: usize) -> Vec<usize> {
    let mut m = t.epsilon_move(q);
    m.sort();
    m
}

#[test]
fn test_cut_epsilon() {
    let mut t = table_of(br#"(a|b)+c"#);
    t.as_dfa();
    t.reset_state_mark();
    assert_eq!(t.state_count(), 4);
    assert_eq!(t.edge_count(), 8);

    let mut t = table_of(br#"([ab]+|c*)?"#);
    t.as_dfa();
    t.reset_state_mark();
    assert_eq!(t.state_count(), 4);
    assert_eq!(t.edge_count(), 8);

    let mut t = table_of(br#"(c|[a-z])+"#);
    t.as_dfa();
    t.reset_state_mark();
}

#[test]
fn test_epsilon_move() {
    let mut t = table_of(br#"(a|b)+c"#);
    t.reset_state_mark();
    assert_eq!(t.state_count(), 8);
    assert_eq!(sorted_move(&t, 0), vec![2, 4]);
    assert_eq!(sorted_move(&t, 3), vec![2, 4, 6]);
    assert_eq!(sorted_move(&t, 5), vec![2, 4, 6]);
    assert_eq!(sorted_move(&t, 1), vec![2, 4, 6]);
    assert_eq!(sorted_move(&t, 6), vec![]);
    assert_eq!(sorted_move(&t, 7), vec![]);

    let mut t = table_of(br#"[-c]*"#);
    t.reset_state_mark();
    assert_eq!(t.state_count(), 6);
    assert_eq!(sorted_move(&t, 0), vec![1, 2, 4]);
    assert_eq!(sorted_move(&t, 1), vec![2, 4]);
    assert_eq!(sorted_move(&t, 2), vec![]);
    assert_eq!(sorted_move(&t, 4), vec![]);
    assert_eq!(sorted_move(&t, 3), vec![1, 2, 4]);
    assert_eq!(sorted_move(&t, 5), vec![1, 2, 4]);

    let mut t = table_of(br#"([ab]+|c*)?"#);
    t.reset_state_mark();
    assert_eq!(t.state_count(), 10);
    assert_eq!(sorted_move(&t, 0), vec![1, 4, 6, 8]);
    assert_eq!(sorted_move(&t, 2), vec![4, 6]);
    assert_eq!(sorted_move(&t, 8), vec![1]);
    assert_eq!(sorted_move(&t, 5), vec![1, 4, 6]);
}

#[test]
fn test_compact_consecutive_ids() {
    let mut t = table_of(br#"(a|b)+c"#);
    t.compact();
    let n = t.state_count();
    let mut ids = t.states.clone();
    ids.sort();
    let expect: Vec<usize> = (0..n).collect();
    assert_eq!(ids, expect);
    assert!(t.start_id() < n);
}

#[test]
fn test_compact_epsilon_free() {
    for p in [&b"(a|b)+c"[..], &b"([ab]+|c*)?"[..], &b"a\\d+b"[..], &b"(.+|\\d+)?"[..]] {
        let mut t = table_of(p);
        t.compact();
        for edges in t.trans_map() {
            for e in edges {
                assert!(e.matches().is_some());
            }
        }
    }
}

#[test]
fn test_accepting_closure() {
    let mut t = table_of(br#"a*"#);
    t.as_dfa();
    let ends = t.end_set();
    assert!(ends.contains(&t.start_id()));
}

#[test]
fn test_overlapping_edges_report() {
    let mut t = table_of(br#"(ab|ac)"#);
    t.as_dfa();
    assert!(t.has_overlapping_edges());

    let mut t = table_of(br#"ab"#);
    t.as_dfa();
    assert!(!t.has_overlapping_edges());
}
