use regex_table::node::{Edge, EdgeMatches};

#[test]
fn test_edge_intersect() {
    let l = Edge::new(0, None);
    let r = Edge::new(0, Some(EdgeMatches::Character(b'c')));
    assert_eq!(l.intersect(&r), false);
    assert_eq!(r.intersect(&l), false);

    let l = Edge::new(0, Some(EdgeMatches::Character(b'c')));
    assert_eq!(l.intersect(&r), true);
    assert_eq!(r.intersect(&l), true);

    let l = Edge::new(0, Some(EdgeMatches::CharacterRange(b'a', b'z')));
    assert_eq!(l.intersect(&r), true);
    assert_eq!(r.intersect(&l), true);

    let r = Edge::new(0, Some(EdgeMatches::Not(vec![EdgeMatches::Character(b'c')])));
    assert_eq!(l.intersect(&r), false);
    assert_eq!(r.intersect(&l), false);

    let r = Edge::new(0, Some(EdgeMatches::CharacterRange(b'0', b'9')));
    assert_eq!(l.intersect(&r), false);
    assert_eq!(r.intersect(&l), false);

    let r = Edge::new(0, Some(EdgeMatches::CharacterRange(b'd', b'f')));
    assert_eq!(l.intersect(&r), true);
    assert_eq!(r.intersect(&l), true);

    let r = Edge::new(0, Some(EdgeMatches::CharacterRange(b'A', b'f')));
    assert_eq!(l.intersect(&r), true);
    assert_eq!(r.intersect(&l), true);
}

#[test]
fn test_edge_match_character() {
    let edge = Edge::new(0, None);
    assert_eq!(edge.match_character(b'c'), false);

    let edge = Edge::new(0, Some(EdgeMatches::Character(b'c')));
    assert_eq!(edge.match_character(b'c'), true);
    assert_eq!(edge.match_character(b'd'), false);

    let edge = Edge::new(0, Some(EdgeMatches::CharacterRange(b'3', b'5')));
    assert_eq!(edge.match_character(b'2'), false);
    assert_eq!(edge.match_character(b'3'), true);
    assert_eq!(edge.match_character(b'4'), true);
    assert_eq!(edge.match_character(b'5'), true);
    assert_eq!(edge.match_character(b'6'), false);

    let edge = Edge::new(0, Some(EdgeMatches::Not(vec![EdgeMatches::Character(b'3')])));
    assert_eq!(edge.match_character(b'2'), true);
    assert_eq!(edge.match_character(b'3'), false);
    assert_eq!(edge.match_character(b'4'), true);

    let edge = Edge::new(0, Some(EdgeMatches::Not(vec![EdgeMatches::CharacterRange(b'3', b'5')])));
    assert_eq!(edge.match_character(b'2'), true);
    assert_eq!(edge.match_character(b'3'), false);
    assert_eq!(edge.match_character(b'4'), false);
    assert_eq!(edge.match_character(b'5'), false);
    assert_eq!(edge.match_character(b'6'), true);
}
