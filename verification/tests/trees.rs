//! Whole-parse trees: anchors, groups, markers, alternation, escapes,
//! backreferences, and the failure cases.

use regex_tree::ast::{AnchorKind, Marker, Node, Repeat};
use regex_tree::errors::ErrorKind;
use regex_tree::parser::{parse, read_marker};

fn range_vec(lo: u8, hi: u8) -> Vec<u8> {
    (lo..=hi).collect()
}

#[test]
fn alternation_three_branches() {
    // "a|b|c" (normalized "^a|b|c$") parses to an alternation of exactly
    // three branches
    let root = parse(b"a|b|c").unwrap();
    let expected = Node::Sequence(
        vec![Node::Alternation(
            vec![
                Node::Sequence(
                    vec![Node::Anchor(AnchorKind::Start), Node::Literal(b'a', None)],
                    None,
                ),
                Node::Sequence(vec![Node::Literal(b'b', None)], None),
                Node::Sequence(
                    vec![Node::Literal(b'c', None), Node::Anchor(AnchorKind::End)],
                    None,
                ),
            ],
            None,
        )],
        None,
    );
    assert_eq!(root, expected);
}

#[test]
fn group_markers() {
    // "(?:abc)" is a non-capturing group of the literals a, b, c
    let root = parse(b"(?:abc)").unwrap();
    let body = Node::Sequence(
        vec![
            Node::Literal(b'a', None),
            Node::Literal(b'b', None),
            Node::Literal(b'c', None),
        ],
        None,
    );
    let expected = Node::Sequence(
        vec![
            Node::Anchor(AnchorKind::Start),
            Node::Group(vec![body], Marker::NonCapturing, None),
            Node::Anchor(AnchorKind::End),
        ],
        None,
    );
    assert_eq!(root, expected);
    // "(abc)" is the same group, capturing
    let root2 = parse(b"(abc)").unwrap();
    match &root2 {
        Node::Sequence(ch, None) => match &ch[1] {
            Node::Group(_, m, None) => assert_eq!(*m, Marker::Capturing),
            other => panic!("expected a group, got {:?}", other),
        },
        other => panic!("expected the root sequence, got {:?}", other),
    }
}

#[test]
fn lookaround_markers() {
    for (pat, marker) in [
        (&b"(?=a)"[..], Marker::LookaheadPositive),
        (&b"(?!a)"[..], Marker::LookaheadNegative),
        (&b"(?>a)"[..], Marker::LookbehindOrOther),
    ] {
        let root = parse(pat).unwrap();
        match &root {
            Node::Sequence(ch, None) => match &ch[1] {
                Node::Group(_, m, None) => assert_eq!(*m, marker),
                other => panic!("expected a group, got {:?}", other),
            },
            other => panic!("expected the root sequence, got {:?}", other),
        }
    }
}

#[test]
fn predefined_class_top_level() {
    // "\d" at top level is the digit class, not negated
    let root = parse(b"\\d").unwrap();
    let expected = Node::Sequence(
        vec![
            Node::Anchor(AnchorKind::Start),
            Node::CharClass(range_vec(b'0', b'9'), false, None),
            Node::Anchor(AnchorKind::End),
        ],
        None,
    );
    assert_eq!(root, expected);
    // "[\d_]" is one class of the digits plus underscore
    let root2 = parse(b"[\\d_]").unwrap();
    let mut members = range_vec(b'0', b'9');
    members.push(b'_');
    let expected2 = Node::Sequence(
        vec![
            Node::Anchor(AnchorKind::Start),
            Node::CharClass(members, false, None),
            Node::Anchor(AnchorKind::End),
        ],
        None,
    );
    assert_eq!(root2, expected2);
}

#[test]
fn capture_and_backreference() {
    // "(a)\1" is a capturing group followed by a backreference to it
    let root = parse(b"(a)\\1").unwrap();
    let expected = Node::Sequence(
        vec![
            Node::Anchor(AnchorKind::Start),
            Node::Group(
                vec![Node::Sequence(vec![Node::Literal(b'a', None)], None)],
                Marker::Capturing,
                None,
            ),
            Node::Backreference(1),
            Node::Anchor(AnchorKind::End),
        ],
        None,
    );
    assert_eq!(root, expected);
}

#[test]
fn negated_class() {
    // "[^a-z]" is the class of the bytes a..z, negated
    let root = parse(b"[^a-z]").unwrap();
    let expected = Node::Sequence(
        vec![
            Node::Anchor(AnchorKind::Start),
            Node::CharClass(range_vec(b'a', b'z'), true, None),
            Node::Anchor(AnchorKind::End),
        ],
        None,
    );
    assert_eq!(root, expected);
}

#[test]
fn end_to_end_two_branches() {
    // the outermost node of this pattern is an alternation of two branches
    let root = parse(r"a{2,2}|(c((w)|e+)\?)*[^^bd?\]]?$".as_bytes()).unwrap();
    match &root {
        Node::Sequence(ch, None) => {
            assert_eq!(ch.len(), 1);
            match &ch[0] {
                Node::Alternation(branches, None) => {
                    assert_eq!(branches.len(), 2);
                    match &branches[0] {
                        Node::Sequence(b1, None) => {
                            assert_eq!(b1[0], Node::Anchor(AnchorKind::Start));
                            assert_eq!(
                                b1[1],
                                Node::Literal(b'a', Some(Repeat { min: 2, max: 2 }))
                            );
                        },
                        other => panic!("expected a sequence branch, got {:?}", other),
                    }
                },
                other => panic!("expected an alternation, got {:?}", other),
            }
        },
        other => panic!("expected the root sequence, got {:?}", other),
    }
}

#[test]
fn unterminated_group_fails() {
    // input ending inside a group is an error, reported at the end
    let e = parse(b"(abc").unwrap_err();
    assert_eq!(e.kind, ErrorKind::UnterminatedGroup);
    assert_eq!(e.pos, 6);  // the length of the normalized "^(abc$"
}

#[test]
fn lone_close_paren_is_literal() {
    // a `)` with no open group is an ordinary literal byte
    let root = parse(b")").unwrap();
    let expected = Node::Sequence(
        vec![
            Node::Anchor(AnchorKind::Start),
            Node::Literal(b')', None),
            Node::Anchor(AnchorKind::End),
        ],
        None,
    );
    assert_eq!(root, expected);
}

#[test]
fn malformed_quantifier_fails() {
    let e = parse(b"a{}").unwrap_err();
    assert_eq!(e.kind, ErrorKind::MalformedQuantifier);
    assert_eq!(e.pos, 2);  // the offset of the `{` in the normalized "^a{}$"
}

#[test]
fn empty_pattern() {
    // the empty pattern parses to an empty root sequence
    assert_eq!(parse(b"").unwrap(), Node::Sequence(vec![], None));
}

#[test]
fn sub_expr_a() {
    assert_eq!(read_marker(b"?:", 0), (Marker::NonCapturing, 2));
    assert_eq!(read_marker(b"?a", 0), (Marker::Capturing, 0));
    assert_eq!(read_marker(b"", 0), (Marker::Capturing, 0));
}

#[test]
fn group_a() {
    // a class of two ranges inside a plain group
    let root = parse(b"([a-z|0-9])").unwrap();
    let members = [range_vec(b'a', b'z'), range_vec(b'0', b'9')].concat();
    let expected_group = Node::Group(
        vec![Node::Sequence(
            vec![Node::CharClass(members, false, None)],
            None,
        )],
        Marker::Capturing,
        None,
    );
    match &root {
        Node::Sequence(ch, None) => assert_eq!(ch[1], expected_group),
        other => panic!("expected the root sequence, got {:?}", other),
    }
}

#[test]
fn group_b() {
    // the same class inside a non-capturing group
    let root = parse(b"(?:[a-z|0-9])").unwrap();
    let members = [range_vec(b'a', b'z'), range_vec(b'0', b'9')].concat();
    let expected_group = Node::Group(
        vec![Node::Sequence(
            vec![Node::CharClass(members, false, None)],
            None,
        )],
        Marker::NonCapturing,
        None,
    );
    match &root {
        Node::Sequence(ch, None) => assert_eq!(ch[1], expected_group),
        other => panic!("expected the root sequence, got {:?}", other),
    }
}

#[test]
fn group_c() {
    // an alternation inside a marked group ends at the group's `)`; what
    // follows the group belongs to the enclosing scope
    let root = parse(b"(?:https|ftp)://").unwrap();
    let expected_group = Node::Group(
        vec![Node::Sequence(
            vec![Node::Alternation(
                vec![
                    Node::Sequence(
                        vec![
                            Node::Literal(b'h', None),
                            Node::Literal(b't', None),
                            Node::Literal(b't', None),
                            Node::Literal(b'p', None),
                            Node::Literal(b's', None),
                        ],
                        None,
                    ),
                    Node::Sequence(
                        vec![
                            Node::Literal(b'f', None),
                            Node::Literal(b't', None),
                            Node::Literal(b'p', None),
                        ],
                        None,
                    ),
                ],
                None,
            )],
            None,
        )],
        Marker::NonCapturing,
        None,
    );
    let expected = Node::Sequence(
        vec![
            Node::Anchor(AnchorKind::Start),
            expected_group,
            Node::Literal(b':', None),
            Node::Literal(b'/', None),
            Node::Literal(b'/', None),
            Node::Anchor(AnchorKind::End),
        ],
        None,
    );
    assert_eq!(root, expected);
}

#[test]
fn dot_is_negated_newline_class() {
    let root = parse(b"a.b").unwrap();
    let expected = Node::Sequence(
        vec![
            Node::Anchor(AnchorKind::Start),
            Node::Literal(b'a', None),
            Node::CharClass(vec![b'\n'], true, None),
            Node::Literal(b'b', None),
            Node::Anchor(AnchorKind::End),
        ],
        None,
    );
    assert_eq!(root, expected);
}

#[test]
fn quantifier_on_alternation_in_group() {
    // the `)` that ends the last branch also ends the group; the suffix
    // after it lands on the just-closed alternation
    let root = parse(b"(a|b)*").unwrap();
    let alt = Node::Alternation(
        vec![
            Node::Sequence(vec![Node::Literal(b'a', None)], None),
            Node::Sequence(vec![Node::Literal(b'b', None)], None),
        ],
        Some(Repeat { min: 0, max: 65536 }),
    );
    let expected = Node::Sequence(
        vec![
            Node::Anchor(AnchorKind::Start),
            Node::Group(
                vec![Node::Sequence(vec![alt], None)],
                Marker::Capturing,
                None,
            ),
            Node::Anchor(AnchorKind::End),
        ],
        None,
    );
    assert_eq!(root, expected);
}

#[test]
fn backreference_takes_no_quantifier() {
    // a suffix after a backreference is an ordinary atom of its own
    let root = parse(b"(a)\\1+").unwrap();
    match &root {
        Node::Sequence(ch, None) => {
            assert_eq!(ch[2], Node::Backreference(1));
            assert_eq!(ch[3], Node::Literal(b'+', None));
        },
        other => panic!("expected the root sequence, got {:?}", other),
    }
}

#[test]
fn class_fallback_in_pattern() {
    // an empty bracket pair degrades to a literal `[`, which then takes the
    // quantifier; the class consumed the `]`
    let root = parse(b"a[]b").unwrap();
    let expected = Node::Sequence(
        vec![
            Node::Anchor(AnchorKind::Start),
            Node::Literal(b'a', None),
            Node::Literal(b'[', None),
            Node::Literal(b'b', None),
            Node::Anchor(AnchorKind::End),
        ],
        None,
    );
    assert_eq!(root, expected);
}
