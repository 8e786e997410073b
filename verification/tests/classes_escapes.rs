//! The character-class builder and the escape translator.

use regex_tree::ast::Node;
use regex_tree::class::build_class;
use regex_tree::escape::{translate_escape, EscapeMode};

fn bytes_of(lo: u8, hi: u8) -> Vec<u8> {
    (lo..=hi).collect()
}

#[test]
fn set_test_a() {
    assert_eq!(
        build_class(b"a-z", 0).0,
        Node::CharClass(bytes_of(b'a', b'z'), false, None)
    );
    assert_eq!(
        build_class(b"A-Z", 0).0,
        Node::CharClass(bytes_of(b'A', b'Z'), false, None)
    );
    assert_eq!(
        build_class(b"0-9", 0).0,
        Node::CharClass(bytes_of(b'0', b'9'), false, None)
    );
}

#[test]
fn set_test_b() {
    assert_eq!(
        build_class(b"e-l", 0).0,
        Node::CharClass(bytes_of(b'e', b'l'), false, None)
    );
}

#[test]
fn set_test_c() {
    assert_eq!(
        build_class(b"^e-l", 0).0,
        Node::CharClass(bytes_of(b'e', b'l'), true, None)
    );
    assert_eq!(
        build_class(b"^0-9", 0).0,
        Node::CharClass(bytes_of(b'0', b'9'), true, None)
    );
}

#[test]
fn set_test_d() {
    // `|` inside a class is an inert separator, not alternation
    assert_eq!(
        build_class(b"hello|", 0).0,
        Node::CharClass(b"hello".to_vec(), false, None)
    );
}

#[test]
fn range_expansion() {
    // the range rule expands "A-Z" to the 26 bytes `A`..`Z` inclusive
    let (node, next) = build_class(b"A-Z]", 0);
    let members = bytes_of(b'A', b'Z');
    assert_eq!(members.len(), 26);
    assert_eq!(node, Node::CharClass(members, false, None));
    assert_eq!(next, 4);
}

#[test]
fn class_termination_and_fallback() {
    // the class ends at `]`; an empty class degrades to a literal `[`
    assert_eq!(build_class(b"ab]cd", 0), (Node::CharClass(b"ab".to_vec(), false, None), 3));
    assert_eq!(build_class(b"]x", 0), (Node::Literal(b'[', None), 1));
    assert_eq!(build_class(b"", 0), (Node::Literal(b'[', None), 0));
}

#[test]
fn class_dangling_dash() {
    // a `-` directly before the `]` is an ordinary member
    assert_eq!(
        build_class(b"a-]", 0).0,
        Node::CharClass(vec![b'a', b'-'], false, None)
    );
    // with nothing pending, `-` is an ordinary member too
    assert_eq!(
        build_class(b"-a]", 0).0,
        Node::CharClass(vec![b'-', b'a'], false, None)
    );
}

#[test]
fn class_escape_union() {
    // an escape unions its member bytes; the negation of `\D` is ignored
    // inside a class
    let mut expected = bytes_of(b'0', b'9');
    expected.push(b'_');
    assert_eq!(
        build_class(b"\\d_]", 0).0,
        Node::CharClass(expected, false, None)
    );
    let digits = bytes_of(b'0', b'9');
    assert_eq!(
        build_class(b"^\\D12]", 0).0,
        Node::CharClass([digits, vec![b'1', b'2']].concat(), true, None)
    );
    // an escaped `]` is a member, not the terminator
    assert_eq!(
        build_class(b"\\]]", 0),
        (Node::CharClass(vec![b']'], false, None), 3)
    );
}

#[test]
fn slash_test_a() {
    assert_eq!(
        translate_escape(b'\\', EscapeMode::InsideClass),
        Node::Literal(b'\\', None)
    );
}

#[test]
fn slash_test_b() {
    assert_eq!(
        translate_escape(b't', EscapeMode::InsideClass),
        Node::Literal(b'\t', None)
    );
    assert_eq!(
        translate_escape(b'r', EscapeMode::InsideClass),
        Node::Literal(b'\r', None)
    );
    assert_eq!(
        translate_escape(b'n', EscapeMode::InsideClass),
        Node::Literal(b'\n', None)
    );
}

#[test]
fn slash_test_c() {
    assert_eq!(
        translate_escape(b'd', EscapeMode::InsideClass),
        Node::CharClass(bytes_of(b'0', b'9'), false, None)
    );
    assert_eq!(
        translate_escape(b'D', EscapeMode::InsideClass),
        Node::CharClass(bytes_of(b'0', b'9'), true, None)
    );
}

#[test]
fn slash_test_d() {
    assert_eq!(
        translate_escape(b's', EscapeMode::InsideClass),
        Node::CharClass(vec![b'\t', b' '], false, None)
    );
    assert_eq!(
        translate_escape(b'S', EscapeMode::InsideClass),
        Node::CharClass(vec![b'\t', b' '], true, None)
    );
}

#[test]
fn slash_test_e() {
    let mut charset = Vec::with_capacity(255);
    charset.extend_from_slice(&bytes_of(b'A', b'Z'));
    charset.extend_from_slice(&bytes_of(b'a', b'z'));
    charset.extend_from_slice(&bytes_of(b'0', b'9'));
    charset.push(b'_');
    assert_eq!(
        translate_escape(b'w', EscapeMode::InsideClass),
        Node::CharClass(charset.clone(), false, None)
    );
    assert_eq!(
        translate_escape(b'W', EscapeMode::InsideClass),
        Node::CharClass(charset, true, None)
    );
}

#[test]
fn slash_test_f() {
    assert_eq!(
        translate_escape(b'1', EscapeMode::BackrefEnabled),
        Node::Backreference(1)
    );
    assert_eq!(
        translate_escape(b'2', EscapeMode::BackrefEnabled),
        Node::Backreference(2)
    );
}

#[test]
fn slash_test_g() {
    assert_eq!(
        translate_escape(b'a', EscapeMode::BackrefEnabled),
        Node::Literal(b'a', None)
    );
}

#[test]
fn escape_digits() {
    // inside a class a digit is never a backreference; a zero never is
    assert_eq!(
        translate_escape(b'1', EscapeMode::InsideClass),
        Node::Literal(b'1', None)
    );
    assert_eq!(
        translate_escape(b'0', EscapeMode::BackrefEnabled),
        Node::Literal(b'0', None)
    );
}
