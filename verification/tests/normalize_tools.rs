//! The normalizer, the byte-classification helpers, and the token
//! vocabulary.

use regex_tree::normalize::normalize;
use regex_tree::token::{char_to_token, token_to_char, Token};
use regex_tree::tools::{
    is_any, is_begin, is_dash, is_digit, is_end, is_group_begin, is_group_end, is_needend,
    is_repeat, is_repeat_begin, is_repeat_end, is_select, is_set_begin, is_set_end, is_slash,
    is_subexp_mark, is_subexp_mark_ch, trans_digit, trans_slash,
};

#[test]
fn normalize_already_anchored() {
    // normalizing an already-anchored pattern returns it unchanged
    assert_eq!(normalize(b"^abc$"), b"^abc$".to_vec());
    assert_eq!(normalize(b"^$"), b"^$".to_vec());
}

#[test]
fn normalize_empty() {
    // the empty pattern is left empty
    assert_eq!(normalize(b""), Vec::<u8>::new());
}

#[test]
fn normalize_inserts_anchors() {
    // `^` is prepended and `$` appended at the very end, each only when
    // missing
    assert_eq!(normalize(b"abc"), b"^abc$".to_vec());
    assert_eq!(normalize(b"^abc"), b"^abc$".to_vec());
    assert_eq!(normalize(b"abc$"), b"^abc$".to_vec());
    assert_eq!(normalize(b"$"), b"^$".to_vec());
    assert_eq!(normalize(b"^"), b"^$".to_vec());
}

#[test]
fn normalize_idempotent() {
    for pat in [&b""[..], b"abc", b"^abc$", b"a|b", b"((("] {
        let once = normalize(pat);
        let twice = normalize(&once);
        assert_eq!(once, twice);
    }
}

#[test]
fn tools_classify() {
    assert!(is_begin(&b'^') && !is_begin(&b'a'));
    assert!(is_end(&b'$'));
    assert!(is_repeat(&b'?') && is_repeat(&b'*') && is_repeat(&b'+') && !is_repeat(&b'{'));
    assert!(is_slash(&b'\\'));
    assert!(is_set_begin(&b'[') && is_set_end(&b']'));
    assert!(is_group_begin(&b'(') && is_group_end(&b')'));
    assert!(is_select(&b'|'));
    assert!(is_repeat_begin(&b'{') && is_repeat_end(&b'}'));
    assert!(is_needend(&b')') && is_needend(&b'}') && !is_needend(&b']'));
    assert!(is_digit(&b'0') && is_digit(&b'9') && !is_digit(&b'a'));
    assert_eq!(trans_digit(&b'7'), 7);
    assert!(is_dash(&b'-'));
    assert!(is_any(&b'.'));
}

#[test]
fn tools_escape_table() {
    assert_eq!(trans_slash(&b'n'), b'\n');
    assert_eq!(trans_slash(&b'r'), b'\r');
    assert_eq!(trans_slash(&b't'), b'\t');
    assert_eq!(trans_slash(&b'x'), b'x');
}

#[test]
fn tools_marker_bytes() {
    assert_eq!(is_subexp_mark_ch(&b':'), b':');
    assert_eq!(is_subexp_mark_ch(&b'='), b'=');
    assert_eq!(is_subexp_mark_ch(&b'!'), b'!');
    assert_eq!(is_subexp_mark_ch(&b'>'), b'>');
    assert_eq!(is_subexp_mark_ch(&b'a'), 0);
    assert_eq!(is_subexp_mark(b"?:"), b':');
    assert_eq!(is_subexp_mark(b"?a"), 0);
    assert_eq!(is_subexp_mark(b"a:"), 0);
    assert_eq!(is_subexp_mark(b""), 0);
}

#[test]
fn token_roundtrip() {
    for b in 0..=255u8 {
        assert_eq!(token_to_char(&char_to_token(&b)), b);
    }
    assert_eq!(char_to_token(&b'|'), Token::Alt);
    assert_eq!(char_to_token(&b'5'), Token::Number(b'5'));
    assert_eq!(char_to_token(&b'x'), Token::Character(b'x'));
    assert_eq!(token_to_char(&Token::StartAnchor), b'^');
}
