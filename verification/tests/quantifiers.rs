//! The quantifier reader: the single-byte suffixes, the four brace forms,
//! digit runs, and the malformed cases.

use regex_tree::ast::{Repeat, UNBOUNDED};
use regex_tree::errors::ErrorKind;
use regex_tree::quantifier::{parse_digits, read_quantifier};

#[test]
fn integer() {
    assert_eq!(parse_digits(b"1234", 0), (Some(1234), 4));
}

#[test]
fn range() {
    assert_eq!(
        read_quantifier(b"?", 0),
        Ok((Some(Repeat { min: 0, max: 1 }), 1))
    );
    assert_eq!(
        read_quantifier(b"*", 0),
        Ok((Some(Repeat { min: 0, max: 65536 }), 1))
    );
    assert_eq!(
        read_quantifier(b"+", 0),
        Ok((Some(Repeat { min: 1, max: 65536 }), 1))
    );
}

#[test]
fn range_complex_a() {
    assert_eq!(
        read_quantifier(b"{8}", 0),
        Ok((Some(Repeat { min: 8, max: 8 }), 3))
    );
}

#[test]
fn range_complex_b() {
    assert_eq!(
        read_quantifier(b"{8,}", 0),
        Ok((Some(Repeat { min: 8, max: 65536 }), 4))
    );
}

#[test]
fn range_complex_c() {
    assert_eq!(
        read_quantifier(b"{,9}", 0),
        Ok((Some(Repeat { min: 0, max: 9 }), 4))
    );
}

#[test]
fn quantifier_mapping() {
    // for an atom, the suffixes map to these bounds
    assert_eq!(read_quantifier(b"?", 0).unwrap().0, Some(Repeat { min: 0, max: 1 }));
    assert_eq!(
        read_quantifier(b"*", 0).unwrap().0,
        Some(Repeat { min: 0, max: UNBOUNDED })
    );
    assert_eq!(
        read_quantifier(b"+", 0).unwrap().0,
        Some(Repeat { min: 1, max: UNBOUNDED })
    );
    assert_eq!(
        read_quantifier(b"{3}", 0).unwrap().0,
        Some(Repeat { min: 3, max: 3 })
    );
    assert_eq!(
        read_quantifier(b"{3,}", 0).unwrap().0,
        Some(Repeat { min: 3, max: UNBOUNDED })
    );
    assert_eq!(
        read_quantifier(b"{,5}", 0).unwrap().0,
        Some(Repeat { min: 0, max: 5 })
    );
    assert_eq!(
        read_quantifier(b"{3,5}", 0).unwrap().0,
        Some(Repeat { min: 3, max: 5 })
    );
}

#[test]
fn quantifier_none() {
    // anything else is no quantifier and consumes nothing
    assert_eq!(read_quantifier(b"a", 0), Ok((None, 0)));
    assert_eq!(read_quantifier(b"", 0), Ok((None, 0)));
    assert_eq!(read_quantifier(b"ab*", 2), Ok((Some(Repeat { min: 0, max: UNBOUNDED }), 3)));
}

#[test]
fn quantifier_malformed_empty_braces() {
    // a brace quantifier with no parsable digits at all fails
    let e = read_quantifier(b"{}", 0).unwrap_err();
    assert_eq!(e.kind, ErrorKind::MalformedQuantifier);
    assert_eq!(e.pos, 0);
    let e2 = read_quantifier(b"{,}", 0).unwrap_err();
    assert_eq!(e2.kind, ErrorKind::MalformedQuantifier);
}

#[test]
fn quantifier_malformed_shapes() {
    // a brace run that breaks off before `}`, junk in it, reversed bounds,
    // or a bound too large for u32 all fail
    assert_eq!(
        read_quantifier(b"{3", 0).unwrap_err().kind,
        ErrorKind::MalformedQuantifier
    );
    assert_eq!(
        read_quantifier(b"{x}", 0).unwrap_err().kind,
        ErrorKind::MalformedQuantifier
    );
    assert_eq!(
        read_quantifier(b"{3x}", 0).unwrap_err().kind,
        ErrorKind::MalformedQuantifier
    );
    assert_eq!(
        read_quantifier(b"{5,3}", 0).unwrap_err().kind,
        ErrorKind::MalformedQuantifier
    );
    assert_eq!(
        read_quantifier(b"{99999999999999}", 0).unwrap_err().kind,
        ErrorKind::MalformedQuantifier
    );
}

#[test]
fn quantifier_large_bounds() {
    // bounds beyond the sentinel are kept as written
    assert_eq!(
        read_quantifier(b"{65536}", 0).unwrap().0,
        Some(Repeat { min: 65536, max: 65536 })
    );
    assert_eq!(
        read_quantifier(b"{4294967295}", 0).unwrap().0,
        Some(Repeat { min: 4294967295, max: 4294967295 })
    );
}

#[test]
fn digit_runs() {
    assert_eq!(parse_digits(b"0", 0), (Some(0), 1));
    assert_eq!(parse_digits(b"a12", 0), (None, 0));
    assert_eq!(parse_digits(b"a12", 1), (Some(12), 3));
    assert_eq!(parse_digits(b"12a", 0), (Some(12), 2));
    // a run whose value does not fit in u32 is consumed but yields no value
    assert_eq!(parse_digits(b"99999999999999", 0), (None, 14));
}
