//! The quantifier reader: a repetition suffix immediately after an atom.
//!
//! `?`, `*` and `+` map to the bounds `(0,1)`, `(0,UNBOUNDED)` and
//! `(1,UNBOUNDED)`.  A brace form maps `{m}` to `(m,m)`, `{m,}` to
//! `(m,UNBOUNDED)`, `{,n}` to `(0,n)` and `{m,n}` to `(m,n)`, where `m` and
//! `n` are runs of ASCII digits.  When the next byte starts none of these
//! forms the reader consumes nothing and reports no quantifier.  A brace
//! quantifier with no parsable digits at all fails with
//! `MalformedQuantifier` rather than silently defaulting; so does a brace
//! run that breaks off before its `}`, a bound that does not fit in `u32`,
//! and explicit bounds with `max < min` (which would break the `Repeat`
//! invariant).  The reported offset is that of the opening `{`.

use vstd::prelude::*;

use crate::ast::{Repeat, UNBOUNDED};
use crate::errors::{ErrorKind, PErr, ParseError};
use crate::tools::{COMMA, LBRACE, PLUS, QUESTION, RBRACE, STAR};

verus! {

/// Is this byte an ASCII decimal digit?
pub open spec fn is_digit_byte(b: u8) -> bool {
    48 <= b <= 57
}

/// The first position at or after `i` holding no digit (or the end of the
/// input): the end of the digit run starting at `i`.
pub open spec fn spec_digits_end(s: Seq<u8>, i: int) -> int
    decreases s.len() - i,
{
    if i < s.len() && is_digit_byte(s[i]) {
        spec_digits_end(s, i + 1)
    } else {
        i
    }
}

/// The numeric value of the digits `s[i..j]`, read left to right.
pub open spec fn spec_digits_value(s: Seq<u8>, i: int, j: int) -> int
    decreases j - i,
{
    if j <= i {
        0
    } else {
        spec_digits_value(s, i, j - 1) * 10 + (s[j - 1] - 48)
    }
}

/// Where the digit run ends: between `i` and the end of the input, with
/// digits everywhere before it and none at it.
pub proof fn lemma_digits_end(s: Seq<u8>, i: int)
    requires
        0 <= i <= s.len(),
    ensures
        i <= spec_digits_end(s, i) <= s.len(),
        forall|k: int| i <= k < spec_digits_end(s, i) ==> is_digit_byte(#[trigger] s[k]),
        spec_digits_end(s, i) < s.len() ==> !is_digit_byte(s[spec_digits_end(s, i)]),
    decreases s.len() - i,
{
    if i < s.len() && is_digit_byte(s[i]) {
        lemma_digits_end(s, i + 1);
    }
}

/// The value of a digit run is non-negative and grows with its length.
pub proof fn lemma_digits_value_nonneg(s: Seq<u8>, i: int, j: int)
    requires
        forall|k: int| i <= k < j ==> is_digit_byte(#[trigger] s[k]),
    ensures
        spec_digits_value(s, i, j) >= 0,
    decreases j - i,
{
    if j > i {
        lemma_digits_value_nonneg(s, i, j - 1);
    }
}

/// Read the digit run starting at `i`: its end, and its value when it is
/// non-empty and fits in a `u32`.
pub fn parse_digits(s: &[u8], i: usize) -> (r: (Option<u32>, usize))
    requires
        i <= s@.len(),
    ensures
        r.1 == spec_digits_end(s@, i as int),
        r.0 is Some <==> (r.1 > i && spec_digits_value(s@, i as int, r.1 as int) <= u32::MAX),
        r.0 is Some ==> r.0->0 == spec_digits_value(s@, i as int, r.1 as int),
{
    proof {
        lemma_digits_end(s@, i as int);
    }
    let ghost e = spec_digits_end(s@, i as int);
    let mut j: usize = i;
    let mut acc: u64 = 0;
    while j < s.len() && s[j] >= 48 && s[j] <= 57
        invariant
            i <= j <= s@.len(),
            i <= e <= s@.len(),
            e == spec_digits_end(s@, i as int),
            e == spec_digits_end(s@, j as int),
            forall|k: int| i <= k < e ==> is_digit_byte(#[trigger] s@[k]),
            e < s@.len() ==> !is_digit_byte(s@[e as int]),
            j <= e,
            spec_digits_value(s@, i as int, j as int) <= u32::MAX ==> acc == spec_digits_value(
                s@,
                i as int,
                j as int,
            ),
            spec_digits_value(s@, i as int, j as int) > u32::MAX ==> acc > u32::MAX,
        decreases s@.len() - j,
    {
        let d = s[j] - 48;
        proof {
            lemma_digits_value_nonneg(s@, i as int, j as int);
            assert(spec_digits_value(s@, i as int, j + 1) == spec_digits_value(
                s@,
                i as int,
                j as int,
            ) * 10 + d);
        }
        if acc > 0xffff_ffff {
            // already too large; the run is still consumed
        } else {
            acc = acc * 10 + (d as u64);
        }
        j = j + 1;
    }
    assert(j == e);
    if j > i && acc <= 0xffff_ffff {
        (Some(acc as u32), j)
    } else {
        (None, j)
    }
}

/// What the quantifier reader returns for the brace form opened at
/// `brace` (so the digits start at `brace + 1`).
pub open spec fn spec_read_braced(s: Seq<u8>, brace: int) -> Result<
    (Option<Repeat>, int),
    PErr,
> {
    let err = Err(PErr { kind: ErrorKind::MalformedQuantifier, pos: brace });
    let j = brace + 1;
    let m_end = spec_digits_end(s, j);
    let has_min = m_end > j;
    let minv = spec_digits_value(s, j, m_end);
    if m_end < s.len() && s[m_end] == 125 {
        // {m} or {}
        if !has_min || minv > u32::MAX {
            err
        } else {
            Ok((Some(Repeat { min: minv as u32, max: minv as u32 }), m_end + 1))
        }
    } else if m_end < s.len() && s[m_end] == 44 {
        let n_end = spec_digits_end(s, m_end + 1);
        let has_max = n_end > m_end + 1;
        let maxv = spec_digits_value(s, m_end + 1, n_end);
        if n_end < s.len() && s[n_end] == 125 {
            if !has_min && !has_max {
                err
            } else if has_min && minv > u32::MAX {
                err
            } else if has_max && maxv > u32::MAX {
                err
            } else if has_min && has_max && maxv < minv {
                err
            } else {
                let mn: u32 = if has_min {
                    minv as u32
                } else {
                    0
                };
                let mx: u32 = if has_max {
                    maxv as u32
                } else {
                    UNBOUNDED
                };
                Ok((Some(Repeat { min: mn, max: mx }), n_end + 1))
            }
        } else {
            err
        }
    } else {
        err
    }
}

/// What the quantifier reader returns at position `i`: the recognized
/// bounds and the position after the suffix, no quantifier (with the
/// position unchanged), or a malformed-quantifier error.
pub open spec fn spec_read_quantifier(s: Seq<u8>, i: int) -> Result<
    (Option<Repeat>, int),
    PErr,
> {
    if !(0 <= i < s.len()) {
        Ok((None, i))
    } else if s[i] == 63 {
        Ok((Some(Repeat { min: 0, max: 1 }), i + 1))
    } else if s[i] == 42 {
        Ok((Some(Repeat { min: 0, max: UNBOUNDED }), i + 1))
    } else if s[i] == 43 {
        Ok((Some(Repeat { min: 1, max: UNBOUNDED }), i + 1))
    } else if s[i] == 123 {
        spec_read_braced(s, i)
    } else {
        Ok((None, i))
    }
}

/// What the quantifier reader returns satisfies the `Repeat` invariant:
/// the maximum is at least the minimum, or the `UNBOUNDED` sentinel.
pub proof fn lemma_read_quantifier_wf(s: Seq<u8>, i: int)
    ensures
        spec_read_quantifier(s, i) matches Ok((q, j)) ==> crate::ast::repeat_wf(q),
{
    if 0 <= i < s.len() && s[i] == 123 {
        lemma_digits_end(s, i + 1);
        lemma_digits_value_nonneg(s, i + 1, spec_digits_end(s, i + 1));
        let m_end = spec_digits_end(s, i + 1);
        if m_end < s.len() && s[m_end] == 44 {
            lemma_digits_end(s, m_end + 1);
            lemma_digits_value_nonneg(s, m_end + 1, spec_digits_end(s, m_end + 1));
        }
    }
}

/// A recognized quantifier never moves the position backwards or past the
/// end of the input.
pub proof fn lemma_read_quantifier_bounds(s: Seq<u8>, i: int)
    requires
        0 <= i <= s.len(),
    ensures
        spec_read_quantifier(s, i) matches Ok((q, j)) ==> i <= j <= s.len(),
{
    if 0 <= i < s.len() && s[i] == 123 {
        lemma_digits_end(s, i + 1);
        let m_end = spec_digits_end(s, i + 1);
        if m_end < s.len() && s[m_end] == 44 {
            lemma_digits_end(s, m_end + 1);
        }
    }
}

/// The view of what the executable quantifier reader returns.
pub open spec fn quant_view(r: Result<(Option<Repeat>, usize), ParseError>) -> Result<
    (Option<Repeat>, int),
    PErr,
> {
    match r {
        Ok((q, j)) => Ok((q, j as int)),
        Err(e) => Err(e@),
    }
}

/// Read the repetition suffix, if any, standing at position `i`.
pub fn read_quantifier(s: &[u8], i: usize) -> (r: Result<(Option<Repeat>, usize), ParseError>)
    requires
        i <= s@.len(),
    ensures
        quant_view(r) == spec_read_quantifier(s@, i as int),
{
    if i >= s.len() {
        return Ok((None, i));
    }
    let c = s[i];
    if c == QUESTION {
        Ok((Some(Repeat { min: 0, max: 1 }), i + 1))
    } else if c == STAR {
        Ok((Some(Repeat { min: 0, max: UNBOUNDED }), i + 1))
    } else if c == PLUS {
        Ok((Some(Repeat { min: 1, max: UNBOUNDED }), i + 1))
    } else if c == LBRACE {
        let err = ParseError { kind: ErrorKind::MalformedQuantifier, pos: i };
        proof {
            lemma_digits_end(s@, i + 1);
        }
        let (minq, m_end) = parse_digits(s, i + 1);
        let has_min = m_end > i + 1;
        if m_end < s.len() && s[m_end] == RBRACE {
            match minq {
                Some(m) => Ok((Some(Repeat { min: m, max: m }), m_end + 1)),
                None => Err(err),
            }
        } else if m_end < s.len() && s[m_end] == COMMA {
            proof {
                lemma_digits_end(s@, m_end + 1);
            }
            let (maxq, n_end) = parse_digits(s, m_end + 1);
            let has_max = n_end > m_end + 1;
            if n_end < s.len() && s[n_end] == RBRACE {
                if has_min && minq.is_none() {
                    Err(err)
                } else if has_max && maxq.is_none() {
                    Err(err)
                } else {
                    match (minq, maxq) {
                        (Some(mn), Some(mx)) => {
                            if mx < mn {
                                Err(err)
                            } else {
                                Ok((Some(Repeat { min: mn, max: mx }), n_end + 1))
                            }
                        },
                        (Some(mn), None) => Ok(
                            (Some(Repeat { min: mn, max: UNBOUNDED }), n_end + 1),
                        ),
                        (None, Some(mx)) => Ok((Some(Repeat { min: 0, max: mx }), n_end + 1)),
                        (None, None) => Err(err),
                    }
                }
            } else {
                Err(err)
            }
        } else {
            Err(err)
        }
    } else {
        Ok((None, i))
    }
}

} // verus!
