//! The escape translator: the meaning of the byte after a backslash.
//!
//! The byte maps to a control-character literal (`n`, `r`, `t`), to a
//! predefined character-class expansion (`d`, `D`, `s`, `S`, `w`, `W`), to a
//! backreference (a digit `1`..`9`, only where backreferences are enabled),
//! or to itself as a literal.  The digit `0` always translates as the
//! literal byte `0`, since a backreference index is positive.

use vstd::prelude::*;

use crate::ast::{Node, RNode};
use crate::tools::{DIGIT_NINE, DIGIT_ONE, DIGIT_ZERO};

verus! {

/// The two contexts an escape is read in.  Inside a character class a digit
/// is never a backreference; everywhere else it is.
#[derive(Clone, Copy, Debug, PartialEq, Eq, Structural)]
pub enum EscapeMode {
    BackrefEnabled,
    InsideClass,
}

/// The consecutive byte values `lo..=hi`, in increasing order; empty when
/// `lo > hi`.
pub open spec fn byte_range(lo: u8, hi: u8) -> Seq<u8> {
    if lo > hi {
        Seq::empty()
    } else {
        Seq::new((hi - lo + 1) as nat, |k: int| (lo + k) as u8)
    }
}

/// The digits `0`..`9`.
pub open spec fn digit_bytes() -> Seq<u8> {
    byte_range(48, 57)
}

/// The whitespace expansion: tab and space.
pub open spec fn space_bytes() -> Seq<u8> {
    seq![9u8, 32u8]
}

/// The word expansion: `A`..`Z`, `a`..`z`, `0`..`9` and `_`.
pub open spec fn word_bytes() -> Seq<u8> {
    byte_range(65, 90) + byte_range(97, 122) + byte_range(48, 57) + seq![95u8]
}

/// The literal-translation table: `n`, `r` and `t` name control characters;
/// any other byte stands for itself.
pub open spec fn escape_literal(e: u8) -> u8 {
    if e == 110 {
        10
    } else if e == 114 {
        13
    } else if e == 116 {
        9
    } else {
        e
    }
}

/// What the escape `\e` denotes in the given mode.
pub open spec fn spec_translate(e: u8, mode: EscapeMode) -> RNode {
    if e == 100 {
        RNode::CharClass(digit_bytes(), false, None)
    } else if e == 68 {
        RNode::CharClass(digit_bytes(), true, None)
    } else if e == 115 {
        RNode::CharClass(space_bytes(), false, None)
    } else if e == 83 {
        RNode::CharClass(space_bytes(), true, None)
    } else if e == 119 {
        RNode::CharClass(word_bytes(), false, None)
    } else if e == 87 {
        RNode::CharClass(word_bytes(), true, None)
    } else if mode == EscapeMode::BackrefEnabled && 49 <= e <= 57 {
        RNode::Backreference((e - 48) as u8)
    } else {
        RNode::Literal(escape_literal(e), None)
    }
}

/// The member bytes the escape `\e` contributes inside a character class:
/// the bytes of its class expansion (any negation is ignored there), or its
/// literal translation.
pub open spec fn class_escape_bytes(e: u8) -> Seq<u8> {
    match spec_translate(e, EscapeMode::InsideClass) {
        RNode::CharClass(m, _, _) => m,
        RNode::Literal(b, _) => seq![b],
        _ => seq![e],
    }
}

/// The consecutive byte values `lo..=hi` as a vector.
pub fn byte_range_vec(lo: u8, hi: u8) -> (r: Vec<u8>)
    ensures
        r@ == byte_range(lo, hi),
{
    let mut out: Vec<u8> = Vec::new();
    if lo > hi {
        assert(out@ =~= byte_range(lo, hi));
        return out;
    }
    let mut b: u8 = lo;
    let mut done = false;
    while !done
        invariant
            lo <= b <= hi,
            !done ==> out@ =~= byte_range(lo, hi).take(b - lo),
            done ==> out@ =~= byte_range(lo, hi),
        decreases hi - b + (if done { 0int } else { 1int }),
    {
        out.push(b);
        if b == hi {
            done = true;
            proof {
                assert(out@ =~= byte_range(lo, hi));
            }
        } else {
            b = b + 1;
            proof {
                assert(out@ =~= byte_range(lo, hi).take(b - lo));
            }
        }
    }
    out
}

/// Translate the byte following a backslash.
///
/// The result is a single node: a literal, a character class, or (with
/// backreferences enabled, for a digit `1`..`9`) a backreference.  No
/// repetition is attached here; the caller reads any quantifier suffix.
pub fn translate_escape(e: u8, mode: EscapeMode) -> (r: Node)
    ensures
        r@ == spec_translate(e, mode),
{
    if e == 100u8 {
        Node::CharClass(byte_range_vec(DIGIT_ZERO, DIGIT_NINE), false, None)
    } else if e == 68u8 {
        Node::CharClass(byte_range_vec(DIGIT_ZERO, DIGIT_NINE), true, None)
    } else if e == 115u8 {
        let mut m: Vec<u8> = Vec::new();
        m.push(9u8);
        m.push(32u8);
        proof {
            assert(m@ =~= space_bytes());
        }
        Node::CharClass(m, false, None)
    } else if e == 83u8 {
        let mut m: Vec<u8> = Vec::new();
        m.push(9u8);
        m.push(32u8);
        proof {
            assert(m@ =~= space_bytes());
        }
        Node::CharClass(m, true, None)
    } else if e == 119u8 || e == 87u8 {
        let mut m = byte_range_vec(65u8, 90u8);
        let mut t = byte_range_vec(97u8, 122u8);
        let mut d = byte_range_vec(DIGIT_ZERO, DIGIT_NINE);
        m.append(&mut t);
        m.append(&mut d);
        m.push(95u8);
        proof {
            assert(m@ =~= word_bytes());
        }
        Node::CharClass(m, e == 87u8, None)
    } else if mode == EscapeMode::BackrefEnabled && DIGIT_ONE <= e && e <= DIGIT_NINE {
        Node::Backreference(e - DIGIT_ZERO)
    } else {
        Node::Literal(crate::tools::trans_slash(&e), None)
    }
}

} // verus!
