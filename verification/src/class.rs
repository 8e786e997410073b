//! The character-class builder: the content between `[` and its `]`.
//!
//! A `^` immediately after the `[` negates the class; the toggle is
//! recognized only there.  The builder keeps a single pending byte.  A `-`
//! while a byte is pending expands the inclusive range from the pending byte
//! to the next byte; a `-` directly before the closing `]` (or at the end of
//! the input) is an ordinary member, as is one with nothing pending.  A `\`
//! delegates to the escape translator in inside-class mode and unions the
//! resulting member bytes into the class (the negation of `\D`, `\S`, `\W`
//! is ignored there); a `\` that ends the input contributes a literal
//! backslash.  A bare `|` only flushes the pending byte: classes may contain
//! `|` as an inert separator.  The class ends at `]`, or at the end of the
//! input when no `]` follows.  An empty member list degrades the whole
//! construct to a literal `[`.

use vstd::prelude::*;

use crate::ast::{Node, RNode};
use crate::escape::{byte_range, byte_range_vec, class_escape_bytes, translate_escape, EscapeMode};
use crate::tools::{BACKSLASH, CARET, DASH, LBRACKET, PIPE, RBRACKET};

verus! {

/// The members with the pending byte, if any, appended.
pub open spec fn flush(members: Seq<u8>, pending: Option<u8>) -> Seq<u8> {
    match pending {
        Some(p) => members.push(p),
        None => members,
    }
}

/// The member bytes collected from position `i` on, given the members and
/// the pending byte so far, and the position after the class content.
pub open spec fn spec_class_items(s: Seq<u8>, i: int, members: Seq<u8>, pending: Option<u8>) -> (
    Seq<u8>,
    int,
)
    decreases s.len() - i,
{
    if !(0 <= i < s.len()) {
        (flush(members, pending), s.len() as int)
    } else {
        let c = s[i];
        if c == 93 {
            (flush(members, pending), i + 1)
        } else if c == 45 && pending is Some {
            if i + 1 < s.len() && s[i + 1] != 93 {
                spec_class_items(s, i + 2, members + byte_range(pending->0, s[i + 1]), None)
            } else {
                spec_class_items(s, i + 1, flush(members, pending).push(45), None)
            }
        } else if c == 92 {
            if i + 1 < s.len() {
                spec_class_items(s, i + 2, flush(members, pending) + class_escape_bytes(s[i + 1]), None)
            } else {
                spec_class_items(s, i + 1, flush(members, pending).push(92), None)
            }
        } else if c == 124 {
            spec_class_items(s, i + 1, flush(members, pending), None)
        } else {
            spec_class_items(s, i + 1, flush(members, pending), Some(c))
        }
    }
}

/// What the class builder returns for content starting at `i` (the position
/// just after the `[`): the node and the position after the class.
pub open spec fn spec_build_class(s: Seq<u8>, i: int) -> (RNode, int) {
    let negated = 0 <= i < s.len() && s[i] == 94;
    let start = if negated {
        i + 1
    } else {
        i
    };
    let (members, j) = spec_class_items(s, start, Seq::empty(), None);
    if members.len() == 0 {
        (RNode::Literal(91, None), j)
    } else {
        (RNode::CharClass(members, negated, None), j)
    }
}

/// The class content never moves the position backwards or past the end of
/// the input.
pub proof fn lemma_class_items_bounds(s: Seq<u8>, i: int, members: Seq<u8>, pending: Option<u8>)
    requires
        0 <= i <= s.len(),
    ensures
        i <= spec_class_items(s, i, members, pending).1 <= s.len(),
    decreases s.len() - i,
{
    if 0 <= i < s.len() {
        let c = s[i];
        if c == 93 {
        } else if c == 45 && pending is Some {
            if i + 1 < s.len() && s[i + 1] != 93 {
                lemma_class_items_bounds(s, i + 2, members + byte_range(pending->0, s[i + 1]), None);
            } else {
                lemma_class_items_bounds(s, i + 1, flush(members, pending).push(45), None);
            }
        } else if c == 92 {
            if i + 1 < s.len() {
                lemma_class_items_bounds(s, i + 2, flush(members, pending) + class_escape_bytes(s[i + 1]), None);
            } else {
                lemma_class_items_bounds(s, i + 1, flush(members, pending).push(92), None);
            }
        } else if c == 124 {
            lemma_class_items_bounds(s, i + 1, flush(members, pending), None);
        } else {
            lemma_class_items_bounds(s, i + 1, flush(members, pending), Some(c));
        }
    }
}

/// The class builder never moves the position backwards or past the end of
/// the input.
pub proof fn lemma_build_class_bounds(s: Seq<u8>, i: int)
    requires
        0 <= i <= s.len(),
    ensures
        i <= spec_build_class(s, i).1 <= s.len(),
{
    if 0 <= i < s.len() && s[i] == 94 {
        lemma_class_items_bounds(s, i + 1, Seq::empty(), None);
    } else {
        lemma_class_items_bounds(s, i, Seq::empty(), None);
    }
}

/// The member bytes an escape contributes inside a class, as a vector.
fn class_escape_vec(e: u8) -> (r: Vec<u8>)
    ensures
        r@ == class_escape_bytes(e),
{
    let node = translate_escape(e, EscapeMode::InsideClass);
    match node {
        Node::CharClass(m, _, _) => m,
        Node::Literal(b, _) => {
            let mut v: Vec<u8> = Vec::new();
            v.push(b);
            proof {
                assert(v@ =~= seq![b]);
            }
            v
        },
        _ => {
            // an escape never yields another shape inside a class
            let mut v: Vec<u8> = Vec::new();
            v.push(e);
            proof {
                assert(v@ =~= seq![e]);
            }
            v
        },
    }
}

/// Build the character class whose content starts at `i`, the position just
/// after the `[`.  Returns the node and the position after the class.
pub fn build_class(s: &[u8], i: usize) -> (r: (Node, usize))
    requires
        i <= s@.len(),
    ensures
        r.0@ == spec_build_class(s@, i as int).0,
        r.1 as int == spec_build_class(s@, i as int).1,
{
    let mut j: usize = i;
    let mut negated = false;
    if j < s.len() && s[j] == CARET {
        negated = true;
        j = j + 1;
    }
    let ghost target = spec_class_items(s@, j as int, Seq::empty(), None);
    proof {
        lemma_class_items_bounds(s@, j as int, Seq::empty(), None);
    }
    let mut members: Vec<u8> = Vec::new();
    let mut pending: Option<u8> = None;
    let mut closed = false;
    while !closed && j < s.len()
        invariant
            i <= j <= s@.len(),
            !closed ==> spec_class_items(s@, j as int, members@, pending) == target,
            closed ==> members@ == target.0 && j as int == target.1,
        decreases s@.len() - j + (if closed { 0int } else { 1int }),
    {
        let c = s[j];
        if c == RBRACKET {
            if let Some(p) = pending {
                members.push(p);
            }
            j = j + 1;
            closed = true;
        } else if c == DASH && pending.is_some() {
            if j + 1 < s.len() && s[j + 1] != RBRACKET {
                let p = pending.unwrap();
                let mut range = byte_range_vec(p, s[j + 1]);
                members.append(&mut range);
                pending = None;
                j = j + 2;
            } else {
                if let Some(p) = pending {
                    members.push(p);
                }
                members.push(DASH);
                pending = None;
                j = j + 1;
            }
        } else if c == BACKSLASH {
            if let Some(p) = pending {
                members.push(p);
            }
            if j + 1 < s.len() {
                let mut add = class_escape_vec(s[j + 1]);
                members.append(&mut add);
                pending = None;
                j = j + 2;
            } else {
                members.push(BACKSLASH);
                pending = None;
                j = j + 1;
            }
        } else if c == PIPE {
            if let Some(p) = pending {
                members.push(p);
            }
            pending = None;
            j = j + 1;
        } else {
            if let Some(p) = pending {
                members.push(p);
            }
            pending = Some(c);
            j = j + 1;
        }
    }
    if !closed {
        if let Some(p) = pending {
            members.push(p);
        }
    }
    assert(members@ == target.0 && j as int == target.1);
    if members.len() == 0 {
        (Node::Literal(LBRACKET, None), j)
    } else {
        (Node::CharClass(members, negated, None), j)
    }
}

} // verus!
