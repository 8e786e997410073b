//! The grammar of a pattern, as recursive specification functions.
//!
//! A scope — the whole pattern, a group body, or an alternation branch — is
//! a sequence of items.  `spec_parse_items` walks one scope; its `acc`
//! parameter carries the children collected so far and `branches` the
//! alternation branches already closed (an empty `branches` means no `|`
//! has been seen in this scope yet).  Dispatch per byte:
//!
//! * at scope start only, `^` is a start anchor;
//! * `)` ends the scope when a group is open; with no open group it is an
//!   ordinary literal byte;
//! * `|` closes the current branch and starts the next one;
//! * `$` is an end anchor anywhere;
//! * `.` is the class of every byte but newline;
//! * `[` opens a character class, `(` a group, `\` an escape;
//! * any other byte is a literal.
//!
//! Immediately after every atom — a literal, a class, a group, or the
//! alternation closed by the scope's terminator — the quantifier reader
//! runs and attaches the bounds it finds.  Anchors and backreferences never
//! take a quantifier.  Input ending while a group scope is open is an
//! `UnterminatedGroup` error, reported at the end of the input.

use vstd::prelude::*;

use crate::ast::{AnchorKind, Marker, RNode, Repeat};
use crate::class::{lemma_build_class_bounds, spec_build_class};
use crate::errors::{ErrorKind, PErr};
use crate::escape::{spec_translate, EscapeMode};
use crate::normalize::spec_normalize;
use crate::quantifier::{lemma_read_quantifier_bounds, spec_read_quantifier};

verus! {

/// How a scope ended: at the end of the input, or at a consumed `)`.
#[derive(Clone, Copy, Debug, PartialEq, Eq, Structural)]
pub enum ScopeEnd {
    Eoi,
    Close,
}

/// The same node with its repetition bounds replaced, where the node is an
/// atom; anchors and backreferences are returned unchanged.
pub open spec fn with_repeat(n: RNode, r: Option<Repeat>) -> RNode {
    match n {
        RNode::Literal(b, _) => RNode::Literal(b, r),
        RNode::CharClass(m, neg, _) => RNode::CharClass(m, neg, r),
        RNode::Sequence(ch, _) => RNode::Sequence(ch, r),
        RNode::Group(ch, m, _) => RNode::Group(ch, m, r),
        RNode::Alternation(br, _) => RNode::Alternation(br, r),
        RNode::Anchor(k) => RNode::Anchor(k),
        RNode::Backreference(d) => RNode::Backreference(d),
    }
}

/// The group marker standing at `i`, the position just after a `(`: one of
/// the two-byte prefixes `?:`, `?=`, `?!`, `?>`, consumed when present;
/// anything else leaves the position unchanged and the group capturing.
pub open spec fn spec_read_marker(s: Seq<u8>, i: int) -> (Marker, int) {
    if 0 <= i && i + 1 < s.len() && s[i] == 63 {
        if s[i + 1] == 58 {
            (Marker::NonCapturing, i + 2)
        } else if s[i + 1] == 61 {
            (Marker::LookaheadPositive, i + 2)
        } else if s[i + 1] == 33 {
            (Marker::LookaheadNegative, i + 2)
        } else if s[i + 1] == 62 {
            (Marker::LookbehindOrOther, i + 2)
        } else {
            (Marker::Capturing, i)
        }
    } else {
        (Marker::Capturing, i)
    }
}

/// `j` where it lies between `lo` and the end of the input, and `lo`
/// otherwise.  Positions handed back by the sub-parsers always lie in that
/// interval, so this is the identity on every value that actually occurs;
/// it only keeps the recursion below visibly well-founded.
pub open spec fn cont_pos(s: Seq<u8>, lo: int, j: int) -> int {
    if lo <= j <= s.len() {
        j
    } else {
        lo
    }
}

/// Parse the items of one scope from position `i` on.
///
/// `close` says whether a `)` ends this scope (it does in a group body and
/// in every alternation branch within one); `start` whether the next byte
/// is at the very start of the scope, where `^` is an anchor; `acc` holds
/// the children already collected and `branches` the alternation branches
/// already closed.  Returns the scope's final children, the position after
/// the scope, and how the scope ended.
pub open spec fn spec_parse_items(
    s: Seq<u8>,
    i: int,
    close: bool,
    start: bool,
    acc: Seq<RNode>,
    branches: Seq<RNode>,
) -> Result<(Seq<RNode>, int, ScopeEnd), PErr>
    decreases s.len() - i, 0int,
{
    if !(0 <= i < s.len()) {
        if close {
            Err(PErr { kind: ErrorKind::UnterminatedGroup, pos: s.len() as int })
        } else if branches.len() > 0 {
            Ok(
                (
                    seq![RNode::Alternation(branches.push(RNode::Sequence(acc, None)), None)],
                    s.len() as int,
                    ScopeEnd::Eoi,
                ),
            )
        } else {
            Ok((acc, s.len() as int, ScopeEnd::Eoi))
        }
    } else {
        let c = s[i];
        if start && c == 94 {
            spec_parse_items(s, i + 1, close, false, acc.push(RNode::Anchor(AnchorKind::Start)), branches)
        } else if c == 41 && close {
            if branches.len() > 0 {
                let all = branches.push(RNode::Sequence(acc, None));
                match spec_read_quantifier(s, i + 1) {
                    Err(e) => Err(e),
                    Ok((rep, j)) => Ok(
                        (seq![RNode::Alternation(all, rep)], cont_pos(s, i + 1, j), ScopeEnd::Close),
                    ),
                }
            } else {
                Ok((acc, i + 1, ScopeEnd::Close))
            }
        } else if c == 124 {
            spec_parse_items(s, i + 1, close, true, Seq::empty(), branches.push(RNode::Sequence(acc, None)))
        } else if c == 36 {
            spec_parse_items(s, i + 1, close, false, acc.push(RNode::Anchor(AnchorKind::End)), branches)
        } else if c == 40 {
            match spec_parse_group(s, i + 1) {
                Err(e) => Err(e),
                Ok((g, j)) => spec_parse_items(s, cont_pos(s, i + 1, j), close, false, acc.push(g), branches),
            }
        } else if c == 91 {
            let (cls, j) = spec_build_class(s, i + 1);
            match spec_read_quantifier(s, cont_pos(s, i + 1, j)) {
                Err(e) => Err(e),
                Ok((rep, j2)) => spec_parse_items(
                    s,
                    cont_pos(s, i + 1, j2),
                    close,
                    false,
                    acc.push(with_repeat(cls, rep)),
                    branches,
                ),
            }
        } else if c == 92 {
            if i + 1 < s.len() {
                let t = spec_translate(s[i + 1], EscapeMode::BackrefEnabled);
                if t is Backreference {
                    spec_parse_items(s, i + 2, close, false, acc.push(t), branches)
                } else {
                    match spec_read_quantifier(s, i + 2) {
                        Err(e) => Err(e),
                        Ok((rep, j2)) => spec_parse_items(
                            s,
                            cont_pos(s, i + 2, j2),
                            close,
                            false,
                            acc.push(with_repeat(t, rep)),
                            branches,
                        ),
                    }
                }
            } else {
                spec_parse_items(s, i + 1, close, false, acc.push(RNode::Literal(92, None)), branches)
            }
        } else if c == 46 {
            match spec_read_quantifier(s, i + 1) {
                Err(e) => Err(e),
                Ok((rep, j2)) => spec_parse_items(
                    s,
                    cont_pos(s, i + 1, j2),
                    close,
                    false,
                    acc.push(RNode::CharClass(seq![10u8], true, rep)),
                    branches,
                ),
            }
        } else {
            match spec_read_quantifier(s, i + 1) {
                Err(e) => Err(e),
                Ok((rep, j2)) => spec_parse_items(
                    s,
                    cont_pos(s, i + 1, j2),
                    close,
                    false,
                    acc.push(RNode::Literal(c, rep)),
                    branches,
                ),
            }
        }
    }
}

/// Parse a group whose body starts at `i`, the position just after the
/// `(`: read the marker, parse the body scope up to its `)`, and read the
/// group's quantifier suffix.  Returns the group node and the position
/// after the suffix.
pub open spec fn spec_parse_group(s: Seq<u8>, i: int) -> Result<(RNode, int), PErr>
    decreases s.len() - i, 1int,
{
    let (m, i2) = spec_read_marker(s, i);
    match spec_parse_items(s, i2, true, true, Seq::empty(), Seq::empty()) {
        Err(e) => Err(e),
        Ok((ch, j, _)) => match spec_read_quantifier(s, cont_pos(s, i2, j)) {
            Err(e) => Err(e),
            Ok((rep, j2)) => Ok(
                (
                    RNode::Group(seq![RNode::Sequence(ch, None)], m, rep),
                    cont_pos(s, i2, j2),
                ),
            ),
        },
    }
}

/// A parsed scope never moves the position backwards or past the end of
/// the input.
pub proof fn lemma_parse_items_bounds(
    s: Seq<u8>,
    i: int,
    close: bool,
    start: bool,
    acc: Seq<RNode>,
    branches: Seq<RNode>,
)
    requires
        0 <= i <= s.len(),
    ensures
        spec_parse_items(s, i, close, start, acc, branches) matches Ok((ch, j, e)) ==> i <= j
            <= s.len(),
    decreases s.len() - i, 0int,
{
    if !(0 <= i < s.len()) {
    } else {
        let c = s[i];
        if start && c == 94 {
            lemma_parse_items_bounds(s, i + 1, close, false, acc.push(RNode::Anchor(AnchorKind::Start)), branches);
        } else if c == 41 && close {
            if branches.len() > 0 {
                lemma_read_quantifier_bounds(s, i + 1);
            }
        } else if c == 124 {
            lemma_parse_items_bounds(s, i + 1, close, true, Seq::empty(), branches.push(RNode::Sequence(acc, None)));
        } else if c == 36 {
            lemma_parse_items_bounds(s, i + 1, close, false, acc.push(RNode::Anchor(AnchorKind::End)), branches);
        } else if c == 40 {
            lemma_parse_group_bounds(s, i + 1);
            match spec_parse_group(s, i + 1) {
                Err(_) => {},
                Ok((g, j)) => {
                    lemma_parse_items_bounds(s, cont_pos(s, i + 1, j), close, false, acc.push(g), branches);
                },
            }
        } else if c == 91 {
            lemma_build_class_bounds(s, i + 1);
            let (cls, j) = spec_build_class(s, i + 1);
            lemma_read_quantifier_bounds(s, cont_pos(s, i + 1, j));
            match spec_read_quantifier(s, cont_pos(s, i + 1, j)) {
                Err(_) => {},
                Ok((rep, j2)) => {
                    lemma_parse_items_bounds(
                        s,
                        cont_pos(s, i + 1, j2),
                        close,
                        false,
                        acc.push(with_repeat(cls, rep)),
                        branches,
                    );
                },
            }
        } else if c == 92 {
            if i + 1 < s.len() {
                let t = spec_translate(s[i + 1], EscapeMode::BackrefEnabled);
                if t is Backreference {
                    lemma_parse_items_bounds(s, i + 2, close, false, acc.push(t), branches);
                } else {
                    lemma_read_quantifier_bounds(s, i + 2);
                    match spec_read_quantifier(s, i + 2) {
                        Err(_) => {},
                        Ok((rep, j2)) => {
                            lemma_parse_items_bounds(
                                s,
                                cont_pos(s, i + 2, j2),
                                close,
                                false,
                                acc.push(with_repeat(t, rep)),
                                branches,
                            );
                        },
                    }
                }
            } else {
                lemma_parse_items_bounds(s, i + 1, close, false, acc.push(RNode::Literal(92, None)), branches);
            }
        } else if c == 46 {
            lemma_read_quantifier_bounds(s, i + 1);
            match spec_read_quantifier(s, i + 1) {
                Err(_) => {},
                Ok((rep, j2)) => {
                    lemma_parse_items_bounds(
                        s,
                        cont_pos(s, i + 1, j2),
                        close,
                        false,
                        acc.push(RNode::CharClass(seq![10u8], true, rep)),
                        branches,
                    );
                },
            }
        } else {
            lemma_read_quantifier_bounds(s, i + 1);
            match spec_read_quantifier(s, i + 1) {
                Err(_) => {},
                Ok((rep, j2)) => {
                    lemma_parse_items_bounds(
                        s,
                        cont_pos(s, i + 1, j2),
                        close,
                        false,
                        acc.push(RNode::Literal(c, rep)),
                        branches,
                    );
                },
            }
        }
    }
}

/// A parsed group never moves the position backwards or past the end of
/// the input.
pub proof fn lemma_parse_group_bounds(s: Seq<u8>, i: int)
    requires
        0 <= i <= s.len(),
    ensures
        spec_parse_group(s, i) matches Ok((g, j)) ==> i <= j <= s.len(),
    decreases s.len() - i, 1int,
{
    let (m, i2) = spec_read_marker(s, i);
    lemma_parse_items_bounds(s, i2, true, true, Seq::empty(), Seq::empty());
    match spec_parse_items(s, i2, true, true, Seq::empty(), Seq::empty()) {
        Err(_) => {},
        Ok((ch, j, _)) => {
            lemma_read_quantifier_bounds(s, cont_pos(s, i2, j));
        },
    }
}

// What one dispatch step of `spec_parse_items` amounts to, case by case.
// Each lemma only unfolds the definition under its guard; keeping the
// unfoldings here keeps the machine's loop proof small.

/// At scope start, `^` is a start anchor.
pub proof fn lemma_items_anchor_start(
    s: Seq<u8>,
    i: int,
    close: bool,
    acc: Seq<RNode>,
    branches: Seq<RNode>,
)
    requires
        0 <= i < s.len(),
        s[i] == 94,
    ensures
        spec_parse_items(s, i, close, true, acc, branches) == spec_parse_items(
            s,
            i + 1,
            close,
            false,
            acc.push(RNode::Anchor(AnchorKind::Start)),
            branches,
        ),
{
}

/// A `)` with a group open and no alternation pending closes the scope.
pub proof fn lemma_items_close_plain(
    s: Seq<u8>,
    i: int,
    start: bool,
    acc: Seq<RNode>,
    branches: Seq<RNode>,
)
    requires
        0 <= i < s.len(),
        s[i] == 41,
        !(start && s[i] == 94),
        branches.len() == 0,
    ensures
        spec_parse_items(s, i, true, start, acc, branches) == Ok::<_, PErr>(
            (acc, i + 1, ScopeEnd::Close),
        ),
{
}

/// A `)` with a group open and an alternation pending closes the last
/// branch, attaches the alternation's quantifier, and closes the scope.
pub proof fn lemma_items_close_alt(
    s: Seq<u8>,
    i: int,
    start: bool,
    acc: Seq<RNode>,
    branches: Seq<RNode>,
)
    requires
        0 <= i < s.len(),
        s[i] == 41,
        !(start && s[i] == 94),
        branches.len() > 0,
    ensures
        spec_parse_items(s, i, true, start, acc, branches) == (match spec_read_quantifier(
            s,
            i + 1,
        ) {
            Err(e) => Err(e),
            Ok((rep, j)) => Ok(
                (
                    seq![RNode::Alternation(branches.push(RNode::Sequence(acc, None)), rep)],
                    cont_pos(s, i + 1, j),
                    ScopeEnd::Close,
                ),
            ),
        }),
{
}

/// A `|` closes the current branch and starts the next one.
pub proof fn lemma_items_bar(
    s: Seq<u8>,
    i: int,
    close: bool,
    start: bool,
    acc: Seq<RNode>,
    branches: Seq<RNode>,
)
    requires
        0 <= i < s.len(),
        s[i] == 124,
        !(start && s[i] == 94),
        !(s[i] == 41 && close),
    ensures
        spec_parse_items(s, i, close, start, acc, branches) == spec_parse_items(
            s,
            i + 1,
            close,
            true,
            Seq::empty(),
            branches.push(RNode::Sequence(acc, None)),
        ),
{
}

/// A `$` is an end anchor anywhere.
pub proof fn lemma_items_anchor_end(
    s: Seq<u8>,
    i: int,
    close: bool,
    start: bool,
    acc: Seq<RNode>,
    branches: Seq<RNode>,
)
    requires
        0 <= i < s.len(),
        s[i] == 36,
        !(start && s[i] == 94),
    ensures
        spec_parse_items(s, i, close, start, acc, branches) == spec_parse_items(
            s,
            i + 1,
            close,
            false,
            acc.push(RNode::Anchor(AnchorKind::End)),
            branches,
        ),
{
}

/// A `(` parses a whole group and continues behind it.
pub proof fn lemma_items_group(
    s: Seq<u8>,
    i: int,
    close: bool,
    start: bool,
    acc: Seq<RNode>,
    branches: Seq<RNode>,
)
    requires
        0 <= i < s.len(),
        s[i] == 40,
        !(start && s[i] == 94),
    ensures
        spec_parse_items(s, i, close, start, acc, branches) == (match spec_parse_group(s, i + 1) {
            Err(e) => Err(e),
            Ok((g, j)) => spec_parse_items(s, cont_pos(s, i + 1, j), close, false, acc.push(g), branches),
        }),
{
}

/// A `[` builds a character class, then reads its quantifier.
pub proof fn lemma_items_class(
    s: Seq<u8>,
    i: int,
    close: bool,
    start: bool,
    acc: Seq<RNode>,
    branches: Seq<RNode>,
)
    requires
        0 <= i < s.len(),
        s[i] == 91,
        !(start && s[i] == 94),
    ensures
        spec_parse_items(s, i, close, start, acc, branches) == ({
            let (cls, j) = spec_build_class(s, i + 1);
            match spec_read_quantifier(s, cont_pos(s, i + 1, j)) {
                Err(e) => Err(e),
                Ok((rep, j2)) => spec_parse_items(
                    s,
                    cont_pos(s, i + 1, j2),
                    close,
                    false,
                    acc.push(with_repeat(cls, rep)),
                    branches,
                ),
            }
        }),
{
}

/// A `\` followed by another byte translates the escape; a backreference
/// takes no quantifier, every other escape does.
pub proof fn lemma_items_escape(
    s: Seq<u8>,
    i: int,
    close: bool,
    start: bool,
    acc: Seq<RNode>,
    branches: Seq<RNode>,
)
    requires
        0 <= i < s.len(),
        s[i] == 92,
        !(start && s[i] == 94),
        i + 1 < s.len(),
    ensures
        spec_parse_items(s, i, close, start, acc, branches) == ({
            let t = spec_translate(s[i + 1], EscapeMode::BackrefEnabled);
            if t is Backreference {
                spec_parse_items(s, i + 2, close, false, acc.push(t), branches)
            } else {
                match spec_read_quantifier(s, i + 2) {
                    Err(e) => Err(e),
                    Ok((rep, j2)) => spec_parse_items(
                        s,
                        cont_pos(s, i + 2, j2),
                        close,
                        false,
                        acc.push(with_repeat(t, rep)),
                        branches,
                    ),
                }
            }
        }),
{
}

/// A `\` that ends the input is a literal backslash.
pub proof fn lemma_items_escape_eoi(
    s: Seq<u8>,
    i: int,
    close: bool,
    start: bool,
    acc: Seq<RNode>,
    branches: Seq<RNode>,
)
    requires
        0 <= i < s.len(),
        s[i] == 92,
        !(start && s[i] == 94),
        i + 1 == s.len(),
    ensures
        spec_parse_items(s, i, close, start, acc, branches) == spec_parse_items(
            s,
            i + 1,
            close,
            false,
            acc.push(RNode::Literal(92, None)),
            branches,
        ),
{
}

/// A `.` is the class of every byte but newline, with its quantifier.
pub proof fn lemma_items_dot(
    s: Seq<u8>,
    i: int,
    close: bool,
    start: bool,
    acc: Seq<RNode>,
    branches: Seq<RNode>,
)
    requires
        0 <= i < s.len(),
        s[i] == 46,
        !(start && s[i] == 94),
    ensures
        spec_parse_items(s, i, close, start, acc, branches) == (match spec_read_quantifier(
            s,
            i + 1,
        ) {
            Err(e) => Err(e),
            Ok((rep, j2)) => spec_parse_items(
                s,
                cont_pos(s, i + 1, j2),
                close,
                false,
                acc.push(RNode::CharClass(seq![10u8], true, rep)),
                branches,
            ),
        }),
{
}

/// Any other byte is a literal, with its quantifier.
pub proof fn lemma_items_literal(
    s: Seq<u8>,
    i: int,
    close: bool,
    start: bool,
    acc: Seq<RNode>,
    branches: Seq<RNode>,
)
    requires
        0 <= i < s.len(),
        !(start && s[i] == 94),
        !(s[i] == 41 && close),
        s[i] != 124,
        s[i] != 36,
        s[i] != 40,
        s[i] != 91,
        s[i] != 92,
        s[i] != 46,
    ensures
        spec_parse_items(s, i, close, start, acc, branches) == (match spec_read_quantifier(
            s,
            i + 1,
        ) {
            Err(e) => Err(e),
            Ok((rep, j2)) => spec_parse_items(
                s,
                cont_pos(s, i + 1, j2),
                close,
                false,
                acc.push(RNode::Literal(s[i], rep)),
                branches,
            ),
        }),
{
}

/// At the end of the input an open group is an error; otherwise a pending
/// alternation closes and the scope's children are final.
pub proof fn lemma_items_eoi(
    s: Seq<u8>,
    close: bool,
    start: bool,
    acc: Seq<RNode>,
    branches: Seq<RNode>,
)
    ensures
        spec_parse_items(s, s.len() as int, close, start, acc, branches) == (if close {
            Err(PErr { kind: ErrorKind::UnterminatedGroup, pos: s.len() as int })
        } else if branches.len() > 0 {
            Ok(
                (
                    seq![RNode::Alternation(branches.push(RNode::Sequence(acc, None)), None)],
                    s.len() as int,
                    ScopeEnd::Eoi,
                ),
            )
        } else {
            Ok((acc, s.len() as int, ScopeEnd::Eoi))
        }),
{
}

/// The group parse, written as marker, body and quantifier.
pub proof fn lemma_group_unfold(s: Seq<u8>, i: int)
    ensures
        spec_parse_group(s, i) == ({
            let (m, i2) = spec_read_marker(s, i);
            match spec_parse_items(s, i2, true, true, Seq::empty(), Seq::empty()) {
                Err(e) => Err(e),
                Ok((ch, j, _)) => match spec_read_quantifier(s, cont_pos(s, i2, j)) {
                    Err(e) => Err(e),
                    Ok((rep, j2)) => Ok(
                        (
                            RNode::Group(seq![RNode::Sequence(ch, None)], m, rep),
                            cont_pos(s, i2, j2),
                        ),
                    ),
                },
            }
        }),
{
}

/// The parse of a whole normalized pattern: its root sequence, or the
/// error.
pub open spec fn spec_parse_normalized(s: Seq<u8>) -> Result<RNode, PErr> {
    match spec_parse_items(s, 0, false, true, Seq::empty(), Seq::empty()) {
        Ok((ch, j, e)) => Ok(RNode::Sequence(ch, None)),
        Err(e) => Err(e),
    }
}

/// The parse of a raw pattern: normalize, then parse.
pub open spec fn spec_parse(raw: Seq<u8>) -> Result<RNode, PErr> {
    spec_parse_normalized(spec_normalize(raw))
}

/// Normalizing a pattern before handing it to the parser changes nothing:
/// the parser normalizes, and normalization is idempotent.
pub proof fn lemma_parse_of_normalized(raw: Seq<u8>)
    ensures
        spec_parse(spec_normalize(raw)) == spec_parse(raw),
{
    crate::normalize::lemma_normalize_idempotent(raw);
}

/// The quantifier reader can only fail on a `{`.
pub proof fn lemma_quantifier_ok_without_brace(s: Seq<u8>, i: int)
    requires
        !(0 <= i < s.len()) || s[i] != 123,
    ensures
        spec_read_quantifier(s, i) is Ok,
{
}

/// A scope over input holding neither `(` nor `{` parses without error:
/// both error kinds need one of those bytes.
pub proof fn lemma_items_ok_without_groups_and_braces(
    s: Seq<u8>,
    i: int,
    start: bool,
    acc: Seq<RNode>,
    branches: Seq<RNode>,
)
    requires
        0 <= i <= s.len(),
        forall|k: int| i <= k < s.len() ==> s[k] != 40 && #[trigger] s[k] != 123,
    ensures
        spec_parse_items(s, i, false, start, acc, branches) is Ok,
    decreases s.len() - i,
{
    if !(0 <= i < s.len()) {
    } else {
        let c = s[i];
        if start && c == 94 {
            lemma_items_ok_without_groups_and_braces(s, i + 1, false, acc.push(RNode::Anchor(AnchorKind::Start)), branches);
        } else if c == 124 {
            lemma_items_ok_without_groups_and_braces(s, i + 1, true, Seq::empty(), branches.push(RNode::Sequence(acc, None)));
        } else if c == 36 {
            lemma_items_ok_without_groups_and_braces(s, i + 1, false, acc.push(RNode::Anchor(AnchorKind::End)), branches);
        } else if c == 91 {
            lemma_build_class_bounds(s, i + 1);
            let (cls, j) = spec_build_class(s, i + 1);
            lemma_quantifier_ok_without_brace(s, cont_pos(s, i + 1, j));
            lemma_read_quantifier_bounds(s, cont_pos(s, i + 1, j));
            match spec_read_quantifier(s, cont_pos(s, i + 1, j)) {
                Err(_) => {},
                Ok((rep, j2)) => {
                    lemma_items_ok_without_groups_and_braces(
                        s,
                        cont_pos(s, i + 1, j2),
                        false,
                        acc.push(with_repeat(cls, rep)),
                        branches,
                    );
                },
            }
        } else if c == 92 {
            if i + 1 < s.len() {
                let t = spec_translate(s[i + 1], EscapeMode::BackrefEnabled);
                if t is Backreference {
                    lemma_items_ok_without_groups_and_braces(s, i + 2, false, acc.push(t), branches);
                } else {
                    lemma_quantifier_ok_without_brace(s, i + 2);
                    lemma_read_quantifier_bounds(s, i + 2);
                    match spec_read_quantifier(s, i + 2) {
                        Err(_) => {},
                        Ok((rep, j2)) => {
                            lemma_items_ok_without_groups_and_braces(
                                s,
                                cont_pos(s, i + 2, j2),
                                false,
                                acc.push(with_repeat(t, rep)),
                                branches,
                            );
                        },
                    }
                }
            } else {
                lemma_items_ok_without_groups_and_braces(s, i + 1, false, acc.push(RNode::Literal(92, None)), branches);
            }
        } else {
            lemma_quantifier_ok_without_brace(s, i + 1);
            lemma_read_quantifier_bounds(s, i + 1);
            match spec_read_quantifier(s, i + 1) {
                Err(_) => {},
                Ok((rep, j2)) => {
                    if c == 46 {
                        lemma_items_ok_without_groups_and_braces(
                            s,
                            cont_pos(s, i + 1, j2),
                            false,
                            acc.push(RNode::CharClass(seq![10u8], true, rep)),
                            branches,
                        );
                    } else {
                        lemma_items_ok_without_groups_and_braces(
                            s,
                            cont_pos(s, i + 1, j2),
                            false,
                            acc.push(RNode::Literal(c, rep)),
                            branches,
                        );
                    }
                },
            }
        }
    }
}

/// Success is owed on every pattern holding neither `(` nor `{`: the two
/// error kinds — an unterminated group and a malformed brace quantifier —
/// need one of those bytes, and normalization adds none.
pub proof fn lemma_parse_ok_without_groups_and_braces(raw: Seq<u8>)
    requires
        forall|k: int| 0 <= k < raw.len() ==> raw[k] != 40 && #[trigger] raw[k] != 123,
    ensures
        spec_parse(raw) is Ok,
{
    let s = spec_normalize(raw);
    assert forall|k: int| 0 <= k < s.len() implies s[k] != 40 && #[trigger] s[k] != 123 by {
        if raw.len() == 0 {
        } else {
            let ws = if raw[0] == 94 {
                raw
            } else {
                seq![94u8] + raw
            };
            let off: int = if raw[0] == 94 {
                0
            } else {
                1
            };
            if k < ws.len() {
                if k < off {
                    assert(ws[k] == 94);
                } else {
                    assert(ws[k] == raw[k - off]);
                }
            } else {
                assert(s[k] == 36);
            }
        }
    }
    lemma_items_ok_without_groups_and_braces(s, 0, true, Seq::empty(), Seq::empty());
}

} // verus!
