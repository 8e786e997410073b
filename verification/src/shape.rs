//! Every tree a parse returns satisfies the structural invariants of
//! `rnode_wf`: classes are non-empty, backreference indices positive,
//! a group holds its one body sequence, an alternation at least two
//! sequence branches.  The proof follows the grammar's recursion.

use vstd::prelude::*;

use crate::ast::{repeat_wf, rnode_wf, AnchorKind, RNode, Repeat};
use crate::class::spec_build_class;
use crate::engine::{
    spec_parse, spec_parse_group, spec_parse_items, spec_parse_normalized, spec_read_marker,
    with_repeat, cont_pos,
};
use crate::errors::PErr;
use crate::escape::{byte_range, digit_bytes, space_bytes, spec_translate, word_bytes, EscapeMode};
use crate::normalize::spec_normalize;
use crate::quantifier::{lemma_read_quantifier_wf, spec_read_quantifier};

verus! {

/// Attaching repetition bounds preserves the structural invariants.
pub proof fn lemma_with_repeat_wf(n: RNode, r: Option<Repeat>)
    requires
        rnode_wf(n),
        repeat_wf(r),
    ensures
        rnode_wf(with_repeat(n, r)),
{
}

/// What an escape translates to satisfies the structural invariants.
pub proof fn lemma_translate_wf(e: u8, mode: EscapeMode)
    ensures
        rnode_wf(spec_translate(e, mode)),
{
    assert(digit_bytes().len() == 10);
    assert(space_bytes().len() == 2);
    assert(byte_range(65, 90).len() == 26);
    assert(word_bytes().len() > 0);
}

/// What the class builder returns satisfies the structural invariants.
pub proof fn lemma_build_class_wf(s: Seq<u8>, i: int)
    ensures
        rnode_wf(spec_build_class(s, i).0),
{
}

/// All-well-formed lists of children and of branches.
pub open spec fn nodes_wf(ns: Seq<RNode>) -> bool {
    forall|k: int| 0 <= k < ns.len() ==> rnode_wf(#[trigger] ns[k])
}

/// All branches are well-formed sequences.
pub open spec fn branches_wf(ns: Seq<RNode>) -> bool {
    forall|k: int| 0 <= k < ns.len() ==> ((#[trigger] ns[k]) is Sequence && rnode_wf(ns[k]))
}

/// Pushing a well-formed node keeps a list all-well-formed.
pub proof fn lemma_nodes_wf_push(ns: Seq<RNode>, n: RNode)
    requires
        nodes_wf(ns),
        rnode_wf(n),
    ensures
        nodes_wf(ns.push(n)),
{
    assert forall|k: int| 0 <= k < ns.push(n).len() implies rnode_wf(#[trigger] ns.push(n)[k]) by {
        if k < ns.len() {
            assert(ns.push(n)[k] == ns[k]);
        } else {
            assert(ns.push(n)[k] == n);
        }
    }
}

/// Pushing a well-formed sequence keeps a branch list well-formed.
pub proof fn lemma_branches_wf_push(ns: Seq<RNode>, n: RNode)
    requires
        branches_wf(ns),
        n is Sequence,
        rnode_wf(n),
    ensures
        branches_wf(ns.push(n)),
{
    assert forall|k: int| 0 <= k < ns.push(n).len() implies ((#[trigger] ns.push(n)[k]) is Sequence
        && rnode_wf(ns.push(n)[k])) by {
        if k < ns.len() {
            assert(ns.push(n)[k] == ns[k]);
        } else {
            assert(ns.push(n)[k] == n);
        }
    }
}

/// The children a scope parse returns are all well-formed, given that the
/// children and branches collected so far are.
pub proof fn lemma_parse_items_wf(
    s: Seq<u8>,
    i: int,
    close: bool,
    start: bool,
    acc: Seq<RNode>,
    branches: Seq<RNode>,
)
    requires
        0 <= i <= s.len(),
        nodes_wf(acc),
        branches_wf(branches),
    ensures
        spec_parse_items(s, i, close, start, acc, branches) matches Ok((ch, j, e)) ==> nodes_wf(
            ch,
        ),
    decreases s.len() - i, 0int,
{
    let fin = RNode::Sequence(acc, None);
    assert(rnode_wf(fin));
    if !(0 <= i < s.len()) {
        if !close && branches.len() > 0 {
            lemma_branches_wf_push(branches, fin);
            let alt = RNode::Alternation(branches.push(fin), None);
            assert(rnode_wf(alt));
            lemma_nodes_wf_push(Seq::empty(), alt);
            assert(seq![alt] =~= Seq::<RNode>::empty().push(alt));
        }
    } else {
        let c = s[i];
        if start && c == 94 {
            lemma_nodes_wf_push(acc, RNode::Anchor(AnchorKind::Start));
            lemma_parse_items_wf(s, i + 1, close, false, acc.push(RNode::Anchor(AnchorKind::Start)), branches);
        } else if c == 41 && close {
            if branches.len() > 0 {
                lemma_read_quantifier_wf(s, i + 1);
                match spec_read_quantifier(s, i + 1) {
                    Err(_) => {},
                    Ok((rep, j)) => {
                        lemma_branches_wf_push(branches, fin);
                        let alt = RNode::Alternation(branches.push(fin), rep);
                        assert(rnode_wf(alt));
                        lemma_nodes_wf_push(Seq::empty(), alt);
                        assert(seq![alt] =~= Seq::<RNode>::empty().push(alt));
                    },
                }
            }
        } else if c == 124 {
            lemma_branches_wf_push(branches, fin);
            lemma_parse_items_wf(s, i + 1, close, true, Seq::empty(), branches.push(fin));
        } else if c == 36 {
            lemma_nodes_wf_push(acc, RNode::Anchor(AnchorKind::End));
            lemma_parse_items_wf(s, i + 1, close, false, acc.push(RNode::Anchor(AnchorKind::End)), branches);
        } else if c == 40 {
            lemma_parse_group_wf(s, i + 1);
            match spec_parse_group(s, i + 1) {
                Err(_) => {},
                Ok((g, j)) => {
                    lemma_nodes_wf_push(acc, g);
                    lemma_parse_items_wf(s, cont_pos(s, i + 1, j), close, false, acc.push(g), branches);
                },
            }
        } else if c == 91 {
            let (cls, j) = spec_build_class(s, i + 1);
            lemma_build_class_wf(s, i + 1);
            lemma_read_quantifier_wf(s, cont_pos(s, i + 1, j));
            match spec_read_quantifier(s, cont_pos(s, i + 1, j)) {
                Err(_) => {},
                Ok((rep, j2)) => {
                    lemma_with_repeat_wf(cls, rep);
                    lemma_nodes_wf_push(acc, with_repeat(cls, rep));
                    lemma_parse_items_wf(
                        s,
                        cont_pos(s, i + 1, j2),
                        close,
                        false,
                        acc.push(with_repeat(cls, rep)),
                        branches,
                    );
                },
            }
        } else if c == 92 {
            if i + 1 < s.len() {
                let t = spec_translate(s[i + 1], EscapeMode::BackrefEnabled);
                lemma_translate_wf(s[i + 1], EscapeMode::BackrefEnabled);
                if t is Backreference {
                    lemma_nodes_wf_push(acc, t);
                    lemma_parse_items_wf(s, i + 2, close, false, acc.push(t), branches);
                } else {
                    lemma_read_quantifier_wf(s, i + 2);
                    match spec_read_quantifier(s, i + 2) {
                        Err(_) => {},
                        Ok((rep, j2)) => {
                            lemma_with_repeat_wf(t, rep);
                            lemma_nodes_wf_push(acc, with_repeat(t, rep));
                            lemma_parse_items_wf(
                                s,
                                cont_pos(s, i + 2, j2),
                                close,
                                false,
                                acc.push(with_repeat(t, rep)),
                                branches,
                            );
                        },
                    }
                }
            } else {
                lemma_nodes_wf_push(acc, RNode::Literal(92, None));
                lemma_parse_items_wf(s, i + 1, close, false, acc.push(RNode::Literal(92, None)), branches);
            }
        } else if c == 46 {
            lemma_read_quantifier_wf(s, i + 1);
            match spec_read_quantifier(s, i + 1) {
                Err(_) => {},
                Ok((rep, j2)) => {
                    let dot = RNode::CharClass(seq![10u8], true, rep);
                    assert(rnode_wf(dot));
                    lemma_nodes_wf_push(acc, dot);
                    lemma_parse_items_wf(s, cont_pos(s, i + 1, j2), close, false, acc.push(dot), branches);
                },
            }
        } else {
            lemma_read_quantifier_wf(s, i + 1);
            match spec_read_quantifier(s, i + 1) {
                Err(_) => {},
                Ok((rep, j2)) => {
                    lemma_nodes_wf_push(acc, RNode::Literal(c, rep));
                    lemma_parse_items_wf(
                        s,
                        cont_pos(s, i + 1, j2),
                        close,
                        false,
                        acc.push(RNode::Literal(c, rep)),
                        branches,
                    );
                },
            }
        }
    }
}

/// The group node a group parse returns is well-formed.
pub proof fn lemma_parse_group_wf(s: Seq<u8>, i: int)
    requires
        0 <= i <= s.len(),
    ensures
        spec_parse_group(s, i) matches Ok((g, j)) ==> rnode_wf(g) && g is Group,
    decreases s.len() - i, 1int,
{
    let (m, i2) = spec_read_marker(s, i);
    lemma_parse_items_wf(s, i2, true, true, Seq::empty(), Seq::empty());
    match spec_parse_items(s, i2, true, true, Seq::empty(), Seq::empty()) {
        Err(_) => {},
        Ok((ch, j, _)) => {
            let body = RNode::Sequence(ch, None);
            assert(rnode_wf(body));
            lemma_read_quantifier_wf(s, cont_pos(s, i2, j));
            match spec_read_quantifier(s, cont_pos(s, i2, j)) {
                Err(_) => {},
                Ok((rep, j2)) => {
                    let g = RNode::Group(seq![body], m, rep);
                    assert(seq![body][0] == body);
                    assert(rnode_wf(g));
                },
            }
        },
    }
}

/// Every tree a parse returns is a root sequence that satisfies the
/// structural invariants: non-empty classes, positive backreference
/// indices, one body sequence per group, at least two sequence branches
/// per alternation.
pub proof fn lemma_parse_wf(raw: Seq<u8>)
    ensures
        spec_parse(raw) matches Ok(root) ==> root is Sequence && rnode_wf(root),
{
    let s = spec_normalize(raw);
    lemma_parse_items_wf(s, 0, false, true, Seq::empty(), Seq::empty());
    match spec_parse_items(s, 0, false, true, Seq::empty(), Seq::empty()) {
        Err(_) => {},
        Ok((ch, _, _)) => {
            assert(rnode_wf(RNode::Sequence(ch, None)));
        },
    }
}

} // verus!
