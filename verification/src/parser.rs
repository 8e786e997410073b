//! The executable parser: a single pass with an explicit work stack.
//!
//! Rather than recursing on the call stack — where adversarially deep
//! nesting would exhaust it — the parser keeps one frame per open scope on
//! a heap-allocated stack.  A frame holds the children collected so far,
//! the alternation branches already closed, the group marker, and whether
//! the scope still stands at its start.  Opening a group pushes a frame;
//! its `)` folds the frame into a group node appended to the frame below.
//! The loop is proven equal, step by step, to the recursive grammar of
//! `spec_parse_items`: the bridge is `interp`, which says what the whole
//! parse returns given the current stack and position, and which the loop
//! keeps constant.

use vstd::prelude::*;

use crate::ast::{
    lemma_nodes_view_empty, lemma_nodes_view_push, lemma_nodes_view_singleton, nodes_view,
    AnchorKind, Marker, Node, RNode, Repeat,
};
use crate::class::{build_class, lemma_build_class_bounds};
use crate::engine::{
    cont_pos, lemma_group_unfold, lemma_items_anchor_end, lemma_items_anchor_start,
    lemma_items_bar, lemma_items_class, lemma_items_close_alt, lemma_items_close_plain,
    lemma_items_dot, lemma_items_eoi, lemma_items_escape, lemma_items_escape_eoi,
    lemma_items_group, lemma_items_literal, lemma_parse_items_bounds, spec_parse,
    spec_parse_group, spec_parse_items, spec_parse_normalized, spec_read_marker, with_repeat,
    ScopeEnd,
};
use crate::errors::{ErrorKind, PErr, ParseError};
use crate::escape::{translate_escape, EscapeMode};
use crate::normalize::normalize;
use crate::quantifier::{
    lemma_read_quantifier_bounds, read_quantifier, spec_read_quantifier,
};
use crate::tools::{
    BACKSLASH, BANG, CARET, COLON, DOLLAR, DOT, EQUALS, GREATER, LBRACKET, LPAREN, PIPE, QUESTION,
    RPAREN,
};

verus! {

/// One open scope: the whole pattern at the bottom of the stack, a group
/// body above it.
pub struct Frame {
    /// Does a `)` end this scope?  True for every frame but the bottom one.
    pub is_group: bool,
    /// The marker the group was opened with; unused on the bottom frame.
    pub marker: Marker,
    /// The children collected in the current branch of this scope.
    pub children: Vec<Node>,
    /// The alternation branches already closed in this scope; empty while
    /// no `|` has been seen.
    pub branches: Vec<Node>,
    /// Does the scope still stand at its start, where `^` is an anchor?
    pub at_start: bool,
}

/// The specification-level image of a frame.
pub struct FrameV {
    pub is_group: bool,
    pub marker: Marker,
    pub children: Seq<RNode>,
    pub branches: Seq<RNode>,
    pub at_start: bool,
}

impl View for Frame {
    type V = FrameV;

    open spec fn view(&self) -> FrameV {
        FrameV {
            is_group: self.is_group,
            marker: self.marker,
            children: nodes_view(self.children@),
            branches: nodes_view(self.branches@),
            at_start: self.at_start,
        }
    }
}

/// The stack of frames, frame by frame.
pub open spec fn frames_view(fs: Seq<Frame>) -> Seq<FrameV> {
    Seq::new(fs.len(), |k: int| fs[k]@)
}

/// A well-formed stack: the bottom frame is the pattern's own scope, every
/// frame above it an open group.
pub open spec fn frames_wf(fs: Seq<FrameV>) -> bool {
    &&& fs.len() >= 1
    &&& !fs[0].is_group
    &&& forall|k: int| 1 <= k < fs.len() ==> (#[trigger] fs[k]).is_group
}

/// What the whole parse returns, given the current stack and position:
/// finish the topmost scope from position `i` on, fold it as a group into
/// the frame below, and so on down to the bottom frame, whose children
/// form the root sequence.  The machine keeps this value constant.
pub open spec fn interp(s: Seq<u8>, frames: Seq<FrameV>, i: int) -> Result<RNode, PErr>
    decreases frames.len(),
{
    if frames.len() == 0 {
        Err(PErr { kind: ErrorKind::UnterminatedGroup, pos: 0 })
    } else {
        let f = frames.last();
        match spec_parse_items(s, i, f.is_group, f.at_start, f.children, f.branches) {
            Err(e) => Err(e),
            Ok((ch, j, end)) => {
                if frames.len() == 1 {
                    Ok(RNode::Sequence(ch, None))
                } else {
                    match spec_read_quantifier(s, j) {
                        Err(e) => Err(e),
                        Ok((rep, j2)) => {
                            let g = RNode::Group(seq![RNode::Sequence(ch, None)], f.marker, rep);
                            let pi = frames.len() - 2;
                            let p = frames[pi];
                            let p2 = FrameV {
                                is_group: p.is_group,
                                marker: p.marker,
                                children: p.children.push(g),
                                branches: p.branches,
                                at_start: false,
                            };
                            interp(s, frames.drop_last().update(pi, p2), j2)
                        },
                    }
                }
            },
        }
    }
}

/// Replacing the topmost frame and position by ones on which the scope
/// parse agrees leaves the value of the whole parse unchanged.
pub proof fn lemma_interp_step(s: Seq<u8>, fv0: Seq<FrameV>, fv1: Seq<FrameV>, i0: int, i1: int)
    requires
        fv0.len() == fv1.len(),
        fv0.len() >= 1,
        fv0.drop_last() == fv1.drop_last(),
        fv1.last().is_group == fv0.last().is_group,
        fv1.last().marker == fv0.last().marker,
        spec_parse_items(
            s,
            i0,
            fv0.last().is_group,
            fv0.last().at_start,
            fv0.last().children,
            fv0.last().branches,
        ) == spec_parse_items(
            s,
            i1,
            fv1.last().is_group,
            fv1.last().at_start,
            fv1.last().children,
            fv1.last().branches,
        ),
    ensures
        interp(s, fv0, i0) == interp(s, fv1, i1),
{
    let f0 = fv0.last();
    let f1 = fv1.last();
    match spec_parse_items(s, i0, f0.is_group, f0.at_start, f0.children, f0.branches) {
        Err(e) => {},
        Ok((ch, j, end)) => {
            if fv0.len() == 1 {
            } else {
                match spec_read_quantifier(s, j) {
                    Err(e) => {},
                    Ok((rep, j2)) => {
                        let pi = fv0.len() - 2;
                        assert(fv0[pi] == fv0.drop_last()[pi]);
                        assert(fv1[pi] == fv1.drop_last()[pi]);
                        assert(fv0[pi] == fv1[pi]);
                        let g = RNode::Group(seq![RNode::Sequence(ch, None)], f0.marker, rep);
                        let p = fv0[pi];
                        let p2 = FrameV {
                            is_group: p.is_group,
                            marker: p.marker,
                            children: p.children.push(g),
                            branches: p.branches,
                            at_start: false,
                        };
                        assert(fv0.drop_last().update(pi, p2) == fv1.drop_last().update(pi, p2));
                    },
                }
            }
        },
    }
}

/// A well-formed stack stays well-formed when its topmost frame changes
/// without changing kind.
pub proof fn lemma_wf_update_last(fv0: Seq<FrameV>, fv1: Seq<FrameV>)
    requires
        frames_wf(fv0),
        fv1.len() == fv0.len(),
        fv1.drop_last() == fv0.drop_last(),
        fv1.last().is_group == fv0.last().is_group,
    ensures
        frames_wf(fv1),
{
    assert forall|k: int| 1 <= k < fv1.len() implies (#[trigger] fv1[k]).is_group by {
        if k < fv1.len() - 1 {
            assert(fv1[k] == fv1.drop_last()[k]);
            assert(fv0[k] == fv0.drop_last()[k]);
        } else {
            assert(fv1[k] == fv1.last());
            assert(fv0[k] == fv0.last());
        }
    }
    assert(!fv1[0].is_group) by {
        if fv1.len() == 1 {
            assert(fv1[0] == fv1.last());
            assert(fv0[0] == fv0.last());
        } else {
            assert(fv1[0] == fv1.drop_last()[0]);
            assert(fv0[0] == fv0.drop_last()[0]);
        }
    }
}

/// A well-formed stack stays well-formed when a group frame is pushed.
pub proof fn lemma_wf_push(fv0: Seq<FrameV>, g: FrameV)
    requires
        frames_wf(fv0),
        g.is_group,
    ensures
        frames_wf(fv0.push(g)),
{
    let fv1 = fv0.push(g);
    assert(fv1[0] == fv0[0]);
    assert forall|k: int| 1 <= k < fv1.len() implies (#[trigger] fv1[k]).is_group by {
        if k < fv0.len() {
            assert(fv1[k] == fv0[k]);
        } else {
            assert(fv1[k] == g);
        }
    }
}

/// A well-formed stack of at least two frames stays well-formed when its
/// top frame is folded away and the one below it changes kind-preservingly.
pub proof fn lemma_wf_fold(fv0: Seq<FrameV>, p2: FrameV)
    requires
        frames_wf(fv0),
        fv0.len() >= 2,
        p2.is_group == fv0[fv0.len() - 2].is_group,
    ensures
        frames_wf(fv0.drop_last().update(fv0.len() - 2, p2)),
{
    let fv1 = fv0.drop_last().update(fv0.len() - 2, p2);
    assert(fv1.len() == fv0.len() - 1);
    if fv0.len() == 2 {
        assert(fv1[0] == p2);
        assert(!fv0[0].is_group);
    } else {
        assert(fv1[0] == fv0[0]);
    }
    assert forall|k: int| 1 <= k < fv1.len() implies (#[trigger] fv1[k]).is_group by {
        if k == fv1.len() - 1 {
            assert(fv1[k] == p2);
            assert(fv0[k].is_group);
        } else {
            assert(fv1[k] == fv0[k]);
        }
    }
}

/// The same node with its repetition bounds replaced, where it is an atom.
fn set_repeat(n: Node, r: Option<Repeat>) -> (out: Node)
    ensures
        out@ == with_repeat(n@, r),
{
    match n {
        Node::Literal(b, _) => Node::Literal(b, r),
        Node::CharClass(m, neg, _) => Node::CharClass(m, neg, r),
        Node::Sequence(ch, _) => Node::Sequence(ch, r),
        Node::Group(ch, m, _) => Node::Group(ch, m, r),
        Node::Alternation(br, _) => Node::Alternation(br, r),
        other => other,
    }
}

/// Read the group marker standing at `i`, the position just after a `(`.
pub fn read_marker(s: &[u8], i: usize) -> (r: (Marker, usize))
    requires
        i <= s@.len(),
    ensures
        r.0 == spec_read_marker(s@, i as int).0,
        r.1 as int == spec_read_marker(s@, i as int).1,
        i <= r.1 <= s@.len(),
{
    if i < s.len() && i + 1 < s.len() && s[i] == QUESTION {
        let m = s[i + 1];
        if m == COLON {
            (Marker::NonCapturing, i + 2)
        } else if m == EQUALS {
            (Marker::LookaheadPositive, i + 2)
        } else if m == BANG {
            (Marker::LookaheadNegative, i + 2)
        } else if m == GREATER {
            (Marker::LookbehindOrOther, i + 2)
        } else {
            (Marker::Capturing, i)
        }
    } else {
        (Marker::Capturing, i)
    }
}

/// The view of what the executable parser returns.
pub open spec fn parse_result_view(r: Result<Node, ParseError>) -> Result<RNode, PErr> {
    match r {
        Ok(n) => Ok(n@),
        Err(e) => Err(e@),
    }
}

/// What every dispatch step guarantees: the position advances but stays in
/// bounds, the stack stays well-formed, and the value of the whole parse is
/// unchanged; or the parse's error is returned.
pub open spec fn step_ok(
    s: Seq<u8>,
    fv0: Seq<FrameV>,
    i: int,
    fv1: Seq<FrameV>,
    r: Result<usize, ParseError>,
) -> bool {
    match r {
        Ok(j) => i < j <= s.len() && frames_wf(fv1) && interp(s, fv1, j as int) == interp(
            s,
            fv0,
            i,
        ),
        Err(e) => interp(s, fv0, i) == Err::<RNode, PErr>(e@),
    }
}

/// At scope start, `^`: push a start anchor.
fn step_anchor_start(stack: &mut Vec<Frame>, s: &[u8], i: usize) -> (r: Result<usize, ParseError>)
    requires
        i < s@.len(),
        frames_wf(frames_view(old(stack)@)),
        frames_view(old(stack)@).last().at_start,
        s@[i as int] == 94,
    ensures
        step_ok(s@, frames_view(old(stack)@), i as int, frames_view(final(stack)@), r),
{
    proof {
        assert(s@.len() == s.len());
    }
    let ghost fv0 = frames_view(stack@);
    let ghost i0 = i as int;
    let fr_opt = stack.pop();
    let mut fr = fr_opt.unwrap();
    proof {
        assert(fv0.last() == fr@);
        assert(frames_view(stack@) =~= fv0.drop_last());
    }
    let ghost f: FrameV = fr@;
    let ghost oldch = fr.children@;
    fr.children.push(Node::Anchor(AnchorKind::Start));
    fr.at_start = false;
    stack.push(fr);
    proof {
        lemma_items_anchor_start(s@, i0, f.is_group, f.children, f.branches);
        lemma_nodes_view_push(oldch, Node::Anchor(AnchorKind::Start));
        let fv1 = frames_view(stack@);
        assert(fv1 =~= fv0.drop_last().push(fv1.last()));
        assert(fv1.drop_last() =~= fv0.drop_last());
        lemma_interp_step(s@, fv0, fv1, i0, i0 + 1);
        lemma_wf_update_last(fv0, fv1);
    }
    Ok(i + 1)
}

/// A `)` with a group open: close the scope, fold the group into the frame
/// below, and read the group's quantifier.
fn step_close_group(stack: &mut Vec<Frame>, s: &[u8], i: usize) -> (r: Result<usize, ParseError>)
    requires
        i < s@.len(),
        frames_wf(frames_view(old(stack)@)),
        frames_view(old(stack)@).last().is_group,
        s@[i as int] == 41,
    ensures
        step_ok(s@, frames_view(old(stack)@), i as int, frames_view(final(stack)@), r),
{
    proof {
        assert(s@.len() == s.len());
    }
    let ghost fv0 = frames_view(stack@);
    let ghost i0 = i as int;
    let fr_opt = stack.pop();
    let fr = fr_opt.unwrap();
    proof {
        assert(fv0.last() == fr@);
        assert(frames_view(stack@) =~= fv0.drop_last());
        assert(fv0.len() >= 2);
    }
    let ghost f: FrameV = fr@;
    let ghost acc = f.children;
    let ghost br = f.branches;
    let Frame { is_group: _, marker, children, branches, at_start: _ } = fr;
    let mut branches = branches;
    let mut j = i + 1;
    let scope_children: Vec<Node>;
    if branches.len() > 0 {
        proof {
            lemma_items_close_alt(s@, i0, f.at_start, acc, br);
            lemma_read_quantifier_bounds(s@, i0 + 1);
        }
        let ghost oldbr = branches@;
        branches.push(Node::Sequence(children, None));
        proof {
            lemma_nodes_view_push(oldbr, Node::Sequence(children, None));
        }
        let q = read_quantifier(s, j);
        match q {
            Err(e) => {
                proof {
                    assert(interp(s@, fv0, i0) == Err::<RNode, PErr>(e@));
                }
                return Err(e);
            },
            Ok((rep, ja)) => {
                let alt = Node::Alternation(branches, rep);
                let mut sc: Vec<Node> = Vec::new();
                sc.push(alt);
                proof {
                    assert(sc@ =~= seq![alt]);
                    lemma_nodes_view_singleton(alt);
                    assert(cont_pos(s@, i0 + 1, ja as int) == ja as int);
                }
                scope_children = sc;
                j = ja;
            },
        }
    } else {
        proof {
            lemma_items_close_plain(s@, i0, f.at_start, acc, br);
        }
        scope_children = children;
    }
    // the scope parse for this frame returned Ok((ch, j, Close))
    let ghost ch = nodes_view(scope_children@);
    proof {
        assert(spec_parse_items(s@, i0, true, f.at_start, acc, br) == Ok::<_, PErr>(
            (ch, j as int, ScopeEnd::Close),
        ));
        lemma_read_quantifier_bounds(s@, j as int);
    }
    let q2 = read_quantifier(s, j);
    match q2 {
        Err(e) => {
            proof {
                assert(interp(s@, fv0, i0) == Err::<RNode, PErr>(e@));
            }
            Err(e)
        },
        Ok((grep, jq)) => {
            let body = Node::Sequence(scope_children, None);
            let mut gch: Vec<Node> = Vec::new();
            gch.push(body);
            let g = Node::Group(gch, marker, grep);
            proof {
                assert(gch@ =~= seq![body]);
                lemma_nodes_view_singleton(body);
                assert(g@ == RNode::Group(seq![RNode::Sequence(ch, None)], f.marker, grep));
            }
            let p_opt = stack.pop();
            let mut p = p_opt.unwrap();
            let ghost pv = p@;
            let ghost oldpch = p.children@;
            p.children.push(g);
            p.at_start = false;
            stack.push(p);
            proof {
                lemma_nodes_view_push(oldpch, g);
                let pi = fv0.len() - 2;
                assert(fv0.drop_last()[pi] == pv);
                assert(fv0[pi] == pv);
                let p2 = FrameV {
                    is_group: pv.is_group,
                    marker: pv.marker,
                    children: pv.children.push(g@),
                    branches: pv.branches,
                    at_start: false,
                };
                assert(frames_view(stack@) =~= fv0.drop_last().update(pi, p2));
                assert(interp(s@, fv0, i0) == interp(s@, frames_view(stack@), jq as int));
                lemma_wf_fold(fv0, p2);
            }
            Ok(jq)
        },
    }
}

/// A `|`: close the current branch and start the next one.
fn step_bar(stack: &mut Vec<Frame>, s: &[u8], i: usize) -> (r: Result<usize, ParseError>)
    requires
        i < s@.len(),
        frames_wf(frames_view(old(stack)@)),
        s@[i as int] == 124,
    ensures
        step_ok(s@, frames_view(old(stack)@), i as int, frames_view(final(stack)@), r),
{
    proof {
        assert(s@.len() == s.len());
    }
    let ghost fv0 = frames_view(stack@);
    let ghost i0 = i as int;
    let fr_opt = stack.pop();
    let fr = fr_opt.unwrap();
    proof {
        assert(fv0.last() == fr@);
        assert(frames_view(stack@) =~= fv0.drop_last());
    }
    let ghost f: FrameV = fr@;
    let Frame { is_group, marker, children, branches, at_start: _ } = fr;
    let mut branches = branches;
    let ghost oldbr = branches@;
    branches.push(Node::Sequence(children, None));
    stack.push(Frame { is_group, marker, children: Vec::new(), branches, at_start: true });
    proof {
        lemma_items_bar(s@, i0, f.is_group, f.at_start, f.children, f.branches);
        lemma_nodes_view_push(oldbr, Node::Sequence(children, None));
        lemma_nodes_view_empty();
        let fv1 = frames_view(stack@);
        assert(fv1 =~= fv0.drop_last().push(fv1.last()));
        assert(fv1.drop_last() =~= fv0.drop_last());
        assert(fv1.last().branches == f.branches.push(RNode::Sequence(f.children, None)));
        lemma_interp_step(s@, fv0, fv1, i0, i0 + 1);
        lemma_wf_update_last(fv0, fv1);
    }
    Ok(i + 1)
}

/// A `$`: push an end anchor.
fn step_anchor_end(stack: &mut Vec<Frame>, s: &[u8], i: usize) -> (r: Result<usize, ParseError>)
    requires
        i < s@.len(),
        frames_wf(frames_view(old(stack)@)),
        s@[i as int] == 36,
    ensures
        step_ok(s@, frames_view(old(stack)@), i as int, frames_view(final(stack)@), r),
{
    proof {
        assert(s@.len() == s.len());
    }
    let ghost fv0 = frames_view(stack@);
    let ghost i0 = i as int;
    let fr_opt = stack.pop();
    let mut fr = fr_opt.unwrap();
    proof {
        assert(fv0.last() == fr@);
        assert(frames_view(stack@) =~= fv0.drop_last());
    }
    let ghost f: FrameV = fr@;
    let ghost oldch = fr.children@;
    fr.children.push(Node::Anchor(AnchorKind::End));
    fr.at_start = false;
    stack.push(fr);
    proof {
        lemma_items_anchor_end(s@, i0, f.is_group, f.at_start, f.children, f.branches);
        lemma_nodes_view_push(oldch, Node::Anchor(AnchorKind::End));
        let fv1 = frames_view(stack@);
        assert(fv1 =~= fv0.drop_last().push(fv1.last()));
        assert(fv1.drop_last() =~= fv0.drop_last());
        lemma_interp_step(s@, fv0, fv1, i0, i0 + 1);
        lemma_wf_update_last(fv0, fv1);
    }
    Ok(i + 1)
}

/// A `(`: read the marker and open a new group scope.
fn step_open_group(stack: &mut Vec<Frame>, s: &[u8], i: usize) -> (r: Result<usize, ParseError>)
    requires
        i < s@.len(),
        frames_wf(frames_view(old(stack)@)),
        s@[i as int] == 40,
    ensures
        step_ok(s@, frames_view(old(stack)@), i as int, frames_view(final(stack)@), r),
{
    proof {
        assert(s@.len() == s.len());
    }
    let ghost fv0 = frames_view(stack@);
    let ghost i0 = i as int;
    let ghost f: FrameV = frames_view(stack@).last();
    let (marker, i2) = read_marker(s, i + 1);
    stack.push(
        Frame {
            is_group: true,
            marker,
            children: Vec::new(),
            branches: Vec::new(),
            at_start: true,
        },
    );
    proof {
        lemma_items_group(s@, i0, f.is_group, f.at_start, f.children, f.branches);
        lemma_group_unfold(s@, i0 + 1);
        lemma_nodes_view_empty();
        let e = Seq::<RNode>::empty();
        lemma_parse_items_bounds(s@, i2 as int, true, true, e, e);
        let fv1 = frames_view(stack@);
        assert(fv1 =~= fv0.push(fv1.last()));
        assert(fv1.drop_last() =~= fv0);
        assert(fv1.last() == FrameV {
            is_group: true,
            marker,
            children: e,
            branches: e,
            at_start: true,
        });
        lemma_wf_push(fv0, fv1.last());
        match spec_parse_items(s@, i2 as int, true, true, e, e) {
            Err(ee) => {
                assert(interp(s@, fv1, i2 as int) == Err::<RNode, PErr>(ee));
                assert(interp(s@, fv0, i0) == Err::<RNode, PErr>(ee));
            },
            Ok((ch, jg, _)) => {
                lemma_read_quantifier_bounds(s@, jg);
                assert(cont_pos(s@, i2 as int, jg) == jg);
                match spec_read_quantifier(s@, jg) {
                    Err(ee) => {
                        assert(interp(s@, fv1, i2 as int) == Err::<RNode, PErr>(ee));
                        assert(interp(s@, fv0, i0) == Err::<RNode, PErr>(ee));
                    },
                    Ok((rep, jq)) => {
                        assert(cont_pos(s@, i2 as int, jq) == jq);
                        let g = RNode::Group(seq![RNode::Sequence(ch, None)], marker, rep);
                        assert(spec_parse_group(s@, i0 + 1) == Ok::<_, PErr>((g, jq)));
                        assert(cont_pos(s@, i0 + 1, jq) == jq);
                        assert(spec_parse_items(
                            s@,
                            i0,
                            f.is_group,
                            f.at_start,
                            f.children,
                            f.branches,
                        ) == spec_parse_items(
                            s@,
                            jq,
                            f.is_group,
                            false,
                            f.children.push(g),
                            f.branches,
                        ));
                        let p2 = FrameV {
                            is_group: f.is_group,
                            marker: f.marker,
                            children: f.children.push(g),
                            branches: f.branches,
                            at_start: false,
                        };
                        let fvm = fv0.drop_last().push(p2);
                        assert(fvm.drop_last() =~= fv0.drop_last());
                        lemma_interp_step(s@, fv0, fvm, i0, jq);
                        assert(fv1[fv1.len() - 2] == fv0.last());
                        assert(fv1.drop_last().update(fv1.len() - 2, p2) =~= fvm);
                        assert(interp(s@, fv1, i2 as int) == interp(s@, fvm, jq));
                    },
                }
            },
        }
        assert(interp(s@, fv1, i2 as int) == interp(s@, fv0, i0));
    }
    Ok(i2)
}

/// A `[`: build the character class and read its quantifier.
fn step_class(stack: &mut Vec<Frame>, s: &[u8], i: usize) -> (r: Result<usize, ParseError>)
    requires
        i < s@.len(),
        frames_wf(frames_view(old(stack)@)),
        s@[i as int] == 91,
    ensures
        step_ok(s@, frames_view(old(stack)@), i as int, frames_view(final(stack)@), r),
{
    proof {
        assert(s@.len() == s.len());
    }
    let ghost fv0 = frames_view(stack@);
    let ghost i0 = i as int;
    let fr_opt = stack.pop();
    let mut fr = fr_opt.unwrap();
    proof {
        assert(fv0.last() == fr@);
        assert(frames_view(stack@) =~= fv0.drop_last());
    }
    let ghost f: FrameV = fr@;
    proof {
        lemma_items_class(s@, i0, f.is_group, f.at_start, f.children, f.branches);
        lemma_build_class_bounds(s@, i0 + 1);
    }
    let (cls, jc) = build_class(s, i + 1);
    proof {
        assert(cont_pos(s@, i0 + 1, jc as int) == jc as int);
        lemma_read_quantifier_bounds(s@, jc as int);
    }
    let q = read_quantifier(s, jc);
    match q {
        Err(e) => {
            proof {
                assert(interp(s@, fv0, i0) == Err::<RNode, PErr>(e@));
            }
            Err(e)
        },
        Ok((rep, jq)) => {
            let node = set_repeat(cls, rep);
            let ghost oldch = fr.children@;
            fr.children.push(node);
            fr.at_start = false;
            stack.push(fr);
            proof {
                assert(cont_pos(s@, i0 + 1, jq as int) == jq as int);
                lemma_nodes_view_push(oldch, node);
                let fv1 = frames_view(stack@);
                assert(fv1 =~= fv0.drop_last().push(fv1.last()));
                assert(fv1.drop_last() =~= fv0.drop_last());
                lemma_interp_step(s@, fv0, fv1, i0, jq as int);
                lemma_wf_update_last(fv0, fv1);
            }
            Ok(jq)
        },
    }
}

/// A `\`: translate the escape; a backreference takes no quantifier, every
/// other escape does.  A backslash that ends the input is a literal one.
fn step_escape(stack: &mut Vec<Frame>, s: &[u8], i: usize) -> (r: Result<usize, ParseError>)
    requires
        i < s@.len(),
        frames_wf(frames_view(old(stack)@)),
        s@[i as int] == 92,
    ensures
        step_ok(s@, frames_view(old(stack)@), i as int, frames_view(final(stack)@), r),
{
    proof {
        assert(s@.len() == s.len());
    }
    let ghost fv0 = frames_view(stack@);
    let ghost i0 = i as int;
    let fr_opt = stack.pop();
    let mut fr = fr_opt.unwrap();
    proof {
        assert(fv0.last() == fr@);
        assert(frames_view(stack@) =~= fv0.drop_last());
    }
    let ghost f: FrameV = fr@;
    if i + 1 < s.len() {
        proof {
            lemma_items_escape(s@, i0, f.is_group, f.at_start, f.children, f.branches);
        }
        let node = translate_escape(s[i + 1], EscapeMode::BackrefEnabled);
        let is_backref = match &node {
            Node::Backreference(_) => true,
            _ => false,
        };
        if is_backref {
            let ghost oldch = fr.children@;
            fr.children.push(node);
            fr.at_start = false;
            stack.push(fr);
            proof {
                lemma_nodes_view_push(oldch, node);
                let fv1 = frames_view(stack@);
                assert(fv1 =~= fv0.drop_last().push(fv1.last()));
                assert(fv1.drop_last() =~= fv0.drop_last());
                lemma_interp_step(s@, fv0, fv1, i0, i0 + 2);
                lemma_wf_update_last(fv0, fv1);
            }
            Ok(i + 2)
        } else {
            proof {
                lemma_read_quantifier_bounds(s@, i0 + 2);
            }
            let q = read_quantifier(s, i + 2);
            match q {
                Err(e) => {
                    proof {
                        assert(interp(s@, fv0, i0) == Err::<RNode, PErr>(e@));
                    }
                    Err(e)
                },
                Ok((rep, jq)) => {
                    let node2 = set_repeat(node, rep);
                    let ghost oldch = fr.children@;
                    fr.children.push(node2);
                    fr.at_start = false;
                    stack.push(fr);
                    proof {
                        assert(cont_pos(s@, i0 + 2, jq as int) == jq as int);
                        lemma_nodes_view_push(oldch, node2);
                        let fv1 = frames_view(stack@);
                        assert(fv1 =~= fv0.drop_last().push(fv1.last()));
                        assert(fv1.drop_last() =~= fv0.drop_last());
                        lemma_interp_step(s@, fv0, fv1, i0, jq as int);
                        lemma_wf_update_last(fv0, fv1);
                    }
                    Ok(jq)
                },
            }
        }
    } else {
        let ghost oldch = fr.children@;
        fr.children.push(Node::Literal(BACKSLASH, None));
        fr.at_start = false;
        stack.push(fr);
        proof {
            lemma_items_escape_eoi(s@, i0, f.is_group, f.at_start, f.children, f.branches);
            lemma_nodes_view_push(oldch, Node::Literal(BACKSLASH, None));
            let fv1 = frames_view(stack@);
            assert(fv1 =~= fv0.drop_last().push(fv1.last()));
            assert(fv1.drop_last() =~= fv0.drop_last());
            lemma_interp_step(s@, fv0, fv1, i0, i0 + 1);
            lemma_wf_update_last(fv0, fv1);
        }
        Ok(i + 1)
    }
}

/// A `.`, a `)` with no open group, and every other byte: an atom with its
/// quantifier.
fn step_other(stack: &mut Vec<Frame>, s: &[u8], i: usize) -> (r: Result<usize, ParseError>)
    requires
        i < s@.len(),
        frames_wf(frames_view(old(stack)@)),
        !(frames_view(old(stack)@).last().at_start && s@[i as int] == 94),
        !(s@[i as int] == 41 && frames_view(old(stack)@).last().is_group),
        s@[i as int] != 124,
        s@[i as int] != 36,
        s@[i as int] != 40,
        s@[i as int] != 91,
        s@[i as int] != 92,
    ensures
        step_ok(s@, frames_view(old(stack)@), i as int, frames_view(final(stack)@), r),
{
    proof {
        assert(s@.len() == s.len());
    }
    let ghost fv0 = frames_view(stack@);
    let ghost i0 = i as int;
    let fr_opt = stack.pop();
    let mut fr = fr_opt.unwrap();
    proof {
        assert(fv0.last() == fr@);
        assert(frames_view(stack@) =~= fv0.drop_last());
    }
    let ghost f: FrameV = fr@;
    let c = s[i];
    proof {
        if c == 46 {
            lemma_items_dot(s@, i0, f.is_group, f.at_start, f.children, f.branches);
        } else {
            lemma_items_literal(s@, i0, f.is_group, f.at_start, f.children, f.branches);
        }
        lemma_read_quantifier_bounds(s@, i0 + 1);
    }
    let q = read_quantifier(s, i + 1);
    match q {
        Err(e) => {
            proof {
                assert(interp(s@, fv0, i0) == Err::<RNode, PErr>(e@));
            }
            Err(e)
        },
        Ok((rep, jq)) => {
            let node = if c == DOT {
                let mut m: Vec<u8> = Vec::new();
                m.push(10);
                proof {
                    assert(m@ =~= seq![10u8]);
                }
                Node::CharClass(m, true, rep)
            } else {
                Node::Literal(c, rep)
            };
            let ghost oldch = fr.children@;
            fr.children.push(node);
            fr.at_start = false;
            stack.push(fr);
            proof {
                assert(cont_pos(s@, i0 + 1, jq as int) == jq as int);
                lemma_nodes_view_push(oldch, node);
                let fv1 = frames_view(stack@);
                assert(fv1 =~= fv0.drop_last().push(fv1.last()));
                assert(fv1.drop_last() =~= fv0.drop_last());
                lemma_interp_step(s@, fv0, fv1, i0, jq as int);
                lemma_wf_update_last(fv0, fv1);
            }
            Ok(jq)
        },
    }
}

/// Parse an already-normalized pattern.
fn parse_normalized(s: &[u8]) -> (r: Result<Node, ParseError>)
    ensures
        parse_result_view(r) == spec_parse_normalized(s@),
{
    let mut stack: Vec<Frame> = Vec::new();
    stack.push(
        Frame {
            is_group: false,
            marker: Marker::Capturing,
            children: Vec::new(),
            branches: Vec::new(),
            at_start: true,
        },
    );
    let mut i: usize = 0;
    proof {
        lemma_nodes_view_empty();
        assert(frames_view(stack@) =~= seq![stack@[0]@]);
    }
    while i < s.len()
        invariant
            i <= s@.len(),
            frames_wf(frames_view(stack@)),
            interp(s@, frames_view(stack@), i as int) == spec_parse_normalized(s@),
        decreases s@.len() - i,
    {
        let top = stack.len() - 1;
        let top_at_start = stack[top].at_start;
        let top_is_group = stack[top].is_group;
        proof {
            assert(frames_view(stack@).last() == stack@[top as int]@);
        }
        let c = s[i];
        let step = if top_at_start && c == CARET {
            step_anchor_start(&mut stack, s, i)
        } else if c == RPAREN && top_is_group {
            step_close_group(&mut stack, s, i)
        } else if c == PIPE {
            step_bar(&mut stack, s, i)
        } else if c == DOLLAR {
            step_anchor_end(&mut stack, s, i)
        } else if c == LPAREN {
            step_open_group(&mut stack, s, i)
        } else if c == LBRACKET {
            step_class(&mut stack, s, i)
        } else if c == BACKSLASH {
            step_escape(&mut stack, s, i)
        } else {
            step_other(&mut stack, s, i)
        };
        match step {
            Ok(j) => {
                i = j;
            },
            Err(e) => {
                return Err(e);
            },
        }
    }
    // end of input
    let ghost fv = frames_view(stack@);
    proof {
        lemma_items_eoi(s@, fv.last().is_group, fv.last().at_start, fv.last().children, fv.last().branches);
    }
    if stack.len() > 1 {
        proof {
            assert(fv.last().is_group);
            assert(interp(s@, fv, i as int) == Err::<RNode, PErr>(
                PErr { kind: ErrorKind::UnterminatedGroup, pos: s@.len() as int },
            ));
        }
        return Err(ParseError { kind: ErrorKind::UnterminatedGroup, pos: s.len() });
    }
    let fr_opt = stack.pop();
    let fr = fr_opt.unwrap();
    proof {
        assert(fv.last() == fr@);
        assert(!fr@.is_group);
    }
    let Frame { is_group: _, marker: _, children, branches, at_start: _ } = fr;
    let ghost f = fv.last();
    if branches.len() > 0 {
        let mut branches = branches;
        let ghost oldbr = branches@;
        branches.push(Node::Sequence(children, None));
        let alt = Node::Alternation(branches, None);
        let mut root_children: Vec<Node> = Vec::new();
        root_children.push(alt);
        let root = Node::Sequence(root_children, None);
        proof {
            lemma_nodes_view_push(oldbr, Node::Sequence(children, None));
            assert(root_children@ =~= seq![alt]);
            lemma_nodes_view_singleton(alt);
            assert(root@ == RNode::Sequence(
                seq![RNode::Alternation(f.branches.push(RNode::Sequence(f.children, None)), None)],
                None,
            ));
        }
        Ok(root)
    } else {
        let root = Node::Sequence(children, None);
        Ok(root)
    }
}

/// Parse a pattern into its syntax tree.
///
/// The pattern is first anchored at both ends (`normalize`), then parsed in
/// one pass.  The result is exactly `spec_parse` of the input: the root
/// sequence of the normalized pattern, or the first error — a malformed
/// brace quantifier, or a group still open at the end of the input.  An
/// empty pattern parses to an empty root sequence.
pub fn parse(pattern: &[u8]) -> (r: Result<Node, ParseError>)
    ensures
        parse_result_view(r) == spec_parse(pattern@),
{
    let s = normalize(pattern);
    parse_normalized(s.as_slice())
}

} // verus!
