//! The syntax tree that a parse produces, together with its mathematical
//! model.
//!
//! `Node` is the executable tree; `RNode` is the same tree at the
//! specification level, with `Seq` in place of `Vec`.  Every contract of the
//! parser speaks about `RNode` values, reached from `Node` by its view.

use vstd::prelude::*;

verus! {

/// The two pattern boundaries an anchor can assert.
#[derive(Clone, Copy, Debug, PartialEq, Eq, Structural)]
pub enum AnchorKind {
    Start,
    End,
}

/// Which prefix, if any, a group was opened with.
///
/// `Capturing` stands for a plain `(`; the others record the two-byte
/// prefixes `?:`, `?=`, `?!` and `?>`.  The lookaround markers are recorded
/// only; no matching semantics is attached to them here.
#[derive(Clone, Copy, Debug, PartialEq, Eq, Structural)]
pub enum Marker {
    Capturing,
    NonCapturing,
    LookaheadPositive,
    LookaheadNegative,
    LookbehindOrOther,
}

/// Repetition bounds attached to an atom.
///
/// `max` is either at least `min` or the `UNBOUNDED` sentinel, a finite
/// constant standing in for "no practical upper bound".
#[derive(Clone, Copy, Debug, PartialEq, Eq, Structural)]
pub struct Repeat {
    pub min: u32,
    pub max: u32,
}

/// The sentinel value of `Repeat::max` that stands for "no upper bound".
pub const UNBOUNDED: u32 = 65536;

/// A node of the executable syntax tree.
///
/// A `repeat` field is populated only on atoms: literals, character
/// classes, groups, and a closed sequence or alternation acting as a
/// compound atom.  `Anchor` and `Backreference` never carry one.
#[derive(Debug, PartialEq)]
pub enum Node {
    /// A pattern boundary; never carries a repeat.
    Anchor(AnchorKind),
    /// A single literal byte.
    Literal(u8, Option<Repeat>),
    /// An inclusion (`negated == false`) or exclusion (`negated == true`)
    /// set of byte values.  The members are listed in the order the class
    /// produced them; the set of listed values is the class.
    CharClass(Vec<u8>, bool, Option<Repeat>),
    /// Concatenation of children.
    Sequence(Vec<Node>, Option<Repeat>),
    /// A parenthesised group; its single child is the body sequence.
    Group(Vec<Node>, Marker, Option<Repeat>),
    /// Ordered alternation branches; each branch is itself a sequence.
    Alternation(Vec<Node>, Option<Repeat>),
    /// A reference to an earlier capturing group; never carries a repeat.
    Backreference(u8),
}

/// The specification-level syntax tree.
pub enum RNode {
    Anchor(AnchorKind),
    Literal(u8, Option<Repeat>),
    CharClass(Seq<u8>, bool, Option<Repeat>),
    Sequence(Seq<RNode>, Option<Repeat>),
    Group(Seq<RNode>, Marker, Option<Repeat>),
    Alternation(Seq<RNode>, Option<Repeat>),
    Backreference(u8),
}

/// The model of an executable node.
pub open spec fn node_view(n: Node) -> RNode
    decreases n,
{
    match n {
        Node::Anchor(k) => RNode::Anchor(k),
        Node::Literal(b, r) => RNode::Literal(b, r),
        Node::CharClass(m, neg, r) => RNode::CharClass(m@, neg, r),
        Node::Sequence(ch, r) => RNode::Sequence(nodes_view(ch@), r),
        Node::Group(ch, m, r) => RNode::Group(nodes_view(ch@), m, r),
        Node::Alternation(br, r) => RNode::Alternation(nodes_view(br@), r),
        Node::Backreference(d) => RNode::Backreference(d),
    }
}

/// The model of a list of executable nodes, element by element.
pub open spec fn nodes_view(s: Seq<Node>) -> Seq<RNode>
    decreases s,
{
    if s.len() == 0 {
        Seq::empty()
    } else {
        seq![node_view(s[0])] + nodes_view(s.drop_first())
    }
}

impl View for Node {
    type V = RNode;

    open spec fn view(&self) -> RNode {
        node_view(*self)
    }
}

/// Valid repetition bounds: the maximum is at least the minimum, or the
/// `UNBOUNDED` sentinel.
pub open spec fn repeat_wf(r: Option<Repeat>) -> bool {
    match r {
        None => true,
        Some(rp) => rp.max >= rp.min || rp.max == UNBOUNDED,
    }
}

/// The structural invariants of a parsed tree:
/// every repeat satisfies `repeat_wf`; a character class holds at least one
/// member byte (an empty bracket expression degrades to a literal before a
/// class is ever built); a backreference index is positive; a group holds
/// exactly one child, its body sequence; an alternation holds at least two
/// branches, each a sequence.
pub open spec fn rnode_wf(n: RNode) -> bool
    decreases n,
{
    match n {
        RNode::Anchor(_) => true,
        RNode::Literal(_, r) => repeat_wf(r),
        RNode::Backreference(d) => d >= 1,
        RNode::CharClass(m, _, r) => m.len() > 0 && repeat_wf(r),
        RNode::Sequence(ch, r) => repeat_wf(r) && forall|k: int|
            0 <= k < ch.len() ==> rnode_wf(#[trigger] ch[k]),
        RNode::Group(ch, _, r) => repeat_wf(r) && ch.len() == 1 && (ch[0] is Sequence)
            && rnode_wf(ch[0]),
        RNode::Alternation(br, r) => repeat_wf(r) && br.len() >= 2 && forall|k: int|
            0 <= k < br.len() ==> ((#[trigger] br[k]) is Sequence && rnode_wf(br[k])),
    }
}

/// The model of no nodes is empty.
pub proof fn lemma_nodes_view_empty()
    ensures
        nodes_view(Seq::<Node>::empty()) == Seq::<RNode>::empty(),
{
}

/// The model of a single node is the single model.
pub proof fn lemma_nodes_view_singleton(n: Node)
    ensures
        nodes_view(seq![n]) == seq![node_view(n)],
{
    let s = seq![n];
    assert(s.len() == 1);
    assert(s[0] == n);
    assert(s.drop_first() =~= Seq::<Node>::empty());
    assert(nodes_view(Seq::<Node>::empty()) == Seq::<RNode>::empty());
    assert(nodes_view(s) == seq![node_view(n)] + Seq::<RNode>::empty());
    assert(seq![node_view(n)] + Seq::<RNode>::empty() =~= seq![node_view(n)]);
}

/// Appending one node to a list appends its model to the list's model.
pub proof fn lemma_nodes_view_push(s: Seq<Node>, n: Node)
    ensures
        nodes_view(s.push(n)) == nodes_view(s).push(node_view(n)),
    decreases s.len(),
{
    if s.len() == 0 {
        assert(s.push(n).drop_first() =~= s);
        assert(nodes_view(s.push(n)) =~= nodes_view(s).push(node_view(n)));
    } else {
        assert(s.push(n).drop_first() =~= s.drop_first().push(n));
        lemma_nodes_view_push(s.drop_first(), n);
        assert(nodes_view(s.push(n)) =~= nodes_view(s).push(node_view(n)));
    }
}

} // verus!
