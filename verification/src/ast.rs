//! The compiled form of a pattern: an ordered sequence of nodes, where
//! `Optional`, `Repeat` and `Group` own a nested sequence of their own.

use vstd::prelude::*;

verus! {

/// One unit of a compiled pattern.
///
/// A character class is kept as a list of inclusive character ranges; a
/// single member `c` is stored as the range `(c, c)`.
pub enum Node {
    /// Matches exactly one input character equal to the given character.
    Literal(char),
    /// Matches any one input character.
    Wildcard,
    /// Matches only at position 0 of the input; consumes nothing.
    AnchorStart,
    /// Matches only at the end of the input; consumes nothing.
    AnchorEnd,
    /// Matches one input character inside (or, if negated, outside) the set.
    CharClass { ranges: Vec<(char, char)>, negated: bool },
    /// The wrapped sequence matches zero or one time.
    Optional(Vec<Node>),
    /// The wrapped sequence matches zero or more times, greedily.
    Repeat(Vec<Node>),
    /// The wrapped sequence must match; its text is recorded as a capture.
    Group(Vec<Node>),
}

/// The mathematical model of a node, over `Seq` instead of `Vec`.
#[verifier::ext_equal]
pub enum SpecNode {
    Literal(char),
    Wildcard,
    AnchorStart,
    AnchorEnd,
    CharClass { ranges: Seq<(char, char)>, negated: bool },
    Optional(Seq<SpecNode>),
    Repeat(Seq<SpecNode>),
    Group(Seq<SpecNode>),
}

/// The model of a single compiled node.
pub open spec fn node_view(n: Node) -> SpecNode
    decreases n,
{
    match n {
        Node::Literal(c) => SpecNode::Literal(c),
        Node::Wildcard => SpecNode::Wildcard,
        Node::AnchorStart => SpecNode::AnchorStart,
        Node::AnchorEnd => SpecNode::AnchorEnd,
        Node::CharClass { ranges, negated } => SpecNode::CharClass {
            ranges: ranges@,
            negated,
        },
        Node::Optional(sub) => SpecNode::Optional(nodes_view(sub@)),
        Node::Repeat(sub) => SpecNode::Repeat(nodes_view(sub@)),
        Node::Group(sub) => SpecNode::Group(nodes_view(sub@)),
    }
}

impl View for Node {
    type V = SpecNode;

    open spec fn view(&self) -> SpecNode {
        node_view(*self)
    }
}

/// The model of a sequence of compiled nodes.
pub open spec fn nodes_view(ns: Seq<Node>) -> Seq<SpecNode>
    decreases ns,
{
    if ns.len() == 0 {
        Seq::empty()
    } else {
        seq![node_view(ns[0])] + nodes_view(ns.drop_first())
    }
}

/// `nodes_view` maps `node_view` over the sequence, element by element.
pub proof fn lemma_nodes_view(ns: Seq<Node>)
    ensures
        nodes_view(ns).len() == ns.len(),
        forall|i: int| 0 <= i < ns.len() ==> nodes_view(ns)[i] == node_view(ns[i]),
    decreases ns.len(),
{
    if ns.len() > 0 {
        lemma_nodes_view(ns.drop_first());
    }
}

/// Structural size of a node; used as a termination measure.
pub open spec fn node_size(n: SpecNode) -> nat
    decreases n,
{
    match n {
        SpecNode::Optional(sub) => 1 + seq_size(sub),
        SpecNode::Repeat(sub) => 1 + seq_size(sub),
        SpecNode::Group(sub) => 1 + seq_size(sub),
        _ => 1,
    }
}

/// Structural size of a sequence of nodes.
pub open spec fn seq_size(ns: Seq<SpecNode>) -> nat
    decreases ns,
{
    if ns.len() == 0 {
        0
    } else {
        node_size(ns[0]) + seq_size(ns.drop_first())
    }
}

/// The model of a literal node, spelt out for use at call sites.
pub proof fn lemma_node_view_literal(c: char)
    ensures
        node_view(Node::Literal(c)) == SpecNode::Literal(c),
{
}

/// The model of each node constructor, spelt out for use at call sites.
pub proof fn lemma_node_view_cases(n: Node)
    ensures
        match n {
            Node::Literal(c) => node_view(n) == SpecNode::Literal(c),
            Node::Wildcard => node_view(n) == SpecNode::Wildcard,
            Node::AnchorStart => node_view(n) == SpecNode::AnchorStart,
            Node::AnchorEnd => node_view(n) == SpecNode::AnchorEnd,
            Node::CharClass { ranges, negated } => node_view(n) == (SpecNode::CharClass {
                ranges: ranges@,
                negated,
            }),
            Node::Optional(sub) => node_view(n) == SpecNode::Optional(nodes_view(sub@)),
            Node::Repeat(sub) => node_view(n) == SpecNode::Repeat(nodes_view(sub@)),
            Node::Group(sub) => node_view(n) == SpecNode::Group(nodes_view(sub@)),
        },
{
    match n {
        Node::Literal(c) => {},
        Node::Wildcard => {},
        Node::AnchorStart => {},
        Node::AnchorEnd => {},
        Node::CharClass { ranges, negated } => {},
        Node::Optional(sub) => {},
        Node::Repeat(sub) => {},
        Node::Group(sub) => {},
    }
}

/// The size of each node constructor, spelt out for use at call sites.
pub proof fn lemma_node_size_cases(n: SpecNode)
    ensures
        match n {
            SpecNode::Optional(sub) => node_size(n) == 1 + seq_size(sub),
            SpecNode::Repeat(sub) => node_size(n) == 1 + seq_size(sub),
            SpecNode::Group(sub) => node_size(n) == 1 + seq_size(sub),
            _ => node_size(n) == 1,
        },
{
    match n {
        SpecNode::Optional(sub) => {},
        SpecNode::Repeat(sub) => {},
        SpecNode::Group(sub) => {},
        _ => {},
    }
}

/// The model of a sequence with one node appended.
pub proof fn lemma_nodes_view_push(ns: Seq<Node>, n: Node)
    ensures
        nodes_view(ns.push(n)) == nodes_view(ns).push(node_view(n)),
{
    lemma_nodes_view(ns);
    lemma_nodes_view(ns.push(n));
    assert(nodes_view(ns.push(n)) =~= nodes_view(ns).push(node_view(n)));
}

/// The model of a sequence with its last node removed.
pub proof fn lemma_nodes_view_drop_last(ns: Seq<Node>)
    requires
        ns.len() > 0,
    ensures
        nodes_view(ns.drop_last()) == nodes_view(ns).drop_last(),
        node_view(ns.last()) == nodes_view(ns).last(),
{
    lemma_nodes_view(ns);
    lemma_nodes_view(ns.drop_last());
    assert(nodes_view(ns.drop_last()) =~= nodes_view(ns).drop_last());
}

/// Unfolds `seq_size` one step: the size of a non-empty sequence is the
/// size of its head plus the size of its tail, and a head weighs at
/// least one.
pub proof fn lemma_seq_size_parts(ns: Seq<SpecNode>)
    requires
        ns.len() > 0,
    ensures
        seq_size(ns) == node_size(ns[0]) + seq_size(ns.drop_first()),
        node_size(ns[0]) >= 1,
{
    match ns[0] {
        SpecNode::Optional(sub) => {},
        SpecNode::Repeat(sub) => {},
        SpecNode::Group(sub) => {},
        _ => {},
    }
}

} // verus!
