use vstd::prelude::*;
use crate::boundary::Boundary;

verus! {

/// A finished node of the tree.
///
/// `Complex` nodes own attached entries and nested children; `Simplex` nodes
/// own entries only. An `Attacher` is a label/content pair together with the
/// trailing comments that document it. Comments and othertongue lines carry
/// their source spans through unchanged.
#[derive(Debug, PartialEq)]
pub enum Node {
    /// Concept able to own nested children: concept span, attached entries,
    /// child nodes.
    Complex(Boundary, Vec<Node>, Vec<Node>),
    /// Leaf concept: concept span, attached entries.
    Simplex(Boundary, Vec<Node>),
    /// Label/content pair with its trailing comments.
    Attacher(Boundary, Boundary, Vec<Node>),
    /// Single-line comment.
    LineComment(Boundary),
    /// Multi-line comment: one span per line.
    BlockComment(Vec<Boundary>),
    /// Single line of foreign-language content.
    LineOthertongue(Boundary),
    /// Multi-line block of foreign-language content.
    BlockOthertongue(Vec<Boundary>),
}

/// The mathematical shape of a `Node`: the same tree with every vector
/// abstracted to a sequence.
#[verifier::ext_equal]
pub enum NodeView {
    Complex { concept: Boundary, entries: Seq<NodeView>, children: Seq<NodeView> },
    Simplex { concept: Boundary, entries: Seq<NodeView> },
    Attacher { label: Boundary, content: Boundary, comments: Seq<NodeView> },
    LineComment { line: Boundary },
    BlockComment { block: Seq<Boundary> },
    LineOthertongue { line: Boundary },
    BlockOthertongue { block: Seq<Boundary> },
}

/// Abstracts a node to its mathematical shape.
pub open spec fn node_view(n: Node) -> NodeView
    decreases n,
{
    match n {
        Node::Complex(concept, entries, children) => NodeView::Complex {
            concept,
            entries: node_seq_view(entries@),
            children: node_seq_view(children@),
        },
        Node::Simplex(concept, entries) => NodeView::Simplex {
            concept,
            entries: node_seq_view(entries@),
        },
        Node::Attacher(label, content, comments) => NodeView::Attacher {
            label,
            content,
            comments: node_seq_view(comments@),
        },
        Node::LineComment(line) => NodeView::LineComment { line },
        Node::BlockComment(block) => NodeView::BlockComment { block: block@ },
        Node::LineOthertongue(line) => NodeView::LineOthertongue { line },
        Node::BlockOthertongue(block) => NodeView::BlockOthertongue { block: block@ },
    }
}

/// Abstracts a sequence of nodes elementwise.
pub open spec fn node_seq_view(s: Seq<Node>) -> Seq<NodeView>
    decreases s,
{
    if s.len() == 0 {
        Seq::empty()
    } else {
        node_seq_view(s.drop_last()).push(node_view(s.last()))
    }
}

pub proof fn lemma_node_seq_view_len(s: Seq<Node>)
    ensures
        node_seq_view(s).len() == s.len(),
    decreases s.len(),
{
    if s.len() > 0 {
        lemma_node_seq_view_len(s.drop_last());
    }
}

pub proof fn lemma_node_seq_view_push(s: Seq<Node>, n: Node)
    ensures
        node_seq_view(s.push(n)) == node_seq_view(s).push(node_view(n)),
{
    assert(s.push(n).drop_last() =~= s);
    assert(s.push(n).last() == n);
}

/// Relates a non-empty node sequence's view to the view of the sequence
/// without its last element.
pub proof fn lemma_node_seq_view_parts(s: Seq<Node>)
    requires
        s.len() > 0,
    ensures
        node_seq_view(s).len() == s.len(),
        node_seq_view(s).drop_last() == node_seq_view(s.drop_last()),
        node_seq_view(s).last() == node_view(s.last()),
{
    lemma_node_seq_view_len(s);
    assert(node_seq_view(s.drop_last()).push(node_view(s.last())).drop_last()
        =~= node_seq_view(s.drop_last()));
}

} // verus!
