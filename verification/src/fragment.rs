use vstd::prelude::*;
use crate::boundary::Boundary;
use crate::node::{Node, NodeView, node_view, node_seq_view};
use crate::node::{lemma_node_seq_view_push, lemma_node_seq_view_len, lemma_node_seq_view_parts};

verus! {

/// A provisional node: a concept that is still open for more attachers or,
/// for a complex concept, for more children. It holds the concept's span and
/// the ordered entries (attachers and their trailing comments) accumulated so
/// far. A fragment lives until it is promoted into a finished `Node`.
#[derive(Debug, PartialEq)]
pub enum Fragment {
    Simplex(Boundary, Vec<Node>),
    Complex(Boundary, Vec<Node>),
}

/// The mathematical shape of a `Fragment`.
#[verifier::ext_equal]
pub enum FragmentView {
    Simplex { concept: Boundary, entries: Seq<NodeView> },
    Complex { concept: Boundary, entries: Seq<NodeView> },
}

impl FragmentView {
    /// The concept span the fragment was created with.
    pub open spec fn concept(self) -> Boundary {
        match self {
            FragmentView::Simplex { concept, .. } => concept,
            FragmentView::Complex { concept, .. } => concept,
        }
    }

    /// The entries accumulated so far.
    pub open spec fn entries(self) -> Seq<NodeView> {
        match self {
            FragmentView::Simplex { entries, .. } => entries,
            FragmentView::Complex { entries, .. } => entries,
        }
    }

    /// Whether the fragment may own structural children.
    pub open spec fn is_complex(self) -> bool {
        self is Complex
    }

    /// The same fragment with its entry list replaced.
    pub open spec fn with_entries(self, entries: Seq<NodeView>) -> FragmentView {
        match self {
            FragmentView::Simplex { concept, .. } => FragmentView::Simplex { concept, entries },
            FragmentView::Complex { concept, .. } => FragmentView::Complex { concept, entries },
        }
    }
}

/// Abstracts a fragment to its mathematical shape.
pub open spec fn fragment_view(f: Fragment) -> FragmentView {
    match f {
        Fragment::Simplex(concept, entries) => FragmentView::Simplex {
            concept,
            entries: node_seq_view(entries@),
        },
        Fragment::Complex(concept, entries) => FragmentView::Complex {
            concept,
            entries: node_seq_view(entries@),
        },
    }
}

/// Abstracts a sequence of fragments elementwise.
pub open spec fn fragment_seq_view(s: Seq<Fragment>) -> Seq<FragmentView>
    decreases s.len(),
{
    if s.len() == 0 {
        Seq::empty()
    } else {
        fragment_seq_view(s.drop_last()).push(fragment_view(s.last()))
    }
}

pub proof fn lemma_fragment_seq_view_len(s: Seq<Fragment>)
    ensures
        fragment_seq_view(s).len() == s.len(),
    decreases s.len(),
{
    if s.len() > 0 {
        lemma_fragment_seq_view_len(s.drop_last());
    }
}

pub proof fn lemma_fragment_seq_view_push(s: Seq<Fragment>, f: Fragment)
    ensures
        fragment_seq_view(s.push(f)) == fragment_seq_view(s).push(fragment_view(f)),
{
    assert(s.push(f).drop_last() =~= s);
    assert(s.push(f).last() == f);
}

/// Relates a non-empty fragment sequence's view to the view of the sequence
/// without its last element.
pub proof fn lemma_fragment_seq_view_parts(s: Seq<Fragment>)
    requires
        s.len() > 0,
    ensures
        fragment_seq_view(s).len() == s.len(),
        fragment_seq_view(s).drop_last() == fragment_seq_view(s.drop_last()),
        fragment_seq_view(s).last() == fragment_view(s.last()),
    decreases s.len(),
{
    lemma_fragment_seq_view_len(s);
    lemma_fragment_seq_view_len(s.drop_last());
    assert(fragment_seq_view(s.drop_last()).push(fragment_view(s.last())).drop_last()
        =~= fragment_seq_view(s.drop_last()));
}

/// Appending one entry to a fragment: the single mutation a fragment admits.
pub open spec fn spec_attach(f: FragmentView, n: NodeView) -> FragmentView {
    f.with_entries(f.entries().push(n))
}

/// Binding a comment to a fragment. When the most recent entry is an
/// attacher, the comment documents that attacher and joins its trailing
/// comments; otherwise the comment stands as an entry of its own.
pub open spec fn spec_attach_comment(f: FragmentView, n: NodeView) -> FragmentView {
    if f.entries().len() > 0 {
        match f.entries().last() {
            NodeView::Attacher { label, content, comments } => f.with_entries(
                f.entries().drop_last().push(
                    NodeView::Attacher { label, content, comments: comments.push(n) },
                ),
            ),
            _ => spec_attach(f, n),
        }
    } else {
        spec_attach(f, n)
    }
}

impl Fragment {
    /// Creates a leaf-concept fragment from its span and an entry list.
    pub fn new_simplex(boundary: Boundary, collection: Vec<Node>) -> (f: Fragment)
        ensures
            fragment_view(f) == (FragmentView::Simplex {
                concept: boundary,
                entries: node_seq_view(collection@),
            }),
    {
        Fragment::Simplex(boundary, collection)
    }

    /// Creates a child-capable-concept fragment from its span and an entry
    /// list.
    pub fn new_complex(boundary: Boundary, collection: Vec<Node>) -> (f: Fragment)
        ensures
            fragment_view(f) == (FragmentView::Complex {
                concept: boundary,
                entries: node_seq_view(collection@),
            }),
    {
        Fragment::Complex(boundary, collection)
    }

    /// Appends one entry to the fragment's entry list.
    pub fn attach(&mut self, node: Node)
        ensures
            fragment_view(*final(self)) == spec_attach(fragment_view(*old(self)), node_view(node)),
    {
        match self {
            Fragment::Simplex(_, attached_nodes) => push_entry(attached_nodes, node),
            Fragment::Complex(_, attached_nodes) => push_entry(attached_nodes, node),
        }
    }

    /// Binds a comment to the fragment: into the trailing comments of the
    /// most recent attacher entry when there is one, as a standalone entry
    /// otherwise.
    pub fn attach_comment(&mut self, node: Node)
        ensures
            fragment_view(*final(self)) == spec_attach_comment(
                fragment_view(*old(self)),
                node_view(node),
            ),
    {
        match self {
            Fragment::Simplex(_, attached_nodes) => push_comment_entry(attached_nodes, node),
            Fragment::Complex(_, attached_nodes) => push_comment_entry(attached_nodes, node),
        }
    }
}

/// Appends one entry to an entry list.
fn push_entry(entries: &mut Vec<Node>, node: Node)
    ensures
        node_seq_view(final(entries)@) == node_seq_view(old(entries)@).push(node_view(node)),
{
    proof {
        lemma_node_seq_view_push(entries@, node);
    }
    entries.push(node);
}

/// Appends a comment to an entry list: into the trailing comments of the
/// most recent attacher entry when there is one, as a standalone entry
/// otherwise.
fn push_comment_entry(entries: &mut Vec<Node>, node: Node)
    ensures
        node_seq_view(final(entries)@) == ({
            let before = node_seq_view(old(entries)@);
            if before.len() > 0 {
                match before.last() {
                    NodeView::Attacher { label, content, comments } => before.drop_last().push(
                        NodeView::Attacher {
                            label,
                            content,
                            comments: comments.push(node_view(node)),
                        },
                    ),
                    _ => before.push(node_view(node)),
                }
            } else {
                before.push(node_view(node))
            }
        }),
{
    proof {
        lemma_node_seq_view_len(entries@);
        if entries@.len() > 0 {
            lemma_node_seq_view_parts(entries@);
        }
    }
    let ghost initial_entries = entries@;
    match entries.pop() {
        Some(last_entry) => {
            match last_entry {
                Node::Attacher(label, content, mut comments) => {
                    proof {
                        lemma_node_seq_view_push(comments@, node);
                    }
                    comments.push(node);
                    let attacher = Node::Attacher(label, content, comments);
                    proof {
                        lemma_node_seq_view_push(entries@, attacher);
                    }
                    entries.push(attacher);
                },
                other => {
                    proof {
                        lemma_node_seq_view_push(entries@, other);
                        assert(entries@.push(other) =~= initial_entries);
                        lemma_node_seq_view_push(initial_entries, node);
                    }
                    entries.push(other);
                    entries.push(node);
                },
            }
        },
        None => {
            proof {
                lemma_node_seq_view_push(entries@, node);
            }
            entries.push(node);
        },
    }
}

} // verus!
