use vstd::prelude::*;
use crate::fragment::{spec_attach, spec_attach_comment};
use crate::fragment::{lemma_fragment_seq_view_len, lemma_fragment_seq_view_parts,
    lemma_fragment_seq_view_push};
use crate::node::{Node, NodeView, node_view};
use crate::relationship::Relationship;
use crate::scope_stack::{ScopeStack, StackView, count_complex, lemma_count_complex_push};
use crate::scope_stack::push_to_last_scope::spec_push_to_last_scope;

verus! {

/// What `push_to_preferred_relationship` needs of the state: an exposed
/// scope to place siblings in, and — when the node is a comment arriving
/// while the last attach-eligible node was bound into a fragment — a
/// fragment still open to receive it.
pub open spec fn can_push(v: StackView, n: NodeView) -> bool {
    &&& v.scopes.len() > 0
    &&& match n {
        NodeView::LineComment { .. } | NodeView::BlockComment { .. } => v.relationship
            == Relationship::Attached ==> v.fragments.len() > 0,
        _ => true,
    }
}

/// Placing a node as a contained sibling: it joins the innermost exposed
/// scope and resets the relationship marker.
pub open spec fn spec_push_contained(v: StackView, n: NodeView) -> StackView {
    StackView { relationship: Relationship::Contained, ..spec_push_to_last_scope(v, n) }
}

/// Where a finished node lands, by its kind and the attachment history.
///
/// Concept and othertongue nodes always become contained siblings. An
/// attacher binds to the innermost open fragment when one exists, else it
/// becomes a contained sibling. A comment follows the most recent
/// attach-eligible node: into the open fragment while the relationship reads
/// `Attached`, as a contained sibling otherwise. Only attachers ever set the
/// relationship to `Attached`; comments never change it.
pub open spec fn spec_push_to_preferred_relationship(v: StackView, n: NodeView) -> StackView {
    match n {
        NodeView::Attacher { .. } => {
            if v.fragments.len() > 0 {
                StackView {
                    fragments: v.fragments.drop_last().push(spec_attach(v.fragments.last(), n)),
                    relationship: Relationship::Attached,
                    ..v
                }
            } else {
                spec_push_contained(v, n)
            }
        },
        NodeView::LineComment { .. } | NodeView::BlockComment { .. } => {
            if v.relationship == Relationship::Contained {
                spec_push_to_last_scope(v, n)
            } else {
                StackView {
                    fragments: v.fragments.drop_last().push(
                        spec_attach_comment(v.fragments.last(), n),
                    ),
                    ..v
                }
            }
        },
        _ => spec_push_contained(v, n),
    }
}

/// Placement preserves the structural invariant: no fragment or scope is
/// created or destroyed, an updated fragment keeps its kind, and the
/// relationship marker only reads `Attached` when a fragment remains open.
pub proof fn lemma_spec_push_to_preferred_relationship_wf(v: StackView, n: NodeView)
    requires
        v.scopes.len() == count_complex(v.fragments) + 1,
        can_push(v, n),
    ensures
        spec_push_to_preferred_relationship(v, n).wf(),
        spec_push_to_preferred_relationship(v, n).level == v.level,
{
    let r = spec_push_to_preferred_relationship(v, n);
    if v.fragments.len() > 0 {
        let updated_attach = spec_attach(v.fragments.last(), n);
        let updated_comment = spec_attach_comment(v.fragments.last(), n);
        assert(updated_attach.is_complex() == v.fragments.last().is_complex());
        assert(updated_comment.is_complex() == v.fragments.last().is_complex());
        lemma_count_complex_push(v.fragments.drop_last(), updated_attach);
        lemma_count_complex_push(v.fragments.drop_last(), updated_comment);
        lemma_count_complex_push(v.fragments.drop_last(), v.fragments.last());
        assert(v.fragments.drop_last().push(v.fragments.last()) =~= v.fragments);
    }
}

impl ScopeStack {
    /// Places a finished node where its kind and the attachment history
    /// direct: bound into the innermost open fragment, or as a contained
    /// sibling in the innermost exposed scope.
    pub fn push_to_preferred_relationship(&mut self, node: Node)
        requires
            can_push(old(self)@, node_view(node)),
        ensures
            final(self)@ == spec_push_to_preferred_relationship(old(self)@, node_view(node)),
    {
        proof {
            lemma_fragment_seq_view_len(self.fragments@);
        }
        match node {
            Node::Attacher(..) => {
                if self.fragments.len() > 0 {
                    proof {
                        lemma_fragment_seq_view_parts(self.fragments@);
                    }
                    let ghost fragments_before = self.fragments@;
                    let mut last_fragment = self.fragments.pop().unwrap();
                    last_fragment.attach(node);
                    proof {
                        lemma_fragment_seq_view_push(self.fragments@, last_fragment);
                        assert(fragments_before.drop_last() =~= self.fragments@);
                    }
                    self.fragments.push(last_fragment);
                    self.last_relationship = Relationship::Attached;
                } else {
                    self.push_to_last_scope(node);
                    self.last_relationship = Relationship::Contained;
                }
            },
            Node::LineComment(..) | Node::BlockComment(..) => {
                match self.last_relationship {
                    Relationship::Contained => self.push_to_last_scope(node),
                    Relationship::Attached => {
                        proof {
                            lemma_fragment_seq_view_parts(self.fragments@);
                        }
                        let ghost fragments_before = self.fragments@;
                        let mut last_fragment = self.fragments.pop().unwrap();
                        last_fragment.attach_comment(node);
                        proof {
                            lemma_fragment_seq_view_push(self.fragments@, last_fragment);
                            assert(fragments_before.drop_last() =~= self.fragments@);
                        }
                        self.fragments.push(last_fragment);
                    },
                }
            },
            _ => {
                self.push_to_last_scope(node);
                self.last_relationship = Relationship::Contained;
            },
        }
    }
}

} // verus!
