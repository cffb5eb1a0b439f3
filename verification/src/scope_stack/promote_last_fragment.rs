use vstd::prelude::*;
use crate::fragment::{Fragment, lemma_fragment_seq_view_len, lemma_fragment_seq_view_parts};
use crate::node::{Node, NodeView};
use crate::relationship::Relationship;
use crate::scope_stack::{ScopeStack, StackView, count_complex, lemma_count_complex_push};
use crate::scope_stack::{lemma_scope_seq_view_len, lemma_scope_seq_view_parts};
use crate::scope_stack::push_to_preferred_relationship::{
    lemma_spec_push_to_preferred_relationship_wf, spec_push_to_preferred_relationship,
};

verus! {

/// Promotion of the innermost open fragment: the fragment is popped and
/// converted into a finished node — a complex fragment additionally takes
/// the scope it owns as its children — and the node is placed by the usual
/// placement rule, which always makes a promoted node a contained sibling.
pub open spec fn spec_promote(v: StackView) -> StackView {
    if v.fragments.len() == 0 {
        v
    } else {
        let f = v.fragments.last();
        if f.is_complex() {
            let popped = StackView {
                fragments: v.fragments.drop_last(),
                scopes: v.scopes.drop_last(),
                ..v
            };
            spec_push_to_preferred_relationship(
                popped,
                NodeView::Complex {
                    concept: f.concept(),
                    entries: f.entries(),
                    children: v.scopes.last(),
                },
            )
        } else {
            let popped = StackView { fragments: v.fragments.drop_last(), ..v };
            spec_push_to_preferred_relationship(
                popped,
                NodeView::Simplex { concept: f.concept(), entries: f.entries() },
            )
        }
    }
}

/// Promotion preserves the structural invariant, removes exactly one
/// fragment, keeps the target level, and always leaves the relationship
/// marker `Contained`: a promoted node is never an attach target.
pub proof fn lemma_spec_promote_wf(v: StackView)
    requires
        v.wf(),
        v.fragments.len() > 0,
    ensures
        spec_promote(v).wf(),
        spec_promote(v).fragments.len() == v.fragments.len() - 1,
        spec_promote(v).scopes.len() == count_complex(spec_promote(v).fragments) + 1,
        spec_promote(v).level == v.level,
        spec_promote(v).relationship == Relationship::Contained,
{
    let f = v.fragments.last();
    assert(v.fragments.drop_last().push(f) =~= v.fragments);
    lemma_count_complex_push(v.fragments.drop_last(), f);
    if f.is_complex() {
        let popped = StackView {
            fragments: v.fragments.drop_last(),
            scopes: v.scopes.drop_last(),
            ..v
        };
        let node = NodeView::Complex {
            concept: f.concept(),
            entries: f.entries(),
            children: v.scopes.last(),
        };
        lemma_spec_push_to_preferred_relationship_wf(popped, node);
    } else {
        let popped = StackView { fragments: v.fragments.drop_last(), ..v };
        let node = NodeView::Simplex { concept: f.concept(), entries: f.entries() };
        lemma_spec_push_to_preferred_relationship_wf(popped, node);
    }
}

impl ScopeStack {
    /// Promotes the innermost open fragment into a finished node placed in
    /// the scope that promotion exposes.
    pub fn promote_last_fragment(&mut self)
        requires
            old(self)@.wf(),
            old(self)@.fragments.len() > 0,
        ensures
            final(self)@ == spec_promote(old(self)@),
            final(self)@.wf(),
    {
        proof {
            lemma_fragment_seq_view_len(self.fragments@);
            lemma_fragment_seq_view_parts(self.fragments@);
            lemma_scope_seq_view_len(self.scopes@);
            lemma_spec_promote_wf(self@);
        }
        let last_fragment = self.fragments.pop().unwrap();
        match last_fragment {
            Fragment::Simplex(simplex_boundary, attachers) => {
                let node = Node::Simplex(simplex_boundary, attachers);
                self.push_to_preferred_relationship(node);
            },
            Fragment::Complex(complex_boundary, attachers) => {
                proof {
                    lemma_scope_seq_view_parts(self.scopes@);
                }
                let last_scope = self.scopes.pop().unwrap();
                let node = Node::Complex(complex_boundary, attachers, last_scope);
                self.push_to_preferred_relationship(node);
            },
        }
    }
}

} // verus!
