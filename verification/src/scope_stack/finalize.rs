use vstd::prelude::*;
use crate::node::{Node, NodeView, node_seq_view};
use crate::scope_stack::{ScopeStack, StackView};
use crate::scope_stack::{lemma_scope_seq_view_len, lemma_scope_seq_view_parts};
use crate::scope_stack::minimize_scope_level_by::spec_minimize;
use crate::scope_stack::necessarily_promote_last_fragments::lemma_spec_promote_until_wf;

verus! {

/// The finished tree: the root scope that remains once every fragment still
/// open has been promoted.
pub open spec fn spec_finalize(v: StackView) -> Seq<NodeView> {
    spec_minimize(v, 0).scopes.last()
}

impl ScopeStack {
    /// Collapses everything still open and returns the root scope,
    /// consuming the engine. After flushing to level zero no fragment
    /// remains, so exactly the root scope is left.
    pub fn finalize(self) -> (nodes: Vec<Node>)
        requires
            self@.wf(),
        ensures
            node_seq_view(nodes@) == spec_finalize(self@),
    {
        let ghost entry_state = self@;
        let mut stack = self;
        stack.minimize_scope_level_by(0);
        proof {
            lemma_spec_promote_until_wf(StackView { level: 0, ..entry_state });
            lemma_scope_seq_view_len(stack.scopes@);
            lemma_scope_seq_view_parts(stack.scopes@);
        }
        stack.scopes.pop().unwrap()
    }
}

} // verus!
