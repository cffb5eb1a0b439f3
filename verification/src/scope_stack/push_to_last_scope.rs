use vstd::prelude::*;
use crate::node::{Node, NodeView, node_view, lemma_node_seq_view_push};
use crate::scope_stack::{ScopeStack, StackView};
use crate::scope_stack::{lemma_scope_seq_view_len, lemma_scope_seq_view_parts, lemma_scope_seq_view_push};

verus! {

/// Placing a finished node as the next sibling in the innermost exposed
/// scope. Nothing else about the state changes.
pub open spec fn spec_push_to_last_scope(v: StackView, n: NodeView) -> StackView {
    StackView { scopes: v.scopes.drop_last().push(v.scopes.last().push(n)), ..v }
}

impl ScopeStack {
    /// Places a finished node as the next sibling in the innermost exposed
    /// scope.
    pub fn push_to_last_scope(&mut self, node: Node)
        requires
            old(self)@.scopes.len() > 0,
        ensures
            final(self)@ == spec_push_to_last_scope(old(self)@, node_view(node)),
    {
        proof {
            lemma_scope_seq_view_len(self.scopes@);
            lemma_scope_seq_view_parts(self.scopes@);
        }
        let ghost scopes_before = self.scopes@;
        let mut last_scope = self.scopes.pop().unwrap();
        proof {
            lemma_node_seq_view_push(last_scope@, node);
        }
        last_scope.push(node);
        proof {
            lemma_scope_seq_view_push(self.scopes@, last_scope);
            assert(scopes_before.drop_last() =~= self.scopes@);
        }
        self.scopes.push(last_scope);
    }
}

} // verus!
