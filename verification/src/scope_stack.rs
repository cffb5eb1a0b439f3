pub mod push_to_last_scope;
pub mod push_to_preferred_relationship;
pub mod promote_last_fragment;
pub mod necessarily_promote_last_fragments;
pub mod minimize_scope_level_by;
pub mod finalize;
pub mod appenders;

use vstd::prelude::*;
use crate::fragment::{Fragment, FragmentView, fragment_seq_view};
use crate::node::{Node, NodeView, node_seq_view};
use crate::relationship::Relationship;

verus! {

/// The engine's memory for one in-progress parse.
///
/// `level` is the target count of simultaneously open fragments announced by
/// the most recent scope-level token. `fragments` holds one provisional node
/// per currently open nesting level, innermost last. `scopes` holds the
/// finished sibling nodes of each depth: the root scope first, then one child
/// scope per open complex fragment, in stack order. `last_relationship`
/// records where the most recent attach-eligible node went, which is all a
/// later comment token needs in order to find its place.
#[derive(Debug, PartialEq)]
pub struct ScopeStack {
    pub level: usize,
    pub last_relationship: Relationship,
    pub fragments: Vec<Fragment>,
    pub scopes: Vec<Vec<Node>>,
}

/// The mathematical shape of the engine's state.
#[verifier::ext_equal]
pub struct StackView {
    pub level: nat,
    pub relationship: Relationship,
    pub fragments: Seq<FragmentView>,
    pub scopes: Seq<Seq<NodeView>>,
}

/// How many fragments of the sequence are complex: each owns one pushed
/// child scope.
pub open spec fn count_complex(fragments: Seq<FragmentView>) -> nat
    decreases fragments.len(),
{
    if fragments.len() == 0 {
        0
    } else {
        count_complex(fragments.drop_last()) + if fragments.last().is_complex() {
            1nat
        } else {
            0nat
        }
    }
}

pub proof fn lemma_count_complex_push(fragments: Seq<FragmentView>, f: FragmentView)
    ensures
        count_complex(fragments.push(f)) == count_complex(fragments) + if f.is_complex() {
            1nat
        } else {
            0nat
        },
{
    assert(fragments.push(f).drop_last() =~= fragments);
    assert(fragments.push(f).last() == f);
}

impl StackView {
    /// The structural invariant of the engine.
    ///
    /// The scope stack always holds the root scope plus exactly one child
    /// scope per open complex fragment, and the relationship marker can only
    /// read `Attached` while a fragment is open to be attached to.
    pub open spec fn wf(self) -> bool {
        &&& self.scopes.len() == count_complex(self.fragments) + 1
        &&& self.relationship == Relationship::Attached ==> self.fragments.len() > 0
    }
}

/// The state a fresh engine starts in: no target depth, no open fragment,
/// one empty root scope, and no attachment history.
pub open spec fn initial_stack() -> StackView {
    StackView {
        level: 0,
        relationship: Relationship::Contained,
        fragments: Seq::empty(),
        scopes: seq![Seq::empty()],
    }
}

/// Abstracts a sequence of scopes elementwise.
pub open spec fn scope_seq_view(s: Seq<Vec<Node>>) -> Seq<Seq<NodeView>>
    decreases s.len(),
{
    if s.len() == 0 {
        Seq::empty()
    } else {
        scope_seq_view(s.drop_last()).push(node_seq_view(s.last()@))
    }
}

pub proof fn lemma_scope_seq_view_len(s: Seq<Vec<Node>>)
    ensures
        scope_seq_view(s).len() == s.len(),
    decreases s.len(),
{
    if s.len() > 0 {
        lemma_scope_seq_view_len(s.drop_last());
    }
}

pub proof fn lemma_scope_seq_view_push(s: Seq<Vec<Node>>, scope: Vec<Node>)
    ensures
        scope_seq_view(s.push(scope)) == scope_seq_view(s).push(node_seq_view(scope@)),
{
    assert(s.push(scope).drop_last() =~= s);
    assert(s.push(scope).last() == scope);
}

/// Relates a non-empty scope sequence's view to the view of the sequence
/// without its last element.
pub proof fn lemma_scope_seq_view_parts(s: Seq<Vec<Node>>)
    requires
        s.len() > 0,
    ensures
        scope_seq_view(s).len() == s.len(),
        scope_seq_view(s).drop_last() == scope_seq_view(s.drop_last()),
        scope_seq_view(s).last() == node_seq_view(s.last()@),
{
    lemma_scope_seq_view_len(s);
    assert(scope_seq_view(s.drop_last()).push(node_seq_view(s.last()@)).drop_last()
        =~= scope_seq_view(s.drop_last()));
}

impl View for ScopeStack {
    type V = StackView;

    open spec fn view(&self) -> StackView {
        StackView {
            level: self.level as nat,
            relationship: self.last_relationship,
            fragments: fragment_seq_view(self.fragments@),
            scopes: scope_seq_view(self.scopes@),
        }
    }
}

impl ScopeStack {
    /// Creates the memory for one parse: level zero, no open fragment, one
    /// empty root scope, and no attachment history.
    pub fn new() -> (s: ScopeStack)
        ensures
            s@ == initial_stack(),
            s@.wf(),
    {
        let level: usize = 0;
        let last_relationship = Relationship::Contained;
        let fragments: Vec<Fragment> = Vec::new();
        let mut scopes: Vec<Vec<Node>> = Vec::with_capacity(1);

        scopes.push(Vec::new());

        let stack = ScopeStack { level, last_relationship, fragments, scopes };
        proof {
            reveal_with_fuel(scope_seq_view, 2);
            assert(stack.scopes@.drop_last() =~= Seq::<Vec<Node>>::empty());
            assert(stack@.scopes =~~= seq![Seq::<NodeView>::empty()]);
            assert(stack@ =~~= initial_stack());
        }
        stack
    }
}

} // verus!
