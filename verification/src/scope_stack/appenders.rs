use vstd::prelude::*;
use crate::boundary::Boundary;
use crate::fragment::{Fragment, FragmentView};
use crate::fragment::lemma_fragment_seq_view_push;
use crate::node::{Node, NodeView, node_seq_view, node_view};
use crate::relationship::Relationship;
use crate::scope_stack::{ScopeStack, StackView, lemma_count_complex_push, lemma_scope_seq_view_push};
use crate::scope_stack::necessarily_promote_last_fragments::{
    lemma_spec_promote_until_wf, spec_promote_until,
};
use crate::scope_stack::push_to_preferred_relationship::{
    lemma_spec_push_to_preferred_relationship_wf, spec_push_to_preferred_relationship,
};

verus! {

/// A complex token: flush to the target level, then open a fresh complex
/// fragment together with the empty child scope it owns.
pub open spec fn spec_append_complex(v: StackView, concept: Boundary) -> StackView {
    let flushed = spec_promote_until(v);
    StackView {
        fragments: flushed.fragments.push(
            FragmentView::Complex { concept, entries: Seq::empty() },
        ),
        scopes: flushed.scopes.push(Seq::empty()),
        ..flushed
    }
}

/// A simplex token: flush to the target level, then open a fresh simplex
/// fragment. A simplex owns no child scope, only attachers.
pub open spec fn spec_append_simplex(v: StackView, concept: Boundary) -> StackView {
    let flushed = spec_promote_until(v);
    StackView {
        fragments: flushed.fragments.push(
            FragmentView::Simplex { concept, entries: Seq::empty() },
        ),
        ..flushed
    }
}

/// An attacher token: flush to the target level, then bind a fresh attacher
/// — its trailing comments start empty — to the innermost open fragment, or
/// place it as a standalone sibling when no fragment is open.
pub open spec fn spec_append_attacher(v: StackView, label: Boundary, content: Boundary) -> StackView {
    spec_push_to_preferred_relationship(
        spec_promote_until(v),
        NodeView::Attacher { label, content, comments: Seq::empty() },
    )
}

/// A line-comment token: flush first only when the last attach-eligible node
/// was contained — an attached comment must still reach the fragment that
/// holds its attacher — then place the comment by the attachment history.
pub open spec fn spec_append_line_comment(v: StackView, line: Boundary) -> StackView {
    let flushed = if v.relationship == Relationship::Contained {
        spec_promote_until(v)
    } else {
        v
    };
    spec_push_to_preferred_relationship(flushed, NodeView::LineComment { line })
}

/// A block-comment token: placed exactly as a line comment is.
pub open spec fn spec_append_block_comment(v: StackView, block: Seq<Boundary>) -> StackView {
    let flushed = if v.relationship == Relationship::Contained {
        spec_promote_until(v)
    } else {
        v
    };
    spec_push_to_preferred_relationship(flushed, NodeView::BlockComment { block })
}

/// A line-othertongue token: flush to the target level, then place the line
/// as a standalone sibling. Foreign-language content is never attachable.
pub open spec fn spec_append_line_othertongue(v: StackView, line: Boundary) -> StackView {
    spec_push_to_preferred_relationship(
        spec_promote_until(v),
        NodeView::LineOthertongue { line },
    )
}

/// A block-othertongue token: placed exactly as a line othertongue is.
pub open spec fn spec_append_block_othertongue(v: StackView, block: Seq<Boundary>) -> StackView {
    spec_push_to_preferred_relationship(
        spec_promote_until(v),
        NodeView::BlockOthertongue { block },
    )
}

/// Opening a complex fragment preserves the structural invariant: the fresh
/// fragment sits on top of the flushed stack with empty entries, paired with
/// the empty child scope it owns.
pub proof fn lemma_spec_append_complex_wf(v: StackView, concept: Boundary)
    requires
        v.wf(),
    ensures
        spec_append_complex(v, concept).wf(),
        spec_append_complex(v, concept).level == v.level,
        spec_append_complex(v, concept).fragments.len() == spec_promote_until(v).fragments.len()
            + 1,
        spec_append_complex(v, concept).fragments.last() == (FragmentView::Complex {
            concept,
            entries: Seq::empty(),
        }),
{
    lemma_spec_promote_until_wf(v);
    lemma_count_complex_push(
        spec_promote_until(v).fragments,
        FragmentView::Complex { concept, entries: Seq::empty() },
    );
}

/// Opening a simplex fragment preserves the structural invariant: the fresh
/// fragment sits on top of the flushed stack with empty entries, and no
/// child scope is added.
pub proof fn lemma_spec_append_simplex_wf(v: StackView, concept: Boundary)
    requires
        v.wf(),
    ensures
        spec_append_simplex(v, concept).wf(),
        spec_append_simplex(v, concept).level == v.level,
        spec_append_simplex(v, concept).fragments.len() == spec_promote_until(v).fragments.len()
            + 1,
        spec_append_simplex(v, concept).fragments.last() == (FragmentView::Simplex {
            concept,
            entries: Seq::empty(),
        }),
        spec_append_simplex(v, concept).scopes == spec_promote_until(v).scopes,
        v.relationship == Relationship::Contained ==> spec_append_simplex(v, concept).relationship
            == Relationship::Contained,
{
    lemma_spec_promote_until_wf(v);
    lemma_count_complex_push(
        spec_promote_until(v).fragments,
        FragmentView::Simplex { concept, entries: Seq::empty() },
    );
}

impl ScopeStack {
    /// Appends a complex fragment to the collection of fragments, together
    /// with the empty child scope it owns.
    pub fn append_complex(&mut self, concept: Boundary)
        requires
            old(self)@.wf(),
        ensures
            final(self)@ == spec_append_complex(old(self)@, concept),
            final(self)@.wf(),
    {
        self.necessarily_promote_last_fragments();

        let complex_fragment = Fragment::new_complex(concept, Vec::new());
        proof {
            assert(node_seq_view(Seq::<Node>::empty()) =~= Seq::<NodeView>::empty());
            lemma_fragment_seq_view_push(self.fragments@, complex_fragment);
            lemma_count_complex_push(
                self@.fragments,
                FragmentView::Complex { concept, entries: Seq::empty() },
            );
        }
        self.fragments.push(complex_fragment);
        let child_scope: Vec<Node> = Vec::new();
        proof {
            lemma_scope_seq_view_push(self.scopes@, child_scope);
        }
        self.scopes.push(child_scope);
    }

    /// Appends a simplex fragment to the collection of fragments.
    pub fn append_simplex(&mut self, concept: Boundary)
        requires
            old(self)@.wf(),
        ensures
            final(self)@ == spec_append_simplex(old(self)@, concept),
            final(self)@.wf(),
    {
        self.necessarily_promote_last_fragments();

        let simplex_fragment = Fragment::new_simplex(concept, Vec::new());
        proof {
            assert(node_seq_view(Seq::<Node>::empty()) =~= Seq::<NodeView>::empty());
            lemma_fragment_seq_view_push(self.fragments@, simplex_fragment);
            lemma_count_complex_push(
                self@.fragments,
                FragmentView::Simplex { concept, entries: Seq::empty() },
            );
        }
        self.fragments.push(simplex_fragment);
    }

    /// Appends an attacher to the collection of attached nodes in the last
    /// fragment, or places it as a standalone sibling when no fragment is
    /// open.
    pub fn append_attacher(&mut self, label: Boundary, content: Boundary)
        requires
            old(self)@.wf(),
        ensures
            final(self)@ == spec_append_attacher(old(self)@, label, content),
            final(self)@.wf(),
    {
        self.necessarily_promote_last_fragments();

        let node = Node::Attacher(label, content, Vec::new());
        proof {
            assert(node_seq_view(Seq::<Node>::empty()) =~= Seq::<NodeView>::empty());
            lemma_spec_push_to_preferred_relationship_wf(self@, node_view(node));
        }
        self.push_to_preferred_relationship(node);
    }

    /// Appends a line comment: to the most recent attacher when the last
    /// attach-eligible node was attached, to the last scope otherwise.
    pub fn append_line_comment(&mut self, comment: Boundary)
        requires
            old(self)@.wf(),
        ensures
            final(self)@ == spec_append_line_comment(old(self)@, comment),
            final(self)@.wf(),
    {
        if let Relationship::Contained = self.last_relationship {
            self.necessarily_promote_last_fragments();
        }

        let node = Node::LineComment(comment);
        proof {
            lemma_spec_push_to_preferred_relationship_wf(self@, node_view(node));
        }
        self.push_to_preferred_relationship(node);
    }

    /// Appends a block comment: to the most recent attacher when the last
    /// attach-eligible node was attached, to the last scope otherwise.
    pub fn append_block_comment(&mut self, comment_lines: Vec<Boundary>)
        requires
            old(self)@.wf(),
        ensures
            final(self)@ == spec_append_block_comment(old(self)@, comment_lines@),
            final(self)@.wf(),
    {
        if let Relationship::Contained = self.last_relationship {
            self.necessarily_promote_last_fragments();
        }

        let node = Node::BlockComment(comment_lines);
        proof {
            lemma_spec_push_to_preferred_relationship_wf(self@, node_view(node));
        }
        self.push_to_preferred_relationship(node);
    }

    /// Appends a line othertongue to the last scope, always as a standalone
    /// sibling.
    pub fn append_line_othertongue(&mut self, othertongue: Boundary)
        requires
            old(self)@.wf(),
        ensures
            final(self)@ == spec_append_line_othertongue(old(self)@, othertongue),
            final(self)@.wf(),
    {
        self.necessarily_promote_last_fragments();

        let node = Node::LineOthertongue(othertongue);
        proof {
            lemma_spec_push_to_preferred_relationship_wf(self@, node_view(node));
        }
        self.push_to_preferred_relationship(node);
    }

    /// Appends a block othertongue to the last scope, always as a standalone
    /// sibling.
    pub fn append_block_othertongue(&mut self, othertongue_lines: Vec<Boundary>)
        requires
            old(self)@.wf(),
        ensures
            final(self)@ == spec_append_block_othertongue(old(self)@, othertongue_lines@),
            final(self)@.wf(),
    {
        self.necessarily_promote_last_fragments();

        let node = Node::BlockOthertongue(othertongue_lines);
        proof {
            lemma_spec_push_to_preferred_relationship_wf(self@, node_view(node));
        }
        self.push_to_preferred_relationship(node);
    }
}

} // verus!
