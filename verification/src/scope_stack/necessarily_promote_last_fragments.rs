use vstd::prelude::*;
use crate::fragment::lemma_fragment_seq_view_len;
use crate::relationship::Relationship;
use crate::scope_stack::{ScopeStack, StackView};
use crate::scope_stack::promote_last_fragment::{lemma_spec_promote_wf, spec_promote};

verus! {

/// Flushing to the target depth: promote the innermost fragment until no
/// more fragments are open than the target level asks for. A stack already
/// at or below the target is left untouched.
pub open spec fn spec_promote_until(v: StackView) -> StackView
    decreases v.fragments.len(),
{
    if v.fragments.len() > v.level {
        spec_promote_until(spec_promote(v))
    } else {
        v
    }
}

/// Flushing preserves the structural invariant and the target level, and
/// stops exactly at the target: a deeper stack is cut to `level` open
/// fragments, a stack already at or below the target is unchanged.
pub proof fn lemma_spec_promote_until_wf(v: StackView)
    requires
        v.wf(),
    ensures
        spec_promote_until(v).wf(),
        spec_promote_until(v).level == v.level,
        spec_promote_until(v).fragments.len() <= v.fragments.len(),
        v.fragments.len() > v.level ==> spec_promote_until(v).fragments.len() == v.level,
        v.fragments.len() <= v.level ==> spec_promote_until(v) == v,
        v.relationship == Relationship::Contained ==> spec_promote_until(v).relationship
            == Relationship::Contained,
    decreases v.fragments.len(),
{
    if v.fragments.len() > v.level {
        lemma_spec_promote_wf(v);
        lemma_spec_promote_until_wf(spec_promote(v));
    }
}

impl ScopeStack {
    /// Promotes the innermost fragments until no more are open than the
    /// target level asks for.
    pub fn necessarily_promote_last_fragments(&mut self)
        requires
            old(self)@.wf(),
        ensures
            final(self)@ == spec_promote_until(old(self)@),
            final(self)@.wf(),
    {
        let ghost orig = self@;
        proof {
            lemma_fragment_seq_view_len(self.fragments@);
        }
        while self.fragments.len() > self.level
            invariant
                self@.wf(),
                self@.fragments.len() == self.fragments@.len(),
                self@.level == self.level as nat,
                spec_promote_until(self@) == spec_promote_until(orig),
            decreases self.fragments.len(),
        {
            self.promote_last_fragment();
            proof {
                lemma_fragment_seq_view_len(self.fragments@);
            }
        }
    }
}

} // verus!
