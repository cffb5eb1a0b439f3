use vstd::prelude::*;
use crate::scope_stack::{ScopeStack, StackView};
use crate::scope_stack::necessarily_promote_last_fragments::spec_promote_until;

verus! {

/// A scope-level announcement: the target level is replaced and the stack is
/// flushed until no more fragments are open than the new target asks for.
pub open spec fn spec_minimize(v: StackView, minimum_level: nat) -> StackView {
    spec_promote_until(StackView { level: minimum_level, ..v })
}

impl ScopeStack {
    /// Adopts a new target level and promotes fragments until the count of
    /// open fragments no longer exceeds it. Nesting is realized purely
    /// through these discrete depth announcements.
    pub fn minimize_scope_level_by(&mut self, minimum_level: usize)
        requires
            old(self)@.wf(),
        ensures
            final(self)@ == spec_minimize(old(self)@, minimum_level as nat),
            final(self)@.wf(),
    {
        self.level = minimum_level;
        self.necessarily_promote_last_fragments();
    }
}

} // verus!
