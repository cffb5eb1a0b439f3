use vstd::prelude::*;

verus! {

/// Records whether the most recently appended attach-eligible node was bound
/// into a fragment (`Attached`) or placed as a tree sibling (`Contained`).
///
/// This two-state marker exists solely to resolve where the next comment
/// token lands: a comment is the only token whose placement depends on
/// history rather than on the current structure alone.
#[derive(Clone, Copy, Debug, PartialEq, Eq, Structural)]
pub enum Relationship {
    Contained,
    Attached,
}

} // verus!
