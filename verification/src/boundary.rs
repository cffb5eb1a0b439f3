use vstd::prelude::*;

verus! {

/// A reference to a span of source text: a pair of byte offsets, never the
/// decoded content itself. Compared by value.
#[derive(Clone, Copy, Debug, PartialEq, Eq, Structural)]
pub struct Boundary {
    pub start: usize,
    pub end: usize,
}

impl Boundary {
    /// Builds the span reference covering `start..end`.
    pub fn new(start: usize, end: usize) -> (b: Boundary)
        ensures
            b == (Boundary { start, end }),
    {
        Boundary { start, end }
    }
}

} // verus!
