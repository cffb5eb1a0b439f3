use vstd::prelude::*;
use crate::boundary::Boundary;
use crate::node::NodeView;
use crate::token::TokenView;

verus! {

// The reference indentation machine: the standard indentation-tree law for
// streams of concept and depth tokens alone, written as directly as
// possible. Each depth announcement states how many ancestors the following
// concepts have; a concept closes everything deeper than that and opens
// itself; closing a concept makes it a node under the concept around it, or
// a root when none remains. The scope-stack engine is proved to build
// exactly this tree on such streams.

/// One open concept: its span, whether it may own children, and the
/// children gathered so far.
#[verifier::ext_equal]
pub struct OpenConcept {
    pub concept: Boundary,
    pub complex: bool,
    pub children: Seq<NodeView>,
}

/// The reference machine's state: the announced depth, the open ancestors
/// (outermost first), and the finished root nodes.
#[verifier::ext_equal]
pub struct ShapeState {
    pub level: nat,
    pub open_concepts: Seq<OpenConcept>,
    pub roots: Seq<NodeView>,
}

/// The node an open concept closes into.
pub open spec fn shape_node(o: OpenConcept) -> NodeView {
    if o.complex {
        NodeView::Complex { concept: o.concept, entries: Seq::empty(), children: o.children }
    } else {
        NodeView::Simplex { concept: o.concept, entries: Seq::empty() }
    }
}

/// Closing the innermost open concept: it becomes a node appended to the
/// children of the concept around it, or to the roots when none remains.
pub open spec fn shape_close_one(s: ShapeState) -> ShapeState {
    if s.open_concepts.len() == 0 {
        s
    } else {
        let node = shape_node(s.open_concepts.last());
        let rest = s.open_concepts.drop_last();
        if rest.len() == 0 {
            ShapeState { open_concepts: rest, roots: s.roots.push(node), ..s }
        } else {
            let parent = rest.last();
            ShapeState {
                open_concepts: rest.drop_last().push(
                    OpenConcept { children: parent.children.push(node), ..parent },
                ),
                ..s
            }
        }
    }
}

/// Closing until no more concepts are open than the announced depth.
pub open spec fn shape_close_until(s: ShapeState) -> ShapeState
    decreases s.open_concepts.len(),
{
    if s.open_concepts.len() > s.level {
        shape_close_until(shape_close_one(s))
    } else {
        s
    }
}

/// A concept token: close to the announced depth, then open the concept.
pub open spec fn shape_open(s: ShapeState, concept: Boundary, complex: bool) -> ShapeState {
    let closed = shape_close_until(s);
    ShapeState {
        open_concepts: closed.open_concepts.push(
            OpenConcept { concept, complex, children: Seq::empty() },
        ),
        ..closed
    }
}

/// One step of the reference machine. Only concept and depth tokens drive
/// it; every other token leaves it unchanged.
pub open spec fn shape_step(s: ShapeState, t: TokenView) -> ShapeState {
    match t {
        TokenView::Complex { concept } => shape_open(s, concept, true),
        TokenView::Simplex { concept } => shape_open(s, concept, false),
        TokenView::ScopeLevel { level } => shape_close_until(ShapeState { level, ..s }),
        _ => s,
    }
}

/// The reference machine's starting state.
pub open spec fn shape_init() -> ShapeState {
    ShapeState { level: 0, open_concepts: Seq::empty(), roots: Seq::empty() }
}

/// The state after consuming a whole token sequence.
pub open spec fn shape_run(s: ShapeState, tokens: Seq<TokenView>) -> ShapeState
    decreases tokens.len(),
{
    if tokens.len() == 0 {
        s
    } else {
        shape_step(shape_run(s, tokens.drop_last()), tokens.last())
    }
}

/// The finished tree: close everything still open and read the roots.
pub open spec fn shape_finalize(s: ShapeState) -> Seq<NodeView> {
    shape_close_until(ShapeState { level: 0, ..s }).roots
}

/// The indentation tree of a token sequence.
pub open spec fn shape_parse(tokens: Seq<TokenView>) -> Seq<NodeView> {
    shape_finalize(shape_run(shape_init(), tokens))
}

/// Whether a token is one of the three kinds a pure concept stream holds.
pub open spec fn concept_token(t: TokenView) -> bool {
    match t {
        TokenView::Complex { .. } => true,
        TokenView::Simplex { .. } => true,
        TokenView::ScopeLevel { .. } => true,
        _ => false,
    }
}

/// How many open concepts may own children.
pub open spec fn shape_complex_count(open_concepts: Seq<OpenConcept>) -> nat
    decreases open_concepts.len(),
{
    if open_concepts.len() == 0 {
        0
    } else {
        shape_complex_count(open_concepts.drop_last()) + if open_concepts.last().complex {
            1nat
        } else {
            0nat
        }
    }
}

pub proof fn lemma_shape_complex_count_push(open_concepts: Seq<OpenConcept>, o: OpenConcept)
    ensures
        shape_complex_count(open_concepts.push(o)) == shape_complex_count(open_concepts)
            + if o.complex {
            1nat
        } else {
            0nat
        },
{
    assert(open_concepts.push(o).drop_last() =~= open_concepts);
    assert(open_concepts.push(o).last() == o);
}

pub proof fn lemma_shape_complex_count_bound(open_concepts: Seq<OpenConcept>)
    ensures
        shape_complex_count(open_concepts) <= open_concepts.len(),
    decreases open_concepts.len(),
{
    if open_concepts.len() > 0 {
        lemma_shape_complex_count_bound(open_concepts.drop_last());
    }
}

/// Whether the token at the given position, if it is a depth announcement,
/// asks for no more ancestors than are open and able to own children there.
pub open spec fn level_ok(tokens: Seq<TokenView>, i: int) -> bool {
    match tokens[i] {
        TokenView::ScopeLevel { level } => level <= shape_complex_count(
            shape_run(shape_init(), tokens.take(i)).open_concepts,
        ),
        _ => true,
    }
}

/// A stream is leveled when every depth announcement asks for no more
/// ancestors than are open and able to own children at that point.
pub open spec fn leveled(tokens: Seq<TokenView>) -> bool {
    forall|i: int| 0 <= i < tokens.len() ==> #[trigger] level_ok(tokens, i)
}

} // verus!
