use vstd::prelude::*;
use crate::boundary::Boundary;
use crate::fragment::{FragmentView, spec_attach};
use crate::node::NodeView;
use crate::relationship::Relationship;
use crate::scope_stack::StackView;
use crate::scope_stack::appenders::{lemma_spec_append_complex_wf, lemma_spec_append_simplex_wf,
    spec_append_attacher, spec_append_complex, spec_append_line_comment, spec_append_simplex};
use crate::scope_stack::minimize_scope_level_by::spec_minimize;
use crate::scope_stack::necessarily_promote_last_fragments::{
    lemma_spec_promote_until_wf, spec_promote_until,
};
use crate::scope_stack::count_complex;
use crate::indentation::{OpenConcept, ShapeState, shape_close_one, shape_close_until,
    shape_complex_count, shape_init, shape_node, shape_open, shape_parse, shape_run,
    concept_token, level_ok, leveled, lemma_shape_complex_count_bound, lemma_shape_complex_count_push};
use crate::scope_stack::promote_last_fragment::spec_promote;
use crate::scope_stack::initial_stack;
use crate::parse::{spec_parse, spec_run};
use crate::token::TokenView;

verus! {

/// Flushing to an already-satisfied target — no more fragments are open
/// than the level asks for — is a no-op: the state is left untouched.
pub proof fn lemma_flush_satisfied_target_is_noop(v: StackView)
    requires
        v.fragments.len() <= v.level,
    ensures
        spec_promote_until(v) == v,
{
}

/// Repeating a flush changes nothing: one flush already leaves no more
/// fragments open than the target level asks for.
pub proof fn lemma_flush_is_idempotent(v: StackView)
    requires
        v.wf(),
    ensures
        spec_promote_until(spec_promote_until(v)) == spec_promote_until(v),
{
    lemma_spec_promote_until_wf(v);
    lemma_flush_satisfied_target_is_noop(spec_promote_until(v));
}

/// An attacher arriving while the innermost fragment sits at the target
/// depth binds to that fragment's entries — with empty trailing comments —
/// and never becomes a sibling: every scope is left exactly as it was.
pub proof fn lemma_attacher_binds_to_open_fragment(v: StackView, label: Boundary, content: Boundary)
    requires
        v.wf(),
        0 < v.fragments.len() <= v.level,
    ensures
        ({
            let r = spec_append_attacher(v, label, content);
            let attacher = NodeView::Attacher { label, content, comments: Seq::empty() };
            &&& r.scopes == v.scopes
            &&& r.fragments.len() == v.fragments.len()
            &&& r.fragments.drop_last() == v.fragments.drop_last()
            &&& r.fragments.last() == v.fragments.last().with_entries(
                v.fragments.last().entries().push(attacher),
            )
            &&& r.relationship == Relationship::Attached
        }),
{
    lemma_flush_satisfied_target_is_noop(v);
    let attacher = NodeView::Attacher { label, content, comments: Seq::empty() };
    let updated = spec_attach(v.fragments.last(), attacher);
    assert(v.fragments.drop_last().push(updated).drop_last() =~= v.fragments.drop_last());
}

/// An attacher token immediately following a simplex token — with only a
/// scope-level announcement between them, one that keeps the fresh concept
/// open — becomes part of that concept's entries, never a sibling.
pub proof fn lemma_attacher_follows_fresh_simplex(
    v: StackView,
    concept: Boundary,
    target: nat,
    label: Boundary,
    content: Boundary,
)
    requires
        v.wf(),
        target >= spec_append_simplex(v, concept).fragments.len(),
    ensures
        ({
            let opened = spec_append_simplex(v, concept);
            let leveled = spec_minimize(opened, target);
            let r = spec_append_attacher(leveled, label, content);
            let attacher = NodeView::Attacher { label, content, comments: Seq::empty() };
            &&& r.fragments.last() == (FragmentView::Simplex {
                concept,
                entries: seq![attacher],
            })
            &&& r.scopes == opened.scopes
        }),
{
    lemma_spec_append_simplex_wf(v, concept);
    let opened = spec_append_simplex(v, concept);
    let attacher = NodeView::Attacher { label, content, comments: Seq::empty() };
    lemma_flush_satisfied_target_is_noop(StackView { level: target, ..opened });
    let leveled = spec_minimize(opened, target);
    lemma_attacher_binds_to_open_fragment(leveled, label, content);
    assert(Seq::<NodeView>::empty().push(attacher) =~= seq![attacher]);
}

/// An attacher token immediately following a complex token — with only a
/// scope-level announcement between them, one that keeps the fresh concept
/// open — becomes part of that concept's entries, never a sibling.
pub proof fn lemma_attacher_follows_fresh_complex(
    v: StackView,
    concept: Boundary,
    target: nat,
    label: Boundary,
    content: Boundary,
)
    requires
        v.wf(),
        target >= spec_append_complex(v, concept).fragments.len(),
    ensures
        ({
            let opened = spec_append_complex(v, concept);
            let leveled = spec_minimize(opened, target);
            let r = spec_append_attacher(leveled, label, content);
            let attacher = NodeView::Attacher { label, content, comments: Seq::empty() };
            &&& r.fragments.last() == (FragmentView::Complex {
                concept,
                entries: seq![attacher],
            })
            &&& r.scopes == opened.scopes
        }),
{
    lemma_spec_append_complex_wf(v, concept);
    let opened = spec_append_complex(v, concept);
    let attacher = NodeView::Attacher { label, content, comments: Seq::empty() };
    lemma_flush_satisfied_target_is_noop(StackView { level: target, ..opened });
    let leveled = spec_minimize(opened, target);
    lemma_attacher_binds_to_open_fragment(leveled, label, content);
    assert(Seq::<NodeView>::empty().push(attacher) =~= seq![attacher]);
}

/// A comment arriving while the relationship reads `Attached` — immediately
/// after an attacher, with no intervening token — joins that attacher's
/// trailing comments: no scope receives it, and no new entry is made.
pub proof fn lemma_comment_documents_preceding_attacher(v: StackView, line: Boundary)
    requires
        v.wf(),
        v.relationship == Relationship::Attached,
        v.fragments.last().entries().len() > 0,
        v.fragments.last().entries().last() is Attacher,
    ensures
        ({
            let r = spec_append_line_comment(v, line);
            let comment = NodeView::LineComment { line };
            &&& r.scopes == v.scopes
            &&& r.fragments.len() == v.fragments.len()
            &&& r.fragments.drop_last() == v.fragments.drop_last()
            &&& match v.fragments.last().entries().last() {
                NodeView::Attacher { label, content, comments } => r.fragments.last().entries()
                    == v.fragments.last().entries().drop_last().push(
                    NodeView::Attacher { label, content, comments: comments.push(comment) },
                ),
                _ => false,
            }
            &&& r.relationship == Relationship::Attached
        }),
{
    let r = spec_append_line_comment(v, line);
    let updated = r.fragments.last();
    assert(v.fragments.drop_last().push(updated).drop_last() =~= v.fragments.drop_last());
}

/// A comment token immediately following a bare concept — the relationship
/// reads `Contained`, so no attacher is waiting — becomes a standalone
/// sibling in the exposed scope; no fragment's entries receive it.
pub proof fn lemma_comment_after_bare_concept_is_sibling(
    v: StackView,
    concept: Boundary,
    line: Boundary,
)
    requires
        v.wf(),
        v.relationship == Relationship::Contained,
    ensures
        ({
            let opened = spec_append_simplex(v, concept);
            let flushed = spec_promote_until(opened);
            let r = spec_append_line_comment(opened, line);
            &&& r.fragments == flushed.fragments
            &&& r.scopes.last() == flushed.scopes.last().push(NodeView::LineComment { line })
            &&& r.scopes.drop_last() == flushed.scopes.drop_last()
            &&& r.relationship == Relationship::Contained
        }),
{
    lemma_spec_append_simplex_wf(v, concept);
    let opened = spec_append_simplex(v, concept);
    lemma_spec_promote_until_wf(opened);
    let flushed = spec_promote_until(opened);
    let comment = NodeView::LineComment { line };
    assert(flushed.scopes.drop_last().push(flushed.scopes.last().push(comment)).drop_last()
        =~= flushed.scopes.drop_last());
}

/// An attacher with no open fragment becomes a standalone root-level
/// attacher node — its trailing comments empty — and the relationship
/// marker stays `Contained`.
pub proof fn lemma_attacher_without_fragment_is_root_node(
    v: StackView,
    label: Boundary,
    content: Boundary,
)
    requires
        v.wf(),
        v.fragments.len() == 0,
    ensures
        ({
            let r = spec_append_attacher(v, label, content);
            &&& r.scopes.len() == 1
            &&& r.scopes.last() == v.scopes.last().push(
                NodeView::Attacher { label, content, comments: Seq::empty() },
            )
            &&& r.fragments.len() == 0
            &&& r.relationship == Relationship::Contained
        }),
{
    lemma_flush_satisfied_target_is_noop(v);
    let node = NodeView::Attacher { label, content, comments: Seq::empty() };
    assert(v.scopes.drop_last().push(v.scopes.last().push(node)).len() == v.scopes.len());
}

// What follows relates the engine to the reference indentation machine of
// `crate::indentation` and culminates in the law that, on streams of
// concept and depth tokens alone, the engine builds exactly the standard
// indentation tree.

/// The fragment the engine keeps for an open concept of the reference
/// machine: same span and kind, and no entries, since nothing in a pure
/// concept stream can attach.
pub open spec fn fragment_of(o: OpenConcept) -> FragmentView {
    if o.complex {
        FragmentView::Complex { concept: o.concept, entries: Seq::empty() }
    } else {
        FragmentView::Simplex { concept: o.concept, entries: Seq::empty() }
    }
}

/// How an engine state mirrors a reference state on a pure concept stream.
///
/// Levels agree; nothing is attached; each open concept of the reference
/// machine is an entry-less fragment of the same kind; only the innermost
/// open concept can be a simplex, and a simplex never holds children; the
/// root scope holds the reference machine's roots and each further scope
/// holds the children of the open complex concept that owns it.
pub open spec fn concept_rel(v: StackView, s: ShapeState) -> bool {
    &&& v.level == s.level
    &&& v.relationship == Relationship::Contained
    &&& v.fragments.len() == s.open_concepts.len()
    &&& (forall|i: int|
        0 <= i < s.open_concepts.len() ==> (#[trigger] v.fragments[i]) == fragment_of(
            s.open_concepts[i],
        ))
    &&& (forall|i: int|
        0 <= i < s.open_concepts.len() - 1 ==> (#[trigger] s.open_concepts[i]).complex)
    &&& (forall|i: int|
        0 <= i < s.open_concepts.len() ==> ((!(#[trigger] s.open_concepts[i]).complex)
            ==> s.open_concepts[i].children == Seq::<NodeView>::empty()))
    &&& v.scopes.len() == shape_complex_count(s.open_concepts) + 1
    &&& v.scopes[0] == s.roots
    &&& (forall|i: int|
        0 <= i < shape_complex_count(s.open_concepts) ==> (#[trigger] v.scopes[i + 1])
            == s.open_concepts[i].children)
}

/// The depth bookkeeping a run over a leveled stream maintains: the
/// announced depth never exceeds the open count, a fresh concept sits one
/// past the announced depth, and only a fresh concept can be a simplex.
pub open spec fn concept_inv(s: ShapeState) -> bool {
    &&& s.level <= s.open_concepts.len()
    &&& s.open_concepts.len() <= s.level + 1
    &&& (s.open_concepts.len() > 0 && !s.open_concepts.last().complex ==> s.open_concepts.len()
        == s.level + 1)
}

/// Pointwise-matching fragments and open concepts agree on how many may own
/// children.
pub proof fn lemma_counts_agree(fragments: Seq<FragmentView>, open_concepts: Seq<OpenConcept>)
    requires
        fragments.len() == open_concepts.len(),
        forall|i: int|
            0 <= i < open_concepts.len() ==> (#[trigger] fragments[i]) == fragment_of(
                open_concepts[i],
            ),
    ensures
        count_complex(fragments) == shape_complex_count(open_concepts),
    decreases fragments.len(),
{
    if fragments.len() > 0 {
        lemma_counts_agree(fragments.drop_last(), open_concepts.drop_last());
    }
}

/// When every open concept but the innermost is complex, the count of
/// complex concepts is the open count, less one when the innermost is a
/// simplex.
pub proof fn lemma_all_below_top_complex_count(open_concepts: Seq<OpenConcept>)
    requires
        open_concepts.len() > 0,
        forall|i: int| 0 <= i < open_concepts.len() - 1 ==> (#[trigger] open_concepts[i]).complex,
    ensures
        open_concepts.last().complex ==> shape_complex_count(open_concepts)
            == open_concepts.len(),
        !open_concepts.last().complex ==> shape_complex_count(open_concepts)
            == open_concepts.len() - 1,
    decreases open_concepts.len(),
{
    let rest = open_concepts.drop_last();
    if open_concepts.len() == 1 {
        assert(rest.len() == 0);
        assert(shape_complex_count(rest) == 0);
    }
    if open_concepts.len() > 1 {
        assert forall|i: int| 0 <= i < rest.len() - 1 implies (#[trigger] rest[i]).complex by {
            assert(rest[i] == open_concepts[i]);
        }
        lemma_all_below_top_complex_count(rest);
        assert(rest.last() == open_concepts[open_concepts.len() - 2]);
    }
}

/// One promotion mirrors one close: on related states, promoting the
/// engine's innermost fragment and closing the reference machine's
/// innermost open concept lead to related states again.
pub proof fn lemma_promote_mirrors_close(v: StackView, s: ShapeState)
    requires
        concept_rel(v, s),
        s.open_concepts.len() > 0,
    ensures
        concept_rel(spec_promote(v), shape_close_one(s)),
{
    let o = s.open_concepts.last();
    let n = s.open_concepts.len() as int;
    let cc = shape_complex_count(s.open_concepts) as int;
    let rest = s.open_concepts.drop_last();
    lemma_all_below_top_complex_count(s.open_concepts);
    assert(v.fragments[n - 1] == fragment_of(o));
    assert(v.fragments.last() == fragment_of(o));
    let r = spec_promote(v);
    let t = shape_close_one(s);

    if n == 1 {
        // The only open concept closes into the roots.
        assert(v.scopes[0] == s.roots);
        if o.complex {
            assert(v.scopes.last() == v.scopes[1]);
            assert(v.scopes[(1 - 1) + 1] == o.children);
            assert(r.scopes == v.scopes.drop_last().drop_last().push(s.roots.push(shape_node(o))));
            assert(r.scopes.len() == 1);
            assert(r.scopes[0] == s.roots.push(shape_node(o)));
        } else {
            assert(o.children == Seq::<NodeView>::empty());
            assert(v.scopes.len() == 1);
            assert(v.scopes.last() == s.roots);
            assert(r.scopes == v.scopes.drop_last().push(s.roots.push(shape_node(o))));
            assert(r.scopes.len() == 1);
            assert(r.scopes[0] == s.roots.push(shape_node(o)));
        }
        assert(t.open_concepts.len() == 0);
        assert(t.roots == s.roots.push(shape_node(o)));
        assert(shape_complex_count(t.open_concepts) == 0);
        assert(r.fragments.len() == 0);
    } else {
        let parent = rest.last();
        assert(parent == s.open_concepts[n - 2]);
        assert(parent.complex);
        let node = shape_node(o);
        let parent_updated = OpenConcept { children: parent.children.push(node), ..parent };
        assert(t.open_concepts == rest.drop_last().push(parent_updated));
        assert(t.roots == s.roots);
        assert(t.open_concepts.len() == n - 1);

        // The reference machine's open concepts after the close, pointwise.
        assert forall|i: int| 0 <= i < n - 2 implies #[trigger] t.open_concepts[i]
            == s.open_concepts[i] by {
            assert(t.open_concepts[i] == rest.drop_last()[i]);
            assert(rest.drop_last()[i] == rest[i]);
            assert(rest[i] == s.open_concepts[i]);
        }
        assert(t.open_concepts[n - 2] == parent_updated);
        assert forall|i: int| 0 <= i < n - 1 implies (#[trigger] t.open_concepts[i]).complex by {
            if i < n - 2 {
                assert(t.open_concepts[i] == s.open_concepts[i]);
            }
        }
        lemma_all_below_top_complex_count(t.open_concepts);
        assert(shape_complex_count(t.open_concepts) == n - 1);

        // The engine's view of the same close.
        if o.complex {
            assert(cc == n);
            assert(v.scopes.len() == n + 1);
            assert(v.scopes.last() == v.scopes[(n - 1) + 1]);
            assert(v.scopes[(n - 1) + 1] == o.children);
            assert(r.fragments == v.fragments.drop_last());
            assert(r.scopes == v.scopes.drop_last().drop_last().push(
                v.scopes.drop_last().last().push(node),
            ));
            assert(v.scopes.drop_last().last() == v.scopes[n - 1]);
            assert(v.scopes[(n - 2) + 1] == parent.children);
            assert(r.scopes.len() == n);
            assert forall|i: int| 0 <= i < n - 1 implies #[trigger] r.scopes[i] == v.scopes[i] by {
                assert(r.scopes[i] == v.scopes.drop_last().drop_last()[i]);
            }
            assert(r.scopes[n - 1] == parent.children.push(node));
        } else {
            assert(cc == n - 1);
            assert(o.children == Seq::<NodeView>::empty());
            assert(v.scopes.len() == n);
            assert(r.fragments == v.fragments.drop_last());
            assert(r.scopes == v.scopes.drop_last().push(v.scopes.last().push(node)));
            assert(v.scopes.last() == v.scopes[(n - 2) + 1]);
            assert(v.scopes[(n - 2) + 1] == parent.children);
            assert(r.scopes.len() == n);
            assert forall|i: int| 0 <= i < n - 1 implies #[trigger] r.scopes[i] == v.scopes[i] by {
                assert(r.scopes[i] == v.scopes.drop_last()[i]);
            }
            assert(r.scopes[n - 1] == parent.children.push(node));
        }

        // The related-state obligations, pointwise.
        assert(r.fragments.len() == n - 1);
        assert forall|i: int| 0 <= i < t.open_concepts.len() implies (#[trigger] r.fragments[i])
            == fragment_of(t.open_concepts[i]) by {
            assert(r.fragments[i] == v.fragments[i]);
            if i < n - 2 {
                assert(t.open_concepts[i] == s.open_concepts[i]);
            } else {
                assert(t.open_concepts[i] == parent_updated);
                assert(v.fragments[i] == fragment_of(parent));
            }
        }
        assert(r.scopes[0] == s.roots);
        assert forall|i: int| 0 <= i < shape_complex_count(t.open_concepts) implies (
        #[trigger] r.scopes[i + 1]) == t.open_concepts[i].children by {
            if i < n - 2 {
                assert(r.scopes[i + 1] == v.scopes[i + 1]);
                assert(v.scopes[i + 1] == s.open_concepts[i].children);
                assert(t.open_concepts[i] == s.open_concepts[i]);
            } else {
                assert(i == n - 2);
                assert(r.scopes[n - 1] == parent.children.push(node));
                assert(t.open_concepts[n - 2].children == parent.children.push(node));
            }
        }
    }
}

/// Flushing mirrors closing: related states flushed to the same announced
/// depth are related again. When the flush closes anything and leaves a
/// concept open, that concept can own children.
pub proof fn lemma_flush_mirrors_close_until(v: StackView, s: ShapeState)
    requires
        concept_rel(v, s),
    ensures
        concept_rel(spec_promote_until(v), shape_close_until(s)),
        shape_close_until(s).level == s.level,
        shape_close_until(s).open_concepts.len() <= s.open_concepts.len(),
        s.open_concepts.len() > s.level ==> {
            let closed = shape_close_until(s);
            &&& closed.open_concepts.len() == s.level
            &&& (closed.open_concepts.len() > 0 ==> closed.open_concepts.last().complex)
        },
        s.open_concepts.len() <= s.level ==> shape_close_until(s) == s && spec_promote_until(v)
            == v,
    decreases s.open_concepts.len(),
{
    if s.open_concepts.len() > s.level {
        let n = s.open_concepts.len() as int;
        lemma_promote_mirrors_close(v, s);
        if n >= 2 {
            assert(s.open_concepts[n - 2].complex);
            assert(shape_close_one(s).open_concepts.last()
                == OpenConcept {
                children: s.open_concepts[n - 2].children.push(shape_node(s.open_concepts.last())),
                ..s.open_concepts[n - 2]
            });
        }
        lemma_flush_mirrors_close_until(spec_promote(v), shape_close_one(s));
    }
}

/// A concept token mirrors an open: on related states with sound depth
/// bookkeeping, appending a concept fragment matches opening the concept in
/// the reference machine, and the bookkeeping stays sound.
pub proof fn lemma_open_mirrors(v: StackView, s: ShapeState, concept: Boundary, complex: bool)
    requires
        concept_rel(v, s),
        concept_inv(s),
    ensures
        complex ==> concept_rel(spec_append_complex(v, concept), shape_open(s, concept, true)),
        !complex ==> concept_rel(spec_append_simplex(v, concept), shape_open(s, concept, false)),
        concept_inv(shape_open(s, concept, complex)),
{
    lemma_flush_mirrors_close_until(v, s);
    let flushed = spec_promote_until(v);
    let closed = shape_close_until(s);
    assert(closed.open_concepts.len() > 0 ==> closed.open_concepts.last().complex) by {
        if s.open_concepts.len() <= s.level && s.open_concepts.len() > 0
            && !s.open_concepts.last().complex {
            assert(s.open_concepts.len() == s.level + 1);
        }
    }
    assert(closed.open_concepts.len() == s.level);
    assert forall|i: int| 0 <= i < closed.open_concepts.len() implies (
    #[trigger] closed.open_concepts[i]).complex by {
        if i < closed.open_concepts.len() - 1 {
        }
    }
    if closed.open_concepts.len() == 0 {
        assert(shape_complex_count(closed.open_concepts) == 0);
    } else {
        lemma_all_below_top_complex_count(closed.open_concepts);
    }
    assert(shape_complex_count(closed.open_concepts) == closed.open_concepts.len());
    let fresh = OpenConcept { concept, complex, children: Seq::empty() };
    lemma_shape_complex_count_push(closed.open_concepts, fresh);
    lemma_counts_agree(flushed.fragments, closed.open_concepts);

    let s2 = shape_open(s, concept, complex);
    assert(s2.open_concepts == closed.open_concepts.push(fresh));
    let cc = shape_complex_count(closed.open_concepts) as int;
    if complex {
        let v2 = spec_append_complex(v, concept);
        assert(v2.fragments == flushed.fragments.push(
            FragmentView::Complex { concept, entries: Seq::empty() },
        ));
        assert(v2.scopes == flushed.scopes.push(Seq::empty()));
        assert forall|i: int| 0 <= i < s2.open_concepts.len() implies (#[trigger] v2.fragments[i])
            == fragment_of(s2.open_concepts[i]) by {
            if i < cc {
                assert(v2.fragments[i] == flushed.fragments[i]);
                assert(s2.open_concepts[i] == closed.open_concepts[i]);
            }
        }
        assert forall|i: int| 0 <= i < shape_complex_count(s2.open_concepts) implies (
        #[trigger] v2.scopes[i + 1]) == s2.open_concepts[i].children by {
            if i < cc {
                assert(v2.scopes[i + 1] == flushed.scopes[i + 1]);
                assert(s2.open_concepts[i] == closed.open_concepts[i]);
            } else {
                assert(i == cc);
                assert(v2.scopes[cc + 1] == Seq::<NodeView>::empty());
            }
        }
        assert(v2.scopes[0] == closed.roots);
        assert(concept_rel(v2, s2));
    } else {
        let v2 = spec_append_simplex(v, concept);
        assert(v2.fragments == flushed.fragments.push(
            FragmentView::Simplex { concept, entries: Seq::empty() },
        ));
        assert(v2.scopes == flushed.scopes);
        assert forall|i: int| 0 <= i < s2.open_concepts.len() implies (#[trigger] v2.fragments[i])
            == fragment_of(s2.open_concepts[i]) by {
            if i < cc {
                assert(v2.fragments[i] == flushed.fragments[i]);
                assert(s2.open_concepts[i] == closed.open_concepts[i]);
            }
        }
        assert forall|i: int| 0 <= i < shape_complex_count(s2.open_concepts) implies (
        #[trigger] v2.scopes[i + 1]) == s2.open_concepts[i].children by {
            assert(i < cc);
            assert(s2.open_concepts[i] == closed.open_concepts[i]);
        }
        assert(concept_rel(v2, s2));
    }
}

/// A depth token mirrors a close-to-depth: on related states with sound
/// bookkeeping, a leveled depth announcement leads to related states with
/// sound bookkeeping again.
pub proof fn lemma_depth_mirrors(v: StackView, s: ShapeState, target: nat)
    requires
        concept_rel(v, s),
        concept_inv(s),
        target <= shape_complex_count(s.open_concepts),
    ensures
        concept_rel(
            spec_minimize(v, target),
            shape_close_until(ShapeState { level: target, ..s }),
        ),
        concept_inv(shape_close_until(ShapeState { level: target, ..s })),
{
    let vl = StackView { level: target, ..v };
    let sl = ShapeState { level: target, ..s };
    assert(concept_rel(vl, sl));
    lemma_shape_complex_count_bound(s.open_concepts);
    lemma_flush_mirrors_close_until(vl, sl);
    let closed = shape_close_until(sl);
    assert(closed.open_concepts.len() == target);
    assert(closed.open_concepts.len() > 0 ==> closed.open_concepts.last().complex) by {
        if sl.open_concepts.len() <= target && s.open_concepts.len() > 0
            && !s.open_concepts.last().complex {
            lemma_all_below_top_complex_count(s.open_concepts);
        }
    }
}

/// Running the engine and the reference machine over one leveled concept
/// stream keeps their states related and the depth bookkeeping sound.
pub proof fn lemma_concept_stream_simulation(tokens: Seq<TokenView>)
    requires
        forall|i: int| 0 <= i < tokens.len() ==> concept_token(#[trigger] tokens[i]),
        leveled(tokens),
    ensures
        concept_rel(spec_run(initial_stack(), tokens), shape_run(shape_init(), tokens)),
        concept_inv(shape_run(shape_init(), tokens)),
    decreases tokens.len(),
{
    if tokens.len() == 0 {
        let v = initial_stack();
        let s = shape_init();
        assert(v.scopes[0] == Seq::<NodeView>::empty());
        assert(shape_complex_count(s.open_concepts) == 0);
        assert(concept_rel(v, s));
    } else {
        let prefix = tokens.drop_last();
        let last = tokens.last();
        assert forall|i: int| 0 <= i < prefix.len() implies concept_token(
            #[trigger] prefix[i],
        ) by {
            assert(prefix[i] == tokens[i]);
        }
        assert forall|i: int| 0 <= i < prefix.len() implies #[trigger] level_ok(prefix, i) by {
            assert(level_ok(tokens, i));
            assert(prefix[i] == tokens[i]);
            assert(prefix.take(i) =~= tokens.take(i));
        }
        lemma_concept_stream_simulation(prefix);
        let v1 = spec_run(initial_stack(), prefix);
        let s1 = shape_run(shape_init(), prefix);
        assert(concept_token(tokens[tokens.len() - 1]));
        match last {
            TokenView::Complex { concept } => {
                lemma_open_mirrors(v1, s1, concept, true);
            },
            TokenView::Simplex { concept } => {
                lemma_open_mirrors(v1, s1, concept, false);
            },
            TokenView::ScopeLevel { level } => {
                assert(level_ok(tokens, tokens.len() - 1));
                assert(tokens.take(tokens.len() - 1) =~= prefix);
                lemma_depth_mirrors(v1, s1, level);
            },
            _ => {
                assert(false);
            },
        }
    }
}

/// For token streams of concepts and depth announcements alone, the engine
/// builds exactly the standard indentation tree: the one the reference
/// machine of `crate::indentation` describes, where each depth value states
/// how many ancestors the following concepts have.
pub proof fn lemma_concept_stream_builds_indentation_tree(tokens: Seq<TokenView>)
    requires
        forall|i: int| 0 <= i < tokens.len() ==> concept_token(#[trigger] tokens[i]),
        leveled(tokens),
    ensures
        spec_parse(tokens) == shape_parse(tokens),
{
    lemma_concept_stream_simulation(tokens);
    let v = spec_run(initial_stack(), tokens);
    let s = shape_run(shape_init(), tokens);
    let vl = StackView { level: 0, ..v };
    let sl = ShapeState { level: 0, ..s };
    assert(concept_rel(vl, sl));
    lemma_flush_mirrors_close_until(vl, sl);
    let vf = spec_promote_until(vl);
    let sf = shape_close_until(sl);
    assert(vf.fragments.len() == 0);
    assert(shape_complex_count(sf.open_concepts) == 0);
    assert(vf.scopes.len() == 1);
    assert(vf.scopes.last() == vf.scopes[0]);
}

} // verus!
