use vstd::prelude::*;
use crate::node::{Node, NodeView, node_seq_view};
use crate::scope_stack::{ScopeStack, StackView, initial_stack};
use crate::scope_stack::appenders::{spec_append_attacher, spec_append_block_comment,
    spec_append_block_othertongue, spec_append_complex, spec_append_line_comment,
    spec_append_line_othertongue, spec_append_simplex};
use crate::scope_stack::finalize::spec_finalize;
use crate::scope_stack::minimize_scope_level_by::spec_minimize;
use crate::token::{Token, TokenView, token_seq_view, token_view};

verus! {

/// One engine step: the transition the given token causes.
pub open spec fn spec_step(v: StackView, t: TokenView) -> StackView {
    match t {
        TokenView::Complex { concept } => spec_append_complex(v, concept),
        TokenView::Simplex { concept } => spec_append_simplex(v, concept),
        TokenView::Attacher { label, content } => spec_append_attacher(v, label, content),
        TokenView::ScopeLevel { level } => spec_minimize(v, level),
        TokenView::LineComment { line } => spec_append_line_comment(v, line),
        TokenView::BlockComment { block } => spec_append_block_comment(v, block),
        TokenView::LineOthertongue { line } => spec_append_line_othertongue(v, line),
        TokenView::BlockOthertongue { block } => spec_append_block_othertongue(v, block),
    }
}

/// The state after consuming a whole token sequence, one step per token.
pub open spec fn spec_run(v: StackView, tokens: Seq<TokenView>) -> StackView
    decreases tokens.len(),
{
    if tokens.len() == 0 {
        v
    } else {
        spec_step(spec_run(v, tokens.drop_last()), tokens.last())
    }
}

/// The tree a token sequence parses to: run the engine from its initial
/// state over every token in order, then collapse what is still open.
pub open spec fn spec_parse(tokens: Seq<TokenView>) -> Seq<NodeView> {
    spec_finalize(spec_run(initial_stack(), tokens))
}

/// Returns the collection of root nodes built from the token stream.
///
/// Each token is consumed in order and handed to the scope stack's append
/// operation for its kind; at stream end everything still open is collapsed
/// and the root scope is returned.
pub fn parse(tokens: Vec<Token>) -> (nodes: Vec<Node>)
    ensures
        node_seq_view(nodes@) == spec_parse(token_seq_view(tokens@)),
{
    let ghost all_tokens = tokens@;
    let mut remaining = tokens;
    let mut scope_stack = ScopeStack::new();

    while remaining.len() > 0
        invariant
            scope_stack@.wf(),
            remaining@.len() <= all_tokens.len(),
            remaining@ == all_tokens.subrange(
                all_tokens.len() - remaining@.len(),
                all_tokens.len() as int,
            ),
            scope_stack@ == spec_run(
                initial_stack(),
                token_seq_view(all_tokens).take(all_tokens.len() - remaining@.len()),
            ),
        decreases remaining@.len(),
    {
        let ghost done = all_tokens.len() - remaining@.len();
        let token = remaining.remove(0);
        proof {
            assert(token == all_tokens[done]);
            assert(remaining@ =~= all_tokens.subrange(done + 1, all_tokens.len() as int));
            assert(token_seq_view(all_tokens).take(done + 1).drop_last()
                =~= token_seq_view(all_tokens).take(done));
            assert(token_seq_view(all_tokens).take(done + 1).last() == token_view(token));
        }
        match token {
            Token::Complex(concept) => scope_stack.append_complex(concept),
            Token::Attacher(label, content) => scope_stack.append_attacher(label, content),
            Token::Simplex(concept) => scope_stack.append_simplex(concept),
            Token::ScopeLevel(level) => scope_stack.minimize_scope_level_by(level),
            Token::LineComment(line) => scope_stack.append_line_comment(line),
            Token::BlockComment(block) => scope_stack.append_block_comment(block),
            Token::LineOthertongue(line) => scope_stack.append_line_othertongue(line),
            Token::BlockOthertongue(block) => scope_stack.append_block_othertongue(block),
        }
    }
    proof {
        assert(token_seq_view(all_tokens).take(all_tokens.len() as int)
            =~= token_seq_view(all_tokens));
    }
    scope_stack.finalize()
}

} // verus!
