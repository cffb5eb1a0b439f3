use vstd::prelude::*;
use crate::boundary::Boundary;

verus! {

/// A classified lexical token, the engine's only input.
///
/// Every variant but `ScopeLevel` carries boundary data; `ScopeLevel` carries
/// the target nesting depth for the tokens that follow it.
#[derive(Debug, PartialEq)]
pub enum Token {
    /// Opens a concept able to own nested children.
    Complex(Boundary),
    /// Opens a leaf concept.
    Simplex(Boundary),
    /// A label/content pair for the innermost open concept.
    Attacher(Boundary, Boundary),
    /// Announces the nesting depth of the tokens that follow.
    ScopeLevel(usize),
    /// Single-line comment.
    LineComment(Boundary),
    /// Multi-line comment: one span per line.
    BlockComment(Vec<Boundary>),
    /// Single line of foreign-language content.
    LineOthertongue(Boundary),
    /// Multi-line block of foreign-language content.
    BlockOthertongue(Vec<Boundary>),
}

/// The mathematical shape of a `Token`.
#[verifier::ext_equal]
pub enum TokenView {
    Complex { concept: Boundary },
    Simplex { concept: Boundary },
    Attacher { label: Boundary, content: Boundary },
    ScopeLevel { level: nat },
    LineComment { line: Boundary },
    BlockComment { block: Seq<Boundary> },
    LineOthertongue { line: Boundary },
    BlockOthertongue { block: Seq<Boundary> },
}

/// Abstracts a token to its mathematical shape.
pub open spec fn token_view(t: Token) -> TokenView {
    match t {
        Token::Complex(concept) => TokenView::Complex { concept },
        Token::Simplex(concept) => TokenView::Simplex { concept },
        Token::Attacher(label, content) => TokenView::Attacher { label, content },
        Token::ScopeLevel(level) => TokenView::ScopeLevel { level: level as nat },
        Token::LineComment(line) => TokenView::LineComment { line },
        Token::BlockComment(block) => TokenView::BlockComment { block: block@ },
        Token::LineOthertongue(line) => TokenView::LineOthertongue { line },
        Token::BlockOthertongue(block) => TokenView::BlockOthertongue { block: block@ },
    }
}

/// Abstracts a sequence of tokens elementwise.
pub open spec fn token_seq_view(s: Seq<Token>) -> Seq<TokenView> {
    Seq::new(s.len(), |i: int| token_view(s[i]))
}

} // verus!
