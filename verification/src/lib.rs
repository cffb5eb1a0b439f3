//! A scope-stack tree builder: turns a linear stream of classified tokens
//! from an indentation-structured notation into a hierarchical tree of nodes.
//!
//! Nesting is announced out-of-band by discrete scope-level tokens, so the
//! engine keeps a stack of provisional fragments (one per open nesting level)
//! and promotes each fragment into a finished node once a depth change, a new
//! sibling, or finalization resolves it.

pub mod boundary;
pub mod fragment;
pub mod indentation;
pub mod laws;
pub mod node;
pub mod parse;
pub mod relationship;
pub mod scope_stack;
pub mod token;

pub use boundary::Boundary;
pub use fragment::Fragment;
pub use node::Node;
pub use parse::parse;
pub use relationship::Relationship;
pub use scope_stack::ScopeStack;
pub use token::Token;
