//! GBNF grammar-constrained decoding: a GBNF grammar parser and the
//! nondeterministic pushdown matcher that decides which tokens may come next.

pub mod engine;
pub mod error;
pub mod gbnf;
pub mod language;
pub mod laws;
pub mod matcher;
pub mod parse;
pub mod recursion;
pub mod state;
pub mod symbols;
pub mod text;
pub mod types;

pub use error::GrammarError;
pub use state::{Grammar, GrammarState};
pub use types::{Element, ElementType};
