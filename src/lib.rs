//! A small macro expansion engine for a shorthand aggregation-pipeline
//! query language: macros are registered from definitions such as
//! `$count{ $field }{ { $group: { _id: '$field' } } }` and invocations such as
//! `count:{branch}` in query text are replaced by their expanded bodies.
pub mod crawler;
pub mod diagnostic;
pub mod engine;
pub mod expansion;

pub use crawler::{render_tokens, tokenize, tokenize_with_spans, Span, Token};
pub use engine::ExpansionEngine;
pub use expansion::{Expansion, ExpansionBuildError, QueryError};
