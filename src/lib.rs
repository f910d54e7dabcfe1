//! A character-classification tokenizer core: classified runs of code points,
//! with pluggable classification, skip and grouping policy, and two scanning
//! engines (an in-memory one and an incrementally fed one) that agree.

mod classifier;
mod config;
mod inline;
pub mod laws;
pub mod scan;
mod stream;
mod token;

pub use classifier::{no_custom_eq_is_equality, Classifier, DefaultClassifier, NoCustom};
pub use config::Config;
pub use inline::LexerInline;
pub use stream::{LexerStream, Pull};
pub use token::{classify_base, BaseKind, Token, TokenKind};
