//! A small backtracking regular-expression library: parsing, matching,
//! capture groups, substitution, splitting and escaping.
pub mod error;
pub mod text;
pub mod escape;
pub mod syntax;
pub mod engine;
pub mod grammar;
pub mod parser;
pub mod template;
pub mod regex;

pub use error::{CompileReason, RegexError, SyntaxReason};
pub use regex::{PyRegex, PyRegexMatch};
