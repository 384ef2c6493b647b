//! The query language: tokens, parser and the parsed pattern.
pub mod parser;
pub mod pattern;
pub mod pattern_node;
pub mod tokenizer;

pub use pattern::Pattern;
