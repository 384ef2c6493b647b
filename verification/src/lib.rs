//! A query engine that locates substructures of a JSON document with a compact
//! path/value pattern language.
//!
//! A query is parsed into a [`pattern::Pattern`] by [`pattern::parser::parse`]. The
//! matching engine, [`matcher::match_pattern`], walks a [`json::Json`] document and
//! gives the paths of the matches, in the order of the walk. The renderers under
//! [`printers`] write the matches as lines or as one pruned tree.
pub mod errors;
pub mod json;
pub mod matcher;
pub mod output;
pub mod pattern;
pub mod printers;
pub mod stream;
pub mod text;
pub mod utils;
