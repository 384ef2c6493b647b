//! Wildcards, quote-aware search and the order of match paths.
pub mod match_utils;
pub mod string_utils;
