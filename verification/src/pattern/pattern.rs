//! The parsed form of a query.
use crate::errors::parsing_error::ParsingError;
use crate::pattern::parser::{no_double_descent, parse, parsed, pattern_of};
use crate::pattern::pattern_node::{PatternNode, PatternNodeView};
use vstd::prelude::*;

verus! {

/// A parsed query: a path to follow, a wildcard pattern for the value found there, and
/// two flags.
#[derive(Debug, PartialEq, Clone)]
pub struct Pattern {
    /// The steps to match, outermost first.
    pub path: Vec<PatternNode>,
    /// A wildcard pattern for scalar values.
    pub value: Option<String>,
    /// A location matches if its path matches or its value does, not only if both do.
    pub or: bool,
    /// The path must match from the root of the document on.
    pub start_at_root: bool,
}

/// What a [`Pattern`] denotes.
pub struct PatternView {
    pub path: Seq<PatternNodeView>,
    pub value: Option<Seq<char>>,
    pub or: bool,
    pub start_at_root: bool,
}

impl View for Pattern {
    type V = PatternView;

    open spec fn view(&self) -> PatternView {
        PatternView {
            path: self.path.deep_view(),
            value: self.value.deep_view(),
            or: self.or,
            start_at_root: self.start_at_root,
        }
    }
}

impl DeepView for Pattern {
    type V = PatternView;

    open spec fn deep_view(&self) -> PatternView {
        self@
    }
}

impl Pattern {
    /// Parses a query.
    pub fn parse(pattern_str: &str) -> (r: Result<Pattern, ParsingError>)
        ensures
            parsed(r) == pattern_of(pattern_str@),
            r is Ok ==> no_double_descent(r->Ok_0@.path),
    {
        parse(pattern_str)
    }
}

} // verus!
