//! The nodes of a pattern's path.
use vstd::prelude::*;

verus! {

/// A selector over the positions of an array.
#[derive(Debug, PartialEq, Clone)]
pub enum IndexPattern {
    /// The half-open interval from the first number to the second; without a second
    /// number, to the end of the array.
    Range(usize, Option<usize>),
    /// Every position.
    All,
    /// The listed positions.
    List(Vec<usize>),
    /// The last so many positions of the array.
    LastN(usize),
}

/// One step of a pattern's path.
#[derive(Debug, PartialEq, Clone)]
pub enum PatternNode {
    /// A wildcard pattern for the keys of an object.
    Key(String),
    /// A selector for the positions of an array.
    Index(IndexPattern),
    /// Any number of intermediate levels, none included.
    Recursive(),
}

/// What an [`IndexPattern`] denotes.
pub enum IndexPatternView {
    Range(usize, Option<usize>),
    All,
    List(Seq<usize>),
    LastN(usize),
}

/// What a [`PatternNode`] denotes.
pub enum PatternNodeView {
    Key(Seq<char>),
    Index(IndexPatternView),
    Recursive,
}

impl IndexPatternView {
    /// Whether position `index` of an array of `len` elements is selected.
    pub open spec fn selects(self, index: int, len: int) -> bool {
        match self {
            IndexPatternView::Range(start, Some(end)) => start <= index < end,
            IndexPatternView::Range(start, None) => start <= index,
            IndexPatternView::All => true,
            IndexPatternView::List(indices) => indices.contains(index as usize),
            IndexPatternView::LastN(n) => index + n >= len,
        }
    }
}

impl View for IndexPattern {
    type V = IndexPatternView;

    open spec fn view(&self) -> IndexPatternView {
        match self {
            IndexPattern::Range(start, end) => IndexPatternView::Range(*start, *end),
            IndexPattern::All => IndexPatternView::All,
            IndexPattern::List(indices) => IndexPatternView::List(indices@),
            IndexPattern::LastN(n) => IndexPatternView::LastN(*n),
        }
    }
}

impl DeepView for IndexPattern {
    type V = IndexPatternView;

    open spec fn deep_view(&self) -> IndexPatternView {
        self@
    }
}

impl View for PatternNode {
    type V = PatternNodeView;

    open spec fn view(&self) -> PatternNodeView {
        match self {
            PatternNode::Key(key) => PatternNodeView::Key(key@),
            PatternNode::Index(index) => PatternNodeView::Index(index@),
            PatternNode::Recursive() => PatternNodeView::Recursive,
        }
    }
}

impl DeepView for PatternNode {
    type V = PatternNodeView;

    open spec fn deep_view(&self) -> PatternNodeView {
        self@
    }
}

impl PatternNode {
    /// The key pattern of a `Key` node.
    pub fn as_key(&self) -> (r: Option<&String>)
        ensures
            match *self {
                PatternNode::Key(key) => r == Some(&key),
                _ => r is None,
            },
    {
        match self {
            PatternNode::Key(k) => Some(k),
            _ => None,
        }
    }

    /// The selector of an `Index` node.
    pub fn as_index(&self) -> (r: Option<&IndexPattern>)
        ensures
            match *self {
                PatternNode::Index(index) => r == Some(&index),
                _ => r is None,
            },
    {
        match self {
            PatternNode::Index(i) => Some(i),
            _ => None,
        }
    }
}

impl IndexPattern {
    /// Whether position `index` of an array of `len` elements is selected. `LastN(n)`
    /// selects every position when the array has fewer than `n` elements.
    pub fn matches(&self, index: usize, len: usize) -> (r: bool)
        ensures
            r == self@.selects(index as int, len as int),
    {
        match self {
            IndexPattern::Range(start, end) => {
                match end {
                    Some(end) => index >= *start && index < *end,
                    None => index >= *start,
                }
            },
            IndexPattern::All => true,
            IndexPattern::List(indices) => {
                let mut i: usize = 0;
                while i < indices.len()
                    invariant
                        i <= indices.len(),
                        self@ == IndexPatternView::List(indices@),
                        forall|k: int| 0 <= k < i ==> indices@[k] != index,
                    decreases indices.len() - i,
                {
                    if indices[i] == index {
                        assert(indices@[i as int] == index);
                        return true;
                    }
                    i += 1;
                }
                false
            },
            IndexPattern::LastN(n) => {
                if *n >= len {
                    true
                } else {
                    index >= len - *n
                }
            },
        }
    }
}

} // verus!
