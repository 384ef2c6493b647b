//! The steps of a concrete path into a document.
use vstd::prelude::*;

verus! {

/// A step into an object, by key.
#[derive(Debug, PartialEq, Clone)]
pub struct MatchKey {
    pub key: String,
    pub highlighted: bool,
}

/// A step into an array, by position.
#[derive(Debug, PartialEq, Clone)]
pub struct MatchIndex {
    pub index: usize,
    pub highlighted: bool,
}

/// One step of a match path. A step is highlighted when it was taken by consuming a
/// node of the pattern's path, and not highlighted when it was taken only to search
/// for a match further down.
#[derive(Debug, PartialEq, Clone)]
pub enum MatchNode {
    Key(MatchKey),
    Index(MatchIndex),
}

/// What a [`MatchNode`] denotes.
pub enum MatchNodeView {
    Key { key: Seq<char>, highlighted: bool },
    Index { index: usize, highlighted: bool },
}

impl MatchNodeView {
    /// Whether the step was taken by consuming a node of the pattern.
    pub open spec fn is_highlighted(self) -> bool {
        match self {
            MatchNodeView::Key { highlighted, .. } => highlighted,
            MatchNodeView::Index { highlighted, .. } => highlighted,
        }
    }
}

impl View for MatchNode {
    type V = MatchNodeView;

    open spec fn view(&self) -> MatchNodeView {
        match self {
            MatchNode::Key(k) => MatchNodeView::Key { key: k.key@, highlighted: k.highlighted },
            MatchNode::Index(i) => MatchNodeView::Index {
                index: i.index,
                highlighted: i.highlighted,
            },
        }
    }
}

impl DeepView for MatchNode {
    type V = MatchNodeView;

    open spec fn deep_view(&self) -> MatchNodeView {
        self@
    }
}

impl MatchNode {
    /// The key step, if this is one.
    pub fn as_key(&self) -> (r: Option<&MatchKey>)
        ensures
            match *self {
                MatchNode::Key(k) => r == Some(&k),
                _ => r is None,
            },
    {
        match self {
            MatchNode::Key(k) => Some(k),
            _ => None,
        }
    }

    /// The index step, if this is one.
    pub fn as_index(&self) -> (r: Option<&MatchIndex>)
        ensures
            match *self {
                MatchNode::Index(i) => r == Some(&i),
                _ => r is None,
            },
    {
        match self {
            MatchNode::Index(i) => Some(i),
            _ => None,
        }
    }

    /// Whether the step was taken by consuming a node of the pattern.
    pub fn is_highlighted(&self) -> (r: bool)
        ensures
            r == self@.is_highlighted(),
    {
        match self {
            MatchNode::Key(k) => k.highlighted,
            MatchNode::Index(i) => i.highlighted,
        }
    }

    /// A step into an object.
    pub fn new_key(key: String, highlighted: bool) -> (r: MatchNode)
        ensures
            r == MatchNode::Key(MatchKey { key, highlighted }),
            r@ == (MatchNodeView::Key { key: key@, highlighted }),
    {
        MatchNode::Key(MatchKey { key, highlighted })
    }

    /// A step into an array.
    pub fn new_index(index: usize, highlighted: bool) -> (r: MatchNode)
        ensures
            r == MatchNode::Index(MatchIndex { index, highlighted }),
            r@ == (MatchNodeView::Index { index, highlighted }),
    {
        MatchNode::Index(MatchIndex { index, highlighted })
    }

    /// A copy of this step.
    pub fn duplicate(&self) -> (r: MatchNode)
        ensures
            r@ == self@,
    {
        match self {
            MatchNode::Key(k) => MatchNode::Key(
                MatchKey { key: k.key.clone(), highlighted: k.highlighted },
            ),
            MatchNode::Index(i) => MatchNode::Index(
                MatchIndex { index: i.index, highlighted: i.highlighted },
            ),
        }
    }

    /// Whether two steps are the same step.
    pub fn same(&self, other: &MatchNode) -> (r: bool)
        ensures
            r == (self@ == other@),
    {
        match (self, other) {
            (MatchNode::Key(a), MatchNode::Key(b)) => a.highlighted == b.highlighted && a.key
                == b.key,
            (MatchNode::Index(a), MatchNode::Index(b)) => a.highlighted == b.highlighted
                && a.index == b.index,
            _ => false,
        }
    }
}

/// A copy of a match path.
pub fn duplicate_path(path: &Vec<MatchNode>) -> (r: Vec<MatchNode>)
    ensures
        r.deep_view() == path.deep_view(),
{
    let mut r: Vec<MatchNode> = Vec::new();
    let mut i: usize = 0;
    while i < path.len()
        invariant
            i <= path.len(),
            r.len() == i,
            forall|k: int| 0 <= k < i ==> r@[k]@ == path@[k]@,
        decreases path.len() - i,
    {
        r.push(path[i].duplicate());
        i += 1;
    }
    assert(r.deep_view() =~= path.deep_view());
    r
}

/// Whether two match paths are the same path.
pub fn same_path(a: &Vec<MatchNode>, b: &Vec<MatchNode>) -> (r: bool)
    ensures
        r == (a.deep_view() == b.deep_view()),
{
    if a.len() != b.len() {
        assert(a.deep_view().len() != b.deep_view().len());
        return false;
    }
    let mut i: usize = 0;
    while i < a.len()
        invariant
            i <= a.len(),
            a.len() == b.len(),
            forall|k: int| 0 <= k < i ==> a@[k]@ == b@[k]@,
        decreases a.len() - i,
    {
        if !a[i].same(&b[i]) {
            assert(a.deep_view()[i as int] != b.deep_view()[i as int]);
            return false;
        }
        i += 1;
    }
    assert(a.deep_view() =~= b.deep_view());
    true
}

} // verus!
