//! The document model: a JSON value as a tree of plain values.
use crate::matcher::match_node::{MatchNode, MatchNodeView};
use vstd::prelude::*;

verus! {

/// A JSON value. A number is held as its canonical text; the entries of an object are
/// held in insertion order.
#[derive(Debug, PartialEq)]
pub enum Json {
    Null,
    Bool(bool),
    Number(String),
    String(String),
    Array(Vec<Json>),
    Object(Vec<(String, Json)>),
}

/// What a [`Json`] denotes.
pub enum JsonView {
    Null,
    Bool(bool),
    Number(Seq<char>),
    String(Seq<char>),
    Array(Seq<JsonView>),
    Object(Seq<EntryView>),
}

/// What an entry of an object denotes.
pub struct EntryView {
    pub key: Seq<char>,
    pub value: JsonView,
}

impl View for Json {
    type V = JsonView;

    open spec fn view(&self) -> JsonView
        decreases self,
    {
        match self {
            Json::Null => JsonView::Null,
            Json::Bool(b) => JsonView::Bool(*b),
            Json::Number(text) => JsonView::Number(text@),
            Json::String(text) => JsonView::String(text@),
            Json::Array(items) => JsonView::Array(
                Seq::new(
                    items@.len(),
                    |i: int|
                        if 0 <= i < items@.len() {
                            items@[i]@
                        } else {
                            JsonView::Null
                        },
                ),
            ),
            Json::Object(entries) => JsonView::Object(
                Seq::new(
                    entries@.len(),
                    |i: int|
                        if 0 <= i < entries@.len() {
                            EntryView { key: entries@[i].0@, value: entries@[i].1@ }
                        } else {
                            EntryView { key: Seq::empty(), value: JsonView::Null }
                        },
                ),
            ),
        }
    }
}

/// The view of an array is the sequence of the views of its elements.
pub proof fn lemma_array_view(json: Json)
    requires
        json is Array,
    ensures
        json@ is Array,
        json@->Array_0.len() == json->Array_0@.len(),
        forall|i: int| 0 <= i < json->Array_0@.len() ==> json@->Array_0[i] == json->Array_0@[i]@,
{
}

/// The view of an object is the sequence of its entries' keys and views, in order.
pub proof fn lemma_object_view(json: Json)
    requires
        json is Object,
    ensures
        json@ is Object,
        json@->Object_0.len() == json->Object_0@.len(),
        forall|i: int|
            0 <= i < json->Object_0@.len() ==> json@->Object_0[i] == (EntryView {
                key: json->Object_0@[i].0@,
                value: json->Object_0@[i].1@,
            }),
{
}

impl JsonView {
    /// Whether this is an array or an object.
    pub open spec fn is_container(self) -> bool {
        self is Array || self is Object
    }

    /// The number of elements of an array or of entries of an object; zero for a scalar.
    pub open spec fn child_count(self) -> nat {
        match self {
            JsonView::Array(items) => items.len(),
            JsonView::Object(entries) => entries.len(),
            _ => 0,
        }
    }

    /// The `i`-th element or entry value.
    pub open spec fn child(self, i: int) -> JsonView {
        match self {
            JsonView::Array(items) => items[i],
            JsonView::Object(entries) => entries[i].value,
            _ => JsonView::Null,
        }
    }
}

/// The position of the first of `entries` whose key is `key`, or `entries.len()` where
/// there is none.
pub open spec fn entry_position(entries: Seq<EntryView>, key: Seq<char>) -> int
    decreases entries.len(),
{
    if entries.len() == 0 {
        0
    } else if entries[0].key == key {
        0
    } else {
        1 + entry_position(entries.drop_first(), key)
    }
}

/// Where `entry_position` points: at the first entry with the key, with no such entry before
/// it, or behind the last entry.
pub proof fn lemma_entry_position(entries: Seq<EntryView>, key: Seq<char>)
    ensures
        0 <= entry_position(entries, key) <= entries.len(),
        entry_position(entries, key) < entries.len() ==> entries[entry_position(entries, key)].key
            == key,
        forall|i: int| 0 <= i < entry_position(entries, key) ==> entries[i].key != key,
    decreases entries.len(),
{
    if entries.len() > 0 && entries[0].key != key {
        lemma_entry_position(entries.drop_first(), key);
        assert forall|i: int| 0 <= i < entry_position(entries, key) implies entries[i].key
            != key by {
            if i > 0 {
                assert(entries.drop_first()[i - 1] == entries[i]);
            }
        }
    }
}

/// Whether no two of `entries` have the same key.
pub open spec fn distinct_keys(entries: Seq<EntryView>) -> bool {
    forall|i: int, j: int| 0 <= i < j < entries.len() ==> entries[i].key != entries[j].key
}

impl JsonView {
    /// Whether no object of the document has two entries with the same key, and the
    /// positions of every array can be counted by the machine.
    pub open spec fn well_formed(self) -> bool
        decreases self,
    {
        match self {
            JsonView::Array(items) => items.len() <= usize::MAX && forall|i: int|
                0 <= i < items.len() ==> (#[trigger] items[i]).well_formed(),
            JsonView::Object(entries) => distinct_keys(entries) && forall|i: int|
                0 <= i < entries.len() ==> (#[trigger] entries[i]).value.well_formed(),
            _ => true,
        }
    }

    /// The position of the child that `step` leads to, where there is one: an index
    /// step into an array, below its length; a key step into an object that has the key.
    pub open spec fn child_position(self, step: MatchNodeView) -> Option<int> {
        match (self, step) {
            (JsonView::Array(items), MatchNodeView::Index { index, .. }) => if index
                < items.len() {
                Some(index as int)
            } else {
                None
            },
            (JsonView::Object(entries), MatchNodeView::Key { key, .. }) => if entry_position(
                entries,
                key,
            ) < entries.len() {
                Some(entry_position(entries, key))
            } else {
                None
            },
            _ => None,
        }
    }

    /// The value that `path` leads to from here, where every step of it exists.
    pub open spec fn value_at(self, path: Seq<MatchNodeView>) -> Option<JsonView>
        decreases path.len(),
    {
        if path.len() == 0 {
            Some(self)
        } else {
            match self.child_position(path[0]) {
                Some(i) => self.child(i).value_at(path.drop_first()),
                None => None,
            }
        }
    }
}

/// The children of a well-formed document are well-formed.
pub proof fn lemma_child_well_formed(json: JsonView, i: int)
    requires
        json.well_formed(),
        0 <= i < json.child_count(),
    ensures
        json.child(i).well_formed(),
{
    match json {
        JsonView::Array(items) => {
            assert(items[i].well_formed());
        },
        JsonView::Object(entries) => {
            assert(entries[i].value.well_formed());
        },
        _ => {},
    }
}

impl Json {
    /// Whether this is an array or an object.
    pub fn is_container(&self) -> (r: bool)
        ensures
            r == self@.is_container(),
    {
        match self {
            Json::Array(_) => true,
            Json::Object(_) => true,
            _ => false,
        }
    }

    /// Whether no object of the document has two entries with the same key.
    pub fn is_well_formed(&self) -> (r: bool)
        ensures
            r == self@.well_formed(),
        decreases self,
    {
        match self {
            Json::Array(items) => {
                proof {
                    lemma_array_view(*self);
                }
                let ghost views = self@->Array_0;
                let mut i: usize = 0;
                while i < items.len()
                    invariant
                        i <= items.len(),
                        decreases_to!(self => items),
                        self@ == JsonView::Array(views),
                        views.len() == items.len(),
                        forall|k: int| 0 <= k < items.len() ==> views[k] == items@[k]@,
                        forall|k: int| 0 <= k < i ==> (#[trigger] views[k]).well_formed(),
                    decreases items.len() - i,
                {
                    if !items[i].is_well_formed() {
                        assert(!views[i as int].well_formed());
                        return false;
                    }
                    i += 1;
                }
                true
            },
            Json::Object(entries) => {
                proof {
                    lemma_object_view(*self);
                }
                let ghost views = self@->Object_0;
                let mut i: usize = 0;
                while i < entries.len()
                    invariant
                        i <= entries.len(),
                        decreases_to!(self => entries),
                        self@ == JsonView::Object(views),
                        views.len() == entries.len(),
                        forall|k: int|
                            0 <= k < entries.len() ==> views[k] == (EntryView {
                                key: entries@[k].0@,
                                value: entries@[k].1@,
                            }),
                        forall|k: int| 0 <= k < i ==> (#[trigger] views[k]).value.well_formed(),
                        forall|k: int, m: int| 0 <= k < m < i ==> views[k].key != views[m].key,
                    decreases entries.len() - i,
                {
                    if !entries[i].1.is_well_formed() {
                        assert(!views[i as int].value.well_formed());
                        return false;
                    }
                    let mut k: usize = 0;
                    while k < i
                        invariant
                            k <= i < entries.len(),
                            self@ == JsonView::Object(views),
                            views.len() == entries.len(),
                            forall|j: int|
                                0 <= j < entries.len() ==> views[j] == (EntryView {
                                    key: entries@[j].0@,
                                    value: entries@[j].1@,
                                }),
                            forall|j: int| 0 <= j < k ==> views[j].key != views[i as int].key,
                        decreases i - k,
                    {
                        if entries[k].0 == entries[i].0 {
                            assert(views[k as int].key == views[i as int].key);
                            return false;
                        }
                        k += 1;
                    }
                    i += 1;
                }
                true
            },
            _ => true,
        }
    }

    /// The child that `step` leads to, where there is one.
    pub fn get(&self, step: &MatchNode) -> (r: Option<&Json>)
        ensures
            match self@.child_position(step@) {
                Some(i) => r is Some && r->0@ == self@.child(i),
                None => r is None,
            },
    {
        match (self, step) {
            (Json::Array(items), MatchNode::Index(match_i)) => {
                proof {
                    lemma_array_view(*self);
                }
                if match_i.index < items.len() {
                    Some(&items[match_i.index])
                } else {
                    None
                }
            },
            (Json::Object(entries), MatchNode::Key(match_k)) => {
                proof {
                    lemma_object_view(*self);
                }
                let ghost views = self@->Object_0;
                let mut i: usize = 0;
                assert(views.skip(0) =~= views);
                while i < entries.len()
                    invariant
                        i <= entries.len(),
                        self@ == JsonView::Object(views),
                        step@ is Key,
                        step@->Key_key == match_k.key@,
                        views.len() == entries.len(),
                        forall|k: int|
                            0 <= k < entries.len() ==> views[k] == (EntryView {
                                key: entries@[k].0@,
                                value: entries@[k].1@,
                            }),
                        entry_position(views, match_k.key@) == i + entry_position(
                            views.skip(i as int),
                            match_k.key@,
                        ),
                    decreases entries.len() - i,
                {
                    assert(views.skip(i as int)[0] == views[i as int]);
                    if entries[i].0 == match_k.key {
                        return Some(&entries[i].1);
                    }
                    assert(views.skip(i as int).drop_first() =~= views.skip(i as int + 1));
                    i += 1;
                }
                None
            },
            _ => None,
        }
    }

    /// The value that `path` leads to, where every step of it exists.
    pub fn lookup(&self, path: &[MatchNode]) -> (r: Option<&Json>)
        ensures
            match self@.value_at(path.deep_view()) {
                Some(value) => r is Some && r->0@ == value,
                None => r is None,
            },
    {
        let mut current = self;
        let mut i: usize = 0;
        let ghost whole = path.deep_view();
        assert(whole.skip(0) =~= whole);
        while i < path.len()
            invariant
                i <= path.len(),
                whole == path.deep_view(),
                self@.value_at(whole) == current@.value_at(whole.skip(i as int)),
            decreases path.len() - i,
        {
            assert(whole.skip(i as int)[0] == path@[i as int]@);
            assert(whole.skip(i as int).drop_first() =~= whole.skip(i as int + 1));
            match current.get(&path[i]) {
                Some(child) => {
                    current = child;
                },
                None => {
                    return None;
                },
            }
            i += 1;
        }
        Some(current)
    }

    /// Whether every step of `path` exists in this document.
    pub fn resolves(&self, path: &[MatchNode]) -> (r: bool)
        ensures
            r == self@.value_at(path.deep_view()) is Some,
    {
        self.lookup(path).is_some()
    }
}

} // verus!
