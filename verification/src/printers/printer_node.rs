//! The print tree: the part of a document that the tree renderer shows.
use crate::json::{lemma_array_view, lemma_object_view, EntryView, Json, JsonView};
use crate::matcher::match_node::{MatchNode, MatchNodeView};
use crate::text::{chars_to_string, push_str};
use vstd::prelude::*;

verus! {

/// A node of the print tree. It has the shape of the JSON value that it was made for,
/// with only some of the children. The children of an array are held in ascending
/// order of their positions, those of an object in the order in which they came in.
#[derive(Debug)]
pub enum PrinterNode {
    Array { vec: Vec<(usize, PrinterNode)>, highlighted: bool },
    Object { map: Vec<(String, PrinterNode)>, highlighted: bool },
    Value { val: String, highlighted: bool },
}

/// A child of an array node, with its position in the array.
pub struct ArraySlot {
    pub index: usize,
    pub node: PrinterNodeView,
}

/// A child of an object node, with its key.
pub struct ObjectSlot {
    pub key: Seq<char>,
    pub node: PrinterNodeView,
}

/// What a [`PrinterNode`] denotes.
pub enum PrinterNodeView {
    Array { slots: Seq<ArraySlot>, highlighted: bool },
    Object { fields: Seq<ObjectSlot>, highlighted: bool },
    Value { val: Seq<char>, highlighted: bool },
}

/// An empty text that is not marked.
pub open spec fn blank_node() -> PrinterNodeView {
    PrinterNodeView::Value { val: Seq::empty(), highlighted: false }
}

/// What the children of an array node denote.
pub open spec fn array_slots(vec: Seq<(usize, PrinterNode)>) -> Seq<ArraySlot>
    decreases vec,
{
    Seq::new(
        vec.len(),
        |i: int|
            if 0 <= i < vec.len() {
                ArraySlot { index: vec[i].0, node: vec[i].1@ }
            } else {
                ArraySlot { index: 0, node: blank_node() }
            },
    )
}

/// What the children of an object node denote.
pub open spec fn object_slots(map: Seq<(String, PrinterNode)>) -> Seq<ObjectSlot>
    decreases map,
{
    Seq::new(
        map.len(),
        |i: int|
            if 0 <= i < map.len() {
                ObjectSlot { key: map[i].0@, node: map[i].1@ }
            } else {
                ObjectSlot { key: Seq::empty(), node: blank_node() }
            },
    )
}

impl View for PrinterNode {
    type V = PrinterNodeView;

    open spec fn view(&self) -> PrinterNodeView
        decreases self,
    {
        match self {
            PrinterNode::Array { vec, highlighted } => PrinterNodeView::Array {
                slots: array_slots(vec@),
                highlighted: *highlighted,
            },
            PrinterNode::Object { map, highlighted } => PrinterNodeView::Object {
                fields: object_slots(map@),
                highlighted: *highlighted,
            },
            PrinterNode::Value { val, highlighted } => PrinterNodeView::Value {
                val: val@,
                highlighted: *highlighted,
            },
        }
    }
}

impl PrinterNodeView {
    /// The mark of the node.
    pub open spec fn is_highlighted(self) -> bool {
        match self {
            PrinterNodeView::Array { highlighted, .. } => highlighted,
            PrinterNodeView::Object { highlighted, .. } => highlighted,
            PrinterNodeView::Value { highlighted, .. } => highlighted,
        }
    }

    /// This node with its mark set to `h`.
    pub open spec fn with_highlight(self, h: bool) -> PrinterNodeView {
        match self {
            PrinterNodeView::Array { slots, .. } => PrinterNodeView::Array { slots, highlighted: h },
            PrinterNodeView::Object { fields: slots, .. } => PrinterNodeView::Object {
                fields: slots,
                highlighted: h,
            },
            PrinterNodeView::Value { val, .. } => PrinterNodeView::Value { val, highlighted: h },
        }
    }
}

/// The node that stands for `json` before any child is put in: an empty array or
/// object, or the text of a scalar, a string between double quotes as it is.
pub open spec fn fresh_node(json: JsonView) -> PrinterNodeView {
    match json {
        JsonView::Array(_) => PrinterNodeView::Array { slots: Seq::empty(), highlighted: false },
        JsonView::Object(_) => PrinterNodeView::Object { fields: Seq::empty(), highlighted: false },
        JsonView::String(text) => PrinterNodeView::Value {
            val: seq!['"'] + text + seq!['"'],
            highlighted: false,
        },
        JsonView::Number(text) => PrinterNodeView::Value { val: text, highlighted: false },
        JsonView::Bool(b) => PrinterNodeView::Value {
            val: if b {
                "true"@
            } else {
                "false"@
            },
            highlighted: false,
        },
        JsonView::Null => PrinterNodeView::Value {
            val: "null"@,
            highlighted: false,
        },
    }
}

/// The position at which a child with position `index` stands or belongs: that of the
/// first slot whose index is not below `index`.
pub open spec fn index_position(slots: Seq<ArraySlot>, index: usize) -> int
    decreases slots.len(),
{
    if slots.len() == 0 || slots[0].index >= index {
        0
    } else {
        1 + index_position(slots.drop_first(), index)
    }
}

/// The position of the first slot whose key is `key`, or the number of slots where
/// there is none.
pub open spec fn key_position(slots: Seq<ObjectSlot>, key: Seq<char>) -> int
    decreases slots.len(),
{
    if slots.len() == 0 || slots[0].key == key {
        0
    } else {
        1 + key_position(slots.drop_first(), key)
    }
}

/// Where `index_position` points: behind the slots with a smaller index.
pub proof fn lemma_index_position(slots: Seq<ArraySlot>, index: usize)
    ensures
        0 <= index_position(slots, index) <= slots.len(),
        forall|k: int| 0 <= k < index_position(slots, index) ==> slots[k].index < index,
        index_position(slots, index) < slots.len() ==> slots[index_position(slots, index)].index
            >= index,
    decreases slots.len(),
{
    if slots.len() > 0 && slots[0].index < index {
        lemma_index_position(slots.drop_first(), index);
        assert forall|k: int| 0 <= k < index_position(slots, index) implies slots[k].index
            < index by {
            if k > 0 {
                assert(slots.drop_first()[k - 1] == slots[k]);
            }
        }
    }
}

/// Where `key_position` points: at the first slot with the key, or behind the last.
pub proof fn lemma_key_position(slots: Seq<ObjectSlot>, key: Seq<char>)
    ensures
        0 <= key_position(slots, key) <= slots.len(),
        forall|k: int| 0 <= k < key_position(slots, key) ==> slots[k].key != key,
        key_position(slots, key) < slots.len() ==> slots[key_position(slots, key)].key == key,
    decreases slots.len(),
{
    if slots.len() > 0 && slots[0].key != key {
        lemma_key_position(slots.drop_first(), key);
        assert forall|k: int| 0 <= k < key_position(slots, key) implies slots[k].key != key by {
            if k > 0 {
                assert(slots.drop_first()[k - 1] == slots[k]);
            }
        }
    }
}

/// Whether a child with position `index` is among `slots`.
pub open spec fn has_index(slots: Seq<ArraySlot>, index: usize) -> bool {
    index_position(slots, index) < slots.len() && slots[index_position(slots, index)].index
        == index
}

/// `slots` with `node` as the child of `key`: in place of the child that `key` had, or
/// at the end.
pub open spec fn put_key(slots: Seq<ObjectSlot>, key: Seq<char>, node: PrinterNodeView) -> Seq<
    ObjectSlot,
> {
    if key_position(slots, key) < slots.len() {
        slots.update(key_position(slots, key), ObjectSlot { key, node })
    } else {
        slots.push(ObjectSlot { key, node })
    }
}

/// The whole of `json` as a print tree, nothing marked. The children of an object
/// stand in the order of its entries.
pub open spec fn full_node(json: JsonView) -> PrinterNodeView
    decreases json, 0int,
{
    match json {
        JsonView::Array(items) => PrinterNodeView::Array {
            slots: full_array_slots(items),
            highlighted: false,
        },
        JsonView::Object(entries) => PrinterNodeView::Object {
            fields: filled_slots(Seq::empty(), entries, entries.len() as int),
            highlighted: false,
        },
        _ => fresh_node(json),
    }
}

/// Every element of `items` as a child, whole.
pub open spec fn full_array_slots(items: Seq<JsonView>) -> Seq<ArraySlot>
    decreases items, 0int,
{
    Seq::new(
        items.len(),
        |i: int|
            if 0 <= i < items.len() {
                ArraySlot { index: i as usize, node: full_node(items[i]) }
            } else {
                ArraySlot { index: 0, node: blank_node() }
            },
    )
}

/// `slots` after the first `n` of `entries` have been put in, whole, one after the
/// other.
pub open spec fn filled_slots(slots: Seq<ObjectSlot>, entries: Seq<EntryView>, n: int) -> Seq<
    ObjectSlot,
>
    decreases entries, n,
{
    if n <= 0 || n > entries.len() {
        slots
    } else {
        put_key(
            filled_slots(slots, entries, n - 1),
            entries[n - 1].key,
            full_node(entries[n - 1].value),
        )
    }
}

impl PrinterNodeView {
    /// Whether this node can have the child that `step` names: an array takes a
    /// position, an object a key.
    pub open spec fn takes(self, step: MatchNodeView) -> bool {
        (self is Array && step is Index) || (self is Object && step is Key)
    }

    /// Whether this is an array or an object node.
    pub open spec fn is_container(self) -> bool {
        self is Array || self is Object
    }

    /// Whether this node is of the kind of `json`: array, object, or neither.
    pub open spec fn same_kind(self, json: JsonView) -> bool {
        (self is Array <==> json is Array) && (self is Object <==> json is Object)
    }

    /// The number of children.
    pub open spec fn slot_count(self) -> int {
        match self {
            PrinterNodeView::Array { slots, .. } => slots.len() as int,
            PrinterNodeView::Object { fields: slots, .. } => slots.len() as int,
            _ => 0,
        }
    }

    /// The position among the children at which the child that `step` names stands,
    /// or at which it belongs where it is missing.
    pub open spec fn slot_of(self, step: MatchNodeView) -> int {
        match (self, step) {
            (PrinterNodeView::Array { slots, .. }, MatchNodeView::Index { index, .. }) =>
                index_position(slots, index),
            (PrinterNodeView::Object { fields: slots, .. }, MatchNodeView::Key { key, .. }) =>
                key_position(slots, key),
            _ => 0,
        }
    }

    /// Whether the child that `step` names is there.
    pub open spec fn has_child(self, step: MatchNodeView) -> bool {
        match (self, step) {
            (PrinterNodeView::Array { slots, .. }, MatchNodeView::Index { index, .. }) => has_index(
                slots,
                index,
            ),
            (PrinterNodeView::Object { fields: slots, .. }, MatchNodeView::Key { key, .. }) => key_position(
                slots,
                key,
            ) < slots.len(),
            _ => false,
        }
    }

    /// This node with the child that `step` names: as it is where the child is there,
    /// else with `fresh` put in, into an array where its position belongs, into an
    /// object at the end.
    pub open spec fn with_child(self, step: MatchNodeView, fresh: PrinterNodeView) -> PrinterNodeView {
        if self.has_child(step) {
            self
        } else {
            match (self, step) {
                (
                    PrinterNodeView::Array { slots, highlighted },
                    MatchNodeView::Index { index, .. },
                ) => PrinterNodeView::Array {
                    slots: slots.insert(
                        index_position(slots, index),
                        ArraySlot { index, node: fresh },
                    ),
                    highlighted,
                },
                (
                    PrinterNodeView::Object { fields: slots, highlighted },
                    MatchNodeView::Key { key, .. },
                ) => PrinterNodeView::Object {
                    fields: slots.push(ObjectSlot { key, node: fresh }),
                    highlighted,
                },
                _ => self,
            }
        }
    }

    /// The child at position `pos`.
    pub open spec fn node_at(self, pos: int) -> PrinterNodeView {
        match self {
            PrinterNodeView::Array { slots, .. } => slots[pos].node,
            PrinterNodeView::Object { fields: slots, .. } => slots[pos].node,
            _ => blank_node(),
        }
    }

    /// This node with `node` as the child at position `pos`.
    pub open spec fn with_node_at(self, pos: int, node: PrinterNodeView) -> PrinterNodeView {
        match self {
            PrinterNodeView::Array { slots, highlighted } => PrinterNodeView::Array {
                slots: slots.update(pos, ArraySlot { index: slots[pos].index, node }),
                highlighted,
            },
            PrinterNodeView::Object { fields: slots, highlighted } => PrinterNodeView::Object {
                fields: slots.update(pos, ObjectSlot { key: slots[pos].key, node }),
                highlighted,
            },
            _ => self,
        }
    }

    /// This node after the whole of `json` has been put in. An array gets every
    /// element of `json` as a child, in place of the children it had for them; an
    /// object gets every entry, each in place of the child its key had or at the end.
    /// The children are whole and not marked; the node's own mark stays.
    pub open spec fn filled(self, json: JsonView) -> PrinterNodeView {
        match (self, json) {
            (PrinterNodeView::Array { slots, highlighted }, JsonView::Array(items)) =>
                PrinterNodeView::Array {
                    slots: full_array_slots(items) + slots.skip(
                        index_position(slots, items.len() as usize),
                    ),
                    highlighted,
                },
            (PrinterNodeView::Object { fields: slots, highlighted }, JsonView::Object(entries)) =>
                PrinterNodeView::Object {
                    fields: filled_slots(slots, entries, entries.len() as int),
                    highlighted,
                },
            _ => self,
        }
    }
}

/// Whether the children of an array node stand in ascending order of their
/// positions, so that no position has two children.
pub open spec fn slots_ordered(slots: Seq<ArraySlot>) -> bool {
    forall|k: int, m: int| 0 <= k < m < slots.len() ==> slots[k].index < slots[m].index
}

/// Whether no two children of an object node have the same key.
pub open spec fn keys_distinct(fields: Seq<ObjectSlot>) -> bool {
    forall|k: int, m: int| 0 <= k < m < fields.len() ==> fields[k].key != fields[m].key
}

impl PrinterNodeView {
    /// The invariant of the print tree: in every array node the children stand in
    /// ascending order of their positions, and in every object node no key occurs
    /// twice.
    pub open spec fn well_formed(self) -> bool
        decreases self,
    {
        match self {
            PrinterNodeView::Array { slots, .. } => slots_ordered(slots) && forall|k: int|
                0 <= k < slots.len() ==> (#[trigger] slots[k]).node.well_formed(),
            PrinterNodeView::Object { fields, .. } => keys_distinct(fields) && forall|k: int|
                0 <= k < fields.len() ==> (#[trigger] fields[k]).node.well_formed(),
            PrinterNodeView::Value { .. } => true,
        }
    }
}

/// Putting a child into the children of an object node keeps their keys distinct.
pub proof fn lemma_put_key_well_formed(fields: Seq<ObjectSlot>, key: Seq<char>, node: PrinterNodeView)
    requires
        keys_distinct(fields),
        forall|k: int| 0 <= k < fields.len() ==> (#[trigger] fields[k]).node.well_formed(),
        node.well_formed(),
    ensures
        keys_distinct(put_key(fields, key, node)),
        forall|k: int|
            0 <= k < put_key(fields, key, node).len() ==> (#[trigger] put_key(
                fields,
                key,
                node,
            )[k]).node.well_formed(),
{
    lemma_key_position(fields, key);
    let p = key_position(fields, key);
    let after = put_key(fields, key, node);
    assert forall|k: int| 0 <= k < after.len() implies (#[trigger] after[k]).node.well_formed() by {
        if k != p {
            assert(after[k] == fields[k]);
        }
    }
    assert forall|k: int, m: int| 0 <= k < m < after.len() implies after[k].key != after[m].key by {
        if k != p && k < fields.len() {
            assert(after[k] == fields[k]);
        }
        if m != p && m < fields.len() {
            assert(after[m] == fields[m]);
        }
    }
}

/// Making sure of a child keeps a tree well-formed.
pub proof fn lemma_with_child_well_formed(
    node: PrinterNodeView,
    step: MatchNodeView,
    fresh: PrinterNodeView,
)
    requires
        node.well_formed(),
        fresh.well_formed(),
    ensures
        node.with_child(step, fresh).well_formed(),
{
    match (node, step) {
        (PrinterNodeView::Array { slots, highlighted }, MatchNodeView::Index { index, .. }) => {
            lemma_index_position(slots, index);
            let p = index_position(slots, index);
            if !has_index(slots, index) {
                let after = slots.insert(p, ArraySlot { index, node: fresh });
                assert forall|k: int| 0 <= k < after.len() implies (
                #[trigger] after[k]).node.well_formed() by {
                    if k < p {
                        assert(after[k] == slots[k]);
                    } else if k > p {
                        assert(after[k] == slots[k - 1]);
                    }
                }
                assert forall|k: int, m: int| 0 <= k < m < after.len() implies after[k].index
                    < after[m].index by {
                    if k < p {
                        assert(after[k] == slots[k]);
                    } else if k > p {
                        assert(after[k] == slots[k - 1]);
                    }
                    if m < p {
                        assert(after[m] == slots[m]);
                    } else if m > p {
                        assert(after[m] == slots[m - 1]);
                        if p < slots.len() {
                            assert(slots[p].index <= slots[m - 1].index);
                        }
                    }
                }
            }
        },
        (PrinterNodeView::Object { fields, highlighted }, MatchNodeView::Key { key, .. }) => {
            lemma_key_position(fields, key);
            if key_position(fields, key) >= fields.len() {
                let after = fields.push(ObjectSlot { key, node: fresh });
                assert forall|k: int| 0 <= k < after.len() implies (
                #[trigger] after[k]).node.well_formed() by {
                    if k < fields.len() {
                        assert(after[k] == fields[k]);
                    }
                }
            }
        },
        _ => {},
    }
}

/// Replacing a child by a well-formed tree keeps a tree well-formed.
pub proof fn lemma_with_node_at_well_formed(node: PrinterNodeView, pos: int, child: PrinterNodeView)
    requires
        node.well_formed(),
        child.well_formed(),
        0 <= pos < node.slot_count(),
    ensures
        node.with_node_at(pos, child).well_formed(),
        node.node_at(pos).well_formed(),
{
    match node {
        PrinterNodeView::Array { slots, highlighted } => {
            let after = slots.update(pos, ArraySlot { index: slots[pos].index, node: child });
            assert forall|k: int| 0 <= k < after.len() implies (
            #[trigger] after[k]).node.well_formed() by {
                if k != pos {
                    assert(after[k] == slots[k]);
                }
            }
            assert forall|k: int, m: int| 0 <= k < m < after.len() implies after[k].index
                < after[m].index by {
                assert(after[k].index == slots[k].index);
                assert(after[m].index == slots[m].index);
            }
            assert(slots[pos].node.well_formed());
        },
        PrinterNodeView::Object { fields, highlighted } => {
            let after = fields.update(pos, ObjectSlot { key: fields[pos].key, node: child });
            assert forall|k: int| 0 <= k < after.len() implies (
            #[trigger] after[k]).node.well_formed() by {
                if k != pos {
                    assert(after[k] == fields[k]);
                }
            }
            assert forall|k: int, m: int| 0 <= k < m < after.len() implies after[k].key
                != after[m].key by {
                assert(after[k].key == fields[k].key);
                assert(after[m].key == fields[m].key);
            }
            assert(fields[pos].node.well_formed());
        },
        _ => {},
    }
}

/// The whole of a container is what filling its empty node gives.
pub proof fn lemma_full_is_filled(json: JsonView)
    requires
        json.is_container(),
    ensures
        full_node(json) == fresh_node(json).filled(json),
{
    if let JsonView::Array(items) = json {
        let empty = Seq::<ArraySlot>::empty();
        assert(full_array_slots(items) + empty.skip(index_position(empty, items.len() as usize))
            =~= full_array_slots(items));
    }
}

/// The position at which a child with position `index` stands or belongs.
fn find_index(vec: &Vec<(usize, PrinterNode)>, index: usize) -> (pos: usize)
    ensures
        pos == index_position(array_slots(vec@), index),
        pos <= vec.len(),
{
    let ghost slots = array_slots(vec@);
    let mut pos: usize = 0;
    assert(slots.skip(0) =~= slots);
    while pos < vec.len() && vec[pos].0 < index
        invariant
            pos <= vec.len(),
            slots == array_slots(vec@),
            index_position(slots, index) == pos + index_position(slots.skip(pos as int), index),
        decreases vec.len() - pos,
    {
        assert(slots.skip(pos as int)[0] == slots[pos as int]);
        assert(slots.skip(pos as int).drop_first() =~= slots.skip(pos as int + 1));
        pos += 1;
    }
    proof {
        if pos < vec.len() {
            assert(slots.skip(pos as int)[0] == slots[pos as int]);
        }
    }
    pos
}

/// The position of the child of `key`, or the number of children.
fn find_key(map: &Vec<(String, PrinterNode)>, key: &String) -> (pos: usize)
    ensures
        pos == key_position(object_slots(map@), key@),
        pos <= map.len(),
{
    let ghost slots = object_slots(map@);
    let mut pos: usize = 0;
    assert(slots.skip(0) =~= slots);
    while pos < map.len() && !(map[pos].0 == *key)
        invariant
            pos <= map.len(),
            slots == object_slots(map@),
            key_position(slots, key@) == pos + key_position(slots.skip(pos as int), key@),
        decreases map.len() - pos,
    {
        assert(slots.skip(pos as int)[0] == slots[pos as int]);
        assert(slots.skip(pos as int).drop_first() =~= slots.skip(pos as int + 1));
        pos += 1;
    }
    proof {
        if pos < map.len() {
            assert(slots.skip(pos as int)[0] == slots[pos as int]);
        }
    }
    pos
}

/// The whole of `value` as a print tree, nothing marked.
pub fn full_tree(value: &Json) -> (r: PrinterNode)
    ensures
        r@ == full_node(value@),
        r@.well_formed(),
    decreases value, 1int,
{
    let mut node = PrinterNode::new_printed_node_for(value);
    match value {
        Json::Array(_) | Json::Object(_) => {
            proof {
                lemma_full_is_filled(value@);
            }
            node.insert_full(value);
        },
        _ => {},
    }
    node
}

impl PrinterNode {
    /// The node that stands for `value` before any child is put in.
    pub fn new_printed_node_for(value: &Json) -> (r: PrinterNode)
        ensures
            r@ == fresh_node(value@),
            r@.well_formed(),
    {
        match value {
            Json::Array(_) => {
                let vec: Vec<(usize, PrinterNode)> = Vec::new();
                let r = PrinterNode::Array { vec, highlighted: false };
                assert(array_slots(vec@) =~= Seq::empty());
                r
            },
            Json::Object(_) => {
                let map: Vec<(String, PrinterNode)> = Vec::new();
                let r = PrinterNode::Object { map, highlighted: false };
                assert(object_slots(map@) =~= Seq::empty());
                r
            },
            Json::String(s) => {
                let mut val: Vec<char> = Vec::new();
                val.push('"');
                push_str(&mut val, s.as_str());
                val.push('"');
                assert(val@ =~= seq!['"'] + s@ + seq!['"']);
                PrinterNode::Value { val: chars_to_string(val.as_slice()), highlighted: false }
            },
            Json::Number(n) => PrinterNode::Value { val: n.clone(), highlighted: false },
            Json::Bool(b) => {
                if *b {
                    PrinterNode::Value { val: "true".to_owned(), highlighted: false }
                } else {
                    PrinterNode::Value { val: "false".to_owned(), highlighted: false }
                }
            },
            Json::Null => PrinterNode::Value { val: "null".to_owned(), highlighted: false },
        }
    }

    /// Sets the mark of this node.
    pub fn set_highlight(&mut self, h: bool)
        ensures
            final(self)@ == old(self)@.with_highlight(h),
            old(self)@.well_formed() ==> final(self)@.well_formed(),
    {
        match self {
            PrinterNode::Array { vec: _, highlighted } => *highlighted = h,
            PrinterNode::Object { map: _, highlighted } => *highlighted = h,
            PrinterNode::Value { val: _, highlighted } => *highlighted = h,
        }
    }
    /// Whether this is an array or an object node.
    pub fn is_container(&self) -> (r: bool)
        ensures
            r == self@.is_container(),
    {
        match self {
            PrinterNode::Array { .. } => true,
            PrinterNode::Object { .. } => true,
            PrinterNode::Value { .. } => false,
        }
    }

    /// Makes sure that the child that `path_node` names is there, putting in the empty
    /// node for `value` where it is missing, and gives the position of the child
    /// among the children.
    pub fn get_or_insert(&mut self, path_node: &MatchNode, value: &Json) -> (pos: usize)
        requires
            old(self)@.takes(path_node@),
        ensures
            final(self)@ == old(self)@.with_child(path_node@, fresh_node(value@)),
            pos == old(self)@.slot_of(path_node@),
            pos < final(self)@.slot_count(),
            old(self)@.well_formed() ==> final(self)@.well_formed(),
    {
        proof {
            if old(self)@.well_formed() {
                lemma_with_child_well_formed(old(self)@, path_node@, fresh_node(value@));
            }
        }
        match (self, path_node) {
            (PrinterNode::Array { vec, highlighted: _ }, MatchNode::Index(match_i)) => {
                let ghost slots = array_slots(vec@);
                let pos = find_index(vec, match_i.index);
                if pos < vec.len() && vec[pos].0 == match_i.index {
                    pos
                } else {
                    let fresh = Self::new_printed_node_for(value);
                    vec.insert(pos, (match_i.index, fresh));
                    assert(array_slots(vec@) =~= slots.insert(
                        pos as int,
                        ArraySlot { index: match_i.index, node: fresh@ },
                    ));
                    pos
                }
            },
            (PrinterNode::Object { map, highlighted: _ }, MatchNode::Key(match_k)) => {
                let ghost slots = object_slots(map@);
                let pos = find_key(map, &match_k.key);
                if pos < map.len() {
                    pos
                } else {
                    let fresh = Self::new_printed_node_for(value);
                    map.push((match_k.key.clone(), fresh));
                    assert(object_slots(map@) =~= slots.push(
                        ObjectSlot { key: match_k.key@, node: fresh@ },
                    ));
                    pos
                }
            },
            _ => 0,
        }
    }

    /// Takes the child at position `pos` out, leaving an empty text in its place.
    pub fn take_child(&mut self, pos: usize) -> (child: PrinterNode)
        requires
            pos < old(self)@.slot_count(),
        ensures
            child@ == old(self)@.node_at(pos as int),
            final(self)@ == old(self)@.with_node_at(pos as int, blank_node()),
            old(self)@.well_formed() ==> child@.well_formed() && final(self)@.well_formed(),
    {
        proof {
            if old(self)@.well_formed() {
                lemma_with_node_at_well_formed(old(self)@, pos as int, blank_node());
            }
        }
        let blank = PrinterNode::Value { val: String::new(), highlighted: false };
        match self {
            PrinterNode::Array { vec, highlighted: _ } => {
                let ghost slots = array_slots(vec@);
                let mut slot = (vec[pos].0, blank);
                vec.set_and_swap(pos, &mut slot);
                assert(array_slots(vec@) =~= slots.update(
                    pos as int,
                    ArraySlot { index: slots[pos as int].index, node: blank_node() },
                ));
                slot.1
            },
            PrinterNode::Object { map, highlighted: _ } => {
                let ghost slots = object_slots(map@);
                let mut slot = (map[pos].0.clone(), blank);
                map.set_and_swap(pos, &mut slot);
                assert(object_slots(map@) =~= slots.update(
                    pos as int,
                    ObjectSlot { key: slots[pos as int].key, node: blank_node() },
                ));
                slot.1
            },
            PrinterNode::Value { .. } => blank,
        }
    }

    /// Puts `child` in the place of the child at position `pos`.
    pub fn put_child(&mut self, pos: usize, child: PrinterNode)
        requires
            pos < old(self)@.slot_count(),
        ensures
            final(self)@ == old(self)@.with_node_at(pos as int, child@),
            old(self)@.well_formed() && child@.well_formed() ==> final(self)@.well_formed(),
    {
        proof {
            if old(self)@.well_formed() && child@.well_formed() {
                lemma_with_node_at_well_formed(old(self)@, pos as int, child@);
            }
        }
        match self {
            PrinterNode::Array { vec, highlighted: _ } => {
                let ghost slots = array_slots(vec@);
                let mut slot = (vec[pos].0, child);
                vec.set_and_swap(pos, &mut slot);
                assert(array_slots(vec@) =~= slots.update(
                    pos as int,
                    ArraySlot { index: slots[pos as int].index, node: child@ },
                ));
            },
            PrinterNode::Object { map, highlighted: _ } => {
                let ghost slots = object_slots(map@);
                let mut slot = (map[pos].0.clone(), child);
                map.set_and_swap(pos, &mut slot);
                assert(object_slots(map@) =~= slots.update(
                    pos as int,
                    ObjectSlot { key: slots[pos as int].key, node: child@ },
                ));
            },
            PrinterNode::Value { .. } => {},
        }
    }

    /// Puts the whole of `value` into this node: every element of an array, every
    /// entry of an object, each with all that is below it.
    pub fn insert_full(&mut self, value: &Json)
        requires
            old(self)@.is_container(),
            old(self)@.same_kind(value@),
        ensures
            final(self)@ == old(self)@.filled(value@),
            old(self)@.well_formed() ==> final(self)@.well_formed(),
        decreases value, 0int,
    {
        let ghost was_well_formed = old(self)@.well_formed();
        match (self, value) {
            (PrinterNode::Array { vec, highlighted: _ }, Json::Array(items)) => {
                proof {
                    lemma_array_view(*value);
                }
                let ghost slots = array_slots(vec@);
                let ghost views = value@->Array_0;
                let keep_from = find_index(vec, items.len());
                let mut filled: Vec<(usize, PrinterNode)> = Vec::new();
                let mut i: usize = 0;
                while i < items.len()
                    invariant
                        i <= items.len(),
                        decreases_to!(value => items),
                        views.len() == items.len(),
                        forall|k: int| 0 <= k < items.len() ==> views[k] == items@[k]@,
                        filled.len() == i,
                        forall|k: int|
                            0 <= k < i ==> filled@[k].0 == k && (#[trigger] filled@[k]).1@
                                == full_node(views[k]) && filled@[k].1@.well_formed(),
                    decreases items.len() - i,
                {
                    filled.push((i, full_tree(&items[i])));
                    i += 1;
                }
                let ghost filled_before_keep = filled@;
                let mut k: usize = keep_from;
                assert(array_slots(filled@) =~= full_array_slots(views));
                proof {
                    lemma_index_position(slots, items.len());
                    if was_well_formed {
                        assert forall|j: int| keep_from <= j < slots.len() implies (
                        #[trigger] slots[j]).index >= items.len() && slots[j].node.well_formed() by {
                            if j > keep_from {
                                assert(slots[keep_from as int].index < slots[j].index);
                            }
                        }
                    }
                }
                assert(slots.subrange(keep_from as int, keep_from as int) =~= Seq::empty());
                while k < vec.len()
                    invariant
                        keep_from <= k <= vec.len(),
                        vec.len() == slots.len(),
                        forall|j: int| k <= j < vec.len() ==> array_slots(vec@)[j] == slots[j],
                        array_slots(filled@) =~= full_array_slots(views) + slots.subrange(
                            keep_from as int,
                            k as int,
                        ),
                    decreases vec.len() - k,
                {
                    let ghost before = array_slots(filled@);
                    let ghost kept = array_slots(vec@);
                    assert(kept[k as int] == slots[k as int]);
                    let blank = PrinterNode::Value { val: String::new(), highlighted: false };
                    let mut slot = (vec[k].0, blank);
                    vec.set_and_swap(k, &mut slot);
                    filled.push(slot);
                    proof {
                        assert forall|j: int| k < j < vec.len() implies array_slots(vec@)[j]
                            == slots[j] by {
                            assert(kept[j] == slots[j]);
                        }
                        assert(array_slots(filled@) =~= before.push(slots[k as int]));
                        assert(slots.subrange(keep_from as int, k as int + 1) =~= slots.subrange(
                            keep_from as int,
                            k as int,
                        ).push(slots[k as int]));
                    }
                    k += 1;
                }
                *vec = filled;
                assert(slots.subrange(keep_from as int, slots.len() as int) =~= slots.skip(
                    keep_from as int,
                ));
                proof {
                    if was_well_formed {
                        let after = full_array_slots(views) + slots.skip(keep_from as int);
                        assert(array_slots(vec@) =~= after);
                        assert forall|a: int| 0 <= a < after.len() implies (
                        #[trigger] after[a]).node.well_formed() && (a < items.len()
                            ==> after[a].index == a) && (a >= items.len() ==> after[a]
                            == slots[keep_from + a - items.len()]) by {
                            if a < items.len() {
                                assert(after[a].node == filled_before_keep[a].1@);
                            }
                        }
                        assert(slots_ordered(after)) by {
                            assert forall|a: int, b: int| 0 <= a < b < after.len() implies after[a].index
                                < after[b].index by {
                                assert(after[a].node.well_formed());
                                assert(after[b].node.well_formed());
                                if a >= items.len() {
                                    assert(slots[keep_from + a - items.len()].index < slots[keep_from
                                        + b - items.len()].index);
                                }
                            }
                        }
                    }
                }
            },
            (PrinterNode::Object { map, highlighted: _ }, Json::Object(entries)) => {
                proof {
                    lemma_object_view(*value);
                }
                let ghost slots = object_slots(map@);
                let ghost views = value@->Object_0;
                let mut i: usize = 0;
                while i < entries.len()
                    invariant
                        i <= entries.len(),
                        decreases_to!(value => entries),
                        views.len() == entries.len(),
                        forall|k: int|
                            0 <= k < entries.len() ==> views[k] == (EntryView {
                                key: entries@[k].0@,
                                value: entries@[k].1@,
                            }),
                        object_slots(map@) == filled_slots(slots, views, i as int),
                        was_well_formed ==> keys_distinct(object_slots(map@)) && forall|k: int|
                            0 <= k < map.len() ==> (#[trigger] object_slots(
                                map@,
                            )[k]).node.well_formed(),
                    decreases entries.len() - i,
                {
                    let ghost before = object_slots(map@);
                    let node = full_tree(&entries[i].1);
                    proof {
                        if was_well_formed {
                            lemma_put_key_well_formed(before, entries@[i as int].0@, node@);
                        }
                    }
                    let pos = find_key(map, &entries[i].0);
                    if pos < map.len() {
                        let mut slot = (entries[i].0.clone(), node);
                        map.set_and_swap(pos, &mut slot);
                        assert(object_slots(map@) =~= before.update(
                            pos as int,
                            ObjectSlot { key: entries@[i as int].0@, node: node@ },
                        ));
                    } else {
                        map.push((entries[i].0.clone(), node));
                        assert(object_slots(map@) =~= before.push(
                            ObjectSlot { key: entries@[i as int].0@, node: node@ },
                        ));
                    }
                    i += 1;
                }
            },
            _ => {},
        }
    }
}

} // verus!
