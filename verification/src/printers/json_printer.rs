//! The tree renderer: the matches folded into one pruned tree, written as indented
//! JSON with the matched branches marked.
use crate::json::{
    distinct_keys, entry_position, lemma_child_well_formed, lemma_entry_position, EntryView, Json,
    JsonView,
};
use crate::matcher::match_node::{MatchNode, MatchNodeView};
use crate::printers::printer_node::{
    array_slots, filled_slots, fresh_node, full_array_slots, full_node, has_index,
    index_position, key_position, lemma_index_position, lemma_key_position, object_slots,
    put_key, ArraySlot, ObjectSlot, PrinterNode, PrinterNodeView,
};
use crate::text::{chars_to_string, push_str};
use colored::Colorize;
use vstd::prelude::*;
use vstd::slice::slice_subrange;

verus! {

/// The tree `node`, made for `json`, after the match `path` has been folded in.
///
/// Every step of the path gets its node, which is marked where the step is
/// highlighted. Where no more than `context` steps are left, the whole of the value
/// at that level is put in first; where none is left, the whole of the matched value.
pub open spec fn tree_with_match(
    node: PrinterNodeView,
    json: JsonView,
    path: Seq<MatchNodeView>,
    context: int,
) -> PrinterNodeView
    decreases path.len(),
{
    if path.len() == 0 {
        node.filled(json)
    } else {
        let base = if path.len() <= context {
            node.filled(json)
        } else {
            node
        };
        match json.child_position(path[0]) {
            None => base,
            Some(i) => {
                let opened = base.with_child(path[0], fresh_node(json.child(i)));
                let pos = base.slot_of(path[0]);
                let found = opened.node_at(pos);
                let marked = if path[0].is_highlighted() {
                    found.with_highlight(true)
                } else {
                    found
                };
                let done = if marked.is_container() {
                    tree_with_match(marked, json.child(i), path.drop_first(), context)
                } else {
                    marked
                };
                opened.with_node_at(pos, done)
            },
        }
    }
}

/// The tree for `json` with `matches` folded in, one after the other.
pub open spec fn tree_of(json: JsonView, matches: Seq<Seq<MatchNodeView>>, context: int) -> PrinterNodeView
    decreases matches.len(),
{
    if matches.len() == 0 {
        fresh_node(json)
    } else {
        tree_with_match(tree_of(json, matches.drop_last(), context), json, matches.last(), context)
    }
}

/// Whether the children of an object node belong to `entries`: each key is a key of
/// `entries`, no key occurs twice, and each child mirrors the value of its key.
pub open spec fn fields_mirror(fields: Seq<ObjectSlot>, entries: Seq<EntryView>) -> bool
    decreases fields, 0int,
{
    &&& forall|k: int|
        0 <= k < fields.len() ==> entry_position(entries, (#[trigger] fields[k]).key)
            < entries.len() && mirrors(
            fields[k].node,
            entries[entry_position(entries, fields[k].key)].value,
        )
    &&& forall|k: int, m: int| 0 <= k < m < fields.len() ==> fields[k].key != fields[m].key
}

/// Whether the children of an array node belong to `items`: each stands for a
/// position of `items` and mirrors the element there, in ascending order.
pub open spec fn slots_mirror(slots: Seq<ArraySlot>, items: Seq<JsonView>) -> bool
    decreases slots, 0int,
{
    &&& forall|k: int|
        0 <= k < slots.len() ==> (#[trigger] slots[k]).index < items.len() && mirrors(
            slots[k].node,
            items[slots[k].index as int],
        )
    &&& forall|k: int, m: int| 0 <= k < m < slots.len() ==> slots[k].index < slots[m].index
}

/// Whether `node` is a tree for `json`: of its kind, and every child a tree for the
/// element or entry that it stands for.
pub open spec fn mirrors(node: PrinterNodeView, json: JsonView) -> bool
    decreases node, 1int,
{
    match node {
        PrinterNodeView::Value { .. } => !json.is_container(),
        PrinterNodeView::Array { slots, .. } => json is Array && slots_mirror(
            slots,
            json->Array_0,
        ),
        PrinterNodeView::Object { fields, .. } => json is Object && fields_mirror(
            fields,
            json->Object_0,
        ),
    }
}

/// A tree for a document is well-formed.
pub proof fn lemma_mirrors_well_formed(node: PrinterNodeView, json: JsonView)
    requires
        mirrors(node, json),
    ensures
        node.well_formed(),
    decreases node,
{
    match node {
        PrinterNodeView::Array { slots, .. } => {
            assert forall|k: int| 0 <= k < slots.len() implies (
            #[trigger] slots[k]).node.well_formed() by {
                lemma_mirrors_well_formed(slots[k].node, json->Array_0[slots[k].index as int]);
            }
        },
        PrinterNodeView::Object { fields, .. } => {
            assert forall|k: int| 0 <= k < fields.len() implies (
            #[trigger] fields[k]).node.well_formed() by {
                lemma_mirrors_well_formed(
                    fields[k].node,
                    json->Object_0[entry_position(json->Object_0, fields[k].key)].value,
                );
            }
        },
        _ => {},
    }
}

/// In an object without repeated keys, each entry is the first with its key.
pub proof fn lemma_entry_is_first(entries: Seq<EntryView>, i: int)
    requires
        distinct_keys(entries),
        0 <= i < entries.len(),
    ensures
        entry_position(entries, entries[i].key) == i,
{
    lemma_entry_position(entries, entries[i].key);
}

/// Putting whole entries of `entries` into children that belong to `entries` gives
/// children that belong to `entries`.
pub proof fn lemma_filled_fields_mirror(fields: Seq<ObjectSlot>, entries: Seq<EntryView>, n: int)
    requires
        fields_mirror(fields, entries),
        distinct_keys(entries),
        forall|i: int| 0 <= i < entries.len() ==> (#[trigger] entries[i]).value.well_formed(),
        0 <= n <= entries.len(),
    ensures
        fields_mirror(filled_slots(fields, entries, n), entries),
    decreases entries, n,
{
    if n > 0 {
        let before = filled_slots(fields, entries, n - 1);
        let key = entries[n - 1].key;
        let node = full_node(entries[n - 1].value);
        let after = put_key(before, key, node);
        lemma_filled_fields_mirror(fields, entries, n - 1);
        lemma_full_mirrors(entries[n - 1].value);
        lemma_entry_is_first(entries, n - 1);
        lemma_key_position(before, key);
        let p = key_position(before, key);
        assert forall|k: int| 0 <= k < after.len() implies entry_position(
            entries,
            (#[trigger] after[k]).key,
        ) < entries.len() && mirrors(
            after[k].node,
            entries[entry_position(entries, after[k].key)].value,
        ) by {
            if k != p {
                assert(after[k] == before[k]);
            }
        }
        assert forall|k: int, m: int| 0 <= k < m < after.len() implies after[k].key
            != after[m].key by {
            if k < before.len() && k != p {
                assert(after[k] == before[k]);
            }
            if m < before.len() && m != p {
                assert(after[m] == before[m]);
            }
        }
    }
}

/// The whole of a document is a tree for it.
pub proof fn lemma_full_mirrors(json: JsonView)
    requires
        json.well_formed(),
    ensures
        mirrors(full_node(json), json),
    decreases json, 0int,
{
    match json {
        JsonView::Array(items) => {
            let slots = full_array_slots(items);
            assert forall|k: int| 0 <= k < slots.len() implies (#[trigger] slots[k]).index
                < items.len() && mirrors(slots[k].node, items[slots[k].index as int]) by {
                assert(items[k].well_formed());
                lemma_full_mirrors(items[k]);
            }
        },
        JsonView::Object(entries) => {
            assert forall|i: int| 0 <= i < entries.len() implies (#[trigger] entries[i]).value.well_formed() by {}
            lemma_filled_fields_mirror(Seq::empty(), entries, entries.len() as int);
        },
        _ => {},
    }
}

/// Putting the whole of a document into a tree for it gives a tree for it.
pub proof fn lemma_filled_mirrors(node: PrinterNodeView, json: JsonView)
    requires
        mirrors(node, json),
        json.well_formed(),
    ensures
        mirrors(node.filled(json), json),
{
    match (node, json) {
        (PrinterNodeView::Array { slots, highlighted }, JsonView::Array(items)) => {
            lemma_index_position(slots, items.len() as usize);
            let p = index_position(slots, items.len() as usize);
            if p < slots.len() {
                assert(slots[p].index < items.len());
            }
            assert(full_array_slots(items) + slots.skip(p) =~= full_array_slots(items));
            lemma_full_mirrors(json);
        },
        (PrinterNodeView::Object { fields, highlighted }, JsonView::Object(entries)) => {
            assert forall|i: int| 0 <= i < entries.len() implies (#[trigger] entries[i]).value.well_formed() by {}
            lemma_filled_fields_mirror(fields, entries, entries.len() as int);
        },
        _ => {},
    }
}

/// After the child for a step of the document has been made sure of, the tree is
/// still one for the document, and the child stands where the step's position is
/// found and is a tree for the value that the step leads to.
pub proof fn lemma_with_child_mirrors(node: PrinterNodeView, json: JsonView, step: MatchNodeView)
    requires
        mirrors(node, json),
        json.child_position(step) is Some,
    ensures
        node.takes(step),
        mirrors(node.with_child(step, fresh_node(json.child(json.child_position(step)->0))), json),
        0 <= node.slot_of(step) < node.with_child(
            step,
            fresh_node(json.child(json.child_position(step)->0)),
        ).slot_count(),
        mirrors(
            node.with_child(
                step,
                fresh_node(json.child(json.child_position(step)->0)),
            ).node_at(node.slot_of(step)),
            json.child(json.child_position(step)->0),
        ),
        stands_for(
            node.with_child(step, fresh_node(json.child(json.child_position(step)->0))),
            node.slot_of(step),
            json,
            json.child_position(step)->0,
        ),
{
    let i = json.child_position(step)->0;
    let fresh = fresh_node(json.child(i));
    match (node, step) {
        (PrinterNodeView::Array { slots, highlighted }, MatchNodeView::Index { index, .. }) => {
            lemma_index_position(slots, index);
            let p = index_position(slots, index);
            if !has_index(slots, index) {
                let after = slots.insert(p, ArraySlot { index, node: fresh });
                assert forall|k: int| 0 <= k < after.len() implies (#[trigger] after[k]).index
                    < json->Array_0.len() && mirrors(
                    after[k].node,
                    json->Array_0[after[k].index as int],
                ) by {
                    if k < p {
                        assert(after[k] == slots[k]);
                    } else if k > p {
                        assert(after[k] == slots[k - 1]);
                    }
                }
                assert forall|k: int, m: int| 0 <= k < m < after.len() implies after[k].index
                    < after[m].index by {
                    if k < p {
                        assert(after[k] == slots[k]);
                    } else if k > p {
                        assert(after[k] == slots[k - 1]);
                    }
                    if m < p {
                        assert(after[m] == slots[m]);
                    } else if m > p {
                        assert(after[m] == slots[m - 1]);
                        if p < slots.len() {
                            assert(slots[p].index <= slots[m - 1].index);
                        }
                    }
                }
            }
        },
        (PrinterNodeView::Object { fields, highlighted }, MatchNodeView::Key { key, .. }) => {
            lemma_key_position(fields, key);
            lemma_entry_position(json->Object_0, key);
            let p = key_position(fields, key);
            if p >= fields.len() {
                let after = fields.push(ObjectSlot { key, node: fresh });
                assert forall|k: int| 0 <= k < after.len() implies entry_position(
                    json->Object_0,
                    (#[trigger] after[k]).key,
                ) < json->Object_0.len() && mirrors(
                    after[k].node,
                    json->Object_0[entry_position(json->Object_0, after[k].key)].value,
                ) by {
                    if k < p {
                        assert(after[k] == fields[k]);
                    }
                }
            }
        },
        _ => {},
    }
}

/// Whether the child at position `pos` of `node` stands for the `i`-th child of
/// `json`.
pub open spec fn stands_for(node: PrinterNodeView, pos: int, json: JsonView, i: int) -> bool {
    match (node, json) {
        (PrinterNodeView::Array { slots, .. }, JsonView::Array(items)) => 0 <= pos < slots.len()
            && slots[pos].index == i,
        (PrinterNodeView::Object { fields, .. }, JsonView::Object(entries)) => 0 <= pos
            < fields.len() && entry_position(entries, fields[pos].key) == i,
        _ => false,
    }
}

/// A tree for a document stays one when a child is replaced by a tree for the same
/// value.
pub proof fn lemma_with_node_at_mirrors(
    node: PrinterNodeView,
    json: JsonView,
    pos: int,
    child: PrinterNodeView,
    i: int,
)
    requires
        mirrors(node, json),
        stands_for(node, pos, json, i),
        mirrors(child, json.child(i)),
    ensures
        mirrors(node.with_node_at(pos, child), json),
{
    match (node, json) {
        (PrinterNodeView::Array { slots, highlighted }, JsonView::Array(items)) => {
            let after = slots.update(pos, ArraySlot { index: slots[pos].index, node: child });
            assert forall|k: int| 0 <= k < after.len() implies (#[trigger] after[k]).index
                < items.len() && mirrors(after[k].node, items[after[k].index as int]) by {
                if k != pos {
                    assert(after[k] == slots[k]);
                } else {
                    assert(slots[pos].index < items.len());
                }
            }
            assert forall|k: int, m: int| 0 <= k < m < after.len() implies after[k].index
                < after[m].index by {
                assert(after[k].index == slots[k].index);
                assert(after[m].index == slots[m].index);
            }
        },
        (PrinterNodeView::Object { fields, highlighted }, JsonView::Object(entries)) => {
            let after = fields.update(pos, ObjectSlot { key: fields[pos].key, node: child });
            assert forall|k: int| 0 <= k < after.len() implies entry_position(
                entries,
                (#[trigger] after[k]).key,
            ) < entries.len() && mirrors(
                after[k].node,
                entries[entry_position(entries, after[k].key)].value,
            ) by {
                if k != pos {
                    assert(after[k] == fields[k]);
                } else {
                    assert(entry_position(entries, fields[pos].key) < entries.len());
                }
            }
            assert forall|k: int, m: int| 0 <= k < m < after.len() implies after[k].key
                != after[m].key by {
                assert(after[k].key == fields[k].key);
                assert(after[m].key == fields[m].key);
            }
        },
        _ => {},
    }
}

/// Folds the match `m` into the tree `printer_node` of `json`.
pub fn add_matches(printer_node: &mut PrinterNode, json: &Json, m: &[MatchNode], context: usize)
    requires
        mirrors(old(printer_node)@, json@),
        json@.well_formed(),
        json@.is_container(),
        json@.value_at(m.deep_view()) is Some,
    ensures
        final(printer_node)@ == tree_with_match(
            old(printer_node)@,
            json@,
            m.deep_view(),
            context as int,
        ),
        mirrors(final(printer_node)@, json@),
    decreases m.len(),
{
    let ghost path = m.deep_view();
    let ghost start = printer_node@;
    if m.len() == 0 {
        proof {
            lemma_filled_mirrors(start, json@);
        }
        printer_node.insert_full(json);
        return ;
    }
    assert(path[0] == m@[0]@);
    if m.len() <= context {
        proof {
            lemma_filled_mirrors(start, json@);
        }
        printer_node.insert_full(json);
    }
    let ghost base = printer_node@;
    let next_node = &m[0];
    let next_json = json.get(next_node).unwrap();
    let ghost i = json@.child_position(path[0])->0;
    proof {
        lemma_with_child_mirrors(base, json@, path[0]);
        lemma_entry_position(json@->Object_0, path[0]->Key_key);
        lemma_child_well_formed(json@, i);
    }
    let pos = printer_node.get_or_insert(next_node, next_json);
    let ghost opened = printer_node@;
    let mut child = printer_node.take_child(pos);
    if next_node.is_highlighted() {
        child.set_highlight(true);
    }
    let ghost marked = child@;
    assert(mirrors(marked, next_json@));
    let rest = slice_subrange(m, 1, m.len());
    assert(rest.deep_view() =~= path.drop_first());
    if child.is_container() {
        add_matches(&mut child, next_json, rest, context);
    }
    proof {
        lemma_with_node_at_mirrors(opened, json@, pos as int, child@, i);
    }
    printer_node.put_child(pos, child);
    proof {
        let target = opened.with_node_at(pos as int, child@);
        match opened {
            PrinterNodeView::Array { slots, highlighted } => {
                assert(printer_node@->Array_slots =~= target->Array_slots);
            },
            PrinterNodeView::Object { fields, highlighted } => {
                assert(printer_node@->Object_fields =~= target->Object_fields);
            },
            _ => {},
        }
    }
}

/// Builds the tree for `value` with `matches` folded in, one after the other.
pub fn build_tree(value: &Json, matches: &Vec<Vec<MatchNode>>, context: usize) -> (r: PrinterNode)
    requires
        value@.is_container(),
        value@.well_formed(),
        forall|i: int|
            0 <= i < matches.len() ==> value@.value_at(#[trigger] matches.deep_view()[i]) is Some,
    ensures
        r@ == tree_of(value@, matches.deep_view(), context as int),
        mirrors(r@, value@),
        r@.well_formed(),
{
    let mut printer_node = PrinterNode::new_printed_node_for(value);
    let ghost views = matches.deep_view();
    let mut i: usize = 0;
    assert(views.take(0) =~= Seq::empty());
    while i < matches.len()
        invariant
            i <= matches.len(),
            views == matches.deep_view(),
            value@.is_container(),
            value@.well_formed(),
            forall|k: int| 0 <= k < matches.len() ==> value@.value_at(#[trigger] views[k]) is Some,
            printer_node@ == tree_of(value@, views.take(i as int), context as int),
            mirrors(printer_node@, value@),
        decreases matches.len() - i,
    {
        let m = &matches[i];
        proof {
            assert(views[i as int] == m.deep_view());
            let next = views.take(i as int + 1);
            assert(next.drop_last() =~= views.take(i as int));
            assert(next.last() == m.deep_view());
        }
        add_matches(&mut printer_node, value, m.as_slice(), context);
        i += 1;
    }
    assert(views.take(matches.len() as int) =~= views);
    proof {
        lemma_mirrors_well_formed(printer_node@, value@);
    }
    printer_node
}

/// A piece of output, and whether it is to be marked.
#[derive(Debug, PartialEq, Eq)]
pub struct Span {
    pub text: String,
    pub highlighted: bool,
}

/// What a [`Span`] denotes.
pub struct SpanView {
    pub text: Seq<char>,
    pub highlighted: bool,
}

impl View for Span {
    type V = SpanView;

    open spec fn view(&self) -> SpanView {
        SpanView { text: self.text@, highlighted: self.highlighted }
    }
}

impl DeepView for Span {
    type V = SpanView;

    open spec fn deep_view(&self) -> SpanView {
        self@
    }
}

/// The indentation of the level below `indentation`: one more, as far as the machine
/// counts.
pub open spec fn deeper(indentation: usize) -> usize {
    if indentation < usize::MAX {
        (indentation + 1) as usize
    } else {
        indentation
    }
}

/// Two spaces for each level.
pub open spec fn indent(indentation: nat) -> Seq<char>
    decreases indentation,
{
    if indentation == 0 {
        Seq::empty()
    } else {
        indent((indentation - 1) as nat) + seq![' ', ' ']
    }
}

/// What a node begins with: the indentation, the title between double quotes with a
/// colon and a space where there is one, and the opening bracket of a container.
pub open spec fn opening(title: Option<Seq<char>>, indentation: usize, bracket: Seq<char>) -> Seq<
    char,
> {
    match title {
        Some(t) => indent(indentation as nat) + seq!['"'] + t + seq!['"', ':', ' '] + bracket,
        None => indent(indentation as nat) + bracket,
    }
}

/// An unmarked line feed, alone or after a comma.
pub open spec fn line_end(comma: bool) -> SpanView {
    SpanView {
        text: if comma {
            seq![',', '\n']
        } else {
            seq!['\n']
        },
        highlighted: false,
    }
}

/// The output for a node: a container as its opening line, its children, each on
/// lines of its own one level deeper, and its closing bracket; a scalar as its title
/// and its text. The opening and the closing of a container and the title of a
/// scalar carry the mark of the node.
pub open spec fn node_spans(title: Option<Seq<char>>, node: PrinterNodeView, indentation: usize) -> Seq<
    SpanView,
>
    decreases node, 0int,
{
    match node {
        PrinterNodeView::Array { slots, highlighted } => seq![
            SpanView { text: opening(title, indentation, seq!['[']), highlighted },
            line_end(false),
        ] + array_spans(slots, slots.len() as int, deeper(indentation)) + seq![
            SpanView { text: indent(indentation as nat) + seq![']'], highlighted },
        ],
        PrinterNodeView::Object { fields, highlighted } => seq![
            SpanView { text: opening(title, indentation, seq!['{']), highlighted },
            line_end(false),
        ] + object_spans(fields, fields.len() as int, deeper(indentation)) + seq![
            SpanView { text: indent(indentation as nat) + seq!['}'], highlighted },
        ],
        PrinterNodeView::Value { val, highlighted } => seq![
            SpanView { text: opening(title, indentation, Seq::empty()), highlighted },
            SpanView { text: val, highlighted: false },
        ],
    }
}

/// The output for the first `n` children of an array node. A comma follows each child
/// but the one whose position in the array is one less than the number of children.
pub open spec fn array_spans(slots: Seq<ArraySlot>, n: int, indentation: usize) -> Seq<SpanView>
    decreases slots, n,
{
    if n <= 0 || n > slots.len() {
        Seq::empty()
    } else {
        array_spans(slots, n - 1, indentation) + node_spans(
            None,
            slots[n - 1].node,
            indentation,
        ) + seq![line_end(slots[n - 1].index != slots.len() - 1)]
    }
}

/// The output for the first `n` children of an object node. A comma follows each
/// child but the last.
pub open spec fn object_spans(fields: Seq<ObjectSlot>, n: int, indentation: usize) -> Seq<SpanView>
    decreases fields, n,
{
    if n <= 0 || n > fields.len() {
        Seq::empty()
    } else {
        object_spans(fields, n - 1, indentation) + node_spans(
            Some(fields[n - 1].key),
            fields[n - 1].node,
            indentation,
        ) + seq![line_end(n - 1 < fields.len() - 1)]
    }
}

/// The title of a node as a sequence of characters.
pub open spec fn title_of(node_title: Option<&str>) -> Option<Seq<char>> {
    match node_title {
        Some(t) => Some(t@),
        None => None,
    }
}

/// Appends two spaces for each level to `out`.
fn push_indent(out: &mut Vec<char>, indentation: usize)
    ensures
        final(out)@ == old(out)@ + indent(indentation as nat),
{
    let mut i: usize = 0;
    assert(out@ =~= old(out)@ + indent(0));
    while i < indentation
        invariant
            i <= indentation,
            out@ == old(out)@ + indent(i as nat),
        decreases indentation - i,
    {
        out.push(' ');
        out.push(' ');
        assert(out@ =~= old(out)@ + (indent(i as nat) + seq![' ', ' ']));
        i += 1;
    }
}

/// What a node begins with.
fn opening_text(node_title: Option<&str>, indentation: usize, bracket: Option<char>) -> (r: String)
    ensures
        r@ == opening(
            title_of(node_title),
            indentation,
            match bracket {
                Some(b) => seq![b],
                None => Seq::empty(),
            },
        ),
{
    let mut text: Vec<char> = Vec::new();
    push_indent(&mut text, indentation);
    if let Some(t) = node_title {
        text.push('"');
        push_str(&mut text, t);
        text.push('"');
        text.push(':');
        text.push(' ');
    }
    if let Some(b) = bracket {
        text.push(b);
    }
    proof {
        let bracket_text = match bracket {
            Some(b) => seq![b],
            None => Seq::<char>::empty(),
        };
        match node_title {
            Some(t) => {
                assert(text@ =~= indent(indentation as nat) + seq!['"'] + t@ + seq!['"', ':', ' ']
                    + bracket_text);
            },
            None => {
                assert(text@ =~= indent(indentation as nat) + bracket_text);
            },
        }
    }
    chars_to_string(text.as_slice())
}

/// What a container ends with: the indentation and the closing bracket.
fn closing_text(indentation: usize, bracket: char) -> (r: String)
    ensures
        r@ == indent(indentation as nat) + seq![bracket],
{
    let mut text: Vec<char> = Vec::new();
    push_indent(&mut text, indentation);
    text.push(bracket);
    assert(text@ =~= indent(indentation as nat) + seq![bracket]);
    chars_to_string(text.as_slice())
}

/// Appends an unmarked line feed, alone or after a comma.
fn push_line_end(out: &mut Vec<Span>, comma: bool)
    ensures
        final(out).deep_view() == old(out).deep_view().push(line_end(comma)),
{
    let ghost before = out.deep_view();
    let mut text: Vec<char> = Vec::new();
    if comma {
        text.push(',');
    }
    text.push('\n');
    assert(text@ =~= line_end(comma).text);
    out.push(Span { text: chars_to_string(text.as_slice()), highlighted: false });
    assert(out.deep_view() =~= before.push(line_end(comma)));
}

/// Appends a span.
fn push_span(out: &mut Vec<Span>, text: String, highlighted: bool)
    ensures
        final(out).deep_view() == old(out).deep_view().push(SpanView { text: text@, highlighted }),
{
    let ghost before = out.deep_view();
    out.push(Span { text, highlighted });
    assert(out.deep_view() =~= before.push(SpanView { text: text@, highlighted }));
}

/// Appends the output for a node to `out`.
pub fn print_node(
    node_title: Option<&str>,
    printer_node: &PrinterNode,
    indentation: usize,
    out: &mut Vec<Span>,
)
    ensures
        final(out).deep_view() == old(out).deep_view() + node_spans(
            title_of(node_title),
            printer_node@,
            indentation,
        ),
    decreases printer_node,
{
    let ghost before = out.deep_view();
    let below = if indentation < usize::MAX {
        indentation + 1
    } else {
        indentation
    };
    match printer_node {
        PrinterNode::Array { vec, highlighted } => {
            let ghost slots = array_slots(vec@);
            push_span(out, opening_text(node_title, indentation, Some('[')), *highlighted);
            push_line_end(out, false);
            let ghost opened = out.deep_view();
            let mut i: usize = 0;
            assert(opened =~= opened + array_spans(slots, 0, below));
            while i < vec.len()
                invariant
                    i <= vec.len(),
                    decreases_to!(printer_node => vec),
                    slots == array_slots(vec@),
                    out.deep_view() == opened + array_spans(slots, i as int, below),
                decreases vec.len() - i,
            {
                print_node(None, &vec[i].1, below, out);
                push_line_end(out, vec[i].0 != vec.len() - 1);
                proof {
                    assert(slots[i as int].node == vec@[i as int].1@);
                    assert(out.deep_view() =~= opened + (array_spans(slots, i as int, below)
                        + node_spans(None, slots[i as int].node, below) + seq![
                        line_end(slots[i as int].index != slots.len() - 1),
                    ]));
                }
                i += 1;
            }
            push_span(out, closing_text(indentation, ']'), *highlighted);
            proof {
                assert(out.deep_view() =~= before + node_spans(
                    title_of(node_title),
                    printer_node@,
                    indentation,
                ));
            }
        },
        PrinterNode::Object { map, highlighted } => {
            let ghost fields = object_slots(map@);
            push_span(out, opening_text(node_title, indentation, Some('{')), *highlighted);
            push_line_end(out, false);
            let ghost opened = out.deep_view();
            let mut i: usize = 0;
            assert(opened =~= opened + object_spans(fields, 0, below));
            while i < map.len()
                invariant
                    i <= map.len(),
                    decreases_to!(printer_node => map),
                    fields == object_slots(map@),
                    out.deep_view() == opened + object_spans(fields, i as int, below),
                decreases map.len() - i,
            {
                print_node(Some(map[i].0.as_str()), &map[i].1, below, out);
                push_line_end(out, i < map.len() - 1);
                proof {
                    assert(fields[i as int].node == map@[i as int].1@);
                    assert(fields[i as int].key == map@[i as int].0@);
                    assert(out.deep_view() =~= opened + (object_spans(fields, i as int, below)
                        + node_spans(Some(fields[i as int].key), fields[i as int].node, below)
                        + seq![line_end(i < fields.len() - 1)]));
                }
                i += 1;
            }
            push_span(out, closing_text(indentation, '}'), *highlighted);
            proof {
                assert(out.deep_view() =~= before + node_spans(
                    title_of(node_title),
                    printer_node@,
                    indentation,
                ));
            }
        },
        PrinterNode::Value { val, highlighted } => {
            push_span(out, opening_text(node_title, indentation, None), *highlighted);
            push_span(out, val.clone(), false);
            proof {
                assert(out.deep_view() =~= before + node_spans(
                    title_of(node_title),
                    printer_node@,
                    indentation,
                ));
            }
        },
    }
}

/// The sequence that switches a terminal to red.
pub open spec fn red_on() -> Seq<char> {
    seq!['\u{1b}', '[', '3', '1', 'm']
}

/// The sequence that resets the colours of a terminal.
pub open spec fn reset() -> Seq<char> {
    seq!['\u{1b}', '[', '0', 'm']
}

/// `text` as a terminal shows it in red: between the sequence that switches to red
/// and the one that resets.
pub open spec fn red_text(text: Seq<char>) -> Seq<char> {
    red_on() + text + reset()
}

/// Whether `painted` is what marking `text` may give: `text` itself where colours are
/// off, `text` in red where they are on, and `text` with the reset alone where they
/// are switched off while the text is written. Of a text that holds an escape
/// character nothing is said.
pub open spec fn is_painted(text: Seq<char>, painted: Seq<char>) -> bool {
    ||| painted == text
    ||| painted == red_text(text)
    ||| painted == text + reset()
    ||| text.contains('\u{1b}')
}

/// Formats `text` in red with `colored`.
///
/// Trusted: `colored` decides whether it colours at all from the environment and
/// from an override that a program may set, and it asks again while it formats. So
/// the result is taken to be `text`, or `text` between the escape sequences for red
/// and for reset, or `text` before the reset where the answer changed in between. A
/// text that holds an escape character may hold reset sequences, which `colored`
/// rewrites: nothing is claimed of it.
#[verifier::external_body]
fn red(text: &str) -> (r: String)
    ensures
        is_painted(text@, r@),
{
    text.red().to_string()
}

/// Whether `pieces` are what the spans may be written as: an unmarked span as its
/// text, a marked one as marking its text may give.
pub open spec fn is_rendering(spans: Seq<SpanView>, pieces: Seq<Seq<char>>) -> bool {
    &&& pieces.len() == spans.len()
    &&& forall|i: int|
        0 <= i < spans.len() ==> if spans[i].highlighted {
            is_painted(spans[i].text, #[trigger] pieces[i])
        } else {
            pieces[i] == spans[i].text
        }
}

/// The pieces one after the other.
pub open spec fn joined(pieces: Seq<Seq<char>>) -> Seq<char>
    decreases pieces.len(),
{
    if pieces.len() == 0 {
        Seq::empty()
    } else {
        joined(pieces.drop_last()) + pieces.last()
    }
}

/// The texts of the spans, in order.
pub open spec fn texts(spans: Seq<SpanView>) -> Seq<Seq<char>> {
    Seq::new(spans.len(), |i: int| spans[i].text)
}

/// Writes the spans out, the marked ones in red where colours are on.
pub fn render(spans: &Vec<Span>) -> (r: String)
    ensures
        exists|pieces: Seq<Seq<char>>|
            is_rendering(spans.deep_view(), pieces) && r@ == joined(pieces),
        (forall|i: int| 0 <= i < spans.len() ==> !(#[trigger] spans.deep_view()[i]).highlighted)
            ==> r@ == joined(texts(spans.deep_view())),
{
    let mut out: Vec<char> = Vec::new();
    let ghost views = spans.deep_view();
    let ghost mut pieces: Seq<Seq<char>> = Seq::empty();
    let mut i: usize = 0;
    while i < spans.len()
        invariant
            i <= spans.len(),
            views == spans.deep_view(),
            is_rendering(views.take(i as int), pieces),
            out@ == joined(pieces),
            (forall|k: int| 0 <= k < i ==> !(#[trigger] views[k]).highlighted) ==> pieces
                == texts(views.take(i as int)),
        decreases spans.len() - i,
    {
        let ghost before = pieces;
        assert(views[i as int] == spans@[i as int]@);
        if spans[i].highlighted {
            let painted = red(spans[i].text.as_str());
            push_str(&mut out, painted.as_str());
            proof {
                pieces = pieces.push(painted@);
            }
        } else {
            push_str(&mut out, spans[i].text.as_str());
            proof {
                pieces = pieces.push(spans@[i as int].text@);
            }
        }
        proof {
            assert(pieces.drop_last() =~= before);
            let next = views.take(i as int + 1);
            assert forall|k: int| 0 <= k < next.len() implies if next[k].highlighted {
                is_painted(next[k].text, #[trigger] pieces[k])
            } else {
                pieces[k] == next[k].text
            } by {
                if k < i {
                    assert(views.take(i as int)[k] == next[k]);
                    assert(pieces[k] == before[k]);
                }
            }
            if forall|k: int| 0 <= k < i + 1 ==> !(#[trigger] views[k]).highlighted {
                assert(pieces =~= texts(next));
            }
        }
        i += 1;
    }
    assert(views.take(spans.len() as int) =~= views);
    chars_to_string(out.as_slice())
}

/// The output of the tree renderer before marking: the tree of the matches, then a
/// line feed.
pub open spec fn tree_spans(json: JsonView, matches: Seq<Seq<MatchNodeView>>, context: int) -> Seq<
    SpanView,
> {
    node_spans(None, tree_of(json, matches, context), 0).push(line_end(false))
}

/// Renders the matches as one pruned tree of the document. The document must be an
/// array or an object, and every path must lead to a value of it.
pub fn print(value: &Json, matches: &Vec<Vec<MatchNode>>, context: usize) -> (r: String)
    requires
        value@.is_container(),
        value@.well_formed(),
        forall|i: int|
            0 <= i < matches.len() ==> value@.value_at(#[trigger] matches.deep_view()[i]) is Some,
    ensures
        exists|pieces: Seq<Seq<char>>|
            is_rendering(tree_spans(value@, matches.deep_view(), context as int), pieces) && r@
                == joined(pieces),
{
    let printer_node = build_tree(value, matches, context);
    let mut spans: Vec<Span> = Vec::new();
    assert(spans.deep_view() =~= Seq::empty());
    print_node(None, &printer_node, 0, &mut spans);
    push_line_end(&mut spans, false);
    assert(Seq::<SpanView>::empty() + node_spans(None, printer_node@, 0) =~= node_spans(
        None,
        printer_node@,
        0,
    ));
    render(&spans)
}

} // verus!
