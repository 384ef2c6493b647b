//! The matching engine: evaluates a pattern against a document.
pub mod match_node;
pub mod traversal;

use crate::json::{lemma_array_view, lemma_object_view, EntryView, Json, JsonView};
use crate::matcher::match_node::{duplicate_path, same_path, MatchNode, MatchNodeView};
use crate::matcher::traversal::lemma_matches_in_order;
use crate::pattern::pattern::{Pattern, PatternView};
use crate::pattern::pattern_node::{PatternNode, PatternNodeView};
use crate::utils::string_utils::{wildcard_match, wildcard_matches};
use vstd::prelude::*;
use vstd::slice::slice_subrange;

verus! {

/// The text that a value predicate is tested against: the rendering of a scalar, the
/// raw text of a string. Arrays and objects have none.
pub open spec fn scalar_text(json: JsonView) -> Option<Seq<char>> {
    match json {
        JsonView::Null => Some("null"@),
        JsonView::Bool(b) => Some(
            if b {
                "true"@
            } else {
                "false"@
            },
        ),
        JsonView::Number(text) => Some(text),
        JsonView::String(text) => Some(text),
        _ => None,
    }
}

/// Whether the value predicate `needle` holds of `json`. It holds of no container.
pub open spec fn value_matches(json: JsonView, needle: Seq<char>) -> bool {
    match scalar_text(json) {
        Some(text) => wildcard_matches(text, needle),
        None => false,
    }
}

/// The step from `json` to its `i`-th child.
pub open spec fn step_to(json: JsonView, i: int, highlighted: bool) -> MatchNodeView {
    match json {
        JsonView::Object(entries) => MatchNodeView::Key { key: entries[i].key, highlighted },
        _ => MatchNodeView::Index { index: i as usize, highlighted },
    }
}

/// Whether the pattern node `head` lets a match go from `json` to its `i`-th child.
pub open spec fn head_selects(head: PatternNodeView, json: JsonView, i: int) -> bool {
    match (head, json) {
        (PatternNodeView::Index(index), JsonView::Array(items)) => index.selects(
            i,
            items.len() as int,
        ),
        (PatternNodeView::Key(key), JsonView::Object(entries)) => wildcard_matches(
            entries[i].key,
            key,
        ),
        _ => false,
    }
}

/// The matches found at `json` and below it, in traversal order, each with `prefix`
/// in front.
///
/// `path` is what is left of the pattern's path. With `start_head` set, a new attempt
/// at `path` also starts at every child.
pub open spec fn matches_at(
    json: JsonView,
    path: Seq<PatternNodeView>,
    value: Option<Seq<char>>,
    prefix: Seq<MatchNodeView>,
    or: bool,
    start_head: bool,
) -> Seq<Seq<MatchNodeView>>
    decreases json, path.len(), json.child_count() + 1,
{
    if path.len() == 0 {
        let here = if or || value is None || value_matches(json, value->0) {
            seq![prefix]
        } else {
            Seq::empty()
        };
        if start_head {
            here + matches_below(json, 0, path, value, prefix, or, start_head)
        } else {
            here
        }
    } else if path[0] is Recursive {
        matches_at(json, path.drop_first(), value, prefix, or, true)
    } else if json.is_container() {
        matches_below(json, 0, path, value, prefix, or, start_head)
    } else if or && value is Some && value_matches(json, value->0) {
        seq![prefix]
    } else {
        Seq::empty()
    }
}

/// The matches found under the children of `json` from the `from`-th on. Under each
/// child come first those that consume the head of `path`, then those of a new attempt.
pub open spec fn matches_below(
    json: JsonView,
    from: int,
    path: Seq<PatternNodeView>,
    value: Option<Seq<char>>,
    prefix: Seq<MatchNodeView>,
    or: bool,
    start_head: bool,
) -> Seq<Seq<MatchNodeView>>
    decreases json, path.len(), json.child_count() - from,
{
    if 0 <= from < json.child_count() {
        matches_under(json, from, path, value, prefix, or, start_head) + matches_below(
            json,
            from + 1,
            path,
            value,
            prefix,
            or,
            start_head,
        )
    } else {
        Seq::empty()
    }
}

/// The matches found under the `i`-th child of `json`.
pub open spec fn matches_under(
    json: JsonView,
    i: int,
    path: Seq<PatternNodeView>,
    value: Option<Seq<char>>,
    prefix: Seq<MatchNodeView>,
    or: bool,
    start_head: bool,
) -> Seq<Seq<MatchNodeView>>
    decreases json, path.len(), 0nat,
{
    if 0 <= i < json.child_count() {
        let consumed = if path.len() > 0 && head_selects(path[0], json, i) {
            matches_at(
                json.child(i),
                path.drop_first(),
                value,
                prefix.push(step_to(json, i, true)),
                or,
                false,
            )
        } else {
            Seq::empty()
        };
        let searched = if start_head {
            matches_at(
                json.child(i),
                path,
                value,
                prefix.push(step_to(json, i, false)),
                or,
                true,
            )
        } else {
            Seq::empty()
        };
        consumed + searched
    } else {
        Seq::empty()
    }
}

/// `s` without the elements that occurred earlier in it.
pub open spec fn without_repeats<A>(s: Seq<A>) -> Seq<A>
    decreases s.len(),
{
    if s.len() == 0 {
        s
    } else {
        let front = without_repeats(s.drop_last());
        if front.contains(s.last()) {
            front
        } else {
            front.push(s.last())
        }
    }
}

/// The match paths of `pattern` in `json`: those found from the root, each kept where
/// it first occurs.
pub open spec fn pattern_matches(json: JsonView, pattern: PatternView) -> Seq<Seq<MatchNodeView>> {
    without_repeats(
        matches_at(
            json,
            pattern.path,
            pattern.value,
            Seq::empty(),
            pattern.or,
            !pattern.start_at_root,
        ),
    )
}

/// Whether the value predicate `matching_value` holds of `json`.
pub fn match_value(json: &Json, matching_value: &str) -> (r: bool)
    ensures
        r == value_matches(json@, matching_value@),
{
    match json {
        Json::Null => wildcard_match("null", matching_value),
        Json::Bool(b) => {
            if *b {
                wildcard_match("true", matching_value)
            } else {
                wildcard_match("false", matching_value)
            }
        },
        Json::Number(text) => wildcard_match(text.as_str(), matching_value),
        Json::String(text) => wildcard_match(text.as_str(), matching_value),
        _ => false,
    }
}

/// Moves the paths of `more` to the end of `result`.
fn extend_paths(result: &mut Vec<Vec<MatchNode>>, more: Vec<Vec<MatchNode>>)
    ensures
        final(result).deep_view() == old(result).deep_view() + more.deep_view(),
{
    let mut more = more;
    let ghost added = more.deep_view();
    let ghost before = result.deep_view();
    result.append(&mut more);
    assert(result.deep_view() =~= before + added);
}

/// A path like `path` with `step` after it.
fn extended_path(path: &Vec<MatchNode>, step: MatchNode) -> (r: Vec<MatchNode>)
    ensures
        r.deep_view() == path.deep_view().push(step@),
{
    let mut next_path = duplicate_path(path);
    let ghost before = next_path.deep_view();
    next_path.push(step);
    assert(next_path.deep_view() =~= before.push(step@));
    next_path
}

/// The matches found at `json` and below it, each with `path` in front.
///
/// The document is walked with two heads. The match head is `matching_path`, what is
/// left of the pattern's path at this node. With `start_head` set, this node is also a
/// place below which a new attempt at `matching_path` may start.
pub fn match_internal(
    json: &Json,
    matching_path: &[PatternNode],
    matching_val: Option<&String>,
    path: Vec<MatchNode>,
    or: bool,
    start_head: bool,
) -> (r: Vec<Vec<MatchNode>>)
    ensures
        r.deep_view() == matches_at(
            json@,
            matching_path.deep_view(),
            matching_val.deep_view(),
            path.deep_view(),
            or,
            start_head,
        ),
    decreases json, matching_path.len(), 2nat,
{
    let mut result: Vec<Vec<MatchNode>> = Vec::new();
    assert(result.deep_view() =~= Seq::empty());
    if matching_path.len() == 0 {
        let accepted = or || match matching_val {
            Some(m) => match_value(json, m.as_str()),
            None => true,
        };
        if accepted {
            result.push(duplicate_path(&path));
            assert(result.deep_view() =~= seq![path.deep_view()]);
        }
        if start_head {
            let below = match_children(json, matching_path, matching_val, &path, or, start_head);
            extend_paths(&mut result, below);
        }
        result
    } else {
        let is_recursive = match &matching_path[0] {
            PatternNode::Recursive() => true,
            _ => false,
        };
        assert(matching_path.deep_view()[0] == matching_path@[0]@);
        if is_recursive {
            let rest = slice_subrange(matching_path, 1, matching_path.len());
            assert(rest.deep_view() =~= matching_path.deep_view().drop_first());
            return match_internal(json, rest, matching_val, path, or, true);
        }
        match json {
            Json::Array(_) | Json::Object(_) => match_children(
                json,
                matching_path,
                matching_val,
                &path,
                or,
                start_head,
            ),
            _ => {
                let accepted = or && match matching_val {
                    Some(m) => match_value(json, m.as_str()),
                    None => false,
                };
                if accepted {
                    result.push(path);
                    assert(result.deep_view() =~= seq![path.deep_view()]);
                }
                result
            },
        }
    }
}

/// The matches found under the `i`-th child `child` of `json`, reached by `key` when
/// `json` is an object.
fn match_child(
    json: &Json,
    i: usize,
    child: &Json,
    key: Option<&String>,
    matching_path: &[PatternNode],
    matching_val: Option<&String>,
    path: &Vec<MatchNode>,
    or: bool,
    start_head: bool,
) -> (r: Vec<Vec<MatchNode>>)
    requires
        i < json@.child_count(),
        child@ == json@.child(i as int),
        decreases_to!(json => child),
        match json@ {
            JsonView::Object(entries) => key is Some && key->0@ == entries[i as int].key,
            _ => key is None,
        },
    ensures
        r.deep_view() == matches_under(
            json@,
            i as int,
            matching_path.deep_view(),
            matching_val.deep_view(),
            path.deep_view(),
            or,
            start_head,
        ),
    decreases json, matching_path.len(), 0nat,
{
    let mut result: Vec<Vec<MatchNode>> = Vec::new();
    assert(result.deep_view() =~= Seq::empty());
    let selected = if matching_path.len() == 0 {
        false
    } else {
        assert(matching_path.deep_view()[0] == matching_path@[0]@);
        match (&matching_path[0], json, key) {
            (PatternNode::Index(index), Json::Array(items), _) => index.matches(i, items.len()),
            (PatternNode::Key(matching_key), Json::Object(_), Some(k)) => wildcard_match(
                k.as_str(),
                matching_key.as_str(),
            ),
            _ => false,
        }
    };
    assert(selected == (matching_path.len() > 0 && head_selects(
        matching_path.deep_view()[0],
        json@,
        i as int,
    )));
    if selected {
        let step = match key {
            Some(k) => MatchNode::new_key(k.clone(), true),
            None => MatchNode::new_index(i, true),
        };
        assert(step@ == step_to(json@, i as int, true));
        let rest = slice_subrange(matching_path, 1, matching_path.len());
        assert(rest.deep_view() =~= matching_path.deep_view().drop_first());
        let matches = match_internal(
            child,
            rest,
            matching_val,
            extended_path(path, step),
            or,
            false,
        );
        extend_paths(&mut result, matches);
    }
    if start_head {
        let step = match key {
            Some(k) => MatchNode::new_key(k.clone(), false),
            None => MatchNode::new_index(i, false),
        };
        assert(step@ == step_to(json@, i as int, false));
        let matches = match_internal(
            child,
            matching_path,
            matching_val,
            extended_path(path, step),
            or,
            true,
        );
        extend_paths(&mut result, matches);
    }
    result
}

/// The matches found under the children of `json`, child after child.
fn match_children(
    json: &Json,
    matching_path: &[PatternNode],
    matching_val: Option<&String>,
    path: &Vec<MatchNode>,
    or: bool,
    start_head: bool,
) -> (r: Vec<Vec<MatchNode>>)
    ensures
        r.deep_view() == matches_below(
            json@,
            0,
            matching_path.deep_view(),
            matching_val.deep_view(),
            path.deep_view(),
            or,
            start_head,
        ),
    decreases json, matching_path.len(), 1nat,
{
    let mut result: Vec<Vec<MatchNode>> = Vec::new();
    assert(result.deep_view() =~= Seq::empty());
    let ghost target = matches_below(
        json@,
        0,
        matching_path.deep_view(),
        matching_val.deep_view(),
        path.deep_view(),
        or,
        start_head,
    );
    match json {
        Json::Array(items) => {
            proof {
                lemma_array_view(*json);
            }
            let mut i: usize = 0;
            while i < items.len()
                invariant
                    i <= items.len(),
                    *json == Json::Array(*items),
                    json@.child_count() == items.len(),
                    forall|k: int| 0 <= k < items.len() ==> json@.child(k) == items@[k]@,
                    decreases_to!(json => items),
                    target == result.deep_view() + matches_below(
                        json@,
                        i as int,
                        matching_path.deep_view(),
                        matching_val.deep_view(),
                        path.deep_view(),
                        or,
                        start_head,
                    ),
                decreases items.len() - i,
            {
                let under = match_child(
                    json,
                    i,
                    &items[i],
                    None,
                    matching_path,
                    matching_val,
                    path,
                    or,
                    start_head,
                );
                let ghost before = result.deep_view();
                extend_paths(&mut result, under);
                assert(before + (under.deep_view() + matches_below(
                    json@,
                    i as int + 1,
                    matching_path.deep_view(),
                    matching_val.deep_view(),
                    path.deep_view(),
                    or,
                    start_head,
                )) =~= (before + under.deep_view()) + matches_below(
                    json@,
                    i as int + 1,
                    matching_path.deep_view(),
                    matching_val.deep_view(),
                    path.deep_view(),
                    or,
                    start_head,
                ));
                i += 1;
            }
            assert(target =~= result.deep_view());
        },
        Json::Object(entries) => {
            proof {
                lemma_object_view(*json);
            }
            let mut i: usize = 0;
            while i < entries.len()
                invariant
                    i <= entries.len(),
                    *json == Json::Object(*entries),
                    json@.child_count() == entries.len(),
                    json@ is Object,
                    forall|k: int|
                        0 <= k < entries.len() ==> json@->Object_0[k] == (EntryView {
                            key: entries@[k].0@,
                            value: entries@[k].1@,
                        }),
                    decreases_to!(json => entries),
                    target == result.deep_view() + matches_below(
                        json@,
                        i as int,
                        matching_path.deep_view(),
                        matching_val.deep_view(),
                        path.deep_view(),
                        or,
                        start_head,
                    ),
                decreases entries.len() - i,
            {
                let under = match_child(
                    json,
                    i,
                    &entries[i].1,
                    Some(&entries[i].0),
                    matching_path,
                    matching_val,
                    path,
                    or,
                    start_head,
                );
                let ghost before = result.deep_view();
                extend_paths(&mut result, under);
                assert(before + (under.deep_view() + matches_below(
                    json@,
                    i as int + 1,
                    matching_path.deep_view(),
                    matching_val.deep_view(),
                    path.deep_view(),
                    or,
                    start_head,
                )) =~= (before + under.deep_view()) + matches_below(
                    json@,
                    i as int + 1,
                    matching_path.deep_view(),
                    matching_val.deep_view(),
                    path.deep_view(),
                    or,
                    start_head,
                ));
                i += 1;
            }
            assert(target =~= result.deep_view());
        },
        _ => {
            assert(target =~= result.deep_view());
        },
    }
    result
}

/// What `without_repeats` keeps: each element of `s` once, where it first occurs.
pub proof fn lemma_without_repeats<A>(s: Seq<A>)
    ensures
        forall|i: int, j: int|
            0 <= i < j < without_repeats(s).len() ==> without_repeats(s)[i] != without_repeats(
                s,
            )[j],
        forall|a: A| without_repeats(s).contains(a) <==> s.contains(a),
        without_repeats(s).len() <= s.len(),
    decreases s.len(),
{
    let r = without_repeats(s);
    if s.len() > 0 {
        let front = without_repeats(s.drop_last());
        lemma_without_repeats(s.drop_last());
        assert forall|a: A| r.contains(a) <==> s.contains(a) by {
            if s.contains(a) {
                let k = choose|k: int| 0 <= k < s.len() && s[k] == a;
                if k < s.len() - 1 {
                    assert(s.drop_last()[k] == a);
                    assert(s.drop_last().contains(a));
                    assert(front.contains(a));
                    let m = choose|m: int| 0 <= m < front.len() && front[m] == a;
                    assert(r[m] == a);
                } else if !front.contains(a) {
                    assert(r[r.len() - 1] == a);
                }
            }
            if r.contains(a) {
                let k = choose|k: int| 0 <= k < r.len() && r[k] == a;
                if k < front.len() {
                    assert(front[k] == a);
                    assert(front.contains(a));
                    assert(s.drop_last().contains(a));
                    let m = choose|m: int| 0 <= m < s.drop_last().len() && s.drop_last()[m] == a;
                    assert(s[m] == a);
                } else {
                    assert(s[s.len() - 1] == a);
                }
            }
        }
    }
}

/// The paths of `matches`, each kept where it first occurs.
fn dedup_paths(matches: Vec<Vec<MatchNode>>) -> (r: Vec<Vec<MatchNode>>)
    ensures
        r.deep_view() == without_repeats(matches.deep_view()),
{
    let mut result: Vec<Vec<MatchNode>> = Vec::new();
    let mut i: usize = 0;
    assert(matches.deep_view().take(0) =~= Seq::empty());
    assert(result.deep_view() =~= Seq::empty());
    while i < matches.len()
        invariant
            i <= matches.len(),
            result.deep_view() == without_repeats(matches.deep_view().take(i as int)),
        decreases matches.len() - i,
    {
        let ghost seen = result.deep_view();
        let ghost candidate = matches@[i as int].deep_view();
        let mut found = false;
        let mut k: usize = 0;
        while k < result.len() && !found
            invariant
                k <= result.len(),
                result.deep_view() == seen,
                i < matches.len(),
                candidate == matches@[i as int].deep_view(),
                found ==> seen.contains(candidate),
                !found ==> forall|m: int| 0 <= m < k ==> seen[m] != candidate,
            decreases result.len() - k + (if found { 0int } else { 1int }),
        {
            if same_path(&result[k], &matches[i]) {
                assert(seen[k as int] == candidate);
                found = true;
            } else {
                k += 1;
            }
        }
        if !found {
            result.push(duplicate_path(&matches[i]));
            assert(result.deep_view() =~= seen.push(candidate));
        }
        proof {
            let next = matches.deep_view().take(i as int + 1);
            assert(next.drop_last() =~= matches.deep_view().take(i as int));
            assert(next.last() == candidate);
        }
        i += 1;
    }
    assert(matches.deep_view().take(matches.len() as int) =~= matches.deep_view());
    result
}

/// The match paths of `pattern` in `json`, in traversal order, none of them twice.
pub fn match_pattern(json: &Json, pattern: &Pattern) -> (r: Vec<Vec<MatchNode>>)
    ensures
        r.deep_view() == pattern_matches(json@, pattern@),
        forall|i: int, j: int| 0 <= i < j < r.len() ==> r.deep_view()[i] != r.deep_view()[j],
        json@.well_formed() ==> forall|i: int|
            0 <= i < r.len() ==> json@.value_at(#[trigger] r.deep_view()[i]) is Some,
{
    let value = match &pattern.value {
        Some(v) => Some(v),
        None => None,
    };
    let start: Vec<MatchNode> = Vec::new();
    assert(start.deep_view() =~= Seq::empty());
    let matches = match_internal(
        json,
        pattern.path.as_slice(),
        value,
        start,
        pattern.or,
        !pattern.start_at_root,
    );
    proof {
        lemma_without_repeats(matches.deep_view());
        if json@.well_formed() {
            lemma_matches_in_order(json@, pattern@);
        }
    }
    dedup_paths(matches)
}

} // verus!
