//! What holds of the matches that the engine finds: each leads to a value of the
//! document, and they come in the order in which the document is walked.
use crate::json::{lemma_child_well_formed, lemma_entry_position, JsonView};
use crate::matcher::match_node::MatchNodeView;
use crate::matcher::{
    head_selects, lemma_without_repeats, matches_at, matches_below, matches_under,
    pattern_matches, step_to, without_repeats,
};
use crate::pattern::pattern::PatternView;
use crate::pattern::pattern_node::{IndexPatternView, PatternNodeView};
use vstd::prelude::*;

verus! {

/// Whether `path` goes on from `prefix` and what follows `prefix` leads to a value of
/// `json`.
pub open spec fn leads(json: JsonView, prefix: Seq<MatchNodeView>, path: Seq<MatchNodeView>) -> bool {
    &&& path.len() >= prefix.len()
    &&& path.take(prefix.len() as int) == prefix
    &&& json.value_at(path.skip(prefix.len() as int)) is Some
}

/// Whether the walk of `json` comes to the end of `a` before it comes to the end of
/// `b`. A value comes before what is below it; of two children the earlier comes
/// first; and under one child, the paths that reach it by a highlighted step come
/// before those that reach it by a step that is not.
pub open spec fn precedes(json: JsonView, a: Seq<MatchNodeView>, b: Seq<MatchNodeView>) -> bool
    decreases a.len(),
{
    if a.len() == 0 {
        b.len() > 0
    } else if b.len() == 0 {
        false
    } else {
        match (json.child_position(a[0]), json.child_position(b[0])) {
            (Some(i), Some(j)) => {
                ||| i < j
                ||| i == j && a[0].is_highlighted() && !b[0].is_highlighted()
                ||| i == j && a[0].is_highlighted() == b[0].is_highlighted() && precedes(
                    json.child(i),
                    a.drop_first(),
                    b.drop_first(),
                )
            },
            _ => false,
        }
    }
}

/// Whether every path of `paths` goes on from `prefix` to a value of `json`, and the
/// paths come in the order of the walk.
pub open spec fn in_order(
    json: JsonView,
    prefix: Seq<MatchNodeView>,
    paths: Seq<Seq<MatchNodeView>>,
) -> bool {
    &&& forall|k: int| 0 <= k < paths.len() ==> leads(json, prefix, #[trigger] paths[k])
    &&& forall|i: int, j: int|
        0 <= i < j < paths.len() ==> precedes(
            json,
            (#[trigger] paths[i]).skip(prefix.len() as int),
            (#[trigger] paths[j]).skip(prefix.len() as int),
        )
}

/// Whether every path of `paths` goes on from `prefix` with a step to one of the
/// children of `json` from the `lo`-th up to the `hi`-th.
pub open spec fn starts_within(
    json: JsonView,
    prefix: Seq<MatchNodeView>,
    paths: Seq<Seq<MatchNodeView>>,
    lo: int,
    hi: int,
) -> bool {
    forall|k: int|
        0 <= k < paths.len() ==> (#[trigger] paths[k]).len() > prefix.len()
            && json.child_position(paths[k][prefix.len() as int]) is Some && lo
            <= json.child_position(paths[k][prefix.len() as int])->0 < hi
}

/// In a well-formed document the step to a child is found again at that child.
pub proof fn lemma_step_position(json: JsonView, i: int, highlighted: bool)
    requires
        json.well_formed(),
        0 <= i < json.child_count(),
    ensures
        json.child_position(step_to(json, i, highlighted)) == Some(i),
        step_to(json, i, highlighted).is_highlighted() == highlighted,
{
    if let JsonView::Object(entries) = json {
        lemma_entry_position(entries, entries[i].key);
    }
}

/// Paths in order below a child are in order below its parent, and all begin with the
/// step to that child.
proof fn lemma_lift(
    json: JsonView,
    i: int,
    highlighted: bool,
    prefix: Seq<MatchNodeView>,
    paths: Seq<Seq<MatchNodeView>>,
)
    requires
        json.well_formed(),
        0 <= i < json.child_count(),
        in_order(json.child(i), prefix.push(step_to(json, i, highlighted)), paths),
    ensures
        in_order(json, prefix, paths),
        starts_within(json, prefix, paths, i, i + 1),
        forall|k: int|
            0 <= k < paths.len() ==> (#[trigger] paths[k])[prefix.len() as int] == step_to(
                json,
                i,
                highlighted,
            ),
{
    let step = step_to(json, i, highlighted);
    let longer = prefix.push(step);
    let n = prefix.len() as int;
    lemma_step_position(json, i, highlighted);
    assert forall|k: int| 0 <= k < paths.len() implies leads(json, prefix, #[trigger] paths[k])
        && paths[k].len() > n && paths[k][n] == step && paths[k].skip(n).drop_first()
        == paths[k].skip(n + 1) by {
        let r = paths[k];
        assert(leads(json.child(i), longer, r));
        assert(r.take(n + 1)[n] == step);
        assert(r.take(n) =~= r.take(n + 1).take(n));
        assert(longer.take(n) =~= prefix);
        assert(r.skip(n)[0] == step);
        assert(r.skip(n).drop_first() =~= r.skip(n + 1));
    }
    assert forall|a: int, b: int| 0 <= a < b < paths.len() implies precedes(
        json,
        (#[trigger] paths[a]).skip(n),
        (#[trigger] paths[b]).skip(n),
    ) by {
        assert(precedes(json.child(i), paths[a].skip(n + 1), paths[b].skip(n + 1)));
        assert(paths[a].skip(n)[0] == step);
        assert(paths[b].skip(n)[0] == step);
    }
}

/// Two runs of paths in order, every path of the first before every path of the second,
/// are in order when joined.
proof fn lemma_join(
    json: JsonView,
    prefix: Seq<MatchNodeView>,
    first: Seq<Seq<MatchNodeView>>,
    second: Seq<Seq<MatchNodeView>>,
)
    requires
        in_order(json, prefix, first),
        in_order(json, prefix, second),
        forall|a: int, b: int|
            0 <= a < first.len() && 0 <= b < second.len() ==> precedes(
                json,
                (#[trigger] first[a]).skip(prefix.len() as int),
                (#[trigger] second[b]).skip(prefix.len() as int),
            ),
    ensures
        in_order(json, prefix, first + second),
{
    let all = first + second;
    assert forall|k: int| 0 <= k < all.len() implies leads(json, prefix, #[trigger] all[k]) by {
        if k < first.len() {
            assert(all[k] == first[k]);
        } else {
            assert(all[k] == second[k - first.len()]);
        }
    }
    assert forall|i: int, j: int| 0 <= i < j < all.len() implies precedes(
        json,
        (#[trigger] all[i]).skip(prefix.len() as int),
        (#[trigger] all[j]).skip(prefix.len() as int),
    ) by {
        if j < first.len() {
            assert(all[i] == first[i] && all[j] == first[j]);
        } else if i >= first.len() {
            assert(all[i] == second[i - first.len()] && all[j] == second[j - first.len()]);
        } else {
            assert(all[i] == first[i] && all[j] == second[j - first.len()]);
        }
    }
}

/// Paths that begin under earlier children come before paths that begin under later
/// ones.
proof fn lemma_join_starts(
    json: JsonView,
    prefix: Seq<MatchNodeView>,
    first: Seq<Seq<MatchNodeView>>,
    second: Seq<Seq<MatchNodeView>>,
    lo: int,
    mid: int,
    hi: int,
)
    requires
        lo <= mid <= hi,
        starts_within(json, prefix, first, lo, mid),
        starts_within(json, prefix, second, mid, hi),
    ensures
        starts_within(json, prefix, first + second, lo, hi),
        forall|a: int, b: int|
            0 <= a < first.len() && 0 <= b < second.len() ==> precedes(
                json,
                (#[trigger] first[a]).skip(prefix.len() as int),
                (#[trigger] second[b]).skip(prefix.len() as int),
            ),
{
    let all = first + second;
    let n = prefix.len() as int;
    assert forall|k: int| 0 <= k < all.len() implies (#[trigger] all[k]).len() > n
        && json.child_position(all[k][n]) is Some && lo <= json.child_position(all[k][n])->0
        < hi by {
        if k < first.len() {
            assert(all[k] == first[k]);
        } else {
            assert(all[k] == second[k - first.len()]);
        }
    }
    assert forall|a: int, b: int| 0 <= a < first.len() && 0 <= b < second.len() implies precedes(
        json,
        (#[trigger] first[a]).skip(n),
        (#[trigger] second[b]).skip(n),
    ) by {
        assert(first[a].skip(n)[0] == first[a][n]);
        assert(second[b].skip(n)[0] == second[b][n]);
    }
}

/// The matches found at a value of a well-formed document all lead to values of the
/// document, and they come in the order of the walk.
pub proof fn lemma_matches_at_in_order(
    json: JsonView,
    path: Seq<PatternNodeView>,
    value: Option<Seq<char>>,
    prefix: Seq<MatchNodeView>,
    or: bool,
    start_head: bool,
)
    requires
        json.well_formed(),
    ensures
        in_order(json, prefix, matches_at(json, path, value, prefix, or, start_head)),
    decreases json, path.len(), json.child_count() + 1,
{
    let n = prefix.len() as int;
    let here = seq![prefix];
    assert(prefix.take(n) =~= prefix);
    assert(prefix.skip(n) =~= Seq::empty());
    assert(in_order(json, prefix, here));
    assert(in_order(json, prefix, Seq::empty()));
    if path.len() == 0 {
        if start_head {
            let below = matches_below(json, 0, path, value, prefix, or, start_head);
            lemma_matches_below_in_order(json, 0, path, value, prefix, or, start_head);
            if or || value is None || crate::matcher::value_matches(json, value->0) {
                assert forall|a: int, b: int|
                    0 <= a < here.len() && 0 <= b < below.len() implies precedes(
                    json,
                    (#[trigger] here[a]).skip(n),
                    (#[trigger] below[b]).skip(n),
                ) by {
                    assert(below[b].skip(n).len() > 0);
                }
                lemma_join(json, prefix, here, below);
            } else {
                assert(Seq::<Seq<MatchNodeView>>::empty() + below =~= below);
            }
        }
    } else if path[0] is Recursive {
        lemma_matches_at_in_order(json, path.drop_first(), value, prefix, or, true);
    } else if json.is_container() {
        lemma_matches_below_in_order(json, 0, path, value, prefix, or, start_head);
    }
}

/// The matches found under the children of a value from the `from`-th on.
pub proof fn lemma_matches_below_in_order(
    json: JsonView,
    from: int,
    path: Seq<PatternNodeView>,
    value: Option<Seq<char>>,
    prefix: Seq<MatchNodeView>,
    or: bool,
    start_head: bool,
)
    requires
        json.well_formed(),
        0 <= from,
    ensures
        in_order(json, prefix, matches_below(json, from, path, value, prefix, or, start_head)),
        starts_within(
            json,
            prefix,
            matches_below(json, from, path, value, prefix, or, start_head),
            from,
            json.child_count() as int,
        ),
    decreases json, path.len(), json.child_count() - from,
{
    if from < json.child_count() {
        let under = matches_under(json, from, path, value, prefix, or, start_head);
        let rest = matches_below(json, from + 1, path, value, prefix, or, start_head);
        lemma_matches_under_in_order(json, from, path, value, prefix, or, start_head);
        lemma_matches_below_in_order(json, from + 1, path, value, prefix, or, start_head);
        lemma_join_starts(json, prefix, under, rest, from, from + 1, json.child_count() as int);
        lemma_join(json, prefix, under, rest);
    }
}

/// The matches found under one child of a value.
pub proof fn lemma_matches_under_in_order(
    json: JsonView,
    i: int,
    path: Seq<PatternNodeView>,
    value: Option<Seq<char>>,
    prefix: Seq<MatchNodeView>,
    or: bool,
    start_head: bool,
)
    requires
        json.well_formed(),
        0 <= i < json.child_count(),
    ensures
        in_order(json, prefix, matches_under(json, i, path, value, prefix, or, start_head)),
        starts_within(
            json,
            prefix,
            matches_under(json, i, path, value, prefix, or, start_head),
            i,
            i + 1,
        ),
    decreases json, path.len(), 0nat,
{
    let n = prefix.len() as int;
    let none = Seq::<Seq<MatchNodeView>>::empty();
    lemma_child_well_formed(json, i);
    lemma_step_position(json, i, true);
    lemma_step_position(json, i, false);
    let consumed = if path.len() > 0 && head_selects(path[0], json, i) {
        matches_at(
            json.child(i),
            path.drop_first(),
            value,
            prefix.push(step_to(json, i, true)),
            or,
            false,
        )
    } else {
        none
    };
    let searched = if start_head {
        matches_at(json.child(i), path, value, prefix.push(step_to(json, i, false)), or, true)
    } else {
        none
    };
    if path.len() > 0 && head_selects(path[0], json, i) {
        lemma_matches_at_in_order(
            json.child(i),
            path.drop_first(),
            value,
            prefix.push(step_to(json, i, true)),
            or,
            false,
        );
        lemma_lift(json, i, true, prefix, consumed);
    }
    if start_head {
        lemma_matches_at_in_order(
            json.child(i),
            path,
            value,
            prefix.push(step_to(json, i, false)),
            or,
            true,
        );
        lemma_lift(json, i, false, prefix, searched);
    }
    assert forall|a: int, b: int|
        0 <= a < consumed.len() && 0 <= b < searched.len() implies precedes(
        json,
        (#[trigger] consumed[a]).skip(n),
        (#[trigger] searched[b]).skip(n),
    ) by {
        assert(consumed[a].skip(n)[0] == consumed[a][n]);
        assert(searched[b].skip(n)[0] == searched[b][n]);
    }
    lemma_join(json, prefix, consumed, searched);
    let all = consumed + searched;
    assert forall|k: int| 0 <= k < all.len() implies (#[trigger] all[k]).len() > n
        && json.child_position(all[k][n]) is Some && i <= json.child_position(all[k][n])->0 < i
        + 1 by {
        if k < consumed.len() {
            assert(all[k] == consumed[k]);
        } else {
            assert(all[k] == searched[k - consumed.len()]);
        }
    }
}

/// No path comes before itself.
pub proof fn lemma_precedes_irreflexive(json: JsonView, a: Seq<MatchNodeView>)
    ensures
        !precedes(json, a, a),
    decreases a.len(),
{
    if a.len() > 0 {
        if let Some(i) = json.child_position(a[0]) {
            lemma_precedes_irreflexive(json.child(i), a.drop_first());
        }
    }
}

/// Where no element occurs twice, nothing is left out.
pub proof fn lemma_nothing_repeated<A>(s: Seq<A>)
    requires
        forall|i: int, j: int| 0 <= i < j < s.len() ==> s[i] != s[j],
    ensures
        without_repeats(s) == s,
    decreases s.len(),
{
    if s.len() > 0 {
        let front = s.drop_last();
        assert forall|i: int, j: int| 0 <= i < j < front.len() implies front[i] != front[j] by {
            assert(front[i] == s[i] && front[j] == s[j]);
        }
        lemma_nothing_repeated(front);
        if front.contains(s.last()) {
            let k = choose|k: int| 0 <= k < front.len() && front[k] == s.last();
            assert(s[k] == s[s.len() - 1]);
        }
        assert(front.push(s.last()) =~= s);
    }
}

/// Order preservation. The matches of a pattern in a well-formed document come in the
/// order in which the document is walked: a value before what is below it, the
/// children of a value in their order in the document, and under one child the
/// matches that reach it by consuming a node of the pattern before those of a new
/// attempt. Each of them leads to a value of the document, and none of them was
/// found twice.
pub proof fn lemma_matches_in_order(json: JsonView, pattern: PatternView)
    requires
        json.well_formed(),
    ensures
        in_order(json, Seq::empty(), pattern_matches(json, pattern)),
        pattern_matches(json, pattern) == matches_at(
            json,
            pattern.path,
            pattern.value,
            Seq::empty(),
            pattern.or,
            !pattern.start_at_root,
        ),
        forall|k: int|
            0 <= k < pattern_matches(json, pattern).len() ==> json.value_at(
                #[trigger] pattern_matches(json, pattern)[k],
            ) is Some,
{
    let found = matches_at(
        json,
        pattern.path,
        pattern.value,
        Seq::empty(),
        pattern.or,
        !pattern.start_at_root,
    );
    lemma_matches_at_in_order(
        json,
        pattern.path,
        pattern.value,
        Seq::empty(),
        pattern.or,
        !pattern.start_at_root,
    );
    assert forall|i: int, j: int| 0 <= i < j < found.len() implies found[i] != found[j] by {
        assert(precedes(json, found[i].skip(0), found[j].skip(0)));
        lemma_precedes_irreflexive(json, found[i].skip(0));
    }
    lemma_nothing_repeated(found);
    assert forall|k: int| 0 <= k < found.len() implies json.value_at(#[trigger] found[k])
        is Some by {
        assert(leads(json, Seq::empty(), found[k]));
        assert(found[k].skip(0) =~= found[k]);
    }
}

/// The pattern `$..[]`: from the root, any number of levels down, every position of
/// an array.
pub open spec fn every_array_element() -> PatternView {
    PatternView {
        path: seq![PatternNodeView::Recursive, PatternNodeView::Index(IndexPatternView::All)],
        value: None,
        or: false,
        start_at_root: true,
    }
}

/// Whether `path` is written as the path to an array element is found: its last step
/// is a highlighted position, and no step before it is highlighted.
pub open spec fn is_element_path(path: Seq<MatchNodeView>) -> bool {
    &&& path.len() > 0
    &&& path.last() is Index
    &&& path.last().is_highlighted()
    &&& forall|k: int| 0 <= k < path.len() - 1 ==> !(#[trigger] path[k]).is_highlighted()
}

/// What is found under one child is among what is found under the children.
proof fn lemma_below_holds_under(
    json: JsonView,
    from: int,
    i: int,
    path: Seq<PatternNodeView>,
    value: Option<Seq<char>>,
    prefix: Seq<MatchNodeView>,
    or: bool,
    start_head: bool,
    found: Seq<MatchNodeView>,
)
    requires
        0 <= from <= i < json.child_count(),
        matches_under(json, i, path, value, prefix, or, start_head).contains(found),
    ensures
        matches_below(json, from, path, value, prefix, or, start_head).contains(found),
    decreases i - from,
{
    let under = matches_under(json, from, path, value, prefix, or, start_head);
    let rest = matches_below(json, from + 1, path, value, prefix, or, start_head);
    if from == i {
        let k = choose|k: int| 0 <= k < under.len() && under[k] == found;
        assert((under + rest)[k] == found);
    } else {
        lemma_below_holds_under(json, from + 1, i, path, value, prefix, or, start_head, found);
        let k = choose|k: int| 0 <= k < rest.len() && rest[k] == found;
        assert((under + rest)[under.len() + k] == found);
    }
}

/// An element path that leads to a value is among the matches of `[]` searched from
/// everywhere.
proof fn lemma_element_is_found(
    json: JsonView,
    prefix: Seq<MatchNodeView>,
    path: Seq<MatchNodeView>,
)
    requires
        is_element_path(path),
        json.value_at(path) is Some,
    ensures
        matches_at(
            json,
            seq![PatternNodeView::Index(IndexPatternView::All)],
            None,
            prefix,
            false,
            true,
        ).contains(prefix + path),
    decreases path.len(),
{
    let all = seq![PatternNodeView::Index(IndexPatternView::All)];
    let i = json.child_position(path[0])->0;
    let child = json.child(i);
    if let JsonView::Object(entries) = json {
        lemma_entry_position(entries, path[0]->Key_key);
    }
    let under = matches_under(json, i, all, None, prefix, false, true);
    let consumed = if head_selects(all[0], json, i) {
        matches_at(child, all.drop_first(), None, prefix.push(step_to(json, i, true)), false, false)
    } else {
        Seq::empty()
    };
    let searched = matches_at(child, all, None, prefix.push(step_to(json, i, false)), false, true);
    assert(under == consumed + searched);
    if path.len() == 1 {
        assert(step_to(json, i, true) == path[0]);
        assert(prefix.push(path[0]) =~= prefix + path);
        assert(consumed =~= seq![prefix + path]);
        assert((consumed + searched)[0] == prefix + path);
    } else {
        assert(step_to(json, i, false) == path[0]);
        assert(path.drop_first().last() == path.last());
        assert forall|k: int| 0 <= k < path.drop_first().len() - 1 implies !(
        #[trigger] path.drop_first()[k]).is_highlighted() by {
            assert(path.drop_first()[k] == path[k + 1]);
        }
        lemma_element_is_found(child, prefix.push(path[0]), path.drop_first());
        assert(prefix.push(path[0]) + path.drop_first() =~= prefix + path);
        let k = choose|k: int| 0 <= k < searched.len() && searched[k] == prefix + path;
        assert((consumed + searched)[consumed.len() + k] == prefix + path);
    }
    lemma_below_holds_under(json, 0, i, all, None, prefix, false, true, prefix + path);
}

/// Whether every path of `paths` is `prefix` followed by the path to an array element.
pub open spec fn all_elements(prefix: Seq<MatchNodeView>, paths: Seq<Seq<MatchNodeView>>) -> bool {
    forall|k: int|
        0 <= k < paths.len() ==> (#[trigger] paths[k]).len() > prefix.len() && paths[k].take(
            prefix.len() as int,
        ) == prefix && is_element_path(paths[k].skip(prefix.len() as int))
}

proof fn lemma_elements_lift(
    prefix: Seq<MatchNodeView>,
    step: MatchNodeView,
    paths: Seq<Seq<MatchNodeView>>,
)
    requires
        !step.is_highlighted(),
        all_elements(prefix.push(step), paths),
    ensures
        all_elements(prefix, paths),
{
    let n = prefix.len() as int;
    assert forall|k: int| 0 <= k < paths.len() implies (#[trigger] paths[k]).len() > n
        && paths[k].take(n) == prefix && is_element_path(paths[k].skip(n)) by {
        let r = paths[k];
        let longer = prefix.push(step);
        assert(r.take(n + 1) == longer);
        assert(r.take(n) =~= r.take(n + 1).take(n));
        assert(longer.take(n) =~= prefix);
        assert(r[n] == r.take(n + 1)[n]);
        let tail = r.skip(n + 1);
        let whole = r.skip(n);
        assert(whole.last() == tail.last());
        assert forall|j: int| 0 <= j < whole.len() - 1 implies !(#[trigger] whole[j]).is_highlighted() by {
            if j > 0 {
                assert(whole[j] == tail[j - 1]);
            }
        }
    }
}

proof fn lemma_only_elements_below(json: JsonView, from: int, prefix: Seq<MatchNodeView>)
    requires
        0 <= from,
    ensures
        all_elements(
            prefix,
            matches_below(
                json,
                from,
                seq![PatternNodeView::Index(IndexPatternView::All)],
                None,
                prefix,
                false,
                true,
            ),
        ),
    decreases json, json.child_count() - from,
{
    let all = seq![PatternNodeView::Index(IndexPatternView::All)];
    if from < json.child_count() {
        let n = prefix.len() as int;
        let hit = prefix.push(step_to(json, from, true));
        let consumed = if head_selects(all[0], json, from) {
            matches_at(json.child(from), all.drop_first(), None, hit, false, false)
        } else {
            Seq::empty()
        };
        let searched = matches_at(
            json.child(from),
            all,
            None,
            prefix.push(step_to(json, from, false)),
            false,
            true,
        );
        let rest = matches_below(json, from + 1, all, None, prefix, false, true);
        if head_selects(all[0], json, from) {
            assert(consumed =~= seq![hit]);
            assert(hit.take(n) =~= prefix);
            assert(hit.skip(n) =~= seq![step_to(json, from, true)]);
        }
        lemma_only_elements_at(json.child(from), prefix.push(step_to(json, from, false)));
        lemma_elements_lift(prefix, step_to(json, from, false), searched);
        lemma_only_elements_below(json, from + 1, prefix);
        let found = consumed + searched + rest;
        let under = matches_under(json, from, all, None, prefix, false, true);
        assert(all.len() > 0);
        assert(under == consumed + searched);
        assert(found =~= matches_below(json, from, all, None, prefix, false, true));
        assert forall|k: int| 0 <= k < found.len() implies (#[trigger] found[k]).len() > n
            && found[k].take(n) == prefix && is_element_path(found[k].skip(n)) by {
            if k < consumed.len() {
                assert(found[k] == consumed[k]);
            } else if k < consumed.len() + searched.len() {
                assert(found[k] == searched[k - consumed.len()]);
            } else {
                assert(found[k] == rest[k - consumed.len() - searched.len()]);
            }
        }
    }
}

proof fn lemma_only_elements_at(json: JsonView, prefix: Seq<MatchNodeView>)
    ensures
        all_elements(
            prefix,
            matches_at(
                json,
                seq![PatternNodeView::Index(IndexPatternView::All)],
                None,
                prefix,
                false,
                true,
            ),
        ),
    decreases json, json.child_count() + 1,
{
    if json.is_container() {
        lemma_only_elements_below(json, 0, prefix);
    }
}

/// Against any document the pattern `$..[]` matches nothing but array elements: every
/// match is the path to an element, its last step highlighted.
pub proof fn lemma_recursive_descent_finds_elements(json: JsonView)
    ensures
        forall|k: int|
            0 <= k < pattern_matches(json, every_array_element()).len() ==> is_element_path(
                #[trigger] pattern_matches(json, every_array_element())[k],
            ),
{
    let pattern = every_array_element();
    let found = matches_at(json, pattern.path, None, Seq::empty(), false, false);
    let kept = pattern_matches(json, pattern);
    assert(pattern.path.drop_first() =~= seq![PatternNodeView::Index(IndexPatternView::All)]);
    lemma_only_elements_at(json, Seq::empty());
    lemma_without_repeats(found);
    assert forall|k: int| 0 <= k < kept.len() implies is_element_path(#[trigger] kept[k]) by {
        assert(kept.contains(kept[k]));
        assert(found.contains(kept[k]));
        let m = choose|m: int| 0 <= m < found.len() && found[m] == kept[k];
        assert(found[m].skip(0) =~= found[m]);
    }
}

/// Recursive descent. Against any document the pattern `$..[]` matches every array
/// element that can be reached from the root, at every depth: the path to the
/// element, its last step highlighted, is among the matches.
pub proof fn lemma_recursive_descent(json: JsonView, path: Seq<MatchNodeView>)
    requires
        is_element_path(path),
        json.value_at(path) is Some,
    ensures
        pattern_matches(json, every_array_element()).contains(path),
{
    let pattern = every_array_element();
    let found = matches_at(json, pattern.path, None, Seq::empty(), false, false);
    assert(pattern.path.drop_first() =~= seq![PatternNodeView::Index(IndexPatternView::All)]);
    lemma_element_is_found(json, Seq::empty(), path);
    assert(Seq::<MatchNodeView>::empty() + path =~= path);
    assert(found.contains(path));
    lemma_without_repeats(found);
}

} // verus!
