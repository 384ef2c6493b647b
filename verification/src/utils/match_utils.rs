//! Sorting match paths by where they lead.
use crate::json::JsonView;
use crate::matcher::match_node::{MatchNode, MatchNodeView};
use crate::text::str_to_chars;
use itertools::Itertools;
use vstd::prelude::*;
use vstd::seq_lib::{to_multiset_build, to_multiset_insert};

verus! {

/// How one thing stands to another in an order.
#[derive(Clone, Copy, Debug, PartialEq, Eq, Structural)]
pub enum PathOrder {
    Less,
    Equal,
    Greater,
}

/// The steps that two paths have at one position, or the step of the longer path
/// where the other has ended.
pub enum Paired<'a> {
    Both(&'a MatchNode, &'a MatchNode),
    Left(&'a MatchNode),
    Right(&'a MatchNode),
}

/// What a [`Paired`] denotes.
pub enum PairedView {
    Both(MatchNodeView, MatchNodeView),
    Left(MatchNodeView),
    Right(MatchNodeView),
}

impl<'a> View for Paired<'a> {
    type V = PairedView;

    open spec fn view(&self) -> PairedView {
        match self {
            Paired::Both(a, b) => PairedView::Both(a@, b@),
            Paired::Left(a) => PairedView::Left(a@),
            Paired::Right(b) => PairedView::Right(b@),
        }
    }
}

impl<'a> DeepView for Paired<'a> {
    type V = PairedView;

    open spec fn deep_view(&self) -> PairedView {
        self@
    }
}

/// The steps of `a` and `b` side by side: pairs as long as both paths last, then the
/// steps that the longer one has left.
pub open spec fn paired(a: Seq<MatchNodeView>, b: Seq<MatchNodeView>) -> Seq<PairedView> {
    Seq::new(
        if a.len() >= b.len() {
            a.len()
        } else {
            b.len()
        },
        |i: int|
            if i < a.len() && i < b.len() {
                PairedView::Both(a[i], b[i])
            } else if i < a.len() {
                PairedView::Left(a[i])
            } else {
                PairedView::Right(b[i])
            },
    )
}

/// What stands at each place of the steps of two paths side by side.
pub proof fn lemma_paired(a: Seq<MatchNodeView>, b: Seq<MatchNodeView>)
    ensures
        paired(a, b).len() >= a.len(),
        paired(a, b).len() >= b.len(),
        paired(a, b).len() == a.len() || paired(a, b).len() == b.len(),
        forall|i: int|
            0 <= i < paired(a, b).len() ==> #[trigger] paired(a, b)[i] == if i < a.len() && i
                < b.len() {
                PairedView::Both(a[i], b[i])
            } else if i < a.len() {
                PairedView::Left(a[i])
            } else {
                PairedView::Right(b[i])
            },
{
}

/// Pairs the steps of two paths with `zip_longest` of `itertools`.
///
/// Trusted: the adaptor is taken to yield `Both` as long as neither path has ended,
/// then `Left` for what is left of the first or `Right` for what is left of the
/// second, as its documentation says.
#[verifier::external_body]
fn zip_longest<'a>(a: &'a [MatchNode], b: &'a [MatchNode]) -> (r: Vec<Paired<'a>>)
    ensures
        r.deep_view() == paired(a.deep_view(), b.deep_view()),
{
    a.iter().zip_longest(b.iter()).map(
        |pair|
            match pair {
                itertools::EitherOrBoth::Both(x, y) => Paired::Both(x, y),
                itertools::EitherOrBoth::Left(x) => Paired::Left(x),
                itertools::EitherOrBoth::Right(y) => Paired::Right(y),
            },
    ).collect()
}

/// The order of two texts: that of their first characters that differ; a text comes
/// before every text that it begins.
pub open spec fn text_order(a: Seq<char>, b: Seq<char>) -> PathOrder
    decreases a.len(),
{
    if a.len() == 0 && b.len() == 0 {
        PathOrder::Equal
    } else if a.len() == 0 {
        PathOrder::Less
    } else if b.len() == 0 {
        PathOrder::Greater
    } else if a[0] < b[0] {
        PathOrder::Less
    } else if a[0] > b[0] {
        PathOrder::Greater
    } else {
        text_order(a.drop_first(), b.drop_first())
    }
}

/// Whether two steps are of one kind: both keys, or both positions.
pub open spec fn same_kind(a: MatchNodeView, b: MatchNodeView) -> bool {
    (a is Key) == (b is Key)
}

/// The order of two steps: keys by their text, positions by their number. Whether a
/// step is highlighted does not count. Between a key and a position, which no two
/// paths into one document have at one place, the key comes first.
pub open spec fn step_order(a: MatchNodeView, b: MatchNodeView) -> PathOrder {
    match (a, b) {
        (MatchNodeView::Key { key: x, .. }, MatchNodeView::Key { key: y, .. }) => text_order(x, y),
        (MatchNodeView::Index { index: x, .. }, MatchNodeView::Index { index: y, .. }) => if x
            < y {
            PathOrder::Less
        } else if x > y {
            PathOrder::Greater
        } else {
            PathOrder::Equal
        },
        (MatchNodeView::Key { .. }, MatchNodeView::Index { .. }) => PathOrder::Less,
        (MatchNodeView::Index { .. }, MatchNodeView::Key { .. }) => PathOrder::Greater,
    }
}

/// The order of two paths: that of their first steps that differ; a path comes before
/// every path that it begins.
pub open spec fn path_order(a: Seq<MatchNodeView>, b: Seq<MatchNodeView>) -> PathOrder
    decreases a.len(),
{
    if a.len() == 0 && b.len() == 0 {
        PathOrder::Equal
    } else if a.len() == 0 {
        PathOrder::Less
    } else if b.len() == 0 {
        PathOrder::Greater
    } else if step_order(a[0], b[0]) is Equal {
        path_order(a.drop_first(), b.drop_first())
    } else {
        step_order(a[0], b[0])
    }
}

/// Whether the first `k` steps of two paths are the same to the order.
pub open spec fn agree_before(a: Seq<MatchNodeView>, b: Seq<MatchNodeView>, k: int) -> bool {
    forall|j: int| 0 <= j < k ==> step_order(#[trigger] a[j], b[j]) is Equal
}

/// Whether two paths can be compared: at the first place where they differ, both have
/// a key or both have a position.
pub open spec fn comparable(a: Seq<MatchNodeView>, b: Seq<MatchNodeView>) -> bool {
    forall|k: int|
        0 <= k < a.len() && k < b.len() && #[trigger] agree_before(a, b, k) ==> same_kind(
            a[k],
            b[k],
        )
}

/// Whether every two of `paths` can be compared.
pub open spec fn all_comparable(paths: Seq<Seq<MatchNodeView>>) -> bool {
    forall|i: int, j: int|
        0 <= i < paths.len() && 0 <= j < paths.len() ==> comparable(
            #[trigger] paths[i],
            #[trigger] paths[j],
        )
}

/// The position of the first of `sorted` that comes after `path`, or the length of
/// `sorted` where none does.
pub open spec fn first_after(sorted: Seq<Seq<MatchNodeView>>, path: Seq<MatchNodeView>) -> int
    decreases sorted.len(),
{
    if sorted.len() == 0 || path_order(sorted[0], path) is Greater {
        0
    } else {
        1 + first_after(sorted.drop_first(), path)
    }
}

/// `paths` in order: each path, in turn, put behind the paths before it that do not
/// come after it. Paths that the order does not tell apart keep their places among
/// each other.
pub open spec fn sorted(paths: Seq<Seq<MatchNodeView>>) -> Seq<Seq<MatchNodeView>>
    decreases paths.len(),
{
    if paths.len() == 0 {
        paths
    } else {
        let front = sorted(paths.drop_last());
        front.insert(first_after(front, paths.last()), paths.last())
    }
}

/// Compares two keys character by character.
fn compare_keys(a: &str, b: &str) -> (r: PathOrder)
    ensures
        r == text_order(a@, b@),
{
    let x = str_to_chars(a);
    let y = str_to_chars(b);
    let mut i: usize = 0;
    assert(x@.skip(0) =~= x@);
    assert(y@.skip(0) =~= y@);
    while i < x.len() && i < y.len()
        invariant
            i <= x.len(),
            i <= y.len(),
            x@ == a@,
            y@ == b@,
            text_order(a@, b@) == text_order(x@.skip(i as int), y@.skip(i as int)),
        decreases x.len() - i,
    {
        assert(x@.skip(i as int)[0] == x@[i as int]);
        assert(y@.skip(i as int)[0] == y@[i as int]);
        if x[i] < y[i] {
            return PathOrder::Less;
        }
        if x[i] > y[i] {
            return PathOrder::Greater;
        }
        assert(x@.skip(i as int).drop_first() =~= x@.skip(i as int + 1));
        assert(y@.skip(i as int).drop_first() =~= y@.skip(i as int + 1));
        i += 1;
    }
    if i < x.len() {
        PathOrder::Greater
    } else if i < y.len() {
        PathOrder::Less
    } else {
        PathOrder::Equal
    }
}

/// Compares two paths step by step.
pub fn compare(a: &[MatchNode], b: &[MatchNode]) -> (r: PathOrder)
    requires
        comparable(a.deep_view(), b.deep_view()),
    ensures
        r == path_order(a.deep_view(), b.deep_view()),
{
    let pairs = zip_longest(a, b);
    let ghost x = a.deep_view();
    let ghost y = b.deep_view();
    let mut k: usize = 0;
    assert(x.skip(0) =~= x);
    assert(y.skip(0) =~= y);
    while k < pairs.len()
        invariant
            k <= pairs.len(),
            k <= x.len(),
            k <= y.len(),
            x == a.deep_view(),
            y == b.deep_view(),
            comparable(x, y),
            pairs.deep_view() == paired(x, y),
            agree_before(x, y, k as int),
            path_order(x, y) == path_order(x.skip(k as int), y.skip(k as int)),
        decreases pairs.len() - k,
    {
        let ghost here = paired(x, y)[k as int];
        proof {
            lemma_paired(x, y);
        }
        assert(pairs.deep_view()[k as int] == pairs@[k as int]@);
        assert(pairs@[k as int]@ == here);
        match &pairs[k] {
            Paired::Both(a_node, b_node) => {
                assert(k < x.len() && k < y.len());
                assert(a_node@ == x[k as int] && b_node@ == y[k as int]);
                assert(x.skip(k as int)[0] == x[k as int]);
                assert(y.skip(k as int)[0] == y[k as int]);
                assert(same_kind(x[k as int], y[k as int]));
                let order = match (a_node, b_node) {
                    (MatchNode::Key(a_key), MatchNode::Key(b_key)) => compare_keys(
                        a_key.key.as_str(),
                        b_key.key.as_str(),
                    ),
                    (MatchNode::Index(a_index), MatchNode::Index(b_index)) => {
                        if a_index.index < b_index.index {
                            PathOrder::Less
                        } else if a_index.index > b_index.index {
                            PathOrder::Greater
                        } else {
                            PathOrder::Equal
                        }
                    },
                    _ => PathOrder::Equal,
                };
                assert(order == step_order(x[k as int], y[k as int]));
                if order != PathOrder::Equal {
                    return order;
                }
                assert(x.skip(k as int).drop_first() =~= x.skip(k as int + 1));
                assert(y.skip(k as int).drop_first() =~= y.skip(k as int + 1));
            },
            Paired::Left(_) => {
                assert(k < x.len() && k >= y.len());
                assert(x.skip(k as int).len() > 0 && y.skip(k as int).len() == 0);
                return PathOrder::Greater;
            },
            Paired::Right(_) => {
                assert(k >= x.len() && k < y.len());
                assert(x.skip(k as int).len() == 0 && y.skip(k as int).len() > 0);
                return PathOrder::Less;
            },
        }
        k += 1;
    }
    proof {
        lemma_paired(x, y);
    }
    assert(x.skip(k as int).len() == 0 && y.skip(k as int).len() == 0);
    PathOrder::Equal
}

/// The order turned round.
pub open spec fn flipped(order: PathOrder) -> PathOrder {
    match order {
        PathOrder::Less => PathOrder::Greater,
        PathOrder::Equal => PathOrder::Equal,
        PathOrder::Greater => PathOrder::Less,
    }
}

/// Turning two texts round turns their order round.
proof fn lemma_text_order_flips(a: Seq<char>, b: Seq<char>)
    ensures
        text_order(b, a) == flipped(text_order(a, b)),
    decreases a.len(),
{
    if a.len() > 0 && b.len() > 0 && a[0] == b[0] {
        lemma_text_order_flips(a.drop_first(), b.drop_first());
    }
}

/// Texts that the order does not tell apart are the same text.
proof fn lemma_text_order_equal(a: Seq<char>, b: Seq<char>)
    requires
        text_order(a, b) is Equal,
    ensures
        a == b,
    decreases a.len(),
{
    if a.len() > 0 && b.len() > 0 {
        lemma_text_order_equal(a.drop_first(), b.drop_first());
        assert(a =~= seq![a[0]] + a.drop_first());
        assert(b =~= seq![b[0]] + b.drop_first());
    } else {
        assert(a =~= b);
    }
}

/// What comes before a text that comes before a third comes before the third.
proof fn lemma_text_order_chains(a: Seq<char>, b: Seq<char>, c: Seq<char>)
    requires
        text_order(a, b) is Less,
        text_order(b, c) is Less,
    ensures
        text_order(a, c) is Less,
    decreases a.len(),
{
    if a.len() > 0 && b.len() > 0 && c.len() > 0 && a[0] == b[0] && b[0] == c[0] {
        lemma_text_order_chains(a.drop_first(), b.drop_first(), c.drop_first());
    }
}

/// Turning two steps round turns their order round.
proof fn lemma_step_order_flips(a: MatchNodeView, b: MatchNodeView)
    ensures
        step_order(b, a) == flipped(step_order(a, b)),
{
    if a is Key && b is Key {
        lemma_text_order_flips(a->Key_key, b->Key_key);
    }
}

/// Steps that the order does not tell apart stand alike to every step.
proof fn lemma_step_order_equal(a: MatchNodeView, b: MatchNodeView, c: MatchNodeView)
    requires
        step_order(a, b) is Equal,
    ensures
        step_order(a, c) == step_order(b, c),
        step_order(c, a) == step_order(c, b),
{
    if a is Key && b is Key {
        lemma_text_order_equal(a->Key_key, b->Key_key);
    }
}

/// What comes before a step that comes before a third comes before the third.
proof fn lemma_step_order_chains(a: MatchNodeView, b: MatchNodeView, c: MatchNodeView)
    requires
        step_order(a, b) is Less,
        step_order(b, c) is Less,
    ensures
        step_order(a, c) is Less,
{
    if a is Key && b is Key && c is Key {
        lemma_text_order_chains(a->Key_key, b->Key_key, c->Key_key);
    }
}

/// Turning two paths round turns their order round.
pub proof fn lemma_path_order_flips(a: Seq<MatchNodeView>, b: Seq<MatchNodeView>)
    ensures
        path_order(b, a) == flipped(path_order(a, b)),
    decreases a.len(),
{
    if a.len() > 0 && b.len() > 0 {
        lemma_step_order_flips(a[0], b[0]);
        lemma_path_order_flips(a.drop_first(), b.drop_first());
    }
}

/// Paths that the order does not tell apart stand alike to every path.
proof fn lemma_path_order_equal(a: Seq<MatchNodeView>, b: Seq<MatchNodeView>, c: Seq<MatchNodeView>)
    requires
        path_order(a, b) is Equal,
    ensures
        path_order(a, c) == path_order(b, c),
        path_order(c, a) == path_order(c, b),
    decreases a.len(),
{
    if a.len() > 0 && b.len() > 0 && c.len() > 0 {
        lemma_step_order_equal(a[0], b[0], c[0]);
        lemma_path_order_equal(a.drop_first(), b.drop_first(), c.drop_first());
    }
}

/// What comes before a path that comes before a third comes before the third.
proof fn lemma_path_order_chains(a: Seq<MatchNodeView>, b: Seq<MatchNodeView>, c: Seq<MatchNodeView>)
    requires
        path_order(a, b) is Less,
        path_order(b, c) is Less,
    ensures
        path_order(a, c) is Less,
    decreases a.len(),
{
    if a.len() > 0 && b.len() > 0 && c.len() > 0 {
        let ab = step_order(a[0], b[0]);
        let bc = step_order(b[0], c[0]);
        if ab is Equal {
            lemma_step_order_equal(a[0], b[0], c[0]);
            if bc is Equal {
                lemma_path_order_chains(a.drop_first(), b.drop_first(), c.drop_first());
            }
        } else if bc is Equal {
            lemma_step_order_flips(b[0], c[0]);
            lemma_step_order_equal(c[0], b[0], a[0]);
        } else {
            lemma_step_order_chains(a[0], b[0], c[0]);
        }
    }
}

/// The order of paths is transitive: what does not come after a path that does not
/// come after a third does not come after the third.
pub proof fn lemma_path_order_transitive(
    a: Seq<MatchNodeView>,
    b: Seq<MatchNodeView>,
    c: Seq<MatchNodeView>,
)
    requires
        !(path_order(a, b) is Greater),
        !(path_order(b, c) is Greater),
    ensures
        !(path_order(a, c) is Greater),
{
    if path_order(a, b) is Equal {
        lemma_path_order_equal(a, b, c);
    } else if path_order(b, c) is Equal {
        lemma_path_order_flips(b, c);
        lemma_path_order_equal(c, b, a);
    } else {
        lemma_path_order_chains(a, b, c);
    }
}

/// Two paths into one document that agree before a place are of one kind at it.
proof fn lemma_same_kind_at(
    json: JsonView,
    a: Seq<MatchNodeView>,
    b: Seq<MatchNodeView>,
    k: int,
)
    requires
        json.value_at(a) is Some,
        json.value_at(b) is Some,
        0 <= k < a.len(),
        k < b.len(),
        agree_before(a, b, k),
    ensures
        same_kind(a[k], b[k]),
    decreases k,
{
    if k > 0 {
        assert(step_order(a[0], b[0]) is Equal);
        if a[0] is Key && b[0] is Key {
            lemma_text_order_equal(a[0]->Key_key, b[0]->Key_key);
        }
        let child = json.child(json.child_position(a[0])->0);
        assert forall|j: int| 0 <= j < k - 1 implies step_order(
            #[trigger] a.drop_first()[j],
            b.drop_first()[j],
        ) is Equal by {
            assert(step_order(a[j + 1], b[j + 1]) is Equal);
        }
        lemma_same_kind_at(child, a.drop_first(), b.drop_first(), k - 1);
    }
}

/// Two paths that lead to values of one document can be compared.
pub proof fn lemma_paths_of_a_document_are_comparable(
    json: JsonView,
    a: Seq<MatchNodeView>,
    b: Seq<MatchNodeView>,
)
    requires
        json.value_at(a) is Some,
        json.value_at(b) is Some,
    ensures
        comparable(a, b),
{
    assert forall|k: int|
        0 <= k < a.len() && k < b.len() && #[trigger] agree_before(a, b, k) implies same_kind(
        a[k],
        b[k],
    ) by {
        lemma_same_kind_at(json, a, b, k);
    }
}

/// Where `first_after` points: before it stand paths that do not come after `path`,
/// at it one that does.
pub proof fn lemma_first_after(paths: Seq<Seq<MatchNodeView>>, path: Seq<MatchNodeView>)
    ensures
        0 <= first_after(paths, path) <= paths.len(),
        forall|k: int|
            0 <= k < first_after(paths, path) ==> !(path_order(#[trigger] paths[k], path)
                is Greater),
        first_after(paths, path) < paths.len() ==> path_order(
            paths[first_after(paths, path)],
            path,
        ) is Greater,
    decreases paths.len(),
{
    if paths.len() > 0 && !(path_order(paths[0], path) is Greater) {
        lemma_first_after(paths.drop_first(), path);
        assert forall|k: int| 0 <= k < first_after(paths, path) implies !(path_order(
            #[trigger] paths[k],
            path,
        ) is Greater) by {
            if k > 0 {
                assert(paths.drop_first()[k - 1] == paths[k]);
            }
        }
    }
}

/// Whether no path of `paths` comes after a later one.
pub open spec fn is_sorted(paths: Seq<Seq<MatchNodeView>>) -> bool {
    forall|i: int, j: int|
        0 <= i < j < paths.len() ==> !(path_order(#[trigger] paths[i], #[trigger] paths[j])
            is Greater)
}

/// What sorting gives holds the same paths as often, and none of them comes after a
/// later one.
pub proof fn lemma_sorted(paths: Seq<Seq<MatchNodeView>>)
    ensures
        sorted(paths).len() == paths.len(),
        sorted(paths).to_multiset() == paths.to_multiset(),
        is_sorted(sorted(paths)),
    decreases paths.len(),
{
    if paths.len() > 0 {
        let front = sorted(paths.drop_last());
        let path = paths.last();
        let p = first_after(front, path);
        let all = front.insert(p, path);
        lemma_sorted(paths.drop_last());
        lemma_first_after(front, path);
        to_multiset_insert(front, p, path);
        to_multiset_build(paths.drop_last(), path);
        assert(paths.drop_last().push(path) =~= paths);
        assert forall|i: int, j: int| 0 <= i < j < all.len() implies !(path_order(
            #[trigger] all[i],
            #[trigger] all[j],
        ) is Greater) by {
            if j < p {
                assert(all[i] == front[i] && all[j] == front[j]);
            } else if j == p {
                assert(all[i] == front[i]);
            } else if i == p {
                // `front[p]` comes after `path`, and not after `front[j - 1]`
                assert(all[j] == front[j - 1]);
                lemma_path_order_flips(front[p], path);
                if j - 1 > p {
                    assert(!(path_order(front[p], front[j - 1]) is Greater));
                } else {
                    lemma_path_order_flips(front[p], front[p]);
                }
                lemma_path_order_transitive(path, front[p], front[j - 1]);
            } else if i < p {
                assert(all[i] == front[i] && all[j] == front[j - 1]);
            } else {
                assert(all[i] == front[i - 1] && all[j] == front[j - 1]);
            }
        }
    }
}

/// Sorts the match paths: by their steps from the first on, keys by their text and
/// positions by their number, a path before every path that it begins. Paths that
/// differ only in what is highlighted keep their places among each other. Every two
/// paths must be comparable, as two paths into one document are.
pub fn sort_matches(matches: &mut Vec<Vec<MatchNode>>)
    requires
        all_comparable(old(matches).deep_view()),
    ensures
        final(matches).deep_view() == sorted(old(matches).deep_view()),
        final(matches).deep_view().to_multiset() == old(matches).deep_view().to_multiset(),
        is_sorted(final(matches).deep_view()),
{
    let ghost unsorted = matches.deep_view();
    let mut i: usize = 0;
    assert(unsorted.take(0) =~= Seq::empty());
    assert(unsorted.skip(0) =~= unsorted);
    while i < matches.len()
        invariant
            i <= matches.len(),
            matches.len() == unsorted.len(),
            unsorted == old(matches).deep_view(),
            all_comparable(matches.deep_view()),
            matches.deep_view().take(i as int) == sorted(unsorted.take(i as int)),
            matches.deep_view().skip(i as int) == unsorted.skip(i as int),
        decreases matches.len() - i,
    {
        let ghost before = matches.deep_view();
        let path = matches.remove(i);
        let ghost removed = matches.deep_view();
        assert(removed =~= before.remove(i as int));
        assert(path.deep_view() == before[i as int]);
        let ghost front = removed.take(i as int);
        assert(front =~= before.take(i as int));
        let mut p: usize = 0;
        assert(front.skip(0) =~= front);
        while p < i && compare(matches[p].as_slice(), path.as_slice()) != PathOrder::Greater
            invariant
                p <= i <= matches.len(),
                removed == matches.deep_view(),
                front == removed.take(i as int),
                all_comparable(before),
                removed == before.remove(i as int),
                path.deep_view() == before[i as int],
                i < before.len(),
                first_after(front, path.deep_view()) == p + first_after(
                    front.skip(p as int),
                    path.deep_view(),
                ),
            decreases i - p,
        {
            assert(front.skip(p as int)[0] == front[p as int]);
            assert(front.skip(p as int).drop_first() =~= front.skip(p as int + 1));
            p += 1;
            proof {
                if p < i {
                    assert(removed[p as int] == before[p as int]);
                    assert(matches@[p as int].deep_view() == removed[p as int]);
                    assert(comparable(before[p as int], before[i as int]));
                }
            }
        }
        proof {
            if p < i {
                assert(front.skip(p as int)[0] == front[p as int]);
                assert(front[p as int] == matches@[p as int].deep_view());
            }
        }
        matches.insert(p, path);
        proof {
            let after = matches.deep_view();
            assert(after =~= removed.insert(p as int, before[i as int]));
            let next = unsorted.take(i as int + 1);
            assert(next.drop_last() =~= unsorted.take(i as int));
            assert(next.last() == unsorted[i as int]);
            assert(unsorted.skip(i as int)[0] == unsorted[i as int]);
            assert(before.skip(i as int)[0] == before[i as int]);
            assert(after.take(i as int + 1) =~= front.insert(p as int, before[i as int]));
            assert(after.skip(i as int + 1) =~= unsorted.skip(i as int + 1)) by {
                assert forall|k: int| 0 <= k < after.len() - i - 1 implies #[trigger] after.skip(
                    i as int + 1,
                )[k] == unsorted.skip(i as int + 1)[k] by {
                    assert(after[i + 1 + k] == before[i + 1 + k]);
                    assert(before.skip(i as int)[k + 1] == unsorted.skip(i as int)[k + 1]);
                }
            }
            assert forall|a: int, b: int|
                0 <= a < after.len() && 0 <= b < after.len() implies comparable(
                #[trigger] after[a],
                #[trigger] after[b],
            ) by {
                let from_a = if a < p {
                    a
                } else if a == p {
                    i as int
                } else if a <= i {
                    a - 1
                } else {
                    a
                };
                let from_b = if b < p {
                    b
                } else if b == p {
                    i as int
                } else if b <= i {
                    b - 1
                } else {
                    b
                };
                assert(after[a] == before[from_a]);
                assert(after[b] == before[from_b]);
            }
        }
        i += 1;
    }
    proof {
        assert(matches.deep_view().take(matches.len() as int) =~= matches.deep_view());
        assert(unsorted.take(unsorted.len() as int) =~= unsorted);
        lemma_sorted(unsorted);
    }
}

} // verus!
