//! The value-only renderer: one line for each match, the value found there.
use crate::json::{Json, JsonView};
use crate::matcher::match_node::{MatchNode, MatchNodeView};
use crate::printers::compact::{compact, push_compact};
use crate::text::chars_to_string;
use vstd::prelude::*;
use vstd::slice::slice_subrange;

verus! {

/// How many steps of a path of `len` steps are kept: `context` steps are dropped from
/// its end, but never the first one.
pub open spec fn kept_steps(len: int, context: int) -> int {
    if len <= 0 {
        0
    } else if context < len - 1 {
        len - context
    } else {
        1
    }
}

/// The line for one match: the compact text of the value that the shortened path
/// leads to, and a line feed.
pub open spec fn only_line(json: JsonView, path: Seq<MatchNodeView>, context: int) -> Seq<char> {
    compact(json.value_at(path.take(kept_steps(path.len() as int, context)))->0) + seq!['\n']
}

/// The lines for `matches`, in their order.
pub open spec fn only_lines(
    json: JsonView,
    matches: Seq<Seq<MatchNodeView>>,
    context: int,
) -> Seq<char>
    decreases matches.len(),
{
    if matches.len() == 0 {
        Seq::empty()
    } else {
        only_lines(json, matches.drop_last(), context) + only_line(json, matches.last(), context)
    }
}

/// A path that leads to a value leads to one after each of its steps.
pub proof fn lemma_prefix_resolves(json: JsonView, path: Seq<MatchNodeView>, n: int)
    requires
        0 <= n <= path.len(),
        json.value_at(path) is Some,
    ensures
        json.value_at(path.take(n)) is Some,
    decreases n,
{
    if n > 0 {
        let child = json.child(json.child_position(path[0])->0);
        assert(path.take(n)[0] == path[0]);
        assert(path.take(n).drop_first() =~= path.drop_first().take(n - 1));
        lemma_prefix_resolves(child, path.drop_first(), n - 1);
    }
}

/// Renders each match as a line: the value found `context` levels above the end of its
/// path, at most at its first step. Every path must lead to a value of the document.
pub fn print(value: &Json, matches: &Vec<Vec<MatchNode>>, context: usize) -> (r: String)
    requires
        forall|i: int|
            0 <= i < matches.len() ==> value@.value_at(#[trigger] matches.deep_view()[i]) is Some,
    ensures
        r@ == only_lines(value@, matches.deep_view(), context as int),
{
    let mut out: Vec<char> = Vec::new();
    let mut i: usize = 0;
    let ghost views = matches.deep_view();
    assert(views.take(0) =~= Seq::empty());
    while i < matches.len()
        invariant
            i <= matches.len(),
            views == matches.deep_view(),
            forall|k: int| 0 <= k < matches.len() ==> value@.value_at(#[trigger] views[k]) is Some,
            out@ == only_lines(value@, views.take(i as int), context as int),
        decreases matches.len() - i,
    {
        let ghost before = out@;
        let path = &matches[i];
        assert(views[i as int] == path.deep_view());
        let kept = if path.len() == 0 {
            0
        } else if context < path.len() - 1 {
            path.len() - context
        } else {
            1
        };
        let shortened = slice_subrange(path.as_slice(), 0, kept);
        proof {
            assert(shortened.deep_view() =~= path.deep_view().take(kept as int));
            lemma_prefix_resolves(value@, path.deep_view(), kept as int);
        }
        let found = value.lookup(shortened).unwrap();
        push_compact(&mut out, found);
        out.push('\n');
        proof {
            let next = views.take(i as int + 1);
            assert(next.drop_last() =~= views.take(i as int));
            assert(next.last() == path.deep_view());
            assert(out@ =~= before + only_line(value@, path.deep_view(), context as int));
        }
        i += 1;
    }
    assert(views.take(matches.len() as int) =~= views);
    chars_to_string(out.as_slice())
}

} // verus!
