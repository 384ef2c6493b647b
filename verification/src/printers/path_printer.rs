//! The path renderer: one line for each match, its path and the value found there.
use crate::json::{Json, JsonView};
use crate::matcher::match_node::{MatchNode, MatchNodeView};
use crate::printers::compact::{compact, push_compact};
use crate::text::{chars_to_string, decimal, push_decimal, push_str};
use vstd::prelude::*;

verus! {

/// A step as it is written in a path: `.key` or `[index]`.
pub open spec fn step_text(step: MatchNodeView) -> Seq<char> {
    match step {
        MatchNodeView::Key { key, .. } => seq!['.'] + key,
        MatchNodeView::Index { index, .. } => seq!['['] + decimal(index as nat) + seq![']'],
    }
}

/// A path as it is written: its steps one after the other.
pub open spec fn path_text(path: Seq<MatchNodeView>) -> Seq<char>
    decreases path.len(),
{
    if path.len() == 0 {
        Seq::empty()
    } else {
        path_text(path.drop_last()) + step_text(path.last())
    }
}

/// The line for one match: the path, a colon and a space, the compact text of the
/// value that the path leads to, and a line feed.
pub open spec fn path_line(json: JsonView, path: Seq<MatchNodeView>) -> Seq<char> {
    path_text(path) + seq![':', ' '] + compact(json.value_at(path)->0) + seq!['\n']
}

/// The lines for `matches`, in their order.
pub open spec fn path_lines(json: JsonView, matches: Seq<Seq<MatchNodeView>>) -> Seq<char>
    decreases matches.len(),
{
    if matches.len() == 0 {
        Seq::empty()
    } else {
        path_lines(json, matches.drop_last()) + path_line(json, matches.last())
    }
}

/// Appends `path` as it is written to `out`.
pub fn push_path(out: &mut Vec<char>, path: &[MatchNode])
    ensures
        final(out)@ == old(out)@ + path_text(path.deep_view()),
{
    let mut i: usize = 0;
    let ghost views = path.deep_view();
    assert(views.take(0) =~= Seq::empty());
    while i < path.len()
        invariant
            i <= path.len(),
            views == path.deep_view(),
            out@ == old(out)@ + path_text(views.take(i as int)),
        decreases path.len() - i,
    {
        let ghost before = out@;
        match &path[i] {
            MatchNode::Key(match_k) => {
                out.push('.');
                push_str(out, match_k.key.as_str());
                assert(out@ =~= before + (seq!['.'] + match_k.key@));
            },
            MatchNode::Index(match_i) => {
                out.push('[');
                push_decimal(out, match_i.index as u64);
                out.push(']');
                assert(out@ =~= before + (seq!['['] + decimal(match_i.index as nat) + seq![']']));
            },
        }
        proof {
            let next = views.take(i as int + 1);
            assert(next.drop_last() =~= views.take(i as int));
            assert(next.last() == path@[i as int]@);
            assert(out@ =~= old(out)@ + path_text(next));
        }
        i += 1;
    }
    assert(views.take(path.len() as int) =~= views);
}

/// Renders each match as a line: its path, then the value found there. Every path
/// must lead to a value of the document, as the paths that the matching engine finds
/// in the same document do.
pub fn print(value: &Json, matches: &Vec<Vec<MatchNode>>) -> (r: String)
    requires
        forall|i: int|
            0 <= i < matches.len() ==> value@.value_at(#[trigger] matches.deep_view()[i]) is Some,
    ensures
        r@ == path_lines(value@, matches.deep_view()),
{
    let mut out: Vec<char> = Vec::new();
    let mut i: usize = 0;
    let ghost views = matches.deep_view();
    assert(views.take(0) =~= Seq::empty());
    while i < matches.len()
        invariant
            i <= matches.len(),
            views == matches.deep_view(),
            forall|k: int| 0 <= k < matches.len() ==> value@.value_at(#[trigger] views[k]) is Some,
            out@ == path_lines(value@, views.take(i as int)),
        decreases matches.len() - i,
    {
        let ghost before = out@;
        let path = &matches[i];
        assert(views[i as int] == path.deep_view());
        push_path(&mut out, path.as_slice());
        out.push(':');
        out.push(' ');
        let found = value.lookup(path.as_slice()).unwrap();
        push_compact(&mut out, found);
        out.push('\n');
        proof {
            let next = views.take(i as int + 1);
            assert(next.drop_last() =~= views.take(i as int));
            assert(next.last() == path.deep_view());
            assert(out@ =~= before + path_line(value@, path.deep_view()));
        }
        i += 1;
    }
    assert(views.take(matches.len() as int) =~= views);
    chars_to_string(out.as_slice())
}

} // verus!
