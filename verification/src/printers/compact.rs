//! The compact JSON text of a value, as the line-oriented renderers print it.
use crate::json::{lemma_array_view, lemma_object_view, EntryView, Json, JsonView};
use crate::text::{digit_char, push_str};
use vstd::prelude::*;

verus! {

/// The lower-case hexadecimal digit for `n`, for `n` below sixteen.
pub open spec fn hex_digit(n: nat) -> char {
    if n < 10 {
        digit_char(n)
    } else if n == 10 {
        'a'
    } else if n == 11 {
        'b'
    } else if n == 12 {
        'c'
    } else if n == 13 {
        'd'
    } else if n == 14 {
        'e'
    } else {
        'f'
    }
}

/// How one character is written inside a JSON string: the double quote and the
/// backslash behind a backslash, control characters by their short form or as
/// `\u00` and two hexadecimal digits, every other character as itself.
pub open spec fn escaped_char(c: char) -> Seq<char> {
    if c == '"' {
        seq!['\\', '"']
    } else if c == '\\' {
        seq!['\\', '\\']
    } else if c == '\u{8}' {
        seq!['\\', 'b']
    } else if c == '\t' {
        seq!['\\', 't']
    } else if c == '\n' {
        seq!['\\', 'n']
    } else if c == '\u{c}' {
        seq!['\\', 'f']
    } else if c == '\r' {
        seq!['\\', 'r']
    } else if (c as u32) < 0x20 {
        seq!['\\', 'u', '0', '0', hex_digit((c as u32 / 16) as nat), hex_digit((c as u32 % 16) as nat)]
    } else {
        seq![c]
    }
}

/// The characters of `text`, each as it is written inside a JSON string.
pub open spec fn escaped_text(text: Seq<char>) -> Seq<char>
    decreases text.len(),
{
    if text.len() == 0 {
        Seq::empty()
    } else {
        escaped_text(text.drop_last()) + escaped_char(text.last())
    }
}

/// `text` as a JSON string: escaped, between double quotes.
pub open spec fn string_literal(text: Seq<char>) -> Seq<char> {
    seq!['"'] + escaped_text(text) + seq!['"']
}

/// Formats `text` with `serde_json`, through the `Display` of a `Value::String`.
///
/// Trusted: the result is taken to be `text` between double quotes, escaped as
/// `serde_json`'s compact formatter escapes a string: by its table, `"` and `\`
/// get a backslash, the bytes below 0x20 their short form or `\u00xx` in lower-case
/// hexadecimal, and every other byte is written as it is.
#[verifier::external_body]
fn json_string(text: &str) -> (r: String)
    ensures
        r@ == string_literal(text@),
{
    serde_json::Value::String(text.to_owned()).to_string()
}

/// The compact JSON text of a value: no whitespace, the elements of an array and the
/// entries of an object in their order, separated by commas, a number by its text.
pub open spec fn compact(json: JsonView) -> Seq<char>
    decreases json, 0int,
{
    match json {
        JsonView::Null => "null"@,
        JsonView::Bool(b) => if b {
            "true"@
        } else {
            "false"@
        },
        JsonView::Number(text) => text,
        JsonView::String(text) => string_literal(text),
        JsonView::Array(items) => seq!['['] + compact_items(items, items.len() as int) + seq![']'],
        JsonView::Object(entries) => seq!['{'] + compact_entries(entries, entries.len() as int)
            + seq!['}'],
    }
}

/// The compact text of the first `n` of `items`, with commas between them.
pub open spec fn compact_items(items: Seq<JsonView>, n: int) -> Seq<char>
    decreases items, n,
{
    if n <= 0 || n > items.len() {
        Seq::empty()
    } else if n == 1 {
        compact(items[0])
    } else {
        compact_items(items, n - 1) + seq![','] + compact(items[n - 1])
    }
}

/// The compact text of the first `n` of `entries`, with commas between them.
pub open spec fn compact_entries(entries: Seq<EntryView>, n: int) -> Seq<char>
    decreases entries, n,
{
    if n <= 0 || n > entries.len() {
        Seq::empty()
    } else if n == 1 {
        string_literal(entries[0].key) + seq![':'] + compact(entries[0].value)
    } else {
        compact_entries(entries, n - 1) + seq![','] + string_literal(entries[n - 1].key) + seq![
            ':',
        ] + compact(entries[n - 1].value)
    }
}

/// Appends the compact JSON text of `json` to `out`.
pub fn push_compact(out: &mut Vec<char>, json: &Json)
    ensures
        final(out)@ == old(out)@ + compact(json@),
    decreases json,
{
    match json {
        Json::Null => push_str(out, "null"),
        Json::Bool(b) => {
            if *b {
                push_str(out, "true");
            } else {
                push_str(out, "false");
            }
        },
        Json::Number(text) => push_str(out, text.as_str()),
        Json::String(text) => {
            let literal = json_string(text.as_str());
            push_str(out, literal.as_str());
        },
        Json::Array(items) => {
            proof {
                lemma_array_view(*json);
            }
            let ghost views = json@->Array_0;
            out.push('[');
            let ghost opened = out@;
            let mut i: usize = 0;
            assert(out@ =~= opened + compact_items(views, 0));
            while i < items.len()
                invariant
                    i <= items.len(),
                    decreases_to!(json => items),
                    views.len() == items.len(),
                    forall|k: int| 0 <= k < items.len() ==> views[k] == items@[k]@,
                    out@ == opened + compact_items(views, i as int),
                decreases items.len() - i,
            {
                if i > 0 {
                    out.push(',');
                }
                push_compact(out, &items[i]);
                proof {
                    if i > 0 {
                        assert(out@ =~= opened + (compact_items(views, i as int) + seq![','] + compact(
                            views[i as int],
                        )));
                    } else {
                        assert(out@ =~= opened + compact(views[0]));
                    }
                }
                i += 1;
            }
            out.push(']');
            assert(out@ =~= old(out)@ + (seq!['['] + compact_items(views, views.len() as int) + seq![
                ']',
            ]));
        },
        Json::Object(entries) => {
            proof {
                lemma_object_view(*json);
            }
            let ghost views = json@->Object_0;
            out.push('{');
            let ghost opened = out@;
            let mut i: usize = 0;
            assert(out@ =~= opened + compact_entries(views, 0));
            while i < entries.len()
                invariant
                    i <= entries.len(),
                    decreases_to!(json => entries),
                    views.len() == entries.len(),
                    forall|k: int|
                        0 <= k < entries.len() ==> views[k] == (EntryView {
                            key: entries@[k].0@,
                            value: entries@[k].1@,
                        }),
                    out@ == opened + compact_entries(views, i as int),
                decreases entries.len() - i,
            {
                if i > 0 {
                    out.push(',');
                }
                let key = json_string(entries[i].0.as_str());
                push_str(out, key.as_str());
                out.push(':');
                push_compact(out, &entries[i].1);
                proof {
                    if i > 0 {
                        assert(out@ =~= opened + (compact_entries(views, i as int) + seq![',']
                            + string_literal(views[i as int].key) + seq![':'] + compact(
                            views[i as int].value,
                        )));
                    } else {
                        assert(out@ =~= opened + (string_literal(views[0].key) + seq![':']
                            + compact(views[0].value)));
                    }
                }
                i += 1;
            }
            out.push('}');
            assert(out@ =~= old(out)@ + (seq!['{'] + compact_entries(views, views.len() as int)
                + seq!['}']));
        },
    }
}

} // verus!
