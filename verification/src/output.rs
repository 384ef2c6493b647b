//! The choice of a renderer, and the way from a document to its output.
use crate::json::{Json, JsonView};
use crate::matcher::{match_pattern, pattern_matches};
use crate::pattern::pattern::{Pattern, PatternView};
use crate::printers::json_printer::{is_rendering, joined, tree_spans};
use crate::printers::only_printer::only_lines;
use crate::printers::path_printer::path_lines;
use crate::printers::{json_printer, only_printer, path_printer};
use vstd::prelude::*;

verus! {

/// The renderers: a line with path and value for each match, one pruned tree, or a
/// line with the value alone for each match.
#[derive(Clone, Copy, Debug, PartialEq, Eq, Structural)]
pub enum PrinterType {
    Path,
    Json,
    Only,
}

/// The renderer that the flags ask for: the first of the three shortcuts that is
/// set, in the order path, tree, value only; without a shortcut, `printer`.
pub fn get_printer(path_printer: bool, json: bool, only: bool, printer: PrinterType) -> (r:
    PrinterType)
    ensures
        r == if path_printer {
            PrinterType::Path
        } else if json {
            PrinterType::Json
        } else if only {
            PrinterType::Only
        } else {
            printer
        },
{
    if path_printer {
        PrinterType::Path
    } else if json {
        PrinterType::Json
    } else if only {
        PrinterType::Only
    } else {
        printer
    }
}

/// Whether `printer` can render `json`: the document is well-formed, and the tree
/// renderer is only asked for an array or an object.
pub open spec fn can_render(json: JsonView, printer: PrinterType) -> bool {
    json.well_formed() && (printer == PrinterType::Json ==> json.is_container())
}

/// Whether `text` is what `printer` gives for the matches of `pattern` in `json`.
pub open spec fn is_output(
    json: JsonView,
    printer: PrinterType,
    context: int,
    pattern: PatternView,
    text: Seq<char>,
) -> bool {
    match printer {
        PrinterType::Path => text == path_lines(json, pattern_matches(json, pattern)),
        PrinterType::Only => text == only_lines(json, pattern_matches(json, pattern), context),
        PrinterType::Json => exists|pieces: Seq<Seq<char>>|
            is_rendering(tree_spans(json, pattern_matches(json, pattern), context), pieces) && text
                == joined(pieces),
    }
}

/// Finds the matches of `pattern` in `json` and renders them with `printer`. There is
/// no output for a document in which an object has a key twice, nor from the tree
/// renderer for a document that is a scalar.
pub fn process_complete_json(
    json: &Json,
    printer: &PrinterType,
    context: usize,
    pattern: &Pattern,
) -> (r: Option<String>)
    ensures
        r is Some <==> can_render(json@, *printer),
        r is Some ==> is_output(json@, *printer, context as int, pattern@, r->0@),
{
    if !json.is_well_formed() {
        return None;
    }
    let matches = match_pattern(json, pattern);
    match printer {
        PrinterType::Path => Some(path_printer::print(json, &matches)),
        PrinterType::Only => Some(only_printer::print(json, &matches, context)),
        PrinterType::Json => {
            if json.is_container() {
                Some(json_printer::print(json, &matches, context))
            } else {
                None
            }
        },
    }
}

} // verus!
