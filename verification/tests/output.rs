use jgrep::json::Json;
use jgrep::output::{get_printer, process_complete_json, PrinterType};
use jgrep::pattern::Pattern;
use jgrep::stream::{scan_line, LineScan, StreamState};

fn obj(entries: Vec<(&str, Json)>) -> Json {
    Json::Object(entries.into_iter().map(|(k, v)| (k.to_string(), v)).collect())
}

fn num(text: &str) -> Json {
    Json::Number(text.to_string())
}

#[test]
fn shortcuts_choose_the_printer() {
    assert_eq!(get_printer(false, false, false, PrinterType::Only), PrinterType::Only);
    assert_eq!(get_printer(false, false, false, PrinterType::Path), PrinterType::Path);
    assert_eq!(get_printer(true, false, false, PrinterType::Only), PrinterType::Path);
    assert_eq!(get_printer(false, true, false, PrinterType::Path), PrinterType::Json);
    assert_eq!(get_printer(false, false, true, PrinterType::Path), PrinterType::Only);
    // the first shortcut that is set
    assert_eq!(get_printer(true, true, true, PrinterType::Only), PrinterType::Path);
    assert_eq!(get_printer(false, true, true, PrinterType::Path), PrinterType::Json);
}

#[test]
fn a_document_is_matched_and_rendered() {
    colored::control::set_override(false);
    let json = obj(vec![("a", obj(vec![("b", num("1"))])), ("b", num("2"))]);
    let pattern = Pattern::parse(".b").unwrap();
    assert_eq!(
        process_complete_json(&json, &PrinterType::Path, 0, &pattern),
        Some(".a.b: 1\n.b: 2\n".to_string())
    );
    assert_eq!(
        process_complete_json(&json, &PrinterType::Only, 1, &pattern),
        Some("{\"b\":1}\n2\n".to_string())
    );
    assert_eq!(
        process_complete_json(&json, &PrinterType::Json, 0, &pattern),
        Some("{\n  \"a\": {\n    \"b\": 1\n  },\n  \"b\": 2\n}\n".to_string())
    );
}

#[test]
fn documents_that_cannot_be_rendered() {
    let pattern = Pattern::parse(": 1").unwrap();
    assert_eq!(process_complete_json(&num("1"), &PrinterType::Json, 0, &pattern), None);
    assert_eq!(
        process_complete_json(&num("1"), &PrinterType::Path, 0, &pattern),
        Some(": 1\n".to_string())
    );
    let twice = obj(vec![("a", num("1")), ("a", num("1"))]);
    assert_eq!(process_complete_json(&twice, &PrinterType::Path, 0, &pattern), None);
    assert_eq!(process_complete_json(&twice, &PrinterType::Only, 0, &pattern), None);
    assert_eq!(process_complete_json(&twice, &PrinterType::Json, 0, &pattern), None);
}

fn scan(state: &mut StreamState, line: &str, from: usize) -> LineScan {
    let chars: Vec<char> = line.chars().collect();
    scan_line(state, &chars, from)
}

#[test]
fn documents_end_where_the_brackets_close() {
    let idle = StreamState { start: None, depth: 0 };
    let mut state = idle;
    assert_eq!(scan(&mut state, "{\"a\": [1, {}]}[2]", 0), LineScan::Complete(14));
    assert_eq!(state, idle);
    assert_eq!(scan(&mut state, "{\"a\": [1, {}]}[2]", 14), LineScan::Complete(17));
    assert_eq!(scan(&mut state, "{\"a\": [1, {}]}[2]", 17), LineScan::Open);
    assert_eq!(state, idle);
}

#[test]
fn a_document_may_span_lines() {
    let mut state = StreamState { start: None, depth: 0 };
    assert_eq!(scan(&mut state, "{ \"a\": {", 0), LineScan::Open);
    assert_eq!(state, StreamState { start: Some('{'), depth: 2 });
    assert_eq!(scan(&mut state, "\"b\": [ ] }", 0), LineScan::Open);
    assert_eq!(state, StreamState { start: Some('{'), depth: 1 });
    assert_eq!(scan(&mut state, "", 0), LineScan::Open);
    assert_eq!(scan(&mut state, "} x", 0), LineScan::Complete(1));
    assert_eq!(scan(&mut state, "} x", 1), LineScan::Invalid(' '));
    assert_eq!(state, StreamState { start: None, depth: 0 });
}

#[test]
fn only_the_opening_kind_of_bracket_is_counted() {
    let mut state = StreamState { start: None, depth: 0 };
    assert_eq!(scan(&mut state, "[{]", 0), LineScan::Complete(3));
    assert_eq!(scan(&mut state, "1", 0), LineScan::Invalid('1'));
    assert_eq!(scan(&mut state, "]", 0), LineScan::Invalid(']'));
}
