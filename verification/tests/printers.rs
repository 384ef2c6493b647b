use jgrep::json::Json;
use jgrep::matcher::match_node::MatchNode;
use jgrep::matcher::match_pattern;
use jgrep::pattern::Pattern;
use jgrep::printers::json_printer::{build_tree, print_node, render, Span};
use jgrep::printers::printer_node::PrinterNode;
use jgrep::printers::{json_printer, only_printer, path_printer};

fn obj(entries: Vec<(&str, Json)>) -> Json {
    Json::Object(entries.into_iter().map(|(k, v)| (k.to_string(), v)).collect())
}

fn arr(items: Vec<Json>) -> Json {
    Json::Array(items)
}

fn num(text: &str) -> Json {
    Json::Number(text.to_string())
}

fn text(t: &str) -> Json {
    Json::String(t.to_string())
}

fn key(k: &str, highlighted: bool) -> MatchNode {
    MatchNode::new_key(k.to_string(), highlighted)
}

fn index(i: usize, highlighted: bool) -> MatchNode {
    MatchNode::new_index(i, highlighted)
}

fn plain(spans: &[Span]) -> String {
    spans.iter().map(|s| s.text.as_str()).collect()
}

fn tree_text(value: &Json, matches: &Vec<Vec<MatchNode>>, context: usize) -> String {
    let tree = build_tree(value, matches, context);
    let mut spans = Vec::new();
    print_node(None, &tree, 0, &mut spans);
    plain(&spans) + "\n"
}

fn patatas() -> Json {
    obj(vec![(
        "a",
        arr(vec![
            obj(vec![("c", num("0"))]),
            obj(vec![("c", num("1"))]),
            obj(vec![("c", num("2"))]),
            arr(vec![obj(vec![("patatas", text("felices"))])]),
        ]),
    )])
}

fn patatas_matches() -> Vec<Vec<MatchNode>> {
    vec![
        vec![
            MatchNode::new_key("a".to_string(), true),
            MatchNode::new_index(0, true),
            MatchNode::new_key("c".to_string(), true),
        ],
        vec![
            MatchNode::new_key("a".to_string(), true),
            MatchNode::new_index(3, true),
            MatchNode::new_index(0, true),
        ],
    ]
}

#[test]
fn test_simple() {
    let json = obj(vec![(
        "a",
        obj(vec![
            ("b", obj(vec![("c", num("2"))])),
            ("w", obj(vec![("a", num("0")), ("i", num("1"))])),
        ]),
    )]);

    let matches = vec![
        vec![
            MatchNode::new_key("a".to_string(), false),
            MatchNode::new_key("w".to_string(), false),
            MatchNode::new_key("a".to_string(), false),
        ],
        vec![
            MatchNode::new_key("a".to_string(), false),
            MatchNode::new_key("w".to_string(), false),
            MatchNode::new_key("i".to_string(), false),
        ],
    ];

    let output = json_printer::print(&json, &matches, 0);

    assert_eq!(
        output,
        "{\n  \"a\": {\n    \"w\": {\n      \"a\": 0,\n      \"i\": 1\n    }\n  }\n}\n"
    );
}

#[test]
fn test_only_printer() {
    let value = patatas();
    let matches = patatas_matches();

    let output = only_printer::print(&value, &matches, 0);

    assert_eq!(output, "0\n{\"patatas\":\"felices\"}\n")
}

#[test]
fn test_printer() {
    let value = patatas();
    let matches = patatas_matches();

    let output = path_printer::print(&value, &matches);

    assert_eq!(output, ".a[0].c: 0\n.a[3][0]: {\"patatas\":\"felices\"}\n")
}

#[test]
fn only_printer_goes_up_by_the_context() {
    let value = patatas();
    let matches = patatas_matches();
    assert_eq!(
        only_printer::print(&value, &matches, 1),
        "{\"c\":0}\n[{\"patatas\":\"felices\"}]\n"
    );
    let whole = "[{\"c\":0},{\"c\":1},{\"c\":2},[{\"patatas\":\"felices\"}]]\n";
    // never above the first step
    assert_eq!(only_printer::print(&value, &matches, 2), whole.repeat(2));
    assert_eq!(only_printer::print(&value, &matches, 100), whole.repeat(2));
    // the root, matched by the empty path
    assert_eq!(only_printer::print(&num("1"), &vec![vec![]], 3), "1\n");
    assert_eq!(only_printer::print(&value, &vec![], 3), "");
}

#[test]
fn path_printer_writes_scalars_as_json() {
    let value = obj(vec![
        ("s", text("a \"b\"\\\n\t\u{1}\u{1f}\u{7f}\u{e9}")),
        ("n", Json::Null),
        ("t", Json::Bool(true)),
        ("f", Json::Bool(false)),
        ("x", num("-1.5e3")),
        ("e", arr(vec![])),
        ("o", obj(vec![])),
        ("k\"", arr(vec![num("1"), text("two"), obj(vec![("a\n", Json::Null)])])),
    ]);
    let matches: Vec<Vec<MatchNode>> =
        ["s", "n", "t", "f", "x", "e", "o", "k\""].iter().map(|k| vec![key(k, true)]).collect();
    assert_eq!(
        path_printer::print(&value, &matches),
        [
            ".s: \"a \\\"b\\\"\\\\\\n\\t\\u0001\\u001f\u{7f}\u{e9}\"\n",
            ".n: null\n",
            ".t: true\n",
            ".f: false\n",
            ".x: -1.5e3\n",
            ".e: []\n",
            ".o: {}\n",
            ".k\": [1,\"two\",{\"a\\n\":null}]\n",
        ]
        .concat()
    );
    assert_eq!(path_printer::print(&value, &vec![vec![]]).lines().count(), 1);
    assert!(path_printer::print(&num("7"), &vec![vec![]]) == ": 7\n");
}

#[test]
fn compact_text_agrees_with_serde_json() {
    let mut map = serde_json::Map::new();
    map.insert("b \"x\"".to_string(), serde_json::Value::String("\u{8}\u{c}\r/\u{0}".to_string()));
    map.insert(
        "a".to_string(),
        serde_json::Value::Array(vec![
            serde_json::Value::Null,
            serde_json::Value::Bool(false),
            serde_json::Value::Number(serde_json::Number::from(12)),
        ]),
    );
    let theirs = serde_json::Value::Object(map).to_string();
    let ours = obj(vec![
        ("b \"x\"", text("\u{8}\u{c}\r/\u{0}")),
        ("a", arr(vec![Json::Null, Json::Bool(false), num("12")])),
    ]);
    assert_eq!(only_printer::print(&ours, &vec![vec![]], 0), theirs + "\n");
}

fn readme() -> Json {
    let item = |id: &str, name: &str, active: bool, rating: &str, author: &str, verified: bool| {
        obj(vec![
            ("id", num(id)),
            ("name", text(name)),
            ("active", Json::Bool(active)),
            (
                "meta",
                obj(vec![
                    ("rating", num(rating)),
                    (
                        "author",
                        obj(vec![("name", text(author)), ("verified", Json::Bool(verified))]),
                    ),
                ]),
            ),
        ])
    };
    obj(vec![(
        "items",
        arr(vec![
            item("1", "Lorem", true, "4.7", "John", false),
            item("2", "Ipsum", false, "3.9", "Jane", true),
        ]),
    )])
}

fn run_path(pattern: &str) -> String {
    let json = readme();
    let matches = match_pattern(&json, &Pattern::parse(pattern).unwrap());
    path_printer::print(&json, &matches)
}

fn run_json(json: &Json, pattern: &str, context: usize) -> String {
    colored::control::set_override(false);
    let matches = match_pattern(json, &Pattern::parse(pattern).unwrap());
    json_printer::print(json, &matches, context)
}

#[test]
fn query_lang_simple() {
    assert_eq!(run_path("Jane"), ".items[1].meta.author.name: \"Jane\"\n");
}

#[test]
fn query_lang_keys() {
    let out = [
        ".items[0].meta.author: {\"name\":\"John\",\"verified\":false}\n",
        ".items[1].meta.author: {\"name\":\"Jane\",\"verified\":true}\n",
    ]
    .concat();
    assert_eq!(run_path("author:"), out);
    assert_eq!(run_path(".meta.author"), out);
}

#[test]
fn query_lang_values() {
    assert_eq!(
        run_path(": true"),
        ".items[0].active: true\n.items[1].meta.author.verified: true\n"
    );
}

#[test]
fn query_lang_values_and_keys() {
    assert_eq!(run_path(".rating: 4.7"), ".items[0].meta.rating: 4.7\n");
}

#[test]
fn query_lang_wildcard() {
    assert_eq!(
        run_path(".name: J*n*"),
        ".items[0].meta.author.name: \"John\"\n.items[1].meta.author.name: \"Jane\"\n"
    );
    assert_eq!(run_path(".name: Jan?"), ".items[1].meta.author.name: \"Jane\"\n");
}

#[test]
fn query_lang_wildcard_number() {
    assert_eq!(run_path(".rating: 4.*?"), ".items[0].meta.rating: 4.7\n");
}

#[test]
fn flags_json() {
    let out = r#"{
  "items": [
    {
      "meta": {
        "rating": 4.7
      }
    },
    {
      "meta": {
        "rating": 3.9
      }
    }
  ]
}
"#;
    assert_eq!(run_json(&readme(), ".rating", 0), out);
}

#[test]
fn flags_only() {
    let json = readme();
    let matches = match_pattern(&json, &Pattern::parse(".author").unwrap());
    assert_eq!(
        only_printer::print(&json, &matches, 0),
        "{\"name\":\"John\",\"verified\":false}\n{\"name\":\"Jane\",\"verified\":true}\n"
    );
}

#[test]
fn context_json() {
    let out = r#"{
  "items": [
    {
      "meta": {
        "rating": 3.9,
        "author": {
          "name": "Jane",
          "verified": true
        }
      }
    },
  ]
}
"#;
    assert_eq!(run_json(&readme(), "Jane", 2), out);
}

#[test]
fn no_context_json() {
    let out = r#"{
  "items": [
    {
      "meta": {
        "author": {
          "name": "Jane"
        }
      }
    },
  ]
}
"#;
    assert_eq!(run_json(&readme(), "Jane", 0), out);
}

#[test]
fn value_and_key_order_preservation() {
    let info = |names: Vec<&str>| {
        obj(vec![(
            "information",
            arr(names
                .into_iter()
                .map(|n| obj(vec![("type", text("name")), ("value", text(n))]))
                .collect()),
        )])
    };
    let json = obj(vec![
        ("parents", info(vec!["Alice", "Bob"])),
        ("name", text("Charlie")),
        ("children", info(vec!["David"])),
    ]);
    let out = r#"{
  "parents": {
    "information": [
      {
        "type": "name"
      },
      {
        "type": "name"
      }
    ]
  },
  "name": "Charlie",
  "children": {
    "information": [
      {
        "type": "name"
      }
    ]
  }
}
"#;
    assert_eq!(run_json(&json, "name", 0), out);
}

#[test]
fn context_expands_the_container_of_the_match() {
    let json = obj(vec![
        (
            "a",
            obj(vec![
                ("b", obj(vec![("c", num("1")), ("d", arr(vec![num("2"), num("3")]))])),
                ("x", num("4")),
            ]),
        ),
        ("y", num("5")),
    ]);
    let matches = vec![vec![key("a", false), key("b", false), key("c", true)]];
    // the container of the match is whole, what is further up is pruned
    assert_eq!(
        tree_text(&json, &matches, 1),
        r#"{
  "a": {
    "b": {
      "c": 1,
      "d": [
        2,
        3
      ]
    }
  }
}
"#
    );
    assert_eq!(
        tree_text(&json, &matches, 0),
        "{\n  \"a\": {\n    \"b\": {\n      \"c\": 1\n    }\n  }\n}\n"
    );
    // a context as long as the path shows the whole document
    assert_eq!(
        tree_text(&json, &matches, 3),
        r#"{
  "a": {
    "b": {
      "c": 1,
      "d": [
        2,
        3
      ]
    },
    "x": 4
  },
  "y": 5
}
"#
    );
}

#[test]
fn matched_container_is_shown_whole() {
    let json = obj(vec![("a", arr(vec![num("1"), obj(vec![("k", text("v"))])])), ("b", num("2"))]);
    assert_eq!(
        tree_text(&json, &vec![vec![key("a", true)]], 0),
        "{\n  \"a\": [\n    1,\n    {\n      \"k\": \"v\"\n    }\n  ]\n}\n"
    );
    // the root, matched by the empty path
    assert_eq!(
        tree_text(&arr(vec![num("1"), num("2")]), &vec![vec![]], 0),
        "[\n  1,\n  2\n]\n"
    );
    assert_eq!(tree_text(&arr(vec![]), &vec![], 0), "[\n]\n");
    assert_eq!(tree_text(&obj(vec![]), &vec![], 5), "{\n}\n");
}

#[test]
fn array_children_stand_in_ascending_order() {
    let json = arr(vec![num("10"), num("11"), num("12")]);
    let matches = vec![vec![index(2, true)], vec![index(0, true)], vec![index(2, true)]];
    // a comma follows each child but the one at position count - 1
    assert_eq!(tree_text(&json, &matches, 0), "[\n  10,\n  12,\n]\n");
    let matches = vec![vec![index(1, true)], vec![index(0, true)]];
    assert_eq!(tree_text(&json, &matches, 0), "[\n  10,\n  11\n]\n");
}

#[test]
fn highlighted_steps_mark_their_nodes() {
    let json = obj(vec![("a", obj(vec![("b", num("1"))])), ("c", num("2"))]);
    let tree = build_tree(&json, &vec![vec![key("a", false), key("b", true)]], 0);
    let mut spans = Vec::new();
    print_node(None, &tree, 0, &mut spans);
    let marked: Vec<&str> =
        spans.iter().filter(|s| s.highlighted).map(|s| s.text.as_str()).collect();
    assert_eq!(marked, vec!["    \"b\": "]);
    match &tree {
        PrinterNode::Object { map, highlighted } => {
            assert!(!*highlighted);
            assert_eq!(map.len(), 1);
            assert_eq!(map[0].0, "a");
        }
        _ => panic!("the tree of an object is an object node"),
    }

    let tree = build_tree(&json, &vec![vec![key("a", true)]], 0);
    let mut spans = Vec::new();
    print_node(None, &tree, 0, &mut spans);
    let marked: Vec<&str> =
        spans.iter().filter(|s| s.highlighted).map(|s| s.text.as_str()).collect();
    assert_eq!(marked, vec!["  \"a\": {", "  }"]);
}

#[test]
fn marked_spans_are_written_in_red_where_colours_are_on() {
    let spans = vec![
        Span { text: "a".to_string(), highlighted: false },
        Span { text: "b".to_string(), highlighted: true },
        Span { text: "".to_string(), highlighted: true },
    ];
    colored::control::set_override(true);
    let on = render(&spans);
    colored::control::set_override(false);
    let off = render(&spans);
    colored::control::unset_override();
    assert_eq!(off, "ab");
    assert_eq!(on, "a\u{1b}[31mb\u{1b}[0m\u{1b}[31m\u{1b}[0m");
}

#[test]
fn printer_node_operations() {
    let value = arr(vec![num("1"), text("x"), obj(vec![("k", Json::Null)])]);
    let mut node = PrinterNode::new_printed_node_for(&value);
    assert!(node.is_container());
    let pos = node.get_or_insert(&index(2, false), &obj(vec![]));
    assert_eq!(pos, 0);
    let pos = node.get_or_insert(&index(0, false), &num("1"));
    assert_eq!(pos, 0);
    let pos = node.get_or_insert(&index(2, false), &num("9"));
    assert_eq!(pos, 1);
    let mut child = node.take_child(1);
    assert!(child.is_container());
    child.set_highlight(true);
    node.put_child(1, child);
    let mut spans = Vec::new();
    print_node(Some("t"), &node, 1, &mut spans);
    // two children, at positions 0 and 2: neither is at position 1
    assert_eq!(plain(&spans), "  \"t\": [\n    1,\n    {\n    },\n  ]");
    node.insert_full(&value);
    let mut spans = Vec::new();
    print_node(None, &node, 0, &mut spans);
    assert_eq!(plain(&spans), "[\n  1,\n  \"x\",\n  {\n    \"k\": null\n  }\n]");
    assert!(spans.iter().all(|s| !s.highlighted));

    let scalar = PrinterNode::new_printed_node_for(&text("a\"b"));
    assert!(!scalar.is_container());
    let mut spans = Vec::new();
    print_node(None, &scalar, 0, &mut spans);
    assert_eq!(plain(&spans), "\"a\"b\"");
}

#[test]
fn object_children_keep_the_order_in_which_they_came_in() {
    let value = obj(vec![("a", num("1")), ("b", num("2")), ("c", num("3"))]);
    let mut node = PrinterNode::new_printed_node_for(&value);
    assert_eq!(node.get_or_insert(&key("c", false), &num("3")), 0);
    assert_eq!(node.get_or_insert(&key("a", false), &num("1")), 1);
    assert_eq!(node.get_or_insert(&key("c", false), &num("3")), 0);
    node.insert_full(&value);
    let mut spans = Vec::new();
    print_node(None, &node, 0, &mut spans);
    assert_eq!(plain(&spans), "{\n  \"c\": 3,\n  \"a\": 1,\n  \"b\": 2\n}");
}
