use jgrep::json::Json;
use jgrep::matcher::match_node::{MatchIndex, MatchKey, MatchNode};
use jgrep::matcher::{match_internal, match_pattern, match_value};
use jgrep::pattern::pattern_node::{IndexPattern, PatternNode};
use jgrep::pattern::Pattern;
use jgrep::utils::match_utils::{compare, sort_matches, PathOrder};

fn obj(entries: Vec<(&str, Json)>) -> Json {
    Json::Object(entries.into_iter().map(|(k, v)| (k.to_string(), v)).collect())
}

fn arr(items: Vec<Json>) -> Json {
    Json::Array(items)
}

fn num(text: &str) -> Json {
    Json::Number(text.to_string())
}

fn text(t: &str) -> Json {
    Json::String(t.to_string())
}

fn key(k: &str, highlighted: bool) -> MatchNode {
    MatchNode::new_key(k.to_string(), highlighted)
}

fn index(i: usize, highlighted: bool) -> MatchNode {
    MatchNode::new_index(i, highlighted)
}

fn abc() -> Json {
    obj(vec![("a", obj(vec![("b", obj(vec![("c", num("42"))]))]))])
}

#[test]
fn mod_test_complete_path() {
    let pattern = Pattern::parse(".a.b.c").unwrap();

    let json = abc();

    let result = match_pattern(&json, &pattern);

    assert_eq!(
        result,
        vec![vec![
            MatchNode::new_key("a".to_string(), true),
            MatchNode::new_key("b".to_string(), true),
            MatchNode::new_key("c".to_string(), true)
        ]]
    )
}

#[test]
fn mod_test_partial_path() {
    let pattern = Pattern::parse(".b.c").unwrap();

    let json = abc();

    let result = match_pattern(&json, &pattern);

    assert_eq!(
        result,
        vec![vec![
            MatchNode::new_key("a".to_string(), false),
            MatchNode::new_key("b".to_string(), true),
            MatchNode::new_key("c".to_string(), true)
        ]]
    )
}

#[test]
fn mod_test_wildcard_path() {
    let pattern = Pattern::parse(".i*m.c").unwrap();

    let json = obj(vec![("a", obj(vec![("item", obj(vec![("c", num("42"))]))]))]);

    let result = match_pattern(&json, &pattern);

    assert_eq!(
        result,
        vec![vec![
            MatchNode::new_key("a".to_string(), false),
            MatchNode::new_key("item".to_string(), true),
            MatchNode::new_key("c".to_string(), true)
        ]]
    )
}

#[test]
fn mod_test_value_null() {
    let pattern = Pattern::parse(": null").unwrap();

    let json = obj(vec![("a", text("null"))]);

    let result = match_pattern(&json, &pattern);

    assert_eq!(result, vec![vec![MatchNode::new_key("a".to_string(), false)]])
}

#[test]
fn mod_test_value_bool() {
    let true_pattern = Pattern::parse(": true").unwrap();
    let false_pattern = Pattern::parse(": false").unwrap();

    let json = obj(vec![("a", Json::Bool(true)), ("b", Json::Bool(false))]);

    let result = match_pattern(&json, &true_pattern);
    assert_eq!(result, vec![vec![MatchNode::new_key("a".to_string(), false)]]);

    let result = match_pattern(&json, &false_pattern);
    assert_eq!(result, vec![vec![MatchNode::new_key("b".to_string(), false)]]);
}

#[test]
fn mod_test_value_number() {
    let pattern = Pattern::parse(": 42").unwrap();

    let json = obj(vec![("a", num("42"))]);

    let result = match_pattern(&json, &pattern);

    assert_eq!(result, vec![vec![MatchNode::new_key("a".to_string(), false)]])
}

#[test]
fn mod_test_value_string() {
    let pattern = Pattern::parse(": hello").unwrap();

    let json = obj(vec![("a", text("hello"))]);

    let result = match_pattern(&json, &pattern);

    assert_eq!(result, vec![vec![MatchNode::new_key("a".to_string(), false)]])
}

#[test]
fn mod_test_value_and_path() {
    let pattern = Pattern::parse(".a.b.c: 42").unwrap();

    let json = abc();

    let result = match_pattern(&json, &pattern);

    assert_eq!(
        result,
        vec![vec![
            MatchNode::new_key("a".to_string(), true),
            MatchNode::new_key("b".to_string(), true),
            MatchNode::new_key("c".to_string(), true)
        ]]
    )
}

#[test]
fn start_at_root() {
    let pattern = Pattern::parse("$.a").unwrap();

    let json = obj(vec![("a", num("1")), ("b", obj(vec![("a", num("2"))]))]);

    let result = match_pattern(&json, &pattern);

    assert_eq!(result, vec![vec![MatchNode::new_key("a".to_string(), true)]]);
}

#[test]
fn matches_keep_the_order_of_the_document() {
    let json = obj(vec![
        ("b", obj(vec![("b", num("1"))])),
        ("a", obj(vec![("a", num("1")), ("a2", num("0"))])),
    ]);
    let pattern = Pattern::parse("$.*.*").unwrap();
    assert_eq!(
        match_pattern(&json, &pattern),
        vec![
            vec![key("b", true), key("b", true)],
            vec![key("a", true), key("a", true)],
            vec![key("a", true), key("a2", true)],
        ]
    );
}

#[test]
fn under_one_child_consumed_steps_come_before_searched_ones() {
    let json = obj(vec![(
        "a",
        obj(vec![("a", obj(vec![("b", num("1"))])), ("b", num("2"))]),
    )]);
    let pattern = Pattern::parse(".a.b:").unwrap();
    assert_eq!(
        match_pattern(&json, &pattern),
        vec![
            vec![key("a", true), key("b", true)],
            vec![key("a", false), key("a", true), key("b", true)],
        ]
    );
}

#[test]
fn no_path_occurs_twice() {
    let json = obj(vec![
        ("a", arr(vec![num("1"), num("1"), obj(vec![("a", num("1"))])])),
        ("a", num("1")),
    ]);
    for text in ["a", "1", ": 1", "..a", "$..[]", ".a..a", "$"] {
        let result = match_pattern(&json, &Pattern::parse(text).unwrap());
        for i in 0..result.len() {
            for j in 0..i {
                assert_ne!(result[i], result[j]);
            }
        }
    }
}

#[test]
fn repeated_paths_are_kept_where_they_first_occur() {
    // two entries with one key give the same path twice
    let json = obj(vec![("a", num("1")), ("b", num("2")), ("a", num("3"))]);
    let pattern = Pattern::parse("$.*").unwrap();
    assert_eq!(
        match_pattern(&json, &pattern),
        vec![vec![key("a", true)], vec![key("b", true)]]
    );
    let raw = match_internal(&json, &pattern.path, None, vec![], false, false);
    assert_eq!(raw, vec![vec![key("a", true)], vec![key("b", true)], vec![key("a", true)]]);
}

#[test]
fn recursive_descent_finds_every_array_element() {
    let json = obj(vec![
        ("x", arr(vec![num("1"), arr(vec![num("2"), obj(vec![("y", arr(vec![Json::Null]))])])])),
        ("z", num("3")),
    ]);
    let pattern = Pattern::parse("$..[]").unwrap();
    assert_eq!(
        match_pattern(&json, &pattern),
        vec![
            vec![key("x", false), index(0, true)],
            vec![key("x", false), index(1, true)],
            vec![key("x", false), index(1, false), index(0, true)],
            vec![key("x", false), index(1, false), index(1, true)],
            vec![
                key("x", false),
                index(1, false),
                index(1, false),
                key("y", false),
                index(0, true)
            ],
        ]
    );
    // the root itself may be the array
    assert_eq!(
        match_pattern(&arr(vec![num("1"), arr(vec![])]), &pattern),
        vec![vec![index(0, true)], vec![index(1, true)]]
    );
    assert_eq!(match_pattern(&num("1"), &pattern), Vec::<Vec<MatchNode>>::new());
}

#[test]
fn recursive_descent_below_a_key() {
    let json = obj(vec![
        ("a", obj(vec![("x", obj(vec![("b", num("1"))])), ("b", num("2"))])),
        ("b", num("3")),
    ]);
    let pattern = Pattern::parse("$.a..b:").unwrap();
    assert_eq!(
        match_pattern(&json, &pattern),
        vec![
            vec![key("a", true), key("x", false), key("b", true)],
            vec![key("a", true), key("b", true)],
        ]
    );
}

#[test]
fn index_patterns_against_arrays() {
    let json = obj(vec![("a", arr(vec![num("0"), num("1"), num("2"), num("3"), num("4")]))]);
    let paths = |pattern: &str| -> Vec<usize> {
        match_pattern(&json, &Pattern::parse(pattern).unwrap())
            .into_iter()
            .map(|p| p[1].as_index().unwrap().index)
            .collect()
    };
    assert_eq!(paths("$.a[1:3]"), vec![1, 2]);
    assert_eq!(paths("$.a[3:]"), vec![3, 4]);
    assert_eq!(paths("$.a[:2]"), vec![0, 1]);
    assert_eq!(paths("$.a[-2:]"), vec![3, 4]);
    assert_eq!(paths("$.a[-9:]"), vec![0, 1, 2, 3, 4]);
    assert_eq!(paths("$.a[4,0,7]"), vec![0, 4]);
    assert_eq!(paths("$.a[2]"), vec![2]);
    assert_eq!(paths("$.a[]"), vec![0, 1, 2, 3, 4]);
    assert_eq!(paths("$.a[9]"), Vec::<usize>::new());
}

#[test]
fn bare_word_matches_a_key_or_a_value() {
    let json = obj(vec![
        ("name", text("Charlie")),
        ("other", text("a name here")),
        ("n", obj(vec![("x", text("nam"))])),
    ]);
    let pattern = Pattern::parse("name").unwrap();
    assert_eq!(
        match_pattern(&json, &pattern),
        vec![vec![key("name", true)], vec![key("other", false)]]
    );
}

#[test]
fn value_predicate_is_refused_for_containers() {
    assert!(!match_value(&arr(vec![]), "*"));
    assert!(!match_value(&obj(vec![]), "*"));
    assert!(match_value(&Json::Null, "null"));
    assert!(match_value(&Json::Null, "n*"));
    assert!(match_value(&Json::Bool(true), "true"));
    assert!(match_value(&Json::Bool(false), "f?lse"));
    assert!(match_value(&num("4.7"), "4.*"));
    assert!(match_value(&text("4.7"), "4.7"));
    assert!(!match_value(&text("x"), "y"));
    // with a value predicate, a path that ends at a container finds nothing
    let json = obj(vec![("a", obj(vec![("b", num("1"))]))]);
    assert_eq!(
        match_pattern(&json, &Pattern::parse(".a: *").unwrap()),
        Vec::<Vec<MatchNode>>::new()
    );
}

#[test]
fn empty_pattern_matches_every_value() {
    let json = obj(vec![("a", arr(vec![num("1")]))]);
    let pattern = Pattern { path: vec![], value: None, or: false, start_at_root: false };
    assert_eq!(
        match_pattern(&json, &pattern),
        vec![vec![], vec![key("a", false)], vec![key("a", false), index(0, false)]]
    );
    let anchored = Pattern { path: vec![], value: None, or: false, start_at_root: true };
    assert_eq!(match_pattern(&json, &anchored), vec![Vec::<MatchNode>::new()]);
}

#[test]
fn pattern_built_by_hand() {
    let json = arr(vec![obj(vec![("k", num("1"))]), obj(vec![("k", num("2"))])]);
    let pattern = Pattern {
        path: vec![
            PatternNode::Index(IndexPattern::LastN(1)),
            PatternNode::Key("k".to_string()),
        ],
        value: Some("2".to_string()),
        or: false,
        start_at_root: true,
    };
    assert_eq!(match_pattern(&json, &pattern), vec![vec![index(1, true), key("k", true)]]);
}

#[test]
fn match_nodes_give_their_parts() {
    let k = key("a", true);
    let i = index(3, false);
    assert_eq!(k.as_key(), Some(&MatchKey { key: "a".to_string(), highlighted: true }));
    assert_eq!(k.as_index(), None);
    assert_eq!(i.as_index(), Some(&MatchIndex { index: 3, highlighted: false }));
    assert_eq!(i.as_key(), None);
    assert!(k.is_highlighted());
    assert!(!i.is_highlighted());
    assert_eq!(k.duplicate(), k);
    assert!(k.same(&key("a", true)));
    assert!(!k.same(&key("a", false)));
    assert!(!k.same(&i));
}

#[test]
fn every_match_leads_to_a_value() {
    let json = obj(vec![
        ("a", arr(vec![num("1"), obj(vec![("b", text("x"))])])),
        ("b", Json::Null),
    ]);
    assert!(json.is_well_formed());
    for text in ["a", "b", "x", "..b", "$..[]", ": x", "[1]", ""] {
        for path in match_pattern(&json, &Pattern::parse(text).unwrap()) {
            assert!(json.resolves(&path));
        }
    }
    assert!(!json.resolves(&[key("c", false)]));
    assert!(!json.resolves(&[key("a", false), index(2, false)]));
    assert!(!json.resolves(&[index(0, false)]));
    assert_eq!(json.lookup(&[key("a", true), index(1, false), key("b", true)]), Some(&text("x")));
    let twice = obj(vec![("a", num("1")), ("a", num("2"))]);
    assert!(!twice.is_well_formed());
    assert!(!arr(vec![twice]).is_well_formed());
}

#[test]
fn test_sort_matches() {
    let mut matches = vec![
        vec![key("b", false), key("b", false)],
        vec![key("a", false), key("a", false)],
        vec![key("a", false), key("a", false), index(1, false)],
        vec![key("a", false), key("a", false), index(0, false)],
        vec![key("a", false)],
    ];

    let sorted = vec![
        vec![key("a", false)],
        vec![key("a", false), key("a", false)],
        vec![key("a", false), key("a", false), index(0, false)],
        vec![key("a", false), key("a", false), index(1, false)],
        vec![key("b", false), key("b", false)],
    ];

    sort_matches(&mut matches);
    assert_eq!(sorted, matches);
}

#[test]
fn sorting_keeps_the_places_of_paths_that_differ_in_highlighting() {
    let mut matches = vec![
        vec![index(10, true)],
        vec![index(9, false), key("b", true)],
        vec![index(9, true), key("b", false)],
        vec![index(9, true), key("ab", true)],
        vec![],
        vec![index(9, true), key("b", true)],
    ];
    sort_matches(&mut matches);
    assert_eq!(
        matches,
        vec![
            vec![],
            vec![index(9, true), key("ab", true)],
            vec![index(9, false), key("b", true)],
            vec![index(9, true), key("b", false)],
            vec![index(9, true), key("b", true)],
            vec![index(10, true)],
        ]
    );
    assert_eq!(compare(&[key("a", true)], &[key("a", false)]), PathOrder::Equal);
    assert_eq!(compare(&[key("a", true)], &[key("a", false), index(0, true)]), PathOrder::Less);
    assert_eq!(compare(&[key("a", true), index(0, true)], &[key("a", false)]), PathOrder::Greater);
    assert_eq!(compare(&[key("b", true)], &[key("ab", true)]), PathOrder::Greater);
    assert_eq!(compare(&[key("", true)], &[key("a", true)]), PathOrder::Less);
    assert_eq!(compare(&[key("\u{e9}", true)], &[key("z", true)]), PathOrder::Greater);
    assert_eq!(compare(&[index(2, true)], &[index(10, true)]), PathOrder::Less);
    assert_eq!(compare(&[], &[]), PathOrder::Equal);
}

#[test]
fn sorted_matches_of_a_document() {
    let json = obj(vec![
        ("b", arr(vec![num("1"), num("2")])),
        ("a", obj(vec![("z", num("3")), ("y", num("4"))])),
    ]);
    let mut matches = match_pattern(&json, &Pattern::parse(": ?").unwrap());
    sort_matches(&mut matches);
    assert_eq!(
        matches,
        vec![
            vec![key("a", false), key("y", false)],
            vec![key("a", false), key("z", false)],
            vec![key("b", false), index(0, false)],
            vec![key("b", false), index(1, false)],
        ]
    );
}
