use jgrep::errors::parsing_error::ParsingError;
use jgrep::pattern::parser::{parse, parse_brackets, parse_path, parse_value, token_indices};
use jgrep::pattern::pattern_node::{IndexPattern, PatternNode};
use jgrep::pattern::tokenizer::{tokenize, BracketToken, TextContent, Token};
use jgrep::pattern::Pattern;

#[test]
fn pattern_test_path() {
    let pattern = parse(".a.b.c").unwrap();

    assert_eq!(
        Pattern {
            path: vec![PatternNode::Key("a".to_string()), PatternNode::Key("b".to_string()), PatternNode::Key("c*".to_string())],
            value: None,
            or: false,
            start_at_root: false,
        },
        pattern
    );
}

#[test]
fn pattern_test_key() {
    let pattern = parse(": true").unwrap();

    assert_eq!(
        Pattern {
            path: vec![],
            value: Some("true*".to_string()),
            or: false,
            start_at_root: false,
        },
        pattern
    );
}

#[test]
fn pattern_test_path_and_key() {
    let pattern = parse(".a.b.c: true").unwrap();

    assert_eq!(
        Pattern {
            path: vec![PatternNode::Key("a".to_string()), PatternNode::Key("b".to_string()), PatternNode::Key("c".to_string())],
            value: Some("true*".to_string()),
            or: false,
            start_at_root: false,
        },
        pattern
    );
}

#[test]
fn pattern_test_quotes() {
    let pattern = parse(".\"a\"").unwrap();

    assert_eq!(
        Pattern {
            path: vec![PatternNode::Key("a".to_string())],
            value: None,
            or: false,
            start_at_root: false,
        },
        pattern
    );
}

#[test]
fn pattern_test_brackets() {
    let pattern = parse(r#".[][1]["potato"]"#).unwrap();

    assert_eq!(
        Pattern {
            path: vec![PatternNode::Index(IndexPattern::All), PatternNode::Index(IndexPattern::List(vec![1])), PatternNode::Key("potato".to_string())],
            value: None,
            or: false,
            start_at_root: false,
        },
        pattern
    );
}

#[test]
fn pattern_test_start_at_root() {
    let pattern = parse("$.a.b.c").unwrap();

    assert_eq!(
        Pattern {
            path: vec![PatternNode::Key("a".to_string()), PatternNode::Key("b".to_string()), PatternNode::Key("c*".to_string())],
            value: None,
            or: false,
            start_at_root: true,
        },
        pattern
    );
}

#[test]
fn pattern_test_recursive_at_root() {
    let pattern = parse("$..[]").unwrap();

    assert_eq!(
        Pattern {
            path: vec![PatternNode::Recursive(), PatternNode::Index(IndexPattern::All)],
            value: None,
            or: false,
            start_at_root: true,
        },
        pattern
    );
}

#[test]
fn pattern_test_recursive() {
    let pattern = parse(".a..b").unwrap();

    assert_eq!(
        Pattern {
            path: vec![PatternNode::Key("a".to_string()), PatternNode::Recursive(), PatternNode::Key("b*".to_string())],
            value: None,
            or: false,
            start_at_root: false,
        },
        pattern
    );
}

#[test]
fn pattern_test_index_list() {
    let pattern = parse(".a[1,2,3]").unwrap();

    assert_eq!(
        Pattern {
            path: vec![PatternNode::Key("a".to_string()), PatternNode::Index(IndexPattern::List(vec![1, 2, 3]))],
            value: None,
            or: false,
            start_at_root: false,
        },
        pattern
    );
}

#[test]
fn pattern_test_index_range() {
    let pattern = parse(".a[1:3]").unwrap();

    assert_eq!(
        Pattern {
            path: vec![PatternNode::Key("a".to_string()), PatternNode::Index(IndexPattern::Range(1, Some(3)))],
            value: None,
            or: false,
            start_at_root: false,
        },
        pattern
    );
}

#[test]
fn pattern_test_index_range_last() {
    let pattern = parse(".[3:]").unwrap();

    assert_eq!(
        Pattern {
            path: vec![PatternNode::Index(IndexPattern::Range(3, None))],
            value: None,
            or: false,
            start_at_root: false,
        },
        pattern
    );
}

#[test]
fn pattern_test_index_last_n() {
    let pattern = parse("[-2:]").unwrap();

    assert_eq!(
        Pattern {
            path: vec![PatternNode::Index(IndexPattern::LastN(2))],
            value: None,
            or: false,
            start_at_root: false,
        },
        pattern
    );
}

#[test]
fn mod_test_path() {
    let pattern = Pattern::parse(".a.b.c").unwrap();

    assert_eq!(
        Pattern {
            path: vec![PatternNode::Key("a".to_string()), PatternNode::Key("b".to_string()), PatternNode::Key("c*".to_string())],
            value: None,
            or: false,
            start_at_root: false,
        },
        pattern
    );
}

#[test]
fn mod_test_key() {
    let pattern = Pattern::parse(": true").unwrap();

    assert_eq!(
        Pattern {
            path: vec![],
            value: Some("true*".to_string()),
            or: false,
            start_at_root: false,
        },
        pattern
    );
}

#[test]
fn mod_test_path_and_key() {
    let pattern = Pattern::parse(".a.b.c: true").unwrap();

    assert_eq!(
        Pattern {
            path: vec![PatternNode::Key("a".to_string()), PatternNode::Key("b".to_string()), PatternNode::Key("c".to_string())],
            value: Some("true*".to_string()),
            or: false,
            start_at_root: false,
        },
        pattern
    );
}

#[test]
fn mod_test_quotes() {
    let pattern = Pattern::parse(".\"a\"").unwrap();

    assert_eq!(
        Pattern {
            path: vec![PatternNode::Key("a".to_string())],
            value: None,
            or: false,
            start_at_root: false,
        },
        pattern
    );
}

#[test]
fn mod_test_brackets() {
    let pattern = Pattern::parse(r#".[][1]["potato"]"#).unwrap();

    assert_eq!(
        Pattern {
            path: vec![PatternNode::Index(IndexPattern::All), PatternNode::Index(IndexPattern::List(vec![1])), PatternNode::Key("potato".to_string())],
            value: None,
            or: false,
            start_at_root: false,
        },
        pattern
    );
}

#[test]
fn mod_test_start_at_root() {
    let pattern = Pattern::parse("$.a.b.c").unwrap();

    assert_eq!(
        Pattern {
            path: vec![PatternNode::Key("a".to_string()), PatternNode::Key("b".to_string()), PatternNode::Key("c*".to_string())],
            value: None,
            or: false,
            start_at_root: true,
        },
        pattern
    );
}

#[test]
fn mod_test_recursive_at_root() {
    let pattern = Pattern::parse("$..[]").unwrap();

    assert_eq!(
        Pattern {
            path: vec![PatternNode::Recursive(), PatternNode::Index(IndexPattern::All)],
            value: None,
            or: false,
            start_at_root: true,
        },
        pattern
    );
}

#[test]
fn mod_test_recursive() {
    let pattern = Pattern::parse(".a..b").unwrap();

    assert_eq!(
        Pattern {
            path: vec![PatternNode::Key("a".to_string()), PatternNode::Recursive(), PatternNode::Key("b*".to_string())],
            value: None,
            or: false,
            start_at_root: false,
        },
        pattern
    );
}

#[test]
fn mod_test_index_list() {
    let pattern = Pattern::parse(".a[1,2,3]").unwrap();

    assert_eq!(
        Pattern {
            path: vec![PatternNode::Key("a".to_string()), PatternNode::Index(IndexPattern::List(vec![1, 2, 3]))],
            value: None,
            or: false,
            start_at_root: false,
        },
        pattern
    );
}

#[test]
fn mod_test_index_range() {
    let pattern = Pattern::parse(".a[1:3]").unwrap();

    assert_eq!(
        Pattern {
            path: vec![PatternNode::Key("a".to_string()), PatternNode::Index(IndexPattern::Range(1, Some(3)))],
            value: None,
            or: false,
            start_at_root: false,
        },
        pattern
    );
}

#[test]
fn mod_test_index_range_last() {
    let pattern = Pattern::parse(".[3:]").unwrap();

    assert_eq!(
        Pattern {
            path: vec![PatternNode::Index(IndexPattern::Range(3, None))],
            value: None,
            or: false,
            start_at_root: false,
        },
        pattern
    );
}

#[test]
fn mod_test_index_last_n() {
    let pattern = Pattern::parse("[-2:]").unwrap();

    assert_eq!(
        Pattern {
            path: vec![PatternNode::Index(IndexPattern::LastN(2))],
            value: None,
            or: false,
            start_at_root: false,
        },
        pattern
    );
}

fn path_of(pattern: &str) -> Vec<PatternNode> {
    parse(pattern).unwrap().path
}

fn key(k: &str) -> PatternNode {
    PatternNode::Key(k.to_string())
}

#[test]
fn parsing_twice_gives_the_same_pattern() {
    for text in [".a.b.c", "name", ": true", "$..[]", ".a[1,2,3]: x", "[-2:]", "a:b:c", ".a...b"] {
        assert_eq!(parse(text), parse(text));
        assert_eq!(parse(text), Pattern::parse(text));
    }
}

#[test]
fn bare_word_is_path_or_value() {
    assert_eq!(
        Pattern {
            path: vec![key("*Jane*")],
            value: Some("*Jane*".to_string()),
            or: true,
            start_at_root: false,
        },
        parse("Jane").unwrap()
    );
}

#[test]
fn surrounding_whitespace_is_dropped() {
    assert_eq!(parse("Jane"), parse("  Jane \t\n"));
    assert_eq!(parse(".a: b"), parse(" .a: b "));
}

#[test]
fn empty_pattern() {
    assert_eq!(
        Pattern { path: vec![], value: None, or: false, start_at_root: false },
        parse("").unwrap()
    );
    assert_eq!(
        Pattern { path: vec![], value: None, or: false, start_at_root: true },
        parse("$").unwrap()
    );
}

#[test]
fn quoted_value_keeps_its_text() {
    // a quote is only read as one where a token starts
    assert_eq!(Some("\"a b\"".to_string()), parse(".k:\"a b\"").unwrap().value);
    assert_eq!(Some("\"a b\"*".to_string()), parse(".k: \"a b\"").unwrap().value);
    // spaces and a quoted text, as tokens
    let tokens = vec![
        Token::Text(TextContent { str: "  ".to_string(), quoted: false }),
        Token::Text(TextContent { str: " a b ".to_string(), quoted: true }),
    ];
    assert_eq!(Ok(Some(" a b ".to_string())), parse_value(&tokens));
}

#[test]
fn value_of_several_tokens_is_their_text() {
    assert_eq!(Some("4.*?*".to_string()), parse(".rating: 4.*?").unwrap().value);
    assert_eq!(Some("a[1,-2]b*".to_string()), parse(".k: a[1,-2]b").unwrap().value);
}

#[test]
fn value_that_begins_with_a_dot_is_no_value() {
    let pattern = parse(".a: .b").unwrap();
    assert_eq!(vec![key("a")], pattern.path);
    assert_eq!(None, pattern.value);
    assert!(!pattern.or);
    assert_eq!(None, parse(".a:.b").unwrap().value);
}

#[test]
fn path_only_syntax_has_no_value() {
    for text in [".a", "[1]", "$.a", "$a", "..a"] {
        let pattern = parse(text).unwrap();
        assert_eq!(None, pattern.value);
        assert!(!pattern.or);
    }
}

#[test]
fn more_than_one_colon_is_an_error() {
    assert_eq!(Err(ParsingError::multiple_colons()), parse("a:b:c"));
    assert_eq!(Err(ParsingError::multiple_colons()), parse("::"));
    // colons inside brackets and quotes do not count
    assert!(parse(".a[1:2]: x").is_ok());
    assert!(parse(".\"a:b\":\"c:d\"").is_ok());
}

#[test]
fn dollar_is_only_accepted_in_front() {
    assert_eq!(Err(ParsingError::unexpected_dollar()), parse(".a.$"));
    assert_eq!(Err(ParsingError::unexpected_dollar()), parse("$$"));
    assert_eq!(Err(ParsingError::unexpected_dollar()), parse(".$: x"));
    assert!(parse("$.a").unwrap().start_at_root);
}

#[test]
fn three_dots_are_an_error() {
    assert_eq!(Err(ParsingError::too_many_dots()), parse(".a...b"));
    assert_eq!(Err(ParsingError::too_many_dots()), parse("...."));
    assert_eq!(vec![PatternNode::Recursive(), key("a*")], path_of("..a"));
    assert_eq!(
        vec![
            key("a"),
            PatternNode::Recursive(),
            PatternNode::Index(IndexPattern::All),
            PatternNode::Recursive(),
            key("b*")
        ],
        path_of(".a..[]..b")
    );
}

#[test]
fn the_first_error_is_reported() {
    assert_eq!(Err(ParsingError::malformed_list()), parse(".a[1,,2].$"));
    assert_eq!(Err(ParsingError::unexpected_dollar()), parse(".$[1,,2]"));
    assert_eq!(Err(ParsingError::missmatched_brackets(2)), parse(".a[1,,2"));
}

#[test]
fn brackets_for_all_positions() {
    let all = vec![PatternNode::Index(IndexPattern::All)];
    assert_eq!(all, path_of("[]"));
    assert_eq!(all, path_of("[*]"));
    assert_eq!(all, path_of("[:]"));
}

#[test]
fn brackets_with_one_value() {
    assert_eq!(vec![PatternNode::Index(IndexPattern::List(vec![0]))], path_of("[0]"));
    assert_eq!(vec![key("a.b c")], path_of("[\"a.b c\"]"));
    assert_eq!(vec![key("*")], path_of("[\"*\"]"));
    assert_eq!(Err(ParsingError::int_negative(-1)), parse("[-1]"));
    assert_eq!(Err(ParsingError::malformed_range()), parse("[abc]"));
    assert_eq!(Err(ParsingError::malformed_range()), parse("[1 2]"));
}

#[test]
fn brackets_with_a_range() {
    assert_eq!(vec![PatternNode::Index(IndexPattern::Range(0, Some(2)))], path_of("[:2]"));
    assert_eq!(vec![PatternNode::Index(IndexPattern::Range(1, None))], path_of("[1:]"));
    assert_eq!(vec![PatternNode::Index(IndexPattern::Range(0, None))], path_of("[0:]"));
    assert_eq!(vec![PatternNode::Index(IndexPattern::LastN(1))], path_of("[-1:]"));
    assert_eq!(vec![PatternNode::Index(IndexPattern::Range(3, Some(1)))], path_of("[3:1]"));
    assert_eq!(Err(ParsingError::int_negative(-1)), parse("[-1:2]"));
    assert_eq!(Err(ParsingError::int_negative(-2)), parse("[1:-2]"));
    assert_eq!(Err(ParsingError::int_negative(-2)), parse("[:-2]"));
    assert_eq!(Err(ParsingError::malformed_range()), parse("[1:2:3]"));
    assert_eq!(Err(ParsingError::malformed_range()), parse("[a:2]"));
    assert_eq!(Err(ParsingError::malformed_range()), parse("[1,2:3]"));
    assert_eq!(Err(ParsingError::malformed_range()), parse("[\"a\":]"));
}

#[test]
fn brackets_with_a_list() {
    assert_eq!(vec![PatternNode::Index(IndexPattern::List(vec![3, 1, 3]))], path_of("[3,1,3]"));
    assert_eq!(vec![PatternNode::Index(IndexPattern::List(vec![1]))], path_of("[1,]"));
    assert_eq!(Err(ParsingError::malformed_list()), parse("[,1]"));
    assert_eq!(Err(ParsingError::malformed_list()), parse("[1,,2]"));
    assert_eq!(Err(ParsingError::malformed_list()), parse("[1,-2]"));
    assert_eq!(Err(ParsingError::malformed_list()), parse("[1,\"a\"]"));
    assert_eq!(Err(ParsingError::malformed_list()), parse("[,]"));
}

#[test]
fn integer_too_big_in_brackets() {
    assert_eq!(Err(ParsingError::integer_is_too_big("99999999999")), parse(".a[99999999999]"));
    assert_eq!(Err(ParsingError::integer_is_too_big("2147483648")), parse("[-2147483648:]"));
    assert_eq!(
        vec![PatternNode::Index(IndexPattern::LastN(2147483647))],
        path_of("[-2147483647:]")
    );
}

#[test]
fn parts_of_the_parser() {
    let tokens = tokenize(".a[1]:b").unwrap();
    assert_eq!(vec![3], token_indices(&tokens, &Token::Colon));
    assert_eq!(vec![0], token_indices(&tokens, &Token::Dot));
    assert_eq!(Vec::<usize>::new(), token_indices(&tokens, &Token::Dollar));
    assert_eq!(
        Ok((vec![key("a"), PatternNode::Index(IndexPattern::List(vec![1]))], false)),
        parse_path(&tokens[..3])
    );
    assert_eq!(Ok(Some("b".to_string())), parse_value(&tokens[4..]));
    assert_eq!(Ok(None), parse_value(&tokens[..0]));
    assert_eq!(
        Ok(PatternNode::Index(IndexPattern::Range(1, Some(2)))),
        parse_brackets(&[BracketToken::Int(1), BracketToken::Colon, BracketToken::Int(2)])
    );
    assert_eq!(
        Ok(PatternNode::Index(IndexPattern::All)),
        parse_brackets(&[BracketToken::Text(TextContent { str: "*".to_string(), quoted: false })])
    );
}

#[test]
fn index_patterns_select_positions() {
    assert!(IndexPattern::All.matches(0, 0));
    assert!(IndexPattern::Range(1, Some(3)).matches(1, 5));
    assert!(IndexPattern::Range(1, Some(3)).matches(2, 5));
    assert!(!IndexPattern::Range(1, Some(3)).matches(3, 5));
    assert!(!IndexPattern::Range(1, Some(3)).matches(0, 5));
    assert!(IndexPattern::Range(3, None).matches(3, 5));
    assert!(!IndexPattern::Range(3, None).matches(2, 5));
    assert!(IndexPattern::List(vec![1, 4]).matches(4, 5));
    assert!(!IndexPattern::List(vec![1, 4]).matches(2, 5));
    assert!(!IndexPattern::List(vec![]).matches(0, 5));
    assert!(IndexPattern::LastN(2).matches(3, 5));
    assert!(IndexPattern::LastN(2).matches(4, 5));
    assert!(!IndexPattern::LastN(2).matches(2, 5));
    assert!(!IndexPattern::LastN(0).matches(4, 5));
    // fewer elements than asked for: all of them
    assert!(IndexPattern::LastN(7).matches(0, 5));
}

#[test]
fn pattern_nodes_give_their_parts() {
    assert_eq!(Some(&"a".to_string()), key("a").as_key());
    assert_eq!(None, key("a").as_index());
    assert_eq!(Some(&IndexPattern::All), PatternNode::Index(IndexPattern::All).as_index());
    assert_eq!(None, PatternNode::Index(IndexPattern::All).as_key());
    assert_eq!(None, PatternNode::Recursive().as_key());
    assert_eq!(None, PatternNode::Recursive().as_index());
}
