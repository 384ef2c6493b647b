use jgrep::utils::string_utils::{find_all_outside_quotes, wildcard_match, wildcard_match_internal};

#[test]
fn string_utils_test_find_all_outside_quotes() {
    let needle = ':';
    let empty = Vec::<usize>::new();

    // Simple case
    let result = find_all_outside_quotes(r#":"::":"#, needle);
    assert_eq!(vec![0, 5], result);

    // No colons
    let result = find_all_outside_quotes("abcd", needle);
    assert_eq!(Vec::<usize>::new(), result);

    // All colons inside quotes
    let result = find_all_outside_quotes(r#""a:b:c""#, needle);
    assert_eq!(Vec::<usize>::new(), result);

    // Colons inside and outside quotes
    let result = find_all_outside_quotes(r#":"a:b":c:d"#, needle);
    assert_eq!(vec![0, 6, 8], result);

    // Escaped quotes
    let result = find_all_outside_quotes(r#""a\"b:c\":d:e""#, needle);
    assert_eq!(vec![9, 11], result);

    // Escaped escape
    let result = find_all_outside_quotes(r#"\\":""#, needle);
    assert_eq!(empty, result);
}

#[test]
fn test_wildcard_match() {
    // No wildcard
    assert!(wildcard_match("", "")); // Empty
    assert!(wildcard_match("abc", "abc")); // Exact

    // *
    // Matches
    assert!(wildcard_match("abc", "a*c")); // Wildcard matches one
    assert!(wildcard_match("abc", "a*")); // Wildcard matches to the end
    assert!(wildcard_match("abc", "*c")); // Wildcard matches from the start
    assert!(wildcard_match("abc", "*")); // Wildcard matches everything
    assert!(wildcard_match("abc", "*b*")); // Wildcard matches beginning and end
    assert!(wildcard_match("abc", "a**c")); // Double wildcard center
    assert!(wildcard_match("abc", "**b**")); // Double wildcard outside
    assert!(wildcard_match("abc", "*abc*")); // Wildcard matches nothing
    assert!(wildcard_match("abc", "a****c")); // lots of wildcards

    // No matches
    assert!(!wildcard_match("abc", "a")); // No wildcard
    assert!(!wildcard_match("abc", "b*")); // Wildcard end
    assert!(!wildcard_match("abc", "*b")); // Wildcard start
    assert!(!wildcard_match("abc", "*d*")); // Multiple wildcards

    // ?
    assert!(wildcard_match("abc", "a?c")); // Single wildcard
    assert!(wildcard_match("abc", "??c")); // Double wildcard
    assert!(wildcard_match("abc", "?bc")); // Start
    assert!(wildcard_match("abc", "ab?")); // End
}

#[test]
fn question_mark_takes_exactly_one_character() {
    assert!(!wildcard_match("ab", "ab?"));
    assert!(!wildcard_match("", "?"));
    assert!(wildcard_match("a", "?"));
    assert!(!wildcard_match("ab", "?"));
}

#[test]
fn star_matches_every_string() {
    for s in ["", "a", "*", "?", "hello world", "\u{e9}t\u{e9}"] {
        assert!(wildcard_match(s, "*"));
    }
}

#[test]
fn every_string_matches_itself() {
    for s in ["", "a", "*", "a*", "?", "**?*", "hello", "a?c*"] {
        assert!(wildcard_match(s, s));
    }
}

#[test]
fn double_star_matches_what_one_star_matches() {
    for h in ["", "ac", "abc", "abbc", "ab", "xabc"] {
        assert_eq!(wildcard_match(h, "a**c"), wildcard_match(h, "a*c"));
    }
}

#[test]
fn wildcard_match_internal_works_on_characters() {
    let haystack: Vec<char> = "abc".chars().collect();
    let needle: Vec<char> = "a*c".chars().collect();
    assert!(wildcard_match_internal(&haystack, &needle));
    let needle: Vec<char> = "a*d".chars().collect();
    assert!(!wildcard_match_internal(&haystack, &needle));
}

#[test]
fn quotes_and_backslashes_are_never_found() {
    assert_eq!(Vec::<usize>::new(), find_all_outside_quotes(r#"a"b\c"#, '"'));
    assert_eq!(Vec::<usize>::new(), find_all_outside_quotes(r#"a"b\c"#, '\\'));
}
