use jgrep::errors::parsing_error::ParsingError;
use jgrep::pattern::tokenizer::{
    parse_int, parse_quoted, parse_text, tokenize, tokenize_inside_bracket, BracketToken,
    TextContent, Token,
};

#[test]
fn test_parse_quoted() {
    let chars = r#"ab."a.c"."#.chars().collect();

    let mut i = 3;

    let res = parse_quoted(&chars, &mut i);

    assert_eq!(TextContent { str: "a.c".to_string(), quoted: true }, res.unwrap());
    assert_eq!(8, i);
}

#[test]
fn test_parse_quoted_missmatched() {
    let chars = r#"ab."a.c."#.chars().collect();
    let mut i = 3;
    let res = parse_quoted(&chars, &mut i);

    assert_eq!(res, Err(ParsingError::missmatched_quotes(3)));
}

#[test]
fn test_parse_text() {
    const TEXT_STOPS: &[char] = &['.'];
    let chars = "ab.abc.".chars().collect();

    let mut i = 3;

    let res = parse_text(&chars, &mut i, &TEXT_STOPS);

    assert_eq!(TextContent { str: "abc".to_string(), quoted: false }, res.unwrap());
    assert_eq!(6, i);
}

#[test]
fn test_parse_int() {
    let chars = "a12a".chars().collect();
    let mut i = 1;
    let res = parse_int(&chars, &mut i);

    assert_eq!(12, res.unwrap());
    assert_eq!(3, i);
}

#[test]
fn test_parse_int_too_big() {
    let number = "1212431245125213614616341612";
    let chars = format!("a{}ww", number).chars().collect();
    let mut i = 1;
    let res = parse_int(&chars, &mut i);

    assert_eq!(res, Err(ParsingError::integer_is_too_big(number)));
}

#[test]
fn test_tokenize_inside_bracket() {
    let chars = r#"a[1,-2,"quoted":word]"#.chars().collect();
    let mut i = 1;
    let res = tokenize_inside_bracket(&chars, &mut i);

    assert_eq!(
        vec![
            BracketToken::Int(1),
            BracketToken::Comma,
            BracketToken::Int(-2),
            BracketToken::Comma,
            BracketToken::Text(TextContent { str: "quoted".to_string(), quoted: true }),
            BracketToken::Colon,
            BracketToken::Text(TextContent { str: "word".to_string(), quoted: false }),
        ],
        res.unwrap(),
    );
    assert_eq!(21, i);
}

#[test]
fn test_tokenize_inside_bracket_missmatched() {
    let chars = r#"a[1,"quoted""#.chars().collect();
    let mut i = 1;
    let res = tokenize_inside_bracket(&chars, &mut i);

    assert_eq!(res, Err(ParsingError::missmatched_brackets(1)));
}

#[test]
fn test_tokenize() {
    let str = r#".field."quotedfield".[1,23,-3][1:2]:val"#;
    let res = tokenize(str);

    assert_eq!(
        vec![
            Token::Dot,
            Token::Text(TextContent { str: "field".to_string(), quoted: false }),
            Token::Dot,
            Token::Text(TextContent { str: "quotedfield".to_string(), quoted: true }),
            Token::Dot,
            Token::BracketExpr(vec![
                BracketToken::Int(1),
                BracketToken::Comma,
                BracketToken::Int(23),
                BracketToken::Comma,
                BracketToken::Int(-3),
            ]),
            Token::BracketExpr(vec![
                BracketToken::Int(1),
                BracketToken::Colon,
                BracketToken::Int(2)
            ]),
            Token::Colon,
            Token::Text(TextContent { str: "val".to_string(), quoted: false }),
        ],
        res.unwrap(),
    );
}

#[test]
fn parse_int_accepts_the_largest_value_and_no_more() {
    let chars = "2147483647".chars().collect();
    let mut i = 0;
    assert_eq!(Ok(2147483647), parse_int(&chars, &mut i));
    assert_eq!(10, i);

    let chars = "2147483648]".chars().collect();
    let mut i = 0;
    assert_eq!(Err(ParsingError::integer_is_too_big("2147483648")), parse_int(&chars, &mut i));
    assert_eq!(10, i);

    let chars = "0000000000000000000012".chars().collect();
    let mut i = 0;
    assert_eq!(Ok(12), parse_int(&chars, &mut i));
}

#[test]
fn parse_int_without_digits_names_an_empty_literal() {
    let chars = "abc".chars().collect();
    let mut i = 1;
    assert_eq!(Err(ParsingError::integer_is_too_big("")), parse_int(&chars, &mut i));
    assert_eq!(1, i);
}

#[test]
fn minus_without_digits_is_an_error() {
    assert_eq!(Err(ParsingError::integer_is_too_big("")), tokenize("[-]"));
    assert_eq!(Err(ParsingError::integer_is_too_big("")), tokenize("[-a]"));
}

#[test]
fn escaped_quote_does_not_close_a_quoted_text() {
    let res = tokenize(r#""a\"b".c"#);
    assert_eq!(
        vec![
            Token::Text(TextContent { str: r#"a\"b"#.to_string(), quoted: true }),
            Token::Dot,
            Token::Text(TextContent { str: "c".to_string(), quoted: false }),
        ],
        res.unwrap(),
    );
    // an escaped backslash escapes nothing after it
    let res = tokenize(r#""a\\"b"#);
    assert_eq!(
        vec![
            Token::Text(TextContent { str: r#"a\\"#.to_string(), quoted: true }),
            Token::Text(TextContent { str: "b".to_string(), quoted: false }),
        ],
        res.unwrap(),
    );
    assert_eq!(Err(ParsingError::missmatched_quotes(0)), tokenize(r#""a\""#));
}

#[test]
fn unclosed_quote_inside_brackets_names_the_quote() {
    assert_eq!(Err(ParsingError::missmatched_quotes(3)), tokenize(r#".a["b]"#));
}

#[test]
fn unclosed_bracket_names_the_bracket() {
    assert_eq!(Err(ParsingError::missmatched_brackets(2)), tokenize(".a[1,2"));
    assert_eq!(Err(ParsingError::missmatched_brackets(0)), tokenize("["));
}

#[test]
fn text_inside_brackets_runs_to_the_closing_bracket() {
    assert_eq!(
        vec![Token::BracketExpr(vec![BracketToken::Text(TextContent {
            str: "a,b:c".to_string(),
            quoted: false
        })])],
        tokenize("[a,b:c]").unwrap(),
    );
}

#[test]
fn dollar_is_a_token_of_its_own() {
    assert_eq!(
        vec![
            Token::Dollar,
            Token::Dot,
            Token::Text(TextContent { str: "a$b".to_string(), quoted: false })
        ],
        tokenize("$.a$b").unwrap(),
    );
    assert_eq!(Vec::<Token>::new(), tokenize("").unwrap());
}

#[test]
fn tokens_give_back_their_source() {
    let source = r#".field."quoted".[1,23,-3][1:2]:val"#;
    let mut text = String::new();
    for token in tokenize(source).unwrap() {
        text.push_str(&token.get_original_string());
    }
    assert_eq!(source, text);
    assert_eq!("-3", BracketToken::Int(-3).get_original_string());
    assert_eq!(",", BracketToken::Comma.get_original_string());
    assert_eq!(":", BracketToken::Colon.get_original_string());
    assert_eq!("$", Token::Dollar.get_original_string());
    assert_eq!(
        "\"a\"",
        BracketToken::Text(TextContent { str: "a".to_string(), quoted: true })
            .get_original_string()
    );
}

#[test]
fn error_messages() {
    assert_eq!(
        "Invalid pattern: missmatched brackets. Opening [ at position 12 had no closing ]",
        ParsingError::missmatched_brackets(12).message()
    );
    assert_eq!(
        "Invalid pattern: missmatched quotes. Opening \" at position 0 had no closing \"",
        ParsingError::missmatched_quotes(0).message()
    );
    assert_eq!("Integer is too big: 99999999999", ParsingError::integer_is_too_big("99999999999").message());
    assert_eq!(
        "Cannot parse int '-5', cannot be negative",
        ParsingError::int_negative(-5).message()
    );
    assert_eq!(
        "Cannot parse int '-2147483648', cannot be negative",
        ParsingError::int_negative(i32::MIN).message()
    );
    assert_eq!(
        "Malformed range. Valid examples: `[1:3]`, `[1:]`, `[:2]`, `[-1:]`.",
        ParsingError::malformed_range().message()
    );
    assert_eq!("Malformed list. Valid example: `[0, 1, 3]`.", ParsingError::malformed_list().message());
    assert_eq!(
        "jgrep: Error parsing patern: Malformed list. Valid example: `[0, 1, 3]`.",
        ParsingError::malformed_list().to_string()
    );
    assert_eq!(ParsingError::new("x".to_string()).message(), "x");
    assert!(ParsingError::multiple_colons().message().starts_with("Found more than one colon."));
    assert!(ParsingError::special_chars_in_value().message().starts_with("Found special characters in value"));
    assert!(ParsingError::unexpected_dollar().message().starts_with("Unexpected `$`."));
    assert!(ParsingError::too_many_dots().message().starts_with("Invalid sequence: `...`"));
}
