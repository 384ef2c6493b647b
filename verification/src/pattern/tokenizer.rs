//! The tokenizer of the query language.
//!
//! A pattern is cut into dots, colons, a root anchor, texts and bracket expressions;
//! what stands between `[` and `]` is cut into integers, commas, colons and texts.
use crate::errors::parsing_error::{
    integer_is_too_big_message, missmatched_brackets_message, missmatched_quotes_message,
    ParsingError,
};
use crate::text::{
    chars_to_string, digit_value, digits_value, is_digit, push_signed_decimal,
    push_str, signed_decimal, str_to_chars,
};
use vstd::prelude::*;
use vstd::slice::slice_subrange;

verus! {

/// A run of text, and whether it stood between double quotes.
#[derive(Debug, PartialEq, Eq)]
pub struct TextContent {
    pub str: String,
    pub quoted: bool,
}

/// A token of a pattern.
#[derive(Debug, PartialEq, Eq)]
pub enum Token {
    Text(TextContent),
    BracketExpr(Vec<BracketToken>),
    Dot,
    Colon,
    Dollar,
}

/// A token of a bracket expression.
#[derive(Debug, PartialEq, Eq)]
pub enum BracketToken {
    Text(TextContent),
    Int(i32),
    Colon,
    Comma,
}

/// What a [`TextContent`] denotes.
pub struct TextContentView {
    pub str: Seq<char>,
    pub quoted: bool,
}

/// What a [`BracketToken`] denotes.
pub enum BracketTokenView {
    Text(TextContentView),
    Int(i32),
    Colon,
    Comma,
}

/// What a [`Token`] denotes.
pub enum TokenView {
    Text(TextContentView),
    BracketExpr(Seq<BracketTokenView>),
    Dot,
    Colon,
    Dollar,
}

impl View for TextContent {
    type V = TextContentView;

    open spec fn view(&self) -> TextContentView {
        TextContentView { str: self.str@, quoted: self.quoted }
    }
}

impl DeepView for TextContent {
    type V = TextContentView;

    open spec fn deep_view(&self) -> TextContentView {
        self@
    }
}

impl View for BracketToken {
    type V = BracketTokenView;

    open spec fn view(&self) -> BracketTokenView {
        match self {
            BracketToken::Text(text) => BracketTokenView::Text(text@),
            BracketToken::Int(n) => BracketTokenView::Int(*n),
            BracketToken::Colon => BracketTokenView::Colon,
            BracketToken::Comma => BracketTokenView::Comma,
        }
    }
}

impl DeepView for BracketToken {
    type V = BracketTokenView;

    open spec fn deep_view(&self) -> BracketTokenView {
        self@
    }
}

impl View for Token {
    type V = TokenView;

    open spec fn view(&self) -> TokenView {
        match self {
            Token::Text(text) => TokenView::Text(text@),
            Token::BracketExpr(tokens) => TokenView::BracketExpr(tokens.deep_view()),
            Token::Dot => TokenView::Dot,
            Token::Colon => TokenView::Colon,
            Token::Dollar => TokenView::Dollar,
        }
    }
}

impl DeepView for Token {
    type V = TokenView;

    open spec fn deep_view(&self) -> TokenView {
        self@
    }
}

/// The pattern text that a text token was read from.
pub open spec fn text_source(text: TextContentView) -> Seq<char> {
    if text.quoted {
        seq!['"'] + text.str + seq!['"']
    } else {
        text.str
    }
}

/// The pattern text that a bracket token stands for.
pub open spec fn bracket_token_source(token: BracketTokenView) -> Seq<char> {
    match token {
        BracketTokenView::Text(text) => text_source(text),
        BracketTokenView::Int(n) => signed_decimal(n as int),
        BracketTokenView::Colon => seq![':'],
        BracketTokenView::Comma => seq![','],
    }
}

/// The pattern text that a run of bracket tokens stands for.
pub open spec fn bracket_tokens_source(tokens: Seq<BracketTokenView>) -> Seq<char>
    decreases tokens.len(),
{
    if tokens.len() == 0 {
        Seq::empty()
    } else {
        bracket_tokens_source(tokens.drop_last()) + bracket_token_source(tokens.last())
    }
}

/// The pattern text that a token stands for.
pub open spec fn token_source(token: TokenView) -> Seq<char> {
    match token {
        TokenView::Text(text) => text_source(text),
        TokenView::BracketExpr(tokens) => seq!['['] + bracket_tokens_source(tokens) + seq![']'],
        TokenView::Dot => seq!['.'],
        TokenView::Colon => seq![':'],
        TokenView::Dollar => seq!['$'],
    }
}

/// Appends the pattern text of a text token to `out`.
fn push_text_source(out: &mut Vec<char>, text: &TextContent)
    ensures
        final(out)@ == old(out)@ + text_source(text@),
{
    if text.quoted {
        out.push('"');
        push_str(out, text.str.as_str());
        out.push('"');
        assert(out@ =~= old(out)@ + (seq!['"'] + text.str@ + seq!['"']));
    } else {
        push_str(out, text.str.as_str());
    }
}

/// Appends the pattern text of a bracket token to `out`.
fn push_bracket_token_source(out: &mut Vec<char>, token: &BracketToken)
    ensures
        final(out)@ == old(out)@ + bracket_token_source(token@),
{
    match token {
        BracketToken::Text(text) => push_text_source(out, text),
        BracketToken::Int(n) => push_signed_decimal(out, *n as i64),
        BracketToken::Colon => {
            out.push(':');
            assert(out@ =~= old(out)@ + seq![':']);
        },
        BracketToken::Comma => {
            out.push(',');
            assert(out@ =~= old(out)@ + seq![',']);
        },
    }
}

impl BracketToken {
    /// The pattern text that this token stands for.
    pub fn get_original_string(&self) -> (r: String)
        ensures
            r@ == bracket_token_source(self@),
    {
        let mut out: Vec<char> = Vec::new();
        push_bracket_token_source(&mut out, self);
        assert(out@ =~= bracket_token_source(self@));
        chars_to_string(out.as_slice())
    }
}

/// Appends the pattern text of a token to `out`.
fn push_token_source(out: &mut Vec<char>, token: &Token)
    ensures
        final(out)@ == old(out)@ + token_source(token@),
{
    match token {
        Token::Text(text) => push_text_source(out, text),
        Token::Dot => {
            out.push('.');
            assert(out@ =~= old(out)@ + seq!['.']);
        },
        Token::Colon => {
            out.push(':');
            assert(out@ =~= old(out)@ + seq![':']);
        },
        Token::Dollar => {
            out.push('$');
            assert(out@ =~= old(out)@ + seq!['$']);
        },
        Token::BracketExpr(tokens) => {
            out.push('[');
            let ghost opened = out@;
            let mut i: usize = 0;
            assert(tokens.deep_view().take(0) =~= Seq::empty());
            while i < tokens.len()
                invariant
                    i <= tokens.len(),
                    out@ == opened + bracket_tokens_source(tokens.deep_view().take(i as int)),
                decreases tokens.len() - i,
            {
                push_bracket_token_source(out, &tokens[i]);
                proof {
                    let next = tokens.deep_view().take(i as int + 1);
                    assert(next.drop_last() =~= tokens.deep_view().take(i as int));
                    assert(next.last() == tokens@[i as int]@);
                    assert(out@ =~= opened + bracket_tokens_source(next));
                }
                i += 1;
            }
            assert(tokens.deep_view().take(tokens.len() as int) =~= tokens.deep_view());
            out.push(']');
            assert(out@ =~= old(out)@ + (seq!['['] + bracket_tokens_source(tokens.deep_view())
                + seq![']']));
        },
    }
}

impl Token {
    /// The pattern text that this token stands for.
    pub fn get_original_string(&self) -> (r: String)
        ensures
            r@ == token_source(self@),
    {
        let mut out: Vec<char> = Vec::new();
        push_token_source(&mut out, self);
        assert(out@ =~= token_source(self@));
        chars_to_string(out.as_slice())
    }
}

/// What was read at some position, and the position after it.
pub struct Scan<T> {
    pub value: T,
    pub next: int,
}

/// The characters that end an unquoted text outside brackets.
pub open spec fn text_stops() -> Seq<char> {
    seq!['.', ':', '[']
}

/// The character that ends an unquoted text inside brackets.
pub open spec fn bracket_text_stops() -> Seq<char> {
    seq![']']
}

/// Where the unquoted text that starts at `i` ends: at the first character of `stops`
/// or at the end of `chars`.
pub open spec fn text_end(chars: Seq<char>, i: int, stops: Seq<char>) -> int
    decreases chars.len() - i,
{
    if 0 <= i < chars.len() && !stops.contains(chars[i]) {
        text_end(chars, i + 1, stops)
    } else {
        i
    }
}

/// Where the run of digits that starts at `i` ends.
pub open spec fn digits_end(chars: Seq<char>, i: int) -> int
    decreases chars.len() - i,
{
    if 0 <= i < chars.len() && is_digit(chars[i]) {
        digits_end(chars, i + 1)
    } else {
        i
    }
}

/// The position of the `"` that closes a quoted text whose content starts at `i`.
/// A backslash in the content escapes the character after it, so an escaped `"` does
/// not close the text.
pub open spec fn closing_quote(chars: Seq<char>, i: int) -> Option<int>
    decreases chars.len() - i,
{
    if i < 0 || i >= chars.len() {
        None
    } else if chars[i] == '"' {
        Some(i)
    } else if chars[i] == '\\' && i + 1 < chars.len() {
        closing_quote(chars, i + 2)
    } else {
        closing_quote(chars, i + 1)
    }
}

/// Where `text_end` points: at the first stop at or behind `i`, or at the end.
pub proof fn lemma_text_end(chars: Seq<char>, i: int, stops: Seq<char>)
    requires
        0 <= i <= chars.len(),
    ensures
        i <= text_end(chars, i, stops) <= chars.len(),
        forall|k: int| i <= k < text_end(chars, i, stops) ==> !stops.contains(chars[k]),
        text_end(chars, i, stops) < chars.len() ==> stops.contains(
            chars[text_end(chars, i, stops)],
        ),
    decreases chars.len() - i,
{
    if i < chars.len() && !stops.contains(chars[i]) {
        lemma_text_end(chars, i + 1, stops);
    }
}

/// Where `digits_end` points: behind the digits that start at `i`.
pub proof fn lemma_digits_end(chars: Seq<char>, i: int)
    requires
        0 <= i <= chars.len(),
    ensures
        i <= digits_end(chars, i) <= chars.len(),
        forall|k: int| i <= k < digits_end(chars, i) ==> is_digit(chars[k]),
        digits_end(chars, i) < chars.len() ==> !is_digit(chars[digits_end(chars, i)]),
    decreases chars.len() - i,
{
    if i < chars.len() && is_digit(chars[i]) {
        lemma_digits_end(chars, i + 1);
    }
}

/// Where `closing_quote` points: at a `"` at or behind `i`.
pub proof fn lemma_closing_quote(chars: Seq<char>, i: int)
    requires
        0 <= i,
    ensures
        closing_quote(chars, i) matches Some(j) ==> i <= j < chars.len() && chars[j] == '"',
    decreases chars.len() - i,
{
    if i < chars.len() && chars[i] != '"' {
        if chars[i] == '\\' && i + 1 < chars.len() {
            lemma_closing_quote(chars, i + 2);
        } else {
            lemma_closing_quote(chars, i + 1);
        }
    }
}

/// The unquoted text at `i`.
pub open spec fn scan_text(chars: Seq<char>, i: int, stops: Seq<char>) -> Scan<TextContentView> {
    let end = text_end(chars, i, stops);
    Scan { value: TextContentView { str: chars.subrange(i, end), quoted: false }, next: end }
}

/// The quoted text whose opening `"` is at `i`, or the message for a quote that is
/// not closed. The content is what stands between the quotes, as written.
pub open spec fn scan_quoted(chars: Seq<char>, i: int) -> Result<Scan<TextContentView>, Seq<char>> {
    match closing_quote(chars, i + 1) {
        Some(j) => Ok(
            Scan {
                value: TextContentView { str: chars.subrange(i + 1, j), quoted: true },
                next: j + 1,
            },
        ),
        None => Err(missmatched_quotes_message(i)),
    }
}

/// The integer whose digits start at `i`, or the message for a literal that has no
/// digit or does not fit.
pub open spec fn scan_int(chars: Seq<char>, i: int) -> Result<Scan<i32>, Seq<char>> {
    let end = digits_end(chars, i);
    let literal = chars.subrange(i, end);
    if literal.len() > 0 && digits_value(literal) <= i32::MAX {
        Ok(Scan { value: digits_value(literal) as i32, next: end })
    } else {
        Err(integer_is_too_big_message(literal))
    }
}

/// The bracket token at `i`, where a character other than `]` stands.
pub open spec fn scan_bracket_token(chars: Seq<char>, i: int) -> Result<
    Scan<BracketTokenView>,
    Seq<char>,
> {
    let c = chars[i];
    if c == ',' {
        Ok(Scan { value: BracketTokenView::Comma, next: i + 1 })
    } else if c == ':' {
        Ok(Scan { value: BracketTokenView::Colon, next: i + 1 })
    } else if is_digit(c) {
        match scan_int(chars, i) {
            Ok(n) => Ok(Scan { value: BracketTokenView::Int(n.value), next: n.next }),
            Err(message) => Err(message),
        }
    } else if c == '-' {
        match scan_int(chars, i + 1) {
            Ok(n) => Ok(Scan { value: BracketTokenView::Int((-n.value) as i32), next: n.next }),
            Err(message) => Err(message),
        }
    } else if c == '"' {
        match scan_quoted(chars, i) {
            Ok(text) => Ok(Scan { value: BracketTokenView::Text(text.value), next: text.next }),
            Err(message) => Err(message),
        }
    } else {
        let text = scan_text(chars, i, bracket_text_stops());
        Ok(Scan { value: BracketTokenView::Text(text.value), next: text.next })
    }
}

/// A bracket token is not empty: the scan goes on behind `i`.
pub proof fn lemma_scan_bracket_token(chars: Seq<char>, i: int)
    requires
        0 <= i < chars.len(),
        chars[i] != ']',
    ensures
        scan_bracket_token(chars, i) matches Ok(token) ==> i < token.next <= chars.len(),
{
    lemma_digits_end(chars, i);
    lemma_digits_end(chars, i + 1);
    lemma_closing_quote(chars, i + 1);
    lemma_text_end(chars, i, bracket_text_stops());
    if chars[i] != ',' && chars[i] != ':' && !is_digit(chars[i]) && chars[i] != '-' && chars[i]
        != '"' {
        assert(!bracket_text_stops().contains(chars[i]));
    }
}

/// The tokens from `i` to the closing `]`, and the position after it, for a bracket
/// expression whose `[` is at `open`; or the message for the first thing that is wrong.
pub open spec fn scan_bracket(chars: Seq<char>, open: int, i: int) -> Result<
    Scan<Seq<BracketTokenView>>,
    Seq<char>,
>
    decreases chars.len() - i,
{
    if i < 0 || i >= chars.len() {
        Err(missmatched_brackets_message(open))
    } else if chars[i] == ']' {
        Ok(Scan { value: Seq::empty(), next: i + 1 })
    } else {
        match scan_bracket_token(chars, i) {
            Err(message) => Err(message),
            Ok(token) => {
                proof {
                    lemma_scan_bracket_token(chars, i);
                }
                match scan_bracket(chars, open, token.next) {
                    Err(message) => Err(message),
                    Ok(rest) => Ok(
                        Scan { value: seq![token.value] + rest.value, next: rest.next },
                    ),
                }
            },
        }
    }
}

/// The token at `i`.
pub open spec fn scan_token(chars: Seq<char>, i: int) -> Result<Scan<TokenView>, Seq<char>> {
    let c = chars[i];
    if c == '.' {
        Ok(Scan { value: TokenView::Dot, next: i + 1 })
    } else if c == ':' {
        Ok(Scan { value: TokenView::Colon, next: i + 1 })
    } else if c == '$' {
        Ok(Scan { value: TokenView::Dollar, next: i + 1 })
    } else if c == '[' {
        match scan_bracket(chars, i, i + 1) {
            Ok(tokens) => Ok(Scan { value: TokenView::BracketExpr(tokens.value), next: tokens.next }),
            Err(message) => Err(message),
        }
    } else if c == '"' {
        match scan_quoted(chars, i) {
            Ok(text) => Ok(Scan { value: TokenView::Text(text.value), next: text.next }),
            Err(message) => Err(message),
        }
    } else {
        let text = scan_text(chars, i, text_stops());
        Ok(Scan { value: TokenView::Text(text.value), next: text.next })
    }
}

/// A bracket expression ends behind where its scan started.
pub proof fn lemma_scan_bracket(chars: Seq<char>, open: int, i: int)
    requires
        0 <= i,
    ensures
        scan_bracket(chars, open, i) matches Ok(tokens) ==> i < tokens.next <= chars.len(),
    decreases chars.len() - i,
{
    if i < chars.len() && chars[i] != ']' {
        lemma_scan_bracket_token(chars, i);
        if let Ok(token) = scan_bracket_token(chars, i) {
            lemma_scan_bracket(chars, open, token.next);
        }
    }
}

/// A token is not empty: the scan goes on behind `i`.
pub proof fn lemma_scan_token(chars: Seq<char>, i: int)
    requires
        0 <= i < chars.len(),
    ensures
        scan_token(chars, i) matches Ok(token) ==> i < token.next <= chars.len(),
{
    lemma_scan_bracket(chars, i, i + 1);
    lemma_closing_quote(chars, i + 1);
    lemma_text_end(chars, i, text_stops());
    let c = chars[i];
    if c != '.' && c != ':' && c != '$' && c != '[' && c != '"' {
        assert(!text_stops().contains(c));
    }
}

/// The tokens of `chars` from `i` on, or the message for the first thing that is wrong.
pub open spec fn scan_tokens(chars: Seq<char>, i: int) -> Result<Seq<TokenView>, Seq<char>>
    decreases chars.len() - i,
{
    if i < 0 || i >= chars.len() {
        Ok(Seq::empty())
    } else {
        match scan_token(chars, i) {
            Err(message) => Err(message),
            Ok(token) => {
                proof {
                    lemma_scan_token(chars, i);
                }
                match scan_tokens(chars, token.next) {
                    Err(message) => Err(message),
                    Ok(rest) => Ok(seq![token.value] + rest),
                }
            },
        }
    }
}

/// The tokens of a pattern, or the message for the first thing that is wrong in it.
pub open spec fn tokens_of(pattern: Seq<char>) -> Result<Seq<TokenView>, Seq<char>> {
    scan_tokens(pattern, 0)
}

/// `rest` with `front` before its tokens.
pub open spec fn bracket_after(
    front: Seq<BracketTokenView>,
    rest: Result<Scan<Seq<BracketTokenView>>, Seq<char>>,
) -> Result<Scan<Seq<BracketTokenView>>, Seq<char>> {
    match rest {
        Ok(scan) => Ok(Scan { value: front + scan.value, next: scan.next }),
        Err(message) => Err(message),
    }
}

/// `rest` with `front` before its tokens.
pub open spec fn tokens_after(front: Seq<TokenView>, rest: Result<Seq<TokenView>, Seq<char>>) -> Result<
    Seq<TokenView>,
    Seq<char>,
> {
    match rest {
        Ok(tokens) => Ok(front + tokens),
        Err(message) => Err(message),
    }
}

/// Whether `c` is one of `chars`.
fn contains_char(chars: &[char], c: char) -> (r: bool)
    ensures
        r == chars@.contains(c),
{
    let mut i: usize = 0;
    while i < chars.len()
        invariant
            i <= chars.len(),
            forall|k: int| 0 <= k < i ==> chars@[k] != c,
        decreases chars.len() - i,
    {
        if chars[i] == c {
            assert(chars@[i as int] == c);
            return true;
        }
        i += 1;
    }
    false
}

/// Whether `c` is an ASCII decimal digit.
fn digit(c: char) -> (r: bool)
    ensures
        r == is_digit(c),
{
    '0' <= c && c <= '9'
}

/// The string of the characters of `chars` from `from` up to `to`.
fn substring(chars: &Vec<char>, from: usize, to: usize) -> (r: String)
    requires
        from <= to <= chars.len(),
    ensures
        r@ == chars@.subrange(from as int, to as int),
{
    chars_to_string(slice_subrange(chars.as_slice(), from, to))
}

/// Reads the quoted text whose opening `"` is at `*start_i` and moves `*start_i`
/// behind the closing `"`. Without a closing `"` the error names the position of the
/// opening one, and `*start_i` is left behind it.
pub fn parse_quoted(chars: &Vec<char>, start_i: &mut usize) -> (r: Result<TextContent, ParsingError>)
    requires
        *old(start_i) < usize::MAX,
    ensures
        match scan_quoted(chars@, *old(start_i) as int) {
            Ok(text) => r is Ok && r->Ok_0@ == text.value && *final(start_i) == text.next,
            Err(message) => r is Err && r->Err_0@ == message && *final(start_i) == *old(start_i)
                + 1,
        },
{
    let open = *start_i;
    *start_i = open + 1;
    let mut i = open + 1;
    while i < chars.len()
        invariant
            open + 1 <= i,
            open == *old(start_i),
            *start_i == open + 1,
            closing_quote(chars@, open + 1) == closing_quote(chars@, i as int),
        decreases chars.len() - i,
    {
        if chars[i] == '"' {
            proof {
                lemma_closing_quote(chars@, open + 1);
            }
            let str = substring(chars, open + 1, i);
            *start_i = i + 1;
            return Ok(TextContent { str, quoted: true });
        }
        if chars[i] == '\\' && i + 1 < chars.len() {
            i += 2;
        } else {
            i += 1;
        }
    }
    Err(ParsingError::missmatched_quotes(open))
}

/// Reads the unquoted text at `*start_i`, up to the first character of `stop_chars`
/// or to the end, and moves `*start_i` there.
pub fn parse_text(chars: &Vec<char>, start_i: &mut usize, stop_chars: &[char]) -> (r: Result<
    TextContent,
    ParsingError,
>)
    requires
        *old(start_i) <= chars.len(),
    ensures
        r is Ok,
        r->Ok_0@ == scan_text(chars@, *old(start_i) as int, stop_chars@).value,
        *final(start_i) == scan_text(chars@, *old(start_i) as int, stop_chars@).next,
{
    let start = *start_i;
    let mut i = start;
    while i < chars.len() && !contains_char(stop_chars, chars[i])
        invariant
            start <= i <= chars.len(),
            text_end(chars@, start as int, stop_chars@) == text_end(chars@, i as int, stop_chars@),
        decreases chars.len() - i,
    {
        i += 1;
    }
    let str = substring(chars, start, i);
    *start_i = i;
    Ok(TextContent { str, quoted: false })
}

/// Reads the run of digits at `*start_i` as an integer and moves `*start_i` behind it.
/// A run that is empty, or whose value does not fit, gives an error that names it.
pub fn parse_int(chars: &Vec<char>, start_i: &mut usize) -> (r: Result<i32, ParsingError>)
    requires
        *old(start_i) <= chars.len(),
    ensures
        *final(start_i) == digits_end(chars@, *old(start_i) as int),
        match scan_int(chars@, *old(start_i) as int) {
            Ok(n) => r == Ok::<i32, ParsingError>(n.value),
            Err(message) => r is Err && r->Err_0@ == message,
        },
{
    let start = *start_i;
    let mut i = start;
    let mut value: u64 = 0;
    let mut fits = true;
    assert(chars@.subrange(start as int, start as int).len() == 0);
    while i < chars.len() && digit(chars[i])
        invariant
            start <= i <= chars.len(),
            digits_end(chars@, start as int) == digits_end(chars@, i as int),
            fits ==> value == digits_value(chars@.subrange(start as int, i as int)) && value
                <= i32::MAX,
            !fits ==> digits_value(chars@.subrange(start as int, i as int)) > i32::MAX,
        decreases chars.len() - i,
    {
        proof {
            let longer = chars@.subrange(start as int, i as int + 1);
            assert(longer.drop_last() =~= chars@.subrange(start as int, i as int));
            assert(longer.last() == chars@[i as int]);
        }
        if fits {
            let d = (chars[i] as u32 - '0' as u32) as u64;
            assert(d == digit_value(chars@[i as int]));
            value = value * 10 + d;
            if value > i32::MAX as u64 {
                fits = false;
            }
        }
        i += 1;
    }
    *start_i = i;
    if i > start && fits {
        Ok(value as i32)
    } else {
        let number_str = substring(chars, start, i);
        Err(ParsingError::integer_is_too_big(number_str.as_str()))
    }
}

/// Reads the bracket expression whose `[` is at `*start_i` and moves `*start_i` behind
/// its `]`. On an error `*start_i` stays where it was; without a closing `]` the error
/// names the position of the `[`.
pub fn tokenize_inside_bracket(chars: &Vec<char>, start_i: &mut usize) -> (r: Result<
    Vec<BracketToken>,
    ParsingError,
>)
    requires
        *old(start_i) < usize::MAX,
    ensures
        match scan_bracket(chars@, *old(start_i) as int, *old(start_i) + 1) {
            Ok(tokens) => r is Ok && r->Ok_0.deep_view() == tokens.value && *final(start_i)
                == tokens.next,
            Err(message) => r is Err && r->Err_0@ == message && *final(start_i) == *old(start_i),
        },
{
    let mut tokens: Vec<BracketToken> = Vec::new();
    let open = *start_i;
    let mut i = open + 1;
    let ghost whole = scan_bracket(chars@, open as int, open + 1);
    assert(tokens.deep_view() =~= Seq::empty());
    assert(bracket_after(Seq::empty(), whole) == whole) by {
        if let Ok(scan) = whole {
            assert(Seq::<BracketTokenView>::empty() + scan.value =~= scan.value);
        }
    }
    while i < chars.len()
        invariant
            open + 1 <= i,
            open == *old(start_i),
            *start_i == open,
            whole == scan_bracket(chars@, open as int, open + 1),
            whole == bracket_after(tokens.deep_view(), scan_bracket(chars@, open as int, i as int)),
        decreases chars.len() - i,
    {
        let c = chars[i];
        let ghost at = i as int;
        let ghost front = tokens.deep_view();
        proof {
            if c != ']' {
                lemma_scan_bracket_token(chars@, at);
            }
        }
        let token = if c == ']' {
            *start_i = i + 1;
            proof {
                assert(front + Seq::<BracketTokenView>::empty() =~= front);
            }
            return Ok(tokens);
        } else if c == ',' {
            i += 1;
            BracketToken::Comma
        } else if c == ':' {
            i += 1;
            BracketToken::Colon
        } else if digit(c) {
            match parse_int(chars, &mut i) {
                Ok(n) => BracketToken::Int(n),
                Err(e) => {
                    assert(whole is Err && whole->Err_0 == e@);
                    return Err(e);
                },
            }
        } else if c == '-' {
            i += 1;
            match parse_int(chars, &mut i) {
                Ok(n) => BracketToken::Int(-n),
                Err(e) => {
                    assert(whole is Err && whole->Err_0 == e@);
                    return Err(e);
                },
            }
        } else if c == '"' {
            match parse_quoted(chars, &mut i) {
                Ok(text) => BracketToken::Text(text),
                Err(e) => {
                    assert(whole is Err && whole->Err_0 == e@);
                    return Err(e);
                },
            }
        } else {
            let stops = vec![']'];
            assert(stops@ =~= bracket_text_stops());
            match parse_text(chars, &mut i, stops.as_slice()) {
                Ok(text) => BracketToken::Text(text),
                Err(e) => {
                    assert(whole is Err && whole->Err_0 == e@);
                    return Err(e);
                },
            }
        };
        proof {
            let scanned = scan_bracket_token(chars@, at);
            assert(scanned is Ok);
            assert(scanned->Ok_0.value == token@);
            assert(scanned->Ok_0.next == i);
        }
        tokens.push(token);
        proof {
            assert(tokens.deep_view() =~= front.push(token@));
            if let Ok(rest) = scan_bracket(chars@, open as int, i as int) {
                assert(front + (seq![token@] + rest.value) =~= front.push(token@) + rest.value);
            }
        }
    }
    Err(ParsingError::missmatched_brackets(open))
}

/// Cuts a pattern into its tokens.
pub fn tokenize(pattern_str: &str) -> (r: Result<Vec<Token>, ParsingError>)
    ensures
        match tokens_of(pattern_str@) {
            Ok(tokens) => r is Ok && r->Ok_0.deep_view() == tokens,
            Err(message) => r is Err && r->Err_0@ == message,
        },
{
    let chars = str_to_chars(pattern_str);
    tokenize_chars(&chars)
}

/// Cuts the characters of a pattern into tokens.
pub fn tokenize_chars(chars: &Vec<char>) -> (r: Result<Vec<Token>, ParsingError>)
    ensures
        match tokens_of(chars@) {
            Ok(tokens) => r is Ok && r->Ok_0.deep_view() == tokens,
            Err(message) => r is Err && r->Err_0@ == message,
        },
{
    let mut tokens: Vec<Token> = Vec::new();
    let mut i: usize = 0;
    let ghost whole = tokens_of(chars@);
    assert(tokens.deep_view() =~= Seq::empty());
    assert(tokens_after(Seq::empty(), whole) == whole) by {
        if let Ok(all) = whole {
            assert(Seq::<TokenView>::empty() + all =~= all);
        }
    }
    while i < chars.len()
        invariant
            whole == tokens_of(chars@),
            whole == tokens_after(tokens.deep_view(), scan_tokens(chars@, i as int)),
        decreases chars.len() - i,
    {
        let c = chars[i];
        let ghost at = i as int;
        let ghost front = tokens.deep_view();
        proof {
            lemma_scan_token(chars@, at);
        }
        let token = if c == '.' {
            i += 1;
            Token::Dot
        } else if c == ':' {
            i += 1;
            Token::Colon
        } else if c == '$' {
            i += 1;
            Token::Dollar
        } else if c == '[' {
            match tokenize_inside_bracket(chars, &mut i) {
                Ok(bracket_tokens) => Token::BracketExpr(bracket_tokens),
                Err(e) => {
                    assert(whole is Err && whole->Err_0 == e@);
                    return Err(e);
                },
            }
        } else if c == '"' {
            match parse_quoted(chars, &mut i) {
                Ok(text) => Token::Text(text),
                Err(e) => {
                    assert(whole is Err && whole->Err_0 == e@);
                    return Err(e);
                },
            }
        } else {
            let stops = vec!['.', ':', '['];
            assert(stops@ =~= text_stops());
            match parse_text(chars, &mut i, stops.as_slice()) {
                Ok(text) => Token::Text(text),
                Err(e) => {
                    assert(whole is Err && whole->Err_0 == e@);
                    return Err(e);
                },
            }
        };
        proof {
            let scanned = scan_token(chars@, at);
            assert(scanned is Ok);
            assert(scanned->Ok_0.value == token@);
            assert(scanned->Ok_0.next == i);
        }
        tokens.push(token);
        proof {
            assert(tokens.deep_view() =~= front.push(token@));
            if let Ok(rest) = scan_tokens(chars@, i as int) {
                assert(front + (seq![token@] + rest) =~= front.push(token@) + rest);
            }
        }
    }
    assert(tokens.deep_view() + Seq::<TokenView>::empty() =~= tokens.deep_view());
    Ok(tokens)
}

} // verus!
