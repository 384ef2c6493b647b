//! The one error type of the query language.
use crate::text::{chars_to_string, push_decimal, push_signed_decimal, push_str, signed_decimal};
use vstd::prelude::*;

verus! {

/// Why a pattern could not be parsed, as a message for the user.
#[derive(Debug, Eq, PartialEq)]
pub struct ParsingError {
    message: String,
}

impl View for ParsingError {
    type V = Seq<char>;

    /// The message of the error.
    closed spec fn view(&self) -> Seq<char> {
        self.message@
    }
}

impl DeepView for ParsingError {
    type V = Seq<char>;

    open spec fn deep_view(&self) -> Seq<char> {
        self@
    }
}

/// The message for a `[` at `position` that is never closed.
pub open spec fn missmatched_brackets_message(position: int) -> Seq<char> {
    "Invalid pattern: missmatched brackets. Opening [ at position "@ + signed_decimal(position)
        + " had no closing ]"@
}

/// The message for a `"` at `position` that is never closed.
pub open spec fn missmatched_quotes_message(position: int) -> Seq<char> {
    "Invalid pattern: missmatched quotes. Opening \" at position "@ + signed_decimal(position)
        + " had no closing \""@
}

/// The message for an integer literal that is too large.
pub open spec fn integer_is_too_big_message(literal: Seq<char>) -> Seq<char> {
    "Integer is too big: "@ + literal
}

/// The message for more than one `:` outside brackets.
pub open spec fn multiple_colons_message() -> Seq<char> {
    "Found more than one colon. If you want to use a colon as part of a key or value, enclose it in quotes. Example: [\"field:with:colons\"]:\"value:with:colons\""@
}

/// The message for a range that is not one of the accepted forms.
pub open spec fn malformed_range_message() -> Seq<char> {
    "Malformed range. Valid examples: `[1:3]`, `[1:]`, `[:2]`, `[-1:]`."@
}

/// The message for a list that is not integers separated by commas.
pub open spec fn malformed_list_message() -> Seq<char> {
    "Malformed list. Valid example: `[0, 1, 3]`."@
}

/// The message for a negative integer where none is accepted.
pub open spec fn int_negative_message(n: int) -> Seq<char> {
    "Cannot parse int '"@ + signed_decimal(n) + "', cannot be negative"@
}

/// The message for special characters in a value.
pub open spec fn special_chars_in_value_message() -> Seq<char> {
    "Found special characters in value (`[`, `]`, `,`, or `.`). If you want to match these characters, enclose the value in quotes."@
}

/// The message for a `$` that is not the first token.
pub open spec fn unexpected_dollar_message() -> Seq<char> {
    "Unexpected `$`. The dollar sign is only allowed at the start of the pattern to assert the root position."@
}

/// The message for three dots or more in a row.
pub open spec fn too_many_dots_message() -> Seq<char> {
    "Invalid sequence: `...` is not allowed. Use `.` to separate fields or `..` to match any number of fields."@
}

/// What the error reads as when shown to the user.
pub open spec fn displayed(message: Seq<char>) -> Seq<char> {
    "jgrep: Error parsing patern: "@ + message
}

impl ParsingError {
    /// An error with the given message.
    pub fn new(message: String) -> (r: Self)
        ensures
            r@ == message@,
    {
        ParsingError { message }
    }

    /// The message of this error.
    pub fn message(&self) -> (r: &str)
        ensures
            r@ == self@,
    {
        self.message.as_str()
    }

    /// A `[` at `position` is never closed.
    pub fn missmatched_brackets(position: usize) -> (r: Self)
        ensures
            r@ == missmatched_brackets_message(position as int),
    {
        let mut text: Vec<char> = Vec::new();
        push_str(&mut text, "Invalid pattern: missmatched brackets. Opening [ at position ");
        push_decimal(&mut text, position as u64);
        push_str(&mut text, " had no closing ]");
        Self::new(chars_to_string(text.as_slice()))
    }

    /// A `"` at `position` is never closed.
    pub fn missmatched_quotes(position: usize) -> (r: Self)
        ensures
            r@ == missmatched_quotes_message(position as int),
    {
        let mut text: Vec<char> = Vec::new();
        push_str(&mut text, "Invalid pattern: missmatched quotes. Opening \" at position ");
        push_decimal(&mut text, position as u64);
        push_str(&mut text, " had no closing \"");
        Self::new(chars_to_string(text.as_slice()))
    }

    /// The integer literal `number_str` does not fit.
    pub fn integer_is_too_big(number_str: &str) -> (r: Self)
        ensures
            r@ == integer_is_too_big_message(number_str@),
    {
        let mut text: Vec<char> = Vec::new();
        push_str(&mut text, "Integer is too big: ");
        push_str(&mut text, number_str);
        Self::new(chars_to_string(text.as_slice()))
    }

    /// More than one `:` stands outside brackets and quotes.
    pub fn multiple_colons() -> (r: Self)
        ensures
            r@ == multiple_colons_message(),
    {
        Self::new(
            "Found more than one colon. If you want to use a colon as part of a key or value, enclose it in quotes. Example: [\"field:with:colons\"]:\"value:with:colons\"".to_owned(),
        )
    }

    /// A range is not one of the accepted forms.
    pub fn malformed_range() -> (r: Self)
        ensures
            r@ == malformed_range_message(),
    {
        Self::new("Malformed range. Valid examples: `[1:3]`, `[1:]`, `[:2]`, `[-1:]`.".to_owned())
    }

    /// A list is not integers separated by commas.
    pub fn malformed_list() -> (r: Self)
        ensures
            r@ == malformed_list_message(),
    {
        Self::new("Malformed list. Valid example: `[0, 1, 3]`.".to_owned())
    }

    /// The integer `n` is negative where only a position is accepted.
    pub fn int_negative(n: i32) -> (r: Self)
        ensures
            r@ == int_negative_message(n as int),
    {
        let mut text: Vec<char> = Vec::new();
        push_str(&mut text, "Cannot parse int '");
        push_signed_decimal(&mut text, n as i64);
        push_str(&mut text, "', cannot be negative");
        Self::new(chars_to_string(text.as_slice()))
    }

    /// A value holds special characters outside quotes.
    pub fn special_chars_in_value() -> (r: Self)
        ensures
            r@ == special_chars_in_value_message(),
    {
        Self::new(
            "Found special characters in value (`[`, `]`, `,`, or `.`). If you want to match these characters, enclose the value in quotes.".to_owned(),
        )
    }

    /// A `$` stands elsewhere than in front.
    pub fn unexpected_dollar() -> (r: Self)
        ensures
            r@ == unexpected_dollar_message(),
    {
        Self::new(
            "Unexpected `$`. The dollar sign is only allowed at the start of the pattern to assert the root position.".to_owned(),
        )
    }

    /// Three dots or more stand in a row.
    pub fn too_many_dots() -> (r: Self)
        ensures
            r@ == too_many_dots_message(),
    {
        Self::new(
            "Invalid sequence: `...` is not allowed. Use `.` to separate fields or `..` to match any number of fields.".to_owned(),
        )
    }

    /// The error as it is shown to the user.
    pub fn to_string(&self) -> (r: String)
        ensures
            r@ == displayed(self@),
    {
        let mut text: Vec<char> = Vec::new();
        push_str(&mut text, "jgrep: Error parsing patern: ");
        push_str(&mut text, self.message.as_str());
        chars_to_string(text.as_slice())
    }
}

} // verus!
