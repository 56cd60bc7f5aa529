//! The error record shared by the scanner and the parser.

use vstd::prelude::*;
use vstd::string::StringExecFns;

verus! {

/// Exit code of a wrong command line.
pub const ERROR_USAGE: i32 = 64;

/// A failure: the message to show and the code to leave with.
#[derive(Debug, PartialEq)]
pub struct Error {
    pub code: i32,
    pub message: String,
}

/// Mathematical model of an [`Error`].
pub ghost struct SpecError {
    pub code: int,
    pub message: Seq<char>,
}

impl View for Error {
    type V = SpecError;

    open spec fn view(&self) -> SpecError {
        SpecError { code: self.code as int, message: self.message@ }
    }
}

/// The character that writes the digit `d`.
pub open spec fn digit_char(d: nat) -> char
    recommends
        d < 10,
{
    ((48 + d) as u8) as char
}

/// The decimal numeral of `n`, most significant digit first, without
/// leading zeros.
pub open spec fn decimal(n: nat) -> Seq<char>
    decreases n,
{
    if n < 10 {
        seq![digit_char(n)]
    } else {
        decimal(n / 10).push(digit_char(n % 10))
    }
}

/// Message of a lexical error raised on `line`.
pub open spec fn lexing_message(message: Seq<char>, line: nat) -> Seq<char> {
    "[line: "@ + decimal(line) + "] Error: "@ + message
}

/// Message of a syntax error.
pub open spec fn parsing_message(message: Seq<char>) -> Seq<char> {
    "Error: "@ + message
}

/// Model of the error that [`Error::lexing`] builds.
pub open spec fn lexing_error(message: Seq<char>, line: nat) -> SpecError {
    SpecError { code: 1, message: lexing_message(message, line) }
}

/// Model of the error that [`Error::parsing`] builds.
pub open spec fn parsing_error(message: Seq<char>) -> SpecError {
    SpecError { code: 1, message: parsing_message(message) }
}

/// Appends one character to a string, by `String::push`: the text grows by
/// exactly that character at its end.
#[verifier::external_body]
pub(crate) fn push_char(text: &mut String, c: char)
    ensures
        final(text)@ == old(text)@.push(c),
{
    text.push(c)
}

/// Appends the decimal numeral of `n` to `text`.
pub(crate) fn push_decimal(text: &mut String, n: usize)
    ensures
        final(text)@ == old(text)@ + decimal(n as nat),
    decreases n,
{
    if n >= 10 {
        push_decimal(text, n / 10);
    }
    let digit: u8 = (n % 10) as u8;
    push_char(text, (48u8 + digit) as char);
}

impl Error {
    /// The error of a wrong command line.
    pub fn usage() -> (error: Self)
        ensures
            error.code == ERROR_USAGE,
            error.message@ == "Usage: boof [script]"@,
    {
        Error { code: ERROR_USAGE, message: String::from_str("Usage: boof [script]") }
    }

    /// A lexical error: the message prefixed by the line it was raised on.
    pub fn lexing(message: String, line: usize) -> (error: Self)
        ensures
            error@ == lexing_error(message@, line as nat),
    {
        let mut text = String::from_str("[line: ");
        push_decimal(&mut text, line);
        text.append("] Error: ");
        text.append(message.as_str());
        Error { code: 1, message: text }
    }

    /// A syntax error; it carries no line.
    pub fn parsing(message: String) -> (error: Self)
        ensures
            error@ == parsing_error(message@),
    {
        let mut text = String::from_str("Error: ");
        text.append(message.as_str());
        Error { code: 1, message: text }
    }
}

} // verus!
