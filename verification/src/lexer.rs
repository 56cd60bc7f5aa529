//! The scanner: source text to tokens.
//!
//! Scanning is one pass from left to right. The scanner decides where each
//! lexeme ends and what it is; the value of a numeric literal is the one
//! thing it does not compute. When it has read such a literal it stops and
//! hands the literal's text out; the caller answers with the value (or with
//! the reason why the text has none) and the scan goes on.

use vstd::prelude::*;
use vstd::string::StringExecFns;
use vstd::string::StrSliceExecFns;
use crate::error::{lexing_error, push_char, Error, SpecError};
use crate::token::{token_views, SpecToken, SpecTokenType, Token, TokenType};

verus! {

/// `c` is one of the decimal digits `0` to `9`.
pub open spec fn is_digit(c: char) -> bool {
    '0' <= c && c <= '9'
}

/// `c` is an ASCII letter.
pub open spec fn is_alpha(c: char) -> bool {
    ('a' <= c && c <= 'z') || ('A' <= c && c <= 'Z')
}

/// `c` may continue an identifier: a letter, a digit or `_`.
pub open spec fn is_word(c: char) -> bool {
    is_alpha(c) || is_digit(c) || c == '_'
}

/// Number of consecutive digits of `source` that start at `from`.
pub open spec fn digits(source: Seq<char>, from: int) -> nat
    decreases source.len() - from,
{
    if 0 <= from < source.len() && is_digit(source[from]) {
        1 + digits(source, from + 1)
    } else {
        0
    }
}

/// Number of consecutive identifier characters that start at `from`.
pub open spec fn word_chars(source: Seq<char>, from: int) -> nat
    decreases source.len() - from,
{
    if 0 <= from < source.len() && is_word(source[from]) {
        1 + word_chars(source, from + 1)
    } else {
        0
    }
}

/// Number of characters from `from` up to the next line break or the end.
pub open spec fn rest_of_line(source: Seq<char>, from: int) -> nat
    decreases source.len() - from,
{
    if 0 <= from < source.len() && source[from] != '\n' {
        1 + rest_of_line(source, from + 1)
    } else {
        0
    }
}

/// Number of characters from `from` up to the next double quote or the end.
pub open spec fn unquoted(source: Seq<char>, from: int) -> nat
    decreases source.len() - from,
{
    if 0 <= from < source.len() && source[from] != '"' {
        1 + unquoted(source, from + 1)
    } else {
        0
    }
}

/// Number of line breaks among the first `upto` characters.
pub open spec fn newlines(source: Seq<char>, upto: int) -> nat
    decreases upto,
{
    if upto <= 0 || upto > source.len() {
        0
    } else {
        newlines(source, upto - 1) + if source[upto - 1] == '\n' {
            1nat
        } else {
            0nat
        }
    }
}

/// The 1-based line that position `pos` lies on: one more than the number
/// of line breaks before it, those inside string literals too.
pub open spec fn line_at(source: Seq<char>, pos: int) -> nat {
    1 + newlines(source, pos)
}

/// `source` has the character `c` at position `at`.
pub open spec fn has_char(source: Seq<char>, at: int, c: char) -> bool {
    0 <= at < source.len() && source[at] == c
}

/// The keyword table: the category of a word, `Identifier` for any word
/// that is no keyword. The table is case-sensitive.
pub open spec fn keyword(word: Seq<char>) -> SpecTokenType {
    if word == "boof"@ {
        SpecTokenType::Var
    } else if word == "boofer"@ {
        SpecTokenType::Func
    } else if word == "and"@ {
        SpecTokenType::And
    } else if word == "for"@ {
        SpecTokenType::For
    } else if word == "while"@ {
        SpecTokenType::While
    } else if word == "nil"@ {
        SpecTokenType::Nil
    } else if word == "or"@ {
        SpecTokenType::Or
    } else if word == "if"@ {
        SpecTokenType::If
    } else if word == "else"@ {
        SpecTokenType::Else
    } else if word == "elseif"@ {
        SpecTokenType::ElseIf
    } else if word == "return"@ {
        SpecTokenType::Return
    } else if word == "true"@ {
        SpecTokenType::True
    } else if word == "false"@ {
        SpecTokenType::False
    } else if word == "print"@ {
        SpecTokenType::Print
    } else {
        SpecTokenType::Identifier
    }
}

/// The keyword table, word by word.
pub proof fn lemma_keyword_table()
    ensures
        keyword("boof"@) == SpecTokenType::Var,
        keyword("boofer"@) == SpecTokenType::Func,
        keyword("and"@) == SpecTokenType::And,
        keyword("for"@) == SpecTokenType::For,
        keyword("while"@) == SpecTokenType::While,
        keyword("nil"@) == SpecTokenType::Nil,
        keyword("or"@) == SpecTokenType::Or,
        keyword("if"@) == SpecTokenType::If,
        keyword("else"@) == SpecTokenType::Else,
        keyword("elseif"@) == SpecTokenType::ElseIf,
        keyword("return"@) == SpecTokenType::Return,
        keyword("true"@) == SpecTokenType::True,
        keyword("false"@) == SpecTokenType::False,
        keyword("print"@) == SpecTokenType::Print,
{
    reveal_strlit("boof");
    reveal_strlit("boofer");
    reveal_strlit("and");
    reveal_strlit("for");
    reveal_strlit("while");
    reveal_strlit("nil");
    reveal_strlit("or");
    reveal_strlit("if");
    reveal_strlit("else");
    reveal_strlit("elseif");
    reveal_strlit("return");
    reveal_strlit("true");
    reveal_strlit("false");
    reveal_strlit("print");
    assert("boofer"@.len() == 6 && "boof"@.len() == 4);
    assert("elseif"@.len() == 6 && "else"@.len() == 4);
    assert("boofer"@[0] == 'b' && "and"@[0] == 'a' && "for"@[0] == 'f' && "while"@[0] == 'w');
    assert("nil"@[0] == 'n' && "or"@[0] == 'o' && "if"@[0] == 'i' && "else"@[0] == 'e');
    assert("elseif"@[0] == 'e' && "return"@[0] == 'r' && "true"@[0] == 't');
    assert("false"@[1] == 'a' && "for"@[1] == 'o' && "print"@[0] == 'p' && "boof"@[0] == 'b');
}

/// Message for a character that starts no lexeme.
pub open spec fn unexpected_message(c: char) -> Seq<char> {
    "Unexpected Character \""@.push(c).push('"')
}

/// What a stretch of source text is.
pub ghost enum Lexeme {
    /// Blank, line break or comment: no token.
    Skip,
    /// A complete token of this type.
    Token(SpecTokenType),
    /// A numeric literal, whose token waits for the literal's value.
    Numeral,
    /// No lexeme: a lexical error with this message.
    Invalid(Seq<char>),
}

/// A lexeme and the number of characters it takes up.
pub ghost struct Scanned {
    pub lexeme: Lexeme,
    pub len: nat,
}

/// Length of the numeric literal that starts at `start`: one or more digits,
/// then, only if a digit follows it, a `.` and the digits after it.
pub open spec fn numeral_len(source: Seq<char>, start: int) -> nat {
    let whole = 1 + digits(source, start + 1);
    if has_char(source, start + whole, '.') && start + whole + 1 < source.len() && is_digit(
        source[start + whole + 1],
    ) {
        whole + 1 + digits(source, start + whole + 1)
    } else {
        whole
    }
}

/// The lexeme that starts at `start`, which lies inside `source`.
pub open spec fn lexeme_at(source: Seq<char>, start: int) -> Scanned
    recommends
        0 <= start < source.len(),
{
    let c = source[start];
    let paired = has_char(source, start + 1, '=');
    if c == '(' {
        Scanned { lexeme: Lexeme::Token(SpecTokenType::LeftParen), len: 1 }
    } else if c == ')' {
        Scanned { lexeme: Lexeme::Token(SpecTokenType::RightParen), len: 1 }
    } else if c == '{' {
        Scanned { lexeme: Lexeme::Token(SpecTokenType::LeftBrace), len: 1 }
    } else if c == '}' {
        Scanned { lexeme: Lexeme::Token(SpecTokenType::RightBrace), len: 1 }
    } else if c == ';' {
        Scanned { lexeme: Lexeme::Token(SpecTokenType::SemiColon), len: 1 }
    } else if c == '+' {
        Scanned { lexeme: Lexeme::Token(SpecTokenType::Plus), len: 1 }
    } else if c == '-' {
        Scanned { lexeme: Lexeme::Token(SpecTokenType::Minus), len: 1 }
    } else if c == '*' {
        Scanned { lexeme: Lexeme::Token(SpecTokenType::Star), len: 1 }
    } else if c == '.' {
        Scanned { lexeme: Lexeme::Token(SpecTokenType::Dot), len: 1 }
    } else if c == ',' {
        Scanned { lexeme: Lexeme::Token(SpecTokenType::Comma), len: 1 }
    } else if c == '!' {
        if paired {
            Scanned { lexeme: Lexeme::Token(SpecTokenType::BangEqual), len: 2 }
        } else {
            Scanned { lexeme: Lexeme::Token(SpecTokenType::Bang), len: 1 }
        }
    } else if c == '=' {
        if paired {
            Scanned { lexeme: Lexeme::Token(SpecTokenType::EqualEqual), len: 2 }
        } else {
            Scanned { lexeme: Lexeme::Token(SpecTokenType::Equal), len: 1 }
        }
    } else if c == '>' {
        if paired {
            Scanned { lexeme: Lexeme::Token(SpecTokenType::GreaterEqual), len: 2 }
        } else {
            Scanned { lexeme: Lexeme::Token(SpecTokenType::Greater), len: 1 }
        }
    } else if c == '<' {
        if paired {
            Scanned { lexeme: Lexeme::Token(SpecTokenType::LessEqual), len: 2 }
        } else {
            Scanned { lexeme: Lexeme::Token(SpecTokenType::Less), len: 1 }
        }
    } else if c == '/' {
        if has_char(source, start + 1, '/') {
            Scanned { lexeme: Lexeme::Skip, len: 2 + rest_of_line(source, start + 2) }
        } else {
            Scanned { lexeme: Lexeme::Token(SpecTokenType::Slash), len: 1 }
        }
    } else if c == ' ' || c == '\r' || c == '\t' || c == '\n' {
        Scanned { lexeme: Lexeme::Skip, len: 1 }
    } else if c == '"' {
        let inner = unquoted(source, start + 1);
        if start + 1 + inner >= source.len() {
            Scanned { lexeme: Lexeme::Invalid("Unterminated String"@), len: 1 + inner }
        } else {
            Scanned {
                lexeme: Lexeme::Token(
                    SpecTokenType::String(source.subrange(start + 1, start + 1 + inner)),
                ),
                len: inner + 2,
            }
        }
    } else if is_digit(c) {
        Scanned { lexeme: Lexeme::Numeral, len: numeral_len(source, start) }
    } else if is_alpha(c) || c == '_' {
        let len = 1 + word_chars(source, start + 1);
        Scanned {
            lexeme: Lexeme::Token(keyword(source.subrange(start, start + len))),
            len,
        }
    } else {
        Scanned { lexeme: Lexeme::Invalid(unexpected_message(c)), len: 1 }
    }
}

/// Number of characters of `source` at and after `pos`.
pub open spec fn remaining(source: Seq<char>, pos: int) -> nat {
    if 0 <= pos <= source.len() {
        (source.len() - pos) as nat
    } else {
        0
    }
}

/// The lexeme text of a token of type `token_type` that was scanned from
/// `source[start..end]`: the text that was scanned, and for a string the
/// text strictly between its quotes.
pub open spec fn lexeme_text(
    source: Seq<char>,
    start: int,
    end: int,
    token_type: SpecTokenType,
) -> Seq<char> {
    match token_type {
        SpecTokenType::String(text) => text,
        _ => source.subrange(start, end),
    }
}

/// The token of type `token_type` that was scanned from `source[start..end]`.
/// Its line is the line on which the scanned text ends.
pub open spec fn token_at(
    source: Seq<char>,
    start: int,
    end: int,
    token_type: SpecTokenType,
) -> SpecToken {
    SpecToken {
        token_type,
        lexeme: lexeme_text(source, start, end, token_type),
        line: line_at(source, end),
    }
}

/// The terminal token that closes every token sequence.
pub open spec fn end_token(source: Seq<char>) -> SpecToken {
    SpecToken {
        token_type: SpecTokenType::EOF,
        lexeme: "\0"@,
        line: line_at(source, source.len() as int),
    }
}

/// Why a run of the scanner stopped.
pub ghost enum Stop {
    /// The input is exhausted; the terminal token has been added.
    End,
    /// The numeric literal `source[start..end]` waits for its value.
    Numeral { start: int, end: int },
    /// A lexical error.
    Invalid(SpecError),
}

/// One uninterrupted run of the scanner: the tokens it adds and why it stops.
pub ghost struct Run {
    pub tokens: Seq<SpecToken>,
    pub stop: Stop,
}

/// The run that starts at `pos`: it goes on until the first numeric literal,
/// the first lexical error, or the end of the input.
pub open spec fn scan_from(source: Seq<char>, pos: int) -> Run
    decreases remaining(source, pos),
{
    if pos < 0 || pos >= source.len() {
        Run { tokens: seq![end_token(source)], stop: Stop::End }
    } else {
        let found = lexeme_at(source, pos);
        let end = pos + found.len;
        match found.lexeme {
            Lexeme::Skip => scan_from(source, end),
            Lexeme::Token(token_type) => {
                let rest = scan_from(source, end);
                Run {
                    tokens: seq![token_at(source, pos, end, token_type)] + rest.tokens,
                    stop: rest.stop,
                }
            },
            Lexeme::Numeral => Run {
                tokens: Seq::empty(),
                stop: Stop::Numeral { start: pos, end },
            },
            Lexeme::Invalid(message) => Run {
                tokens: Seq::empty(),
                stop: Stop::Invalid(lexing_error(message, line_at(source, end))),
            },
        }
    }
}

/// What the caller says of a numeric literal's text.
pub ghost enum Reading {
    /// The bit pattern of the value that the text denotes.
    Value(u32),
    /// The text denotes no value; the message says why.
    Malformed(Seq<char>),
}

/// The complete token sequence of `source` from `pos` on, where `read` gives
/// the reading of every numeric literal: the tokens in source order and the
/// terminal token, or the first lexical error.
pub open spec fn lex_from(
    source: Seq<char>,
    pos: int,
    read: spec_fn(Seq<char>) -> Reading,
) -> Result<Seq<SpecToken>, SpecError>
    decreases remaining(source, pos),
{
    if pos < 0 || pos >= source.len() {
        Ok(seq![end_token(source)])
    } else {
        let found = lexeme_at(source, pos);
        let end = pos + found.len;
        match found.lexeme {
            Lexeme::Skip => lex_from(source, end, read),
            Lexeme::Token(token_type) => match lex_from(source, end, read) {
                Ok(rest) => Ok(seq![token_at(source, pos, end, token_type)] + rest),
                Err(error) => Err(error),
            },
            Lexeme::Numeral => match read(source.subrange(pos, end)) {
                Reading::Value(bits) => match lex_from(source, end, read) {
                    Ok(rest) => Ok(
                        seq![token_at(source, pos, end, SpecTokenType::Number(bits))] + rest,
                    ),
                    Err(error) => Err(error),
                },
                Reading::Malformed(message) => Err(
                    lexing_error(message, line_at(source, end)),
                ),
            },
            Lexeme::Invalid(message) => Err(lexing_error(message, line_at(source, end))),
        }
    }
}

/// The token sequence of a whole source text under the readings `read`.
pub open spec fn lex(source: Seq<char>, read: spec_fn(Seq<char>) -> Reading) -> Result<
    Seq<SpecToken>,
    SpecError,
> {
    lex_from(source, 0, read)
}


/// `newlines` counts at most one line break per character.
pub proof fn lemma_newlines_bound(source: Seq<char>, upto: int)
    requires
        0 <= upto,
    ensures
        newlines(source, upto) <= upto,
    decreases upto,
{
    if upto > 0 {
        lemma_newlines_bound(source, upto - 1);
    }
}

fn digit(c: char) -> (yes: bool)
    ensures
        yes == is_digit(c),
{
    '0' <= c && c <= '9'
}

fn letter(c: char) -> (yes: bool)
    ensures
        yes == is_alpha(c),
{
    ('a' <= c && c <= 'z') || ('A' <= c && c <= 'Z')
}

/// The scanner's state: the source text, the tokens found so far, and three
/// cursors (start of the current lexeme, scan position, current line).
#[derive(Debug)]
pub struct Lexer {
    source: Vec<char>,
    tokens: Vec<Token>,
    start: usize,
    current: usize,
    line: usize,
    pending: bool,
}

/// Mathematical model of a [`Lexer`].
pub ghost struct SpecLexer {
    /// The whole source text.
    pub source: Seq<char>,
    /// The tokens found so far.
    pub tokens: Seq<SpecToken>,
    /// The scan position.
    pub position: int,
    /// Where the numeric literal starts that waits for its value, if one
    /// does; the literal ends at `position`.
    pub pending: Option<int>,
}

/// How a call of [`Lexer::scan`] or [`Lexer::resume`] ends without error.
#[derive(Debug)]
pub enum Scan {
    /// The input is exhausted: all tokens, the terminal token last.
    Finished(Vec<Token>),
    /// A numeric literal was read. The text is the literal; the scanner goes
    /// on when [`Lexer::resume`] is given the literal's value.
    Number(Lexer, String),
}

impl View for Lexer {
    type V = SpecLexer;

    closed spec fn view(&self) -> SpecLexer {
        SpecLexer {
            source: self.source@,
            tokens: token_views(self.tokens@),
            position: self.current as int,
            pending: if self.pending {
                Some(self.start as int)
            } else {
                None
            },
        }
    }
}

impl SpecLexer {
    /// The state of a scanner that has just been given `source`.
    pub open spec fn initial(source: Seq<char>) -> SpecLexer {
        SpecLexer { source, tokens: Seq::empty(), position: 0, pending: None }
    }

    /// The state after the pending literal got the value `bits`.
    pub open spec fn with_number(self, bits: u32) -> SpecLexer {
        SpecLexer {
            tokens: self.tokens.push(
                token_at(
                    self.source,
                    self.pending.unwrap(),
                    self.position,
                    SpecTokenType::Number(bits),
                ),
            ),
            pending: None,
            ..self
        }
    }

    /// `result` is what an uninterrupted run from this state gives: all
    /// tokens at the end of the input, the literal's text and the suspended
    /// scanner at a numeric literal, the error at a lexical error.
    pub open spec fn runs_to(self, result: Result<Scan, Error>) -> bool {
        let run = scan_from(self.source, self.position);
        let tokens = self.tokens + run.tokens;
        match run.stop {
            Stop::End => result matches Ok(Scan::Finished(all)) && token_views(all@) == tokens,
            Stop::Numeral { start, end } => {
                &&& result matches Ok(Scan::Number(lexer, text))
                &&& lexer.wf()
                &&& lexer@ == SpecLexer {
                    source: self.source,
                    tokens,
                    position: end,
                    pending: Some(start),
                }
                &&& text@ == self.source.subrange(start, end)
            },
            Stop::Invalid(error) => result matches Err(e) && e@ == error,
        }
    }
}

impl Lexer {
    spec fn bounds(&self) -> bool {
        &&& self.source.len() < usize::MAX
        &&& self.start <= self.current <= self.source.len()
    }

    /// The scanner's invariant: the cursors lie inside the text, the line
    /// counter agrees with the scan position, and a pending literal is the
    /// lexeme between the start cursor and the scan position.
    pub closed spec fn wf(&self) -> bool {
        &&& self.bounds()
        &&& self.line == line_at(self.source@, self.current as int)
        &&& self.pending ==> {
            &&& self.start < self.source.len()
            &&& lexeme_at(self.source@, self.start as int).lexeme is Numeral
            &&& self.current == self.start + lexeme_at(self.source@, self.start as int).len
        }
    }

    /// A scanner at the start of `source`. The text has fewer than
    /// `usize::MAX` characters, so that every line number fits the counter.
    pub fn from(source: String) -> (lexer: Self)
        requires
            source@.len() < usize::MAX,
        ensures
            lexer.wf(),
            lexer@ == SpecLexer::initial(source@),
    {
        let text = source.as_str();
        let mut chars: Vec<char> = Vec::new();
        for c in it: text.chars()
            invariant
                chars@ == it.seq().take(it.index() as int),
        {
            chars.push(c);
        }
        assert(chars@ == source@);
        assert(token_views(Seq::<Token>::empty()) =~= Seq::<SpecToken>::empty());
        Lexer { source: chars, tokens: Vec::new(), start: 0, current: 0, line: 1, pending: false }
    }

    /// Scans until the input ends, a numeric literal has been read, or a
    /// lexical error is met. Asked again while a literal waits, it hands the
    /// same literal out again.
    pub fn scan(self) -> (result: Result<Scan, Error>)
        requires
            self.wf(),
        ensures
            self@.pending is None ==> self@.runs_to(result),
            self@.pending matches Some(start) ==> {
                &&& result matches Ok(Scan::Number(lexer, text))
                &&& lexer.wf()
                &&& lexer@ == self@
                &&& text@ == self@.source.subrange(start, self@.position)
            },
            forall|read: spec_fn(Seq<char>) -> Reading| #[trigger]
                scan_meaning(result, read) == outcome(self@, read),
    {
        if self.pending {
            let text = self.text(self.start, self.current);
            Ok(Scan::Number(self, text))
        } else {
            let result = self.run();
            proof {
                assert forall|read: spec_fn(Seq<char>) -> Reading| #[trigger]
                    scan_meaning(result, read) == outcome(self@, read) by {
                    lemma_scan_meaning(self@, result, read);
                }
            }
            result
        }
    }

    /// Takes the value of the pending literal and scans on. `Ok` carries the
    /// bit pattern of the literal's value and adds its token; `Err` carries
    /// the reason why the literal has no value, which becomes a lexical error
    /// on the current line. With no literal pending the value is ignored.
    pub fn resume(self, value: Result<u32, String>) -> (result: Result<Scan, Error>)
        requires
            self.wf(),
        ensures
            self@.pending is None ==> self@.runs_to(result),
            self@.pending is Some ==> match value {
                Ok(bits) => self@.with_number(bits).runs_to(result),
                Err(message) => result matches Err(e) && e@ == lexing_error(
                    message@,
                    line_at(self@.source, self@.position),
                ),
            },
            forall|read: spec_fn(Seq<char>) -> Reading|
                reads_as(read, self@, value) ==> #[trigger] scan_meaning(result, read) == outcome(
                    self@,
                    read,
                ),
    {
        let mut lexer = self;
        if lexer.pending {
            match value {
                Ok(bits) => {
                    lexer.add_token(TokenType::Number(bits));
                    lexer.pending = false;
                },
                Err(message) => {
                    return Err(Error::lexing(message, lexer.line));
                },
            }
        }
        let result = lexer.run();
        proof {
            assert forall|read: spec_fn(Seq<char>) -> Reading|
                reads_as(read, self@, value) implies #[trigger] scan_meaning(result, read)
                == outcome(self@, read) by {
                lemma_scan_meaning(lexer@, result, read);
            }
        }
        result
    }

    fn run(self) -> (result: Result<Scan, Error>)
        requires
            self.wf(),
            !self.pending,
        ensures
            self@.runs_to(result),
    {
        let mut lexer = self;
        let ghost source = lexer.source@;
        let ghost whole = scan_from(source, self.current as int);
        let ghost added: Seq<SpecToken> = Seq::empty();
        while !lexer.is_finished()
            invariant
                lexer.wf(),
                !lexer.pending,
                lexer.source@ == source,
                self@.source == source,
                whole == scan_from(source, self@.position),
                token_views(lexer.tokens@) == self@.tokens + added,
                whole.tokens == added + scan_from(source, lexer.current as int).tokens,
                whole.stop == scan_from(source, lexer.current as int).stop,
            decreases lexer.source.len() - lexer.current,
        {
            lexer.start = lexer.current;
            let ghost found = lexeme_at(source, lexer.current as int);
            let ghost at = lexer.current as int;
            match lexer.scan_token() {
                Err(error) => {
                    return Err(error);
                },
                Ok(()) => {},
            }
            if lexer.pending {
                let text = lexer.text(lexer.start, lexer.current);
                proof {
                    assert(self@.tokens + added + Seq::<SpecToken>::empty() == self@.tokens
                        + added);
                    assert(added + Seq::<SpecToken>::empty() == added);
                }
                return Ok(Scan::Number(lexer, text));
            }
            proof {
                if let Lexeme::Token(token_type) = found.lexeme {
                    let token = token_at(source, at, at + found.len, token_type);
                    let rest = scan_from(source, at + found.len).tokens;
                    assert(added + (seq![token] + rest) == added.push(token) + rest);
                    assert(self@.tokens + added.push(token) == (self@.tokens + added).push(
                        token,
                    ));
                    added = added.push(token);
                }
            }
        }
        let end = Token::from(TokenType::EOF, String::from_str("\0"), lexer.line);
        let mut tokens = lexer.tokens;
        proof {
            assert(end@ == end_token(source));
            assert(token_views(tokens@.push(end)) == token_views(tokens@).push(end@));
            assert(self@.tokens + added + seq![end_token(source)] == (self@.tokens
                + added).push(end_token(source)));
            assert(self@.tokens + (added + seq![end_token(source)]) == self@.tokens + added
                + seq![end_token(source)]);
        }
        tokens.push(end);
        Ok(Scan::Finished(tokens))
    }

    fn scan_token(&mut self) -> (result: Result<(), Error>)
        requires
            old(self).wf(),
            !old(self).pending,
            old(self).start == old(self).current,
            old(self).current < old(self).source.len(),
        ensures
            final(self).source@ == old(self).source@,
            match lexeme_at(old(self).source@, old(self).current as int).lexeme {
                Lexeme::Skip => {
                    &&& result is Ok
                    &&& final(self).wf()
                    &&& !final(self).pending
                    &&& final(self).tokens@ == old(self).tokens@
                },
                Lexeme::Token(token_type) => {
                    &&& result is Ok
                    &&& final(self).wf()
                    &&& !final(self).pending
                    &&& token_views(final(self).tokens@) == token_views(old(self).tokens@).push(
                        token_at(
                            old(self).source@,
                            old(self).current as int,
                            final(self).current as int,
                            token_type,
                        ),
                    )
                },
                Lexeme::Numeral => {
                    &&& result is Ok
                    &&& final(self).wf()
                    &&& final(self).pending
                    &&& final(self).start == old(self).current
                    &&& final(self).tokens@ == old(self).tokens@
                },
                Lexeme::Invalid(message) => {
                    &&& result matches Err(e) && e@ == lexing_error(
                        message,
                        line_at(
                            old(self).source@,
                            old(self).current + lexeme_at(
                                old(self).source@,
                                old(self).current as int,
                            ).len,
                        ),
                    )
                    &&& final(self).tokens@ == old(self).tokens@
                },
            },
            result is Ok ==> final(self).current == old(self).current + lexeme_at(
                old(self).source@,
                old(self).current as int,
            ).len,
    {
        proof {
            lemma_newlines_bound(self.source@, self.current as int);
        }
        let c = self.next();
        match c {
            '(' => Ok(self.add_token(TokenType::LeftParen)),
            ')' => Ok(self.add_token(TokenType::RightParen)),
            '{' => Ok(self.add_token(TokenType::LeftBrace)),
            '}' => Ok(self.add_token(TokenType::RightBrace)),
            ';' => Ok(self.add_token(TokenType::SemiColon)),
            '+' => Ok(self.add_token(TokenType::Plus)),
            '-' => Ok(self.add_token(TokenType::Minus)),
            '*' => Ok(self.add_token(TokenType::Star)),
            '.' => Ok(self.add_token(TokenType::Dot)),
            ',' => Ok(self.add_token(TokenType::Comma)),
            '!' => {
                if self.match_char('=') {
                    Ok(self.add_token(TokenType::BangEqual))
                } else {
                    Ok(self.add_token(TokenType::Bang))
                }
            },
            '=' => {
                if self.match_char('=') {
                    Ok(self.add_token(TokenType::EqualEqual))
                } else {
                    Ok(self.add_token(TokenType::Equal))
                }
            },
            '>' => {
                if self.match_char('=') {
                    Ok(self.add_token(TokenType::GreaterEqual))
                } else {
                    Ok(self.add_token(TokenType::Greater))
                }
            },
            '<' => {
                if self.match_char('=') {
                    Ok(self.add_token(TokenType::LessEqual))
                } else {
                    Ok(self.add_token(TokenType::Less))
                }
            },
            '/' => {
                if self.match_char('/') {
                    while self.peek() != '\n' && !self.is_finished()
                        invariant
                            self.bounds(),
                            self.source@ == old(self).source@,
                            self.tokens@ == old(self).tokens@,
                            self.start == old(self).start,
                            !self.pending,
                            self.line == line_at(self.source@, self.current as int),
                            self.start + 2 <= self.current,
                            self.start + 2 + rest_of_line(self.source@, self.start + 2)
                                == self.current + rest_of_line(
                                self.source@,
                                self.current as int,
                            ),
                        decreases self.source.len() - self.current,
                    {
                        self.next();
                    }
                    Ok(())
                } else {
                    Ok(self.add_token(TokenType::Slash))
                }
            },
            ' ' | '\r' | '\t' => Ok(()),
            '\n' => {
                self.line += 1;
                Ok(())
            },
            '"' => self.process_string(),
            c => {
                if digit(c) {
                    self.process_number();
                    Ok(())
                } else if letter(c) || c == '_' {
                    self.process_identifier();
                    Ok(())
                } else {
                    let mut message = String::from_str("Unexpected Character \"");
                    push_char(&mut message, c);
                    push_char(&mut message, '"');
                    Err(Error::lexing(message, self.line))
                }
            },
        }
    }

    fn process_identifier(&mut self)
        requires
            old(self).bounds(),
            !old(self).pending,
            old(self).current == old(self).start + 1,
            old(self).line == line_at(old(self).source@, old(self).current as int),
            is_alpha(old(self).source@[old(self).start as int]) || old(self).source@[old(
                self,
            ).start as int] == '_',
        ensures
            final(self).wf(),
            !final(self).pending,
            final(self).source@ == old(self).source@,
            final(self).current == old(self).start + 1 + word_chars(
                old(self).source@,
                old(self).start + 1,
            ),
            token_views(final(self).tokens@) == token_views(old(self).tokens@).push(
                token_at(
                    old(self).source@,
                    old(self).start as int,
                    final(self).current as int,
                    keyword(
                        old(self).source@.subrange(
                            old(self).start as int,
                            final(self).current as int,
                        ),
                    ),
                ),
            ),
    {
        while self.word_ahead()
            invariant
                self.bounds(),
                self.source@ == old(self).source@,
                self.tokens@ == old(self).tokens@,
                self.start == old(self).start,
                !self.pending,
                self.line == line_at(self.source@, self.current as int),
                self.start + 1 <= self.current,
                self.start + 1 + word_chars(self.source@, self.start + 1) == self.current
                    + word_chars(self.source@, self.current as int),
            decreases self.source.len() - self.current,
        {
            self.next();
        }
        let token_type = if self.lexeme_is("boof") {
            TokenType::Var
        } else if self.lexeme_is("boofer") {
            TokenType::Func
        } else if self.lexeme_is("and") {
            TokenType::And
        } else if self.lexeme_is("for") {
            TokenType::For
        } else if self.lexeme_is("while") {
            TokenType::While
        } else if self.lexeme_is("nil") {
            TokenType::Nil
        } else if self.lexeme_is("or") {
            TokenType::Or
        } else if self.lexeme_is("if") {
            TokenType::If
        } else if self.lexeme_is("else") {
            TokenType::Else
        } else if self.lexeme_is("elseif") {
            TokenType::ElseIf
        } else if self.lexeme_is("return") {
            TokenType::Return
        } else if self.lexeme_is("true") {
            TokenType::True
        } else if self.lexeme_is("false") {
            TokenType::False
        } else if self.lexeme_is("print") {
            TokenType::Print
        } else {
            TokenType::Identifier
        };
        self.add_token(token_type)
    }

    fn process_number(&mut self)
        requires
            old(self).bounds(),
            !old(self).pending,
            old(self).current == old(self).start + 1,
            old(self).line == line_at(old(self).source@, old(self).current as int),
            is_digit(old(self).source@[old(self).start as int]),
        ensures
            final(self).wf(),
            final(self).pending,
            final(self).source@ == old(self).source@,
            final(self).tokens@ == old(self).tokens@,
            final(self).start == old(self).start,
            final(self).current == old(self).start + numeral_len(
                old(self).source@,
                old(self).start as int,
            ),
    {
        while digit(self.peek())
            invariant
                self.bounds(),
                self.source@ == old(self).source@,
                self.tokens@ == old(self).tokens@,
                self.start == old(self).start,
                !self.pending,
                self.line == line_at(self.source@, self.current as int),
                self.start + 1 <= self.current,
                self.start + 1 + digits(self.source@, self.start + 1) == self.current + digits(
                    self.source@,
                    self.current as int,
                ),
            decreases self.source.len() - self.current,
        {
            self.next();
        }
        if self.peek() == '.' && digit(self.peek_next()) {
            let ghost dot = self.current as int;
            self.next();
            while digit(self.peek())
                invariant
                    self.bounds(),
                    self.source@ == old(self).source@,
                    self.tokens@ == old(self).tokens@,
                    self.start == old(self).start,
                    !self.pending,
                    self.line == line_at(self.source@, self.current as int),
                    dot + 1 <= self.current,
                    dot + 1 + digits(self.source@, dot + 1) == self.current + digits(
                        self.source@,
                        self.current as int,
                    ),
                decreases self.source.len() - self.current,
            {
                self.next();
            }
        }
        self.pending = true;
    }

    fn process_string(&mut self) -> (result: Result<(), Error>)
        requires
            old(self).bounds(),
            !old(self).pending,
            old(self).current == old(self).start + 1,
            old(self).line == line_at(old(self).source@, old(self).current as int),
            old(self).source@[old(self).start as int] == '"',
        ensures
            final(self).source@ == old(self).source@,
            ({
                let source = old(self).source@;
                let start = old(self).start as int;
                let inner = unquoted(source, start + 1);
                if start + 1 + inner >= source.len() {
                    &&& result matches Err(e) && e@ == lexing_error(
                        "Unterminated String"@,
                        line_at(source, start + 1 + inner),
                    )
                    &&& final(self).tokens@ == old(self).tokens@
                } else {
                    &&& result is Ok
                    &&& final(self).wf()
                    &&& !final(self).pending
                    &&& final(self).current == start + inner + 2
                    &&& token_views(final(self).tokens@) == token_views(old(self).tokens@).push(
                        token_at(
                            source,
                            start,
                            start + inner + 2,
                            SpecTokenType::String(source.subrange(start + 1, start + 1 + inner)),
                        ),
                    )
                }
            }),
    {
        while self.peek() != '"' && !self.is_finished()
            invariant
                self.bounds(),
                self.source@ == old(self).source@,
                self.tokens@ == old(self).tokens@,
                self.start == old(self).start,
                !self.pending,
                self.line == line_at(self.source@, self.current as int),
                self.start + 1 <= self.current,
                self.start + 1 + unquoted(self.source@, self.start + 1) == self.current
                    + unquoted(self.source@, self.current as int),
            decreases self.source.len() - self.current,
        {
            proof {
                lemma_newlines_bound(self.source@, self.current as int);
            }
            if self.peek() == '\n' {
                self.line += 1;
            }
            self.next();
        }
        if self.is_finished() {
            return Err(Error::lexing(String::from_str("Unterminated String"), self.line));
        }
        self.next();
        let value = self.text(self.start + 1, self.current - 1);
        self.add_token(TokenType::String(value));
        Ok(())
    }

    fn match_char(&mut self, expected: char) -> (matched: bool)
        requires
            old(self).bounds(),
            expected != '\n',
        ensures
            final(self).bounds(),
            matched == has_char(old(self).source@, old(self).current as int, expected),
            final(self).current == if matched {
                old(self).current + 1
            } else {
                old(self).current as int
            },
            final(self).source@ == old(self).source@,
            final(self).tokens@ == old(self).tokens@,
            final(self).start == old(self).start,
            final(self).line == old(self).line,
            final(self).pending == old(self).pending,
            line_at(final(self).source@, final(self).current as int) == line_at(
                old(self).source@,
                old(self).current as int,
            ),
    {
        if self.is_finished() {
            return false;
        }
        if self.source[self.current] == expected {
            self.current += 1;
            return true;
        }
        false
    }

    fn add_token(&mut self, token_type: TokenType)
        requires
            old(self).bounds(),
            old(self).line == line_at(old(self).source@, old(self).current as int),
            !old(self).pending || old(self).wf(),
        ensures
            final(self).bounds(),
            final(self).source@ == old(self).source@,
            final(self).start == old(self).start,
            final(self).current == old(self).current,
            final(self).line == old(self).line,
            final(self).pending == old(self).pending,
            final(self).wf(),
            token_views(final(self).tokens@) == token_views(old(self).tokens@).push(
                token_at(
                    old(self).source@,
                    old(self).start as int,
                    old(self).current as int,
                    token_type@,
                ),
            ),
    {
        let lexeme = match &token_type {
            TokenType::String(text) => text.clone(),
            _ => self.text(self.start, self.current),
        };
        let token = Token::from(token_type, lexeme, self.line);
        proof {
            assert(token_views(self.tokens@.push(token)) == token_views(self.tokens@).push(
                token@,
            ));
        }
        self.tokens.push(token);
    }

    /// The source text from `from` up to `to`.
    fn text(&self, from: usize, to: usize) -> (text: String)
        requires
            from <= to <= self.source.len(),
        ensures
            text@ == self.source@.subrange(from as int, to as int),
    {
        let mut text = String::new();
        let mut i: usize = from;
        while i < to
            invariant
                from <= i <= to <= self.source.len(),
                text@ == self.source@.subrange(from as int, i as int),
            decreases to - i,
        {
            push_char(&mut text, self.source[i]);
            i += 1;
            assert(self.source@.subrange(from as int, i as int) == self.source@.subrange(
                from as int,
                i - 1,
            ).push(self.source@[i - 1]));
        }
        text
    }

    /// Whether the current lexeme is exactly `word`.
    fn lexeme_is(&self, word: &str) -> (same: bool)
        requires
            self.bounds(),
        ensures
            same == (self.source@.subrange(self.start as int, self.current as int) == word@),
    {
        let ghost lexeme = self.source@.subrange(self.start as int, self.current as int);
        let n = word.unicode_len();
        if self.current - self.start != n {
            return false;
        }
        let mut i: usize = 0;
        while i < n
            invariant
                self.bounds(),
                n == word@.len(),
                self.current - self.start == n,
                i <= n,
                lexeme == self.source@.subrange(self.start as int, self.current as int),
                forall|j: int| 0 <= j < i ==> lexeme[j] == word@[j],
            decreases n - i,
        {
            if self.source[self.start + i] != word.get_char(i) {
                assert(lexeme[i as int] != word@[i as int]);
                return false;
            }
            i += 1;
        }
        assert(lexeme =~= word@);
        true
    }

    fn word_ahead(&self) -> (yes: bool)
        requires
            self.bounds(),
        ensures
            yes == (self.current < self.source.len() && is_word(
                self.source@[self.current as int],
            )),
    {
        let c = self.peek();
        letter(c) || digit(c) || c == '_'
    }

    fn is_finished(&self) -> (finished: bool)
        ensures
            finished == (self.current >= self.source.len()),
    {
        self.current >= self.source.len()
    }

    fn next(&mut self) -> (c: char)
        requires
            old(self).bounds(),
            old(self).current < old(self).source.len(),
        ensures
            final(self).bounds(),
            c == old(self).source@[old(self).current as int],
            final(self).current == old(self).current + 1,
            final(self).source@ == old(self).source@,
            final(self).tokens@ == old(self).tokens@,
            final(self).start == old(self).start,
            final(self).line == old(self).line,
            final(self).pending == old(self).pending,
            c != '\n' ==> line_at(final(self).source@, final(self).current as int) == line_at(
                old(self).source@,
                old(self).current as int,
            ),
            c == '\n' ==> line_at(final(self).source@, final(self).current as int) == line_at(
                old(self).source@,
                old(self).current as int,
            ) + 1,
    {
        let c = self.source[self.current];
        self.current += 1;
        c
    }

    fn peek(&self) -> (c: char)
        requires
            self.bounds(),
        ensures
            c == if self.current < self.source.len() {
                self.source@[self.current as int]
            } else {
                '\0'
            },
    {
        if self.is_finished() {
            return '\0';
        }
        self.source[self.current]
    }

    fn peek_next(&self) -> (c: char)
        requires
            self.bounds(),
        ensures
            c == if self.current + 1 < self.source.len() {
                self.source@[self.current + 1]
            } else {
                '\0'
            },
    {
        if self.current + 1 >= self.source.len() {
            return '\0';
        }
        self.source[self.current + 1]
    }
}

/// `read` reads the literal that waits in `state` as `value` says: as the
/// number, or as malformed with the message. With no literal waiting there
/// is nothing to agree on.
pub open spec fn reads_as(
    read: spec_fn(Seq<char>) -> Reading,
    state: SpecLexer,
    value: Result<u32, String>,
) -> bool {
    state.pending matches Some(start) ==> read(state.source.subrange(start, state.position))
        == match value {
        Ok(bits) => Reading::Value(bits),
        Err(message) => Reading::Malformed(message@),
    }
}

/// `tokens`, then whatever `rest` is: its tokens, or its error.
pub open spec fn prefixed(
    tokens: Seq<SpecToken>,
    rest: Result<Seq<SpecToken>, SpecError>,
) -> Result<Seq<SpecToken>, SpecError> {
    match rest {
        Ok(more) => Ok(tokens + more),
        Err(error) => Err(error),
    }
}

/// The token sequence that a scanner in state `state` is bound for when
/// `read` gives the reading of every numeric literal.
pub open spec fn outcome(
    state: SpecLexer,
    read: spec_fn(Seq<char>) -> Reading,
) -> Result<Seq<SpecToken>, SpecError> {
    match state.pending {
        None => prefixed(state.tokens, lex_from(state.source, state.position, read)),
        Some(start) => match read(state.source.subrange(start, state.position)) {
            Reading::Value(bits) => prefixed(
                state.with_number(bits).tokens,
                lex_from(state.source, state.position, read),
            ),
            Reading::Malformed(message) => Err(
                lexing_error(message, line_at(state.source, state.position)),
            ),
        },
    }
}

/// The token sequence that the result of a scanner call stands for when
/// `read` gives the readings: the tokens, the error, or what the suspended
/// scanner is bound for.
pub open spec fn scan_meaning(
    result: Result<Scan, Error>,
    read: spec_fn(Seq<char>) -> Reading,
) -> Result<Seq<SpecToken>, SpecError> {
    match result {
        Ok(Scan::Finished(tokens)) => Ok(token_views(tokens@)),
        Ok(Scan::Number(lexer, _)) => outcome(lexer@, read),
        Err(error) => Err(error@),
    }
}

/// The token sequence from `pos` on is the tokens of the run that starts
/// there, followed, if the run stops at a numeric literal, by the literal's
/// token and the token sequence after it.
pub proof fn lemma_lex_by_runs(source: Seq<char>, pos: int, read: spec_fn(Seq<char>) -> Reading)
    ensures
        lex_from(source, pos, read) == ({
            let run = scan_from(source, pos);
            match run.stop {
                Stop::End => Ok::<Seq<SpecToken>, SpecError>(run.tokens),
                Stop::Numeral { start, end } => match read(source.subrange(start, end)) {
                    Reading::Value(bits) => prefixed(
                        run.tokens.push(
                            token_at(source, start, end, SpecTokenType::Number(bits)),
                        ),
                        lex_from(source, end, read),
                    ),
                    Reading::Malformed(message) => Err(
                        lexing_error(message, line_at(source, end)),
                    ),
                },
                Stop::Invalid(error) => Err(error),
            }
        }),
    decreases remaining(source, pos),
{
    if 0 <= pos < source.len() {
        let found = lexeme_at(source, pos);
        let end = pos + found.len;
        match found.lexeme {
            Lexeme::Skip => {
                lemma_lex_by_runs(source, end, read);
            },
            Lexeme::Token(token_type) => {
                lemma_lex_by_runs(source, end, read);
                let first = token_at(source, pos, end, token_type);
                let rest = scan_from(source, end);
                match rest.stop {
                    Stop::End => {},
                    Stop::Numeral { start, end: stop } => {
                        if let Reading::Value(bits) = read(source.subrange(start, stop)) {
                            let number = token_at(
                                source,
                                start,
                                stop,
                                SpecTokenType::Number(bits),
                            );
                            assert((seq![first] + rest.tokens).push(number) == seq![first]
                                + rest.tokens.push(number));
                            if let Ok(more) = lex_from(source, stop, read) {
                                assert(seq![first] + (rest.tokens.push(number) + more) == (
                                seq![first] + rest.tokens.push(number)) + more);
                            }
                        }
                    },
                    Stop::Invalid(_) => {},
                }
            },
            Lexeme::Numeral => {
                let number = |bits: u32| token_at(source, pos, end, SpecTokenType::Number(bits));
                assert forall|bits: u32| Seq::<SpecToken>::empty().push(#[trigger] number(bits))
                    == seq![number(bits)] by {}
            },
            Lexeme::Invalid(_) => {},
        }
    }
}

/// A run keeps what the scanner is bound for: the result of a run from a
/// state with no literal pending stands for the same token sequence as the
/// state itself.
pub proof fn lemma_scan_meaning(
    state: SpecLexer,
    result: Result<Scan, Error>,
    read: spec_fn(Seq<char>) -> Reading,
)
    requires
        state.pending is None,
        state.runs_to(result),
    ensures
        scan_meaning(result, read) == outcome(state, read),
{
    lemma_lex_by_runs(state.source, state.position, read);
    let run = scan_from(state.source, state.position);
    match run.stop {
        Stop::Numeral { start, end } => {
            if let Reading::Value(bits) = read(state.source.subrange(start, end)) {
                let number = token_at(state.source, start, end, SpecTokenType::Number(bits));
                if let Ok(more) = lex_from(state.source, end, read) {
                    assert(state.tokens + (run.tokens.push(number) + more) == (state.tokens
                        + run.tokens).push(number) + more);
                }
            }
        },
        _ => {},
    }
}

/// A scanner that has just been given a text is bound for the token
/// sequence of that text.
pub proof fn lemma_initial_outcome(source: Seq<char>, read: spec_fn(Seq<char>) -> Reading)
    ensures
        outcome(SpecLexer::initial(source), read) == lex(source, read),
{
    if let Ok(tokens) = lex(source, read) {
        assert(Seq::<SpecToken>::empty() + tokens == tokens);
    }
}

} // verus!
