//! Lexical categories and the token record.

use vstd::prelude::*;

verus! {

/// The closed set of lexical categories. `String` carries the text between
/// the quotes; `Number` carries the bit pattern of the single-precision value
/// that the literal denotes.
#[derive(Debug, PartialEq)]
pub enum TokenType {
    Var,
    Func,
    LeftParen,
    RightParen,
    LeftBrace,
    RightBrace,
    If,
    Else,
    ElseIf,
    SemiColon,
    Plus,
    Minus,
    Equal,
    EqualEqual,
    Greater,
    GreaterEqual,
    Less,
    LessEqual,
    Bang,
    BangEqual,
    Slash,
    Star,
    Dot,
    Comma,
    Identifier,
    String(String),
    Number(u32),
    And,
    Nil,
    While,
    For,
    Or,
    Return,
    Print,
    False,
    True,
    EOF,
}

/// Mathematical model of a [`TokenType`].
pub ghost enum SpecTokenType {
    Var,
    Func,
    LeftParen,
    RightParen,
    LeftBrace,
    RightBrace,
    If,
    Else,
    ElseIf,
    SemiColon,
    Plus,
    Minus,
    Equal,
    EqualEqual,
    Greater,
    GreaterEqual,
    Less,
    LessEqual,
    Bang,
    BangEqual,
    Slash,
    Star,
    Dot,
    Comma,
    Identifier,
    String(Seq<char>),
    Number(u32),
    And,
    Nil,
    While,
    For,
    Or,
    Return,
    Print,
    False,
    True,
    EOF,
}

impl SpecTokenType {
    /// The category with its payload forgotten.
    pub open spec fn category(self) -> SpecTokenType {
        match self {
            SpecTokenType::String(_) => SpecTokenType::String(Seq::empty()),
            SpecTokenType::Number(_) => SpecTokenType::Number(0),
            other => other,
        }
    }

    /// Category-only equality: two payload-bearing categories match whatever
    /// their payloads are.
    pub open spec fn matches(self, other: SpecTokenType) -> bool {
        self.category() == other.category()
    }
}

impl View for TokenType {
    type V = SpecTokenType;

    open spec fn view(&self) -> SpecTokenType {
        match self {
            TokenType::Var => SpecTokenType::Var,
            TokenType::Func => SpecTokenType::Func,
            TokenType::LeftParen => SpecTokenType::LeftParen,
            TokenType::RightParen => SpecTokenType::RightParen,
            TokenType::LeftBrace => SpecTokenType::LeftBrace,
            TokenType::RightBrace => SpecTokenType::RightBrace,
            TokenType::If => SpecTokenType::If,
            TokenType::Else => SpecTokenType::Else,
            TokenType::ElseIf => SpecTokenType::ElseIf,
            TokenType::SemiColon => SpecTokenType::SemiColon,
            TokenType::Plus => SpecTokenType::Plus,
            TokenType::Minus => SpecTokenType::Minus,
            TokenType::Equal => SpecTokenType::Equal,
            TokenType::EqualEqual => SpecTokenType::EqualEqual,
            TokenType::Greater => SpecTokenType::Greater,
            TokenType::GreaterEqual => SpecTokenType::GreaterEqual,
            TokenType::Less => SpecTokenType::Less,
            TokenType::LessEqual => SpecTokenType::LessEqual,
            TokenType::Bang => SpecTokenType::Bang,
            TokenType::BangEqual => SpecTokenType::BangEqual,
            TokenType::Slash => SpecTokenType::Slash,
            TokenType::Star => SpecTokenType::Star,
            TokenType::Dot => SpecTokenType::Dot,
            TokenType::Comma => SpecTokenType::Comma,
            TokenType::Identifier => SpecTokenType::Identifier,
            TokenType::String(text) => SpecTokenType::String(text@),
            TokenType::Number(bits) => SpecTokenType::Number(*bits),
            TokenType::And => SpecTokenType::And,
            TokenType::Nil => SpecTokenType::Nil,
            TokenType::While => SpecTokenType::While,
            TokenType::For => SpecTokenType::For,
            TokenType::Or => SpecTokenType::Or,
            TokenType::Return => SpecTokenType::Return,
            TokenType::Print => SpecTokenType::Print,
            TokenType::False => SpecTokenType::False,
            TokenType::True => SpecTokenType::True,
            TokenType::EOF => SpecTokenType::EOF,
        }
    }
}

impl Clone for TokenType {
    fn clone(&self) -> (copy: Self)
        ensures
            copy@ == self@,
    {
        match self {
            TokenType::Var => TokenType::Var,
            TokenType::Func => TokenType::Func,
            TokenType::LeftParen => TokenType::LeftParen,
            TokenType::RightParen => TokenType::RightParen,
            TokenType::LeftBrace => TokenType::LeftBrace,
            TokenType::RightBrace => TokenType::RightBrace,
            TokenType::If => TokenType::If,
            TokenType::Else => TokenType::Else,
            TokenType::ElseIf => TokenType::ElseIf,
            TokenType::SemiColon => TokenType::SemiColon,
            TokenType::Plus => TokenType::Plus,
            TokenType::Minus => TokenType::Minus,
            TokenType::Equal => TokenType::Equal,
            TokenType::EqualEqual => TokenType::EqualEqual,
            TokenType::Greater => TokenType::Greater,
            TokenType::GreaterEqual => TokenType::GreaterEqual,
            TokenType::Less => TokenType::Less,
            TokenType::LessEqual => TokenType::LessEqual,
            TokenType::Bang => TokenType::Bang,
            TokenType::BangEqual => TokenType::BangEqual,
            TokenType::Slash => TokenType::Slash,
            TokenType::Star => TokenType::Star,
            TokenType::Dot => TokenType::Dot,
            TokenType::Comma => TokenType::Comma,
            TokenType::Identifier => TokenType::Identifier,
            TokenType::String(text) => TokenType::String(text.clone()),
            TokenType::Number(bits) => TokenType::Number(*bits),
            TokenType::And => TokenType::And,
            TokenType::Nil => TokenType::Nil,
            TokenType::While => TokenType::While,
            TokenType::For => TokenType::For,
            TokenType::Or => TokenType::Or,
            TokenType::Return => TokenType::Return,
            TokenType::Print => TokenType::Print,
            TokenType::False => TokenType::False,
            TokenType::True => TokenType::True,
            TokenType::EOF => TokenType::EOF,
        }
    }
}

impl TokenType {
    /// Category-only comparison, as the parser uses it: the payload of a
    /// string or number is ignored.
    pub fn matches(&self, other: &TokenType) -> (same: bool)
        ensures
            same == self@.matches(other@),
    {
        match (self, other) {
            (TokenType::Var, TokenType::Var) => true,
            (TokenType::Func, TokenType::Func) => true,
            (TokenType::LeftParen, TokenType::LeftParen) => true,
            (TokenType::RightParen, TokenType::RightParen) => true,
            (TokenType::LeftBrace, TokenType::LeftBrace) => true,
            (TokenType::RightBrace, TokenType::RightBrace) => true,
            (TokenType::If, TokenType::If) => true,
            (TokenType::Else, TokenType::Else) => true,
            (TokenType::ElseIf, TokenType::ElseIf) => true,
            (TokenType::SemiColon, TokenType::SemiColon) => true,
            (TokenType::Plus, TokenType::Plus) => true,
            (TokenType::Minus, TokenType::Minus) => true,
            (TokenType::Equal, TokenType::Equal) => true,
            (TokenType::EqualEqual, TokenType::EqualEqual) => true,
            (TokenType::Greater, TokenType::Greater) => true,
            (TokenType::GreaterEqual, TokenType::GreaterEqual) => true,
            (TokenType::Less, TokenType::Less) => true,
            (TokenType::LessEqual, TokenType::LessEqual) => true,
            (TokenType::Bang, TokenType::Bang) => true,
            (TokenType::BangEqual, TokenType::BangEqual) => true,
            (TokenType::Slash, TokenType::Slash) => true,
            (TokenType::Star, TokenType::Star) => true,
            (TokenType::Dot, TokenType::Dot) => true,
            (TokenType::Comma, TokenType::Comma) => true,
            (TokenType::Identifier, TokenType::Identifier) => true,
            (TokenType::String(_), TokenType::String(_)) => true,
            (TokenType::Number(_), TokenType::Number(_)) => true,
            (TokenType::And, TokenType::And) => true,
            (TokenType::Nil, TokenType::Nil) => true,
            (TokenType::While, TokenType::While) => true,
            (TokenType::For, TokenType::For) => true,
            (TokenType::Or, TokenType::Or) => true,
            (TokenType::Return, TokenType::Return) => true,
            (TokenType::Print, TokenType::Print) => true,
            (TokenType::False, TokenType::False) => true,
            (TokenType::True, TokenType::True) => true,
            (TokenType::EOF, TokenType::EOF) => true,
            _ => false,
        }
    }
}

/// One token: its category, its lexeme, and the 1-based line on which the
/// text that it was scanned from ends. The lexeme is the text that the token
/// was scanned from; for a string it is the text between the quotes.
#[derive(Debug, PartialEq)]
pub struct Token {
    pub token_type: TokenType,
    pub lexeme: String,
    pub line: usize,
}

/// Mathematical model of a [`Token`].
pub ghost struct SpecToken {
    pub token_type: SpecTokenType,
    pub lexeme: Seq<char>,
    pub line: nat,
}

impl View for Token {
    type V = SpecToken;

    open spec fn view(&self) -> SpecToken {
        SpecToken { token_type: self.token_type@, lexeme: self.lexeme@, line: self.line as nat }
    }
}

impl Clone for Token {
    fn clone(&self) -> (copy: Self)
        ensures
            copy@ == self@,
    {
        Token {
            token_type: self.token_type.clone(),
            lexeme: self.lexeme.clone(),
            line: self.line,
        }
    }
}

impl Token {
    pub fn from(token_type: TokenType, lexeme: String, line: usize) -> (token: Self)
        ensures
            token.token_type == token_type,
            token.lexeme == lexeme,
            token.line == line,
    {
        Token { token_type, line, lexeme }
    }

    /// The token's printed form: its lexeme.
    pub fn to_string(&self) -> (text: String)
        ensures
            text@ == self.lexeme@,
    {
        self.lexeme.clone()
    }
}

/// The views of a vector's tokens, in order.
pub open spec fn token_views(tokens: Seq<Token>) -> Seq<SpecToken> {
    tokens.map_values(|token: Token| token@)
}

} // verus!
