//! Printed forms, error records and tokens.

use boof::error::{Error, ERROR_USAGE};
use boof::expr::{Expr, LiteralValue};
use boof::token::{Token, TokenType};

fn op(token_type: TokenType, lexeme: &str) -> Token {
    Token::from(token_type, lexeme.to_string(), 1)
}

fn number(bits: u32) -> Box<Expr> {
    Box::new(Expr::Literal(LiteralValue::Number(bits)))
}

fn texts(items: &[&str]) -> Vec<String> {
    items.iter().map(|item| item.to_string()).collect()
}

#[test]
fn usage_error_has_its_own_code() {
    let error = Error::usage();
    assert_eq!(ERROR_USAGE, 64);
    assert_eq!(error.code, 64);
    assert_eq!(error.message, "Usage: boof [script]");
}

#[test]
fn lexing_error_names_the_line() {
    let error = Error::lexing("Unterminated String".to_string(), 3);
    assert_eq!(error.code, 1);
    assert_eq!(error.message, "[line: 3] Error: Unterminated String");
    assert_eq!(Error::lexing(String::new(), 0).message, "[line: 0] Error: ");
    assert_eq!(Error::lexing("m".to_string(), 10).message, "[line: 10] Error: m");
    assert_eq!(Error::lexing("m".to_string(), 4096).message, "[line: 4096] Error: m");
    assert_eq!(
        Error::lexing("m".to_string(), usize::MAX).message,
        format!("[line: {}] Error: m", usize::MAX)
    );
}

#[test]
fn parsing_error_carries_no_line() {
    let error = Error::parsing("Expected Expression".to_string());
    assert_eq!(error.code, 1);
    assert_eq!(error.message, "Error: Expected Expression");
    assert_eq!(Error::parsing(String::new()).message, "Error: ");
}

#[test]
fn token_is_built_from_its_parts() {
    let token = Token::from(TokenType::String("a b".to_string()), "a b".to_string(), 9);
    assert_eq!(token.token_type, TokenType::String("a b".to_string()));
    assert_eq!(token.lexeme, "a b");
    assert_eq!(token.line, 9);
    assert_eq!(token.to_string(), "a b");
    assert_eq!(token.clone(), token);
    assert_eq!(TokenType::Number(5).clone(), TokenType::Number(5));
    assert_eq!(TokenType::ElseIf.clone(), TokenType::ElseIf);
}

#[test]
fn literal_prints_as_its_debug_form() {
    assert_eq!(LiteralValue::True.to_string(""), "True");
    assert_eq!(LiteralValue::False.to_string(""), "False");
    assert_eq!(LiteralValue::Nil.to_string("unused"), "Nil");
    assert_eq!(LiteralValue::Number(0).to_string("1.0"), "Number(1.0)");
    assert_eq!(LiteralValue::String("x".to_string()).to_string(""), "String(\"x\")");
    assert_eq!(LiteralValue::String(String::new()).to_string(""), "String(\"\")");
}

#[test]
fn debug_form_is_wrapped_as_a_string_value() {
    assert_eq!(LiteralValue::quoted("\"x\""), "String(\"x\")");
    assert_eq!(LiteralValue::quoted(""), "String()");
    assert_eq!(LiteralValue::quoted("a b"), "String(a b)");
}

#[test]
fn string_literal_prints_with_escapes() {
    assert_eq!(
        LiteralValue::String("a\"b\\c\nd\te".to_string()).to_string(""),
        "String(\"a\\\"b\\\\c\\nd\\te\")"
    );
    assert_eq!(
        LiteralValue::String("a\"b".to_string()).to_string(""),
        format!("String({:?})", "a\"b")
    );
}

#[test]
fn tree_prints_in_prefix_form() {
    let tree = Expr::Binary(
        Box::new(Expr::Unary(op(TokenType::Minus, "-"), number(1))),
        op(TokenType::Star, "*"),
        Box::new(Expr::Grouping(Box::new(Expr::Binary(
            number(2),
            op(TokenType::Plus, "+"),
            Box::new(Expr::Literal(LiteralValue::String("s".to_string()))),
        )))),
    );
    assert_eq!(tree.numbers(), vec![1, 2]);
    assert_eq!(
        tree.to_string(&texts(&["1.0", "2.5"])).unwrap(),
        "(* (- Number(1.0)) (group (+ Number(2.5) String(\"s\"))))"
    );
}

#[test]
fn numbers_are_listed_from_left_to_right() {
    let tree = Expr::Binary(
        Box::new(Expr::Binary(number(10), op(TokenType::Minus, "-"), number(20))),
        op(TokenType::Less, "<"),
        Box::new(Expr::Binary(
            Box::new(Expr::Literal(LiteralValue::Nil)),
            op(TokenType::EqualEqual, "=="),
            number(30),
        )),
    );
    assert_eq!(tree.numbers(), vec![10, 20, 30]);
    assert_eq!(
        tree.to_string(&texts(&["a", "b", "c"])).unwrap(),
        "(< (- Number(a) Number(b)) (== Nil Number(c)))"
    );
    assert_eq!(Expr::Literal(LiteralValue::True).numbers(), Vec::<u32>::new());
}

#[test]
fn printing_needs_one_written_form_for_each_number() {
    let tree = Expr::Binary(number(1), op(TokenType::Plus, "+"), number(2));
    assert_eq!(tree.to_string(&texts(&[])), None);
    assert_eq!(tree.to_string(&texts(&["1.0"])), None);
    assert_eq!(tree.to_string(&texts(&["1.0", "2.0", "3.0"])), None);
    assert_eq!(
        tree.to_string(&texts(&["1.0", "2.0"])).unwrap(),
        "(+ Number(1.0) Number(2.0))"
    );
    let plain = Expr::Grouping(Box::new(Expr::Literal(LiteralValue::False)));
    assert_eq!(plain.to_string(&texts(&[])).unwrap(), "(group False)");
    assert_eq!(plain.to_string(&texts(&["1.0"])), None);
}

#[test]
fn operator_prints_as_its_lexeme() {
    let tree = Expr::Unary(
        op(TokenType::Bang, "!"),
        Box::new(Expr::Binary(
            Box::new(Expr::Literal(LiteralValue::True)),
            op(TokenType::BangEqual, "!="),
            Box::new(Expr::Literal(LiteralValue::Nil)),
        )),
    );
    assert_eq!(tree.to_string(&texts(&[])).unwrap(), "(! (!= True Nil))");
}
