//! The parser on token vectors built by hand.

use boof::expr::{Expr, LiteralValue};
use boof::parser::Parser;
use boof::token::{Token, TokenType};

fn token(token_type: TokenType, lexeme: &str) -> Token {
    Token::from(token_type, lexeme.to_string(), 1)
}

fn end() -> Token {
    token(TokenType::EOF, "\0")
}

fn number(value: u32) -> Token {
    token(TokenType::Number(value), "n")
}

fn literal(value: u32) -> Box<Expr> {
    Box::new(Expr::Literal(LiteralValue::Number(value)))
}

fn plus() -> Token {
    token(TokenType::Plus, "+")
}

fn minus() -> Token {
    token(TokenType::Minus, "-")
}

fn star() -> Token {
    token(TokenType::Star, "*")
}

fn parse(tokens: Vec<Token>) -> Result<Expr, boof::error::Error> {
    Parser::from(tokens).parse()
}

#[test]
fn literals_parse_to_literal_nodes() {
    assert_eq!(
        parse(vec![token(TokenType::False, "false"), end()]).unwrap(),
        Expr::Literal(LiteralValue::False)
    );
    assert_eq!(
        parse(vec![token(TokenType::True, "true"), end()]).unwrap(),
        Expr::Literal(LiteralValue::True)
    );
    assert_eq!(
        parse(vec![token(TokenType::Nil, "nil"), end()]).unwrap(),
        Expr::Literal(LiteralValue::Nil)
    );
    assert_eq!(parse(vec![number(77), end()]).unwrap(), Expr::Literal(LiteralValue::Number(77)));
    assert_eq!(
        parse(vec![token(TokenType::String("text".to_string()), "\"text\""), end()]).unwrap(),
        Expr::Literal(LiteralValue::String("text".to_string()))
    );
}

#[test]
fn binary_levels_fold_to_the_left() {
    let tree = parse(vec![number(1), minus(), number(2), minus(), number(3), end()]).unwrap();
    assert_eq!(
        tree,
        Expr::Binary(
            Box::new(Expr::Binary(literal(1), minus(), literal(2))),
            minus(),
            literal(3)
        )
    );
}

#[test]
fn higher_levels_bind_tighter() {
    let tree = parse(vec![number(1), plus(), number(2), star(), number(3), end()]).unwrap();
    assert_eq!(
        tree,
        Expr::Binary(
            literal(1),
            plus(),
            Box::new(Expr::Binary(literal(2), star(), literal(3)))
        )
    );
    let less = token(TokenType::Less, "<");
    let equal = token(TokenType::EqualEqual, "==");
    let tree = parse(vec![
        number(1),
        equal.clone(),
        number(2),
        less.clone(),
        number(3),
        plus(),
        number(4),
        end(),
    ])
    .unwrap();
    assert_eq!(
        tree,
        Expr::Binary(
            literal(1),
            equal,
            Box::new(Expr::Binary(
                literal(2),
                less,
                Box::new(Expr::Binary(literal(3), plus(), literal(4)))
            ))
        )
    );
}

#[test]
fn prefix_operators_chain_to_the_right() {
    let bang = token(TokenType::Bang, "!");
    let tree = parse(vec![bang.clone(), bang.clone(), token(TokenType::True, "true"), end()])
        .unwrap();
    assert_eq!(
        tree,
        Expr::Unary(
            bang.clone(),
            Box::new(Expr::Unary(bang, Box::new(Expr::Literal(LiteralValue::True))))
        )
    );
    let tree = parse(vec![minus(), minus(), number(1), end()]).unwrap();
    assert_eq!(tree, Expr::Unary(minus(), Box::new(Expr::Unary(minus(), literal(1)))));
    let tree = parse(vec![number(1), minus(), minus(), number(2), end()]).unwrap();
    assert_eq!(
        tree,
        Expr::Binary(literal(1), minus(), Box::new(Expr::Unary(minus(), literal(2))))
    );
}

#[test]
fn parentheses_make_a_group() {
    let open = token(TokenType::LeftParen, "(");
    let close = token(TokenType::RightParen, ")");
    let tree = parse(vec![
        open.clone(),
        number(1),
        plus(),
        number(2),
        close.clone(),
        star(),
        number(3),
        end(),
    ])
    .unwrap();
    assert_eq!(
        tree,
        Expr::Binary(
            Box::new(Expr::Grouping(Box::new(Expr::Binary(literal(1), plus(), literal(2))))),
            star(),
            literal(3)
        )
    );
    let tree =
        parse(vec![open.clone(), open, number(1), close.clone(), close, end()]).unwrap();
    assert_eq!(tree, Expr::Grouping(Box::new(Expr::Grouping(literal(1)))));
}

#[test]
fn missing_expression_is_a_syntax_error() {
    for tokens in [
        vec![end()],
        vec![plus(), end()],
        vec![token(TokenType::RightParen, ")"), end()],
        vec![number(1), plus(), end()],
        vec![token(TokenType::LeftParen, "("), end()],
        vec![token(TokenType::Bang, "!"), end()],
        vec![token(TokenType::Identifier, "x"), end()],
        vec![token(TokenType::Print, "print"), number(1), end()],
    ] {
        let error = parse(tokens).unwrap_err();
        assert_eq!(error.code, 1);
        assert_eq!(error.message, "Error: Expected Expression");
    }
}

#[test]
fn group_must_be_closed_before_another_token() {
    let open = token(TokenType::LeftParen, "(");
    let error = parse(vec![open.clone(), number(1), number(2), end()]).unwrap_err();
    assert_eq!(error.code, 1);
    assert_eq!(error.message, "Error: Expect ')' after expression.");
    let error =
        parse(vec![open.clone(), number(1), token(TokenType::SemiColon, ";"), end()]).unwrap_err();
    assert_eq!(error.message, "Error: Expect ')' after expression.");
    let close = token(TokenType::RightParen, ")");
    let error = parse(vec![open.clone(), open, number(1), close, number(2), end()]).unwrap_err();
    assert_eq!(error.message, "Error: Expect ')' after expression.");
}

#[test]
fn closing_parenthesis_is_not_demanded_at_the_end_of_input() {
    let open = token(TokenType::LeftParen, "(");
    let tree = parse(vec![open.clone(), number(1), end()]).unwrap();
    assert_eq!(tree, Expr::Grouping(literal(1)));
    let tree = parse(vec![open.clone(), open, number(1), end()]).unwrap();
    assert_eq!(tree, Expr::Grouping(Box::new(Expr::Grouping(literal(1)))));
}

#[test]
fn matching_ignores_payloads() {
    assert!(TokenType::Number(1).matches(&TokenType::Number(2)));
    assert!(TokenType::String("a".to_string()).matches(&TokenType::String("b".to_string())));
    assert!(TokenType::Plus.matches(&TokenType::Plus));
    assert!(!TokenType::Plus.matches(&TokenType::Minus));
    assert!(!TokenType::Number(1).matches(&TokenType::String("1".to_string())));
    assert!(!TokenType::True.matches(&TokenType::False));
    assert!(TokenType::EOF.matches(&TokenType::EOF));
}

#[test]
fn parse_takes_one_expression_and_stops() {
    let mut parser = Parser::from(vec![number(1), number(2), plus(), number(3), end()]);
    assert_eq!(parser.parse().unwrap(), Expr::Literal(LiteralValue::Number(1)));
    assert_eq!(
        parser.parse().unwrap(),
        Expr::Binary(literal(2), plus(), literal(3))
    );
    assert_eq!(parser.parse().unwrap_err().message, "Error: Expected Expression");
}

#[test]
fn token_vector_without_terminal_token_is_parsed_to_its_end() {
    assert_eq!(parse(vec![]).unwrap_err().message, "Error: Expected Expression");
    assert_eq!(
        parse(vec![number(1), plus(), number(2)]).unwrap(),
        Expr::Binary(literal(1), plus(), literal(2))
    );
    assert_eq!(
        parse(vec![token(TokenType::LeftParen, "("), number(1)]).unwrap(),
        Expr::Grouping(literal(1))
    );
}

#[test]
fn operator_token_is_kept_in_the_tree() {
    let operator = Token::from(TokenType::Slash, "/".to_string(), 7);
    let tree = parse(vec![number(8), operator, number(2), end()]).unwrap();
    match tree {
        Expr::Binary(_, found, _) => {
            assert_eq!(found.token_type, TokenType::Slash);
            assert_eq!(found.lexeme, "/");
            assert_eq!(found.line, 7);
        }
        _ => panic!("a binary node was expected"),
    }
}

#[test]
fn synchronize_stops_after_a_semicolon() {
    let semicolon = token(TokenType::SemiColon, ";");
    let mut parser =
        Parser::from(vec![plus(), star(), semicolon, number(5), plus(), number(6), end()]);
    parser.synchronize();
    assert_eq!(
        parser.parse().unwrap(),
        Expr::Binary(literal(5), plus(), literal(6))
    );
}

#[test]
fn synchronize_stops_before_a_statement_keyword() {
    for keyword in [
        TokenType::Func,
        TokenType::Var,
        TokenType::For,
        TokenType::If,
        TokenType::While,
        TokenType::Print,
        TokenType::Return,
    ] {
        let mut parser = Parser::from(vec![
            plus(),
            number(1),
            token(keyword, "k"),
            token(TokenType::SemiColon, ";"),
            number(2),
            end(),
        ]);
        parser.synchronize();
        assert_eq!(parser.parse().unwrap_err().message, "Error: Expected Expression");
        parser.synchronize();
        assert_eq!(parser.parse().unwrap(), Expr::Literal(LiteralValue::Number(2)));
    }
}

#[test]
fn synchronize_runs_to_the_end_without_a_boundary() {
    let mut parser = Parser::from(vec![plus(), number(1), star(), end()]);
    parser.synchronize();
    assert_eq!(parser.parse().unwrap_err().message, "Error: Expected Expression");
    let mut parser = Parser::from(vec![end()]);
    parser.synchronize();
    assert_eq!(parser.parse().unwrap_err().message, "Error: Expected Expression");
    let mut parser = Parser::from(vec![]);
    parser.synchronize();
    assert_eq!(parser.parse().unwrap_err().message, "Error: Expected Expression");
}

#[test]
fn synchronize_always_moves_past_the_token_at_hand() {
    let mut parser = Parser::from(vec![
        token(TokenType::Print, "print"),
        number(1),
        token(TokenType::SemiColon, ";"),
        number(2),
        end(),
    ]);
    parser.synchronize();
    assert_eq!(parser.parse().unwrap(), Expr::Literal(LiteralValue::Number(2)));
}
