//! The scanner on its own: lexemes, lines, errors, and the exchange over
//! numeric literals.

use boof::error::Error;
use boof::lexer::{Lexer, Scan};
use boof::token::{Token, TokenType};

fn read(text: &str) -> Result<u32, String> {
    text.parse::<f32>().map(f32::to_bits).map_err(|e| e.to_string())
}

fn scan(source: &str) -> Result<Vec<Token>, Error> {
    let mut step = Lexer::from(source.to_string()).scan()?;
    loop {
        match step {
            Scan::Finished(tokens) => return Ok(tokens),
            Scan::Number(lexer, text) => step = lexer.resume(read(&text))?,
        }
    }
}

fn types(source: &str) -> Vec<TokenType> {
    scan(source).unwrap().into_iter().map(|token| token.token_type).collect()
}

fn lexemes(source: &str) -> Vec<String> {
    scan(source).unwrap().into_iter().map(|token| token.lexeme).collect()
}

fn lines(source: &str) -> Vec<usize> {
    scan(source).unwrap().into_iter().map(|token| token.line).collect()
}

fn num(value: f32) -> TokenType {
    TokenType::Number(value.to_bits())
}

#[test]
fn empty_source_gives_only_the_terminal_token() {
    let tokens = scan("").unwrap();
    assert_eq!(tokens.len(), 1);
    assert_eq!(tokens[0].token_type, TokenType::EOF);
    assert_eq!(tokens[0].lexeme, "\0");
    assert_eq!(tokens[0].line, 1);
}

#[test]
fn single_characters_map_to_their_categories() {
    assert_eq!(
        types("(){};+-*.,/"),
        vec![
            TokenType::LeftParen,
            TokenType::RightParen,
            TokenType::LeftBrace,
            TokenType::RightBrace,
            TokenType::SemiColon,
            TokenType::Plus,
            TokenType::Minus,
            TokenType::Star,
            TokenType::Dot,
            TokenType::Comma,
            TokenType::Slash,
            TokenType::EOF,
        ]
    );
}

#[test]
fn two_character_operators_take_a_following_equal_sign() {
    assert_eq!(
        types("!= == >= <="),
        vec![
            TokenType::BangEqual,
            TokenType::EqualEqual,
            TokenType::GreaterEqual,
            TokenType::LessEqual,
            TokenType::EOF,
        ]
    );
    assert_eq!(
        types("! = > <"),
        vec![
            TokenType::Bang,
            TokenType::Equal,
            TokenType::Greater,
            TokenType::Less,
            TokenType::EOF,
        ]
    );
    assert_eq!(
        types("==="),
        vec![TokenType::EqualEqual, TokenType::Equal, TokenType::EOF]
    );
    assert_eq!(types("!"), vec![TokenType::Bang, TokenType::EOF]);
    assert_eq!(lexemes("<=!"), vec!["<=", "!", "\0"]);
}

#[test]
fn blanks_yield_no_tokens() {
    assert_eq!(types(" \t\r\n "), vec![TokenType::EOF]);
    assert_eq!(
        types("\t1 \r +\n"),
        vec![num(1.0), TokenType::Plus, TokenType::EOF]
    );
}

#[test]
fn every_line_break_counts() {
    assert_eq!(lines("1\n2\n\n3"), vec![1, 2, 4, 4]);
    assert_eq!(lines("\n\n"), vec![3]);
    assert_eq!(lines("a // x\nb"), vec![1, 2, 2]);
}

#[test]
fn comment_runs_to_the_end_of_the_line_or_of_the_text() {
    assert_eq!(types("// nothing here"), vec![TokenType::EOF]);
    assert_eq!(types("//"), vec![TokenType::EOF]);
    assert_eq!(
        types("a // b c d\n/ e"),
        vec![
            TokenType::Identifier,
            TokenType::Slash,
            TokenType::Identifier,
            TokenType::EOF
        ]
    );
    assert_eq!(types("/ /"), vec![TokenType::Slash, TokenType::Slash, TokenType::EOF]);
}

#[test]
fn string_token_holds_the_text_between_the_quotes() {
    let tokens = scan("\"hello world\"").unwrap();
    assert_eq!(tokens.len(), 2);
    assert_eq!(tokens[0].token_type, TokenType::String("hello world".to_string()));
    assert_eq!(tokens[0].lexeme, "hello world");
    assert_eq!(tokens[0].line, 1);
    let tokens = scan("\"\"").unwrap();
    assert_eq!(tokens[0].token_type, TokenType::String(String::new()));
    assert_eq!(tokens[0].lexeme, "");
    let tokens = scan("\"a b\"").unwrap();
    assert_eq!(tokens.len(), 2);
    assert_eq!(tokens[0].token_type, TokenType::String("a b".to_string()));
    assert_eq!(tokens[0].lexeme, "a b");
    assert_eq!(tokens[1].token_type, TokenType::EOF);
}

#[test]
fn string_takes_no_escapes_and_may_span_lines() {
    let tokens = scan("\"a\\n// b\nc\" x").unwrap();
    assert_eq!(tokens[0].token_type, TokenType::String("a\\n// b\nc".to_string()));
    assert_eq!(tokens[0].lexeme, "a\\n// b\nc");
    assert_eq!(tokens[0].line, 2);
    assert_eq!(tokens[1].token_type, TokenType::Identifier);
    assert_eq!(tokens[1].line, 2);
    assert_eq!(tokens[2].line, 2);
}

#[test]
fn string_keeps_characters_beyond_ascii() {
    let tokens = scan("\"héllo → ∞\" + 1").unwrap();
    assert_eq!(tokens[0].token_type, TokenType::String("héllo → ∞".to_string()));
    assert_eq!(tokens[0].lexeme, "héllo → ∞");
    assert_eq!(tokens[1].token_type, TokenType::Plus);
    assert_eq!(tokens[2].token_type, num(1.0));
}

#[test]
fn unterminated_string_is_a_lexical_error() {
    let error = scan("\"").unwrap_err();
    assert_eq!(error.code, 1);
    assert_eq!(error.message, "[line: 1] Error: Unterminated String");
    let error = scan("1 + \"abc\n\n").unwrap_err();
    assert_eq!(error.message, "[line: 3] Error: Unterminated String");
}

#[test]
fn numbers_are_digits_with_an_optional_fraction() {
    assert_eq!(types("123"), vec![num(123.0), TokenType::EOF]);
    assert_eq!(types("1.5"), vec![num(1.5), TokenType::EOF]);
    assert_eq!(types("0.25 10"), vec![num(0.25), num(10.0), TokenType::EOF]);
    assert_eq!(lexemes("007.50"), vec!["007.50", "\0"]);
    assert_eq!(types("007.50"), vec![num(7.5), TokenType::EOF]);
}

#[test]
fn trailing_dot_is_not_part_of_a_number() {
    assert_eq!(types("1."), vec![num(1.0), TokenType::Dot, TokenType::EOF]);
    assert_eq!(lexemes("1."), vec!["1", ".", "\0"]);
    assert_eq!(
        types("1.x"),
        vec![num(1.0), TokenType::Dot, TokenType::Identifier, TokenType::EOF]
    );
    assert_eq!(types(".5"), vec![TokenType::Dot, num(5.0), TokenType::EOF]);
    assert_eq!(
        types("1.2.3"),
        vec![num(1.2), TokenType::Dot, num(3.0), TokenType::EOF]
    );
}

#[test]
fn numeric_literal_is_handed_out_as_written() {
    let step = Lexer::from("  12.50+x".to_string()).scan().unwrap();
    match step {
        Scan::Number(lexer, text) => {
            assert_eq!(text, "12.50");
            match lexer.resume(Ok(7)).unwrap() {
                Scan::Finished(tokens) => {
                    assert_eq!(tokens.len(), 4);
                    assert_eq!(tokens[0].token_type, TokenType::Number(7));
                    assert_eq!(tokens[0].lexeme, "12.50");
                    assert_eq!(tokens[1].token_type, TokenType::Plus);
                    assert_eq!(tokens[2].token_type, TokenType::Identifier);
                    assert_eq!(tokens[3].token_type, TokenType::EOF);
                }
                Scan::Number(_, _) => panic!("no second literal"),
            }
        }
        Scan::Finished(_) => panic!("a literal was expected"),
    }
}

#[test]
fn literal_without_a_value_is_a_lexical_error_on_its_line() {
    let step = Lexer::from("\n\n1 + 2".to_string()).scan().unwrap();
    match step {
        Scan::Number(lexer, text) => {
            assert_eq!(text, "1");
            match lexer.resume(Err("invalid float literal".to_string())) {
                Err(error) => {
                    assert_eq!(error.code, 1);
                    assert_eq!(error.message, "[line: 3] Error: invalid float literal");
                }
                Ok(_) => panic!("an error was expected"),
            }
        }
        Scan::Finished(_) => panic!("a literal was expected"),
    }
}

#[test]
fn scan_asks_again_while_a_literal_waits() {
    let step = Lexer::from("+ 42 -".to_string()).scan().unwrap();
    let lexer = match step {
        Scan::Number(lexer, text) => {
            assert_eq!(text, "42");
            lexer
        }
        Scan::Finished(_) => panic!("a literal was expected"),
    };
    let lexer = match lexer.scan().unwrap() {
        Scan::Number(lexer, text) => {
            assert_eq!(text, "42");
            lexer
        }
        Scan::Finished(_) => panic!("the literal still waits"),
    };
    match lexer.resume(Ok(42.0f32.to_bits())).unwrap() {
        Scan::Finished(tokens) => {
            let found: Vec<TokenType> = tokens.into_iter().map(|t| t.token_type).collect();
            assert_eq!(found, vec![TokenType::Plus, num(42.0), TokenType::Minus, TokenType::EOF]);
        }
        Scan::Number(_, _) => panic!("no second literal"),
    }
}

#[test]
fn resume_without_a_waiting_literal_ignores_the_value() {
    match Lexer::from("a + b".to_string()).resume(Ok(5)).unwrap() {
        Scan::Finished(tokens) => {
            let found: Vec<TokenType> = tokens.into_iter().map(|t| t.token_type).collect();
            assert_eq!(
                found,
                vec![
                    TokenType::Identifier,
                    TokenType::Plus,
                    TokenType::Identifier,
                    TokenType::EOF
                ]
            );
        }
        Scan::Number(_, _) => panic!("no literal in the text"),
    }
    match Lexer::from("a".to_string()).resume(Err("unused".to_string())).unwrap() {
        Scan::Finished(tokens) => assert_eq!(tokens.len(), 2),
        Scan::Number(_, _) => panic!("no literal in the text"),
    }
}

#[test]
fn keyword_table_is_fixed_and_case_sensitive() {
    assert_eq!(
        types("boof boofer and for while nil or if else elseif return true false print"),
        vec![
            TokenType::Var,
            TokenType::Func,
            TokenType::And,
            TokenType::For,
            TokenType::While,
            TokenType::Nil,
            TokenType::Or,
            TokenType::If,
            TokenType::Else,
            TokenType::ElseIf,
            TokenType::Return,
            TokenType::True,
            TokenType::False,
            TokenType::Print,
            TokenType::EOF,
        ]
    );
    assert_eq!(
        types("Boof TRUE Nil iff elseifs boo"),
        vec![
            TokenType::Identifier,
            TokenType::Identifier,
            TokenType::Identifier,
            TokenType::Identifier,
            TokenType::Identifier,
            TokenType::Identifier,
            TokenType::EOF,
        ]
    );
}

#[test]
fn identifiers_are_letters_digits_and_underscores() {
    assert_eq!(lexemes("_a1 b_2c __ x9"), vec!["_a1", "b_2c", "__", "x9", "\0"]);
    assert_eq!(
        types("_a1 b_2c __ x9"),
        vec![
            TokenType::Identifier,
            TokenType::Identifier,
            TokenType::Identifier,
            TokenType::Identifier,
            TokenType::EOF
        ]
    );
    assert_eq!(lexemes("1a"), vec!["1", "a", "\0"]);
    assert_eq!(lexemes("true1"), vec!["true1", "\0"]);
    assert_eq!(types("true1"), vec![TokenType::Identifier, TokenType::EOF]);
}

#[test]
fn unexpected_character_is_a_lexical_error() {
    let error = scan("1 + @").unwrap_err();
    assert_eq!(error.code, 1);
    assert_eq!(error.message, "[line: 1] Error: Unexpected Character \"@\"");
    let error = scan("a\nb\n#").unwrap_err();
    assert_eq!(error.message, "[line: 3] Error: Unexpected Character \"#\"");
    let error = scan("é").unwrap_err();
    assert_eq!(error.message, "[line: 1] Error: Unexpected Character \"é\"");
    let error = scan("\0").unwrap_err();
    assert_eq!(error.message, "[line: 1] Error: Unexpected Character \"\0\"");
}

#[test]
fn error_line_is_written_in_decimal() {
    let mut source = "\n".repeat(11);
    source.push('$');
    assert_eq!(scan(&source).unwrap_err().message, "[line: 12] Error: Unexpected Character \"$\"");
    let mut source = "\n".repeat(1204);
    source.push('"');
    assert_eq!(scan(&source).unwrap_err().message, "[line: 1205] Error: Unterminated String");
    let source = "\n".repeat(99);
    assert_eq!(lines(&source), vec![100]);
}

#[test]
fn scanning_stops_at_the_first_error() {
    let error = scan("@ \"open").unwrap_err();
    assert_eq!(error.message, "[line: 1] Error: Unexpected Character \"@\"");
    let error = scan("\"open @").unwrap_err();
    assert_eq!(error.message, "[line: 1] Error: Unterminated String");
}

#[test]
fn terminal_token_stands_on_the_last_line() {
    let tokens = scan("1\n2\n").unwrap();
    let last = &tokens[tokens.len() - 1];
    assert_eq!(last.token_type, TokenType::EOF);
    assert_eq!(last.lexeme, "\0");
    assert_eq!(last.line, 3);
}

#[test]
fn lexemes_scanned_again_give_the_same_categories() {
    for source in ["1 + 2", "(a) != b ;", "!true == false", "x <= 10.5 / y"] {
        let first = scan(source).unwrap();
        let text: String =
            first[..first.len() - 1].iter().map(|token| token.lexeme.as_str()).collect();
        let second = scan(&text).unwrap();
        assert_eq!(first.len(), second.len());
        for (a, b) in first.iter().zip(second.iter()) {
            assert_eq!(a.token_type, b.token_type);
            assert_eq!(a.lexeme, b.lexeme);
        }
    }
}

#[test]
fn lexemes_that_run_together_scan_differently() {
    assert_eq!(types("1 2"), vec![num(1.0), num(2.0), TokenType::EOF]);
    assert_eq!(types("12"), vec![num(12.0), TokenType::EOF]);
    assert_eq!(
        types("a b"),
        vec![TokenType::Identifier, TokenType::Identifier, TokenType::EOF]
    );
    assert_eq!(types("ab"), vec![TokenType::Identifier, TokenType::EOF]);
}

#[test]
fn lexeme_of_a_string_does_not_scan_to_the_string_again() {
    let tokens = scan("\"a b\"").unwrap();
    assert_eq!(tokens[0].lexeme, "a b");
    assert_eq!(
        types(&tokens[0].lexeme),
        vec![TokenType::Identifier, TokenType::Identifier, TokenType::EOF]
    );
    assert_eq!(types("\"\""), vec![TokenType::String(String::new()), TokenType::EOF]);
    assert_eq!(types(""), vec![TokenType::EOF]);
}

#[test]
fn scanning_is_deterministic() {
    let source = "boof x = (1.5 + y) * \"s\" // done\n;";
    assert_eq!(scan(source).unwrap(), scan(source).unwrap());
}

#[test]
fn lexemes_set_apart_by_blanks_scan_to_the_same_tokens() {
    for source in [
        "",
        "1 2",
        "a b",
        "1 . 5.5",
        "= == ! != / /",
        "x<=10.5/y // tail",
        "(a)+b\n{c}",
        "boof boofer 007.50 _x1;{}",
        "1.\n.2",
    ] {
        let first = scan(source).unwrap();
        let text: Vec<&str> =
            first[..first.len() - 1].iter().map(|token| token.lexeme.as_str()).collect();
        let second = scan(&text.join(" ")).unwrap();
        assert_eq!(first.len(), second.len(), "{}", source);
        for (a, b) in first.iter().zip(second.iter()) {
            assert_eq!(a.token_type, b.token_type, "{}", source);
            assert_eq!(a.lexeme, b.lexeme, "{}", source);
        }
    }
}

#[test]
fn comment_between_two_texts_changes_nothing() {
    let befores = ["", "1", "1 +", "a // b", "\"s\"", "x /", "1.", "!", "(\n2", "//", "12 <"];
    let comments = ["", " ignore this", "//", "\"", " 1 + 2 @ \" /"];
    let afters = ["", "\n", "\n+ 2", "\n\"s\" 3", "\n@", "\n\"open", "\n// more\n4"];
    for before in befores {
        assert!(scan(before).is_ok());
        for comment in comments {
            for after in afters {
                let long = format!("{} //{}{}", before, comment, after);
                let short = format!("{}{}", before, after);
                assert_eq!(scan(&long), scan(&short), "{:?}", long);
            }
        }
    }
}
