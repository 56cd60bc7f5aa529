//! The evaluator: its decisions on values, the questions it puts, and whole
//! evaluations with single-precision arithmetic giving the answers.

use boof::expr::{Expr, LiteralValue};
use boof::interpreter::{Answer, Evaluation, Interpreter, Outcome, Question};
use boof::token::{Token, TokenType};

fn op(token_type: TokenType) -> Token {
    Token::from(token_type, "op".to_string(), 1)
}

fn num(value: f32) -> LiteralValue {
    LiteralValue::Number(value.to_bits())
}

fn text(value: &str) -> LiteralValue {
    LiteralValue::String(value.to_string())
}

fn lit(value: LiteralValue) -> Box<Expr> {
    Box::new(Expr::Literal(value))
}

fn binary(left: Box<Expr>, token_type: TokenType, right: Box<Expr>) -> Box<Expr> {
    Box::new(Expr::Binary(left, op(token_type), right))
}

fn unary(token_type: TokenType, operand: Box<Expr>) -> Box<Expr> {
    Box::new(Expr::Unary(op(token_type), operand))
}

fn both(token_type: TokenType) -> Box<Expr> {
    binary(lit(num(1.0)), token_type, lit(num(1.0)))
}

fn ask(question: Question) -> Outcome {
    Outcome::Ask { question, negated: false }
}

fn float(bits: u32) -> f32 {
    f32::from_bits(bits)
}

fn answer(question: Question) -> Answer {
    match question {
        Question::Negate(a) => Answer::Number((-float(a)).to_bits()),
        Question::Subtract(a, b) => Answer::Number((float(a) - float(b)).to_bits()),
        Question::Divide(a, b) => Answer::Number((float(a) / float(b)).to_bits()),
        Question::Multiply(a, b) => Answer::Number((float(a) * float(b)).to_bits()),
        Question::Add(a, b) => Answer::Number((float(a) + float(b)).to_bits()),
        Question::Greater(a, b) => Answer::Truth(float(a) > float(b)),
        Question::GreaterEqual(a, b) => Answer::Truth(float(a) >= float(b)),
        Question::Less(a, b) => Answer::Truth(float(a) < float(b)),
        Question::LessEqual(a, b) => Answer::Truth(float(a) <= float(b)),
        Question::Equal(a, b) => Answer::Truth(float(a) == float(b)),
    }
}

fn evaluate(expr: Expr) -> (LiteralValue, Vec<Question>) {
    let mut asked = Vec::new();
    let mut step = Interpreter::evaluate(expr);
    loop {
        match step {
            Evaluation::Done(value) => return (value, asked),
            Evaluation::Pending(interpreter, question) => {
                assert_eq!(interpreter.question(), question);
                assert!(interpreter.accepts(answer(question)));
                asked.push(question);
                step = interpreter.resume(answer(question));
            }
        }
    }
}

fn value(expr: Box<Expr>) -> LiteralValue {
    evaluate(*expr).0
}

#[test]
fn literal_evaluates_to_itself() {
    assert_eq!(evaluate(*lit(LiteralValue::Nil)), (LiteralValue::Nil, vec![]));
    assert_eq!(value(lit(LiteralValue::True)), LiteralValue::True);
    assert_eq!(value(lit(LiteralValue::False)), LiteralValue::False);
    assert_eq!(value(lit(num(2.5))), num(2.5));
    assert_eq!(value(lit(text("abc"))), text("abc"));
}

#[test]
fn group_evaluates_to_its_inner_value() {
    let tree = Expr::Grouping(Box::new(Expr::Grouping(lit(text("x")))));
    assert_eq!(evaluate(tree), (text("x"), vec![]));
}

#[test]
fn arithmetic_on_numbers() {
    assert_eq!(value(binary(lit(num(7.0)), TokenType::Minus, lit(num(2.0)))), num(5.0));
    assert_eq!(value(binary(lit(num(1.0)), TokenType::Slash, lit(num(2.0)))), num(0.5));
    assert_eq!(value(binary(lit(num(3.0)), TokenType::Star, lit(num(4.0)))), num(12.0));
    assert_eq!(value(binary(lit(num(1.5)), TokenType::Plus, lit(num(2.25)))), num(3.75));
    assert_eq!(value(unary(TokenType::Minus, lit(num(3.0)))), num(-3.0));
    assert_eq!(value(unary(TokenType::Minus, unary(TokenType::Minus, lit(num(3.0))))), num(3.0));
    assert_eq!(
        value(binary(lit(num(1.0)), TokenType::Slash, lit(num(0.0)))),
        num(f32::INFINITY)
    );
}

#[test]
fn ordering_on_numbers() {
    let cases = [
        (TokenType::Greater, 1.0, 2.0, false),
        (TokenType::Greater, 2.0, 1.0, true),
        (TokenType::Greater, 2.0, 2.0, false),
        (TokenType::GreaterEqual, 2.0, 2.0, true),
        (TokenType::GreaterEqual, 1.0, 2.0, false),
        (TokenType::Less, 1.0, 2.0, true),
        (TokenType::Less, 2.0, 2.0, false),
        (TokenType::LessEqual, 2.0, 2.0, true),
        (TokenType::LessEqual, 3.0, 2.0, false),
    ];
    for (token_type, a, b, expected) in cases {
        let expected = if expected { LiteralValue::True } else { LiteralValue::False };
        assert_eq!(value(binary(lit(num(a)), token_type, lit(num(b)))), expected);
    }
}

#[test]
fn plus_joins_strings() {
    assert_eq!(
        evaluate(*binary(lit(text("foo")), TokenType::Plus, lit(text("bar")))),
        (text("foobar"), vec![])
    );
    assert_eq!(value(binary(lit(text("")), TokenType::Plus, lit(text("")))), text(""));
    assert_eq!(
        value(binary(
            binary(lit(text("a")), TokenType::Plus, lit(text("b"))),
            TokenType::Plus,
            lit(text("c"))
        )),
        text("abc")
    );
}

#[test]
fn numeric_equality_is_asked_and_inequality_negates_the_answer() {
    assert_eq!(
        evaluate(*binary(lit(num(1.0)), TokenType::EqualEqual, lit(num(1.0)))),
        (LiteralValue::True, vec![Question::Equal(1.0f32.to_bits(), 1.0f32.to_bits())])
    );
    assert_eq!(
        evaluate(*binary(lit(num(1.0)), TokenType::BangEqual, lit(num(1.0)))),
        (LiteralValue::False, vec![Question::Equal(1.0f32.to_bits(), 1.0f32.to_bits())])
    );
    assert_eq!(
        value(binary(lit(num(1.0)), TokenType::BangEqual, lit(num(2.0)))),
        LiteralValue::True
    );
    assert_eq!(
        value(binary(lit(num(0.0)), TokenType::EqualEqual, lit(num(-0.0)))),
        LiteralValue::True
    );
    assert_eq!(
        value(binary(lit(num(f32::NAN)), TokenType::EqualEqual, lit(num(f32::NAN)))),
        LiteralValue::False
    );
    assert_eq!(
        value(binary(lit(num(f32::NAN)), TokenType::BangEqual, lit(num(f32::NAN)))),
        LiteralValue::True
    );
}

#[test]
fn operands_are_evaluated_left_to_right() {
    let tree = binary(
        binary(lit(num(1.0)), TokenType::Plus, lit(num(2.0))),
        TokenType::Star,
        binary(lit(num(3.0)), TokenType::Minus, lit(num(4.0))),
    );
    let (result, asked) = evaluate(*tree);
    assert_eq!(result, num(-3.0));
    assert_eq!(
        asked,
        vec![
            Question::Add(1.0f32.to_bits(), 2.0f32.to_bits()),
            Question::Subtract(3.0f32.to_bits(), 4.0f32.to_bits()),
            Question::Multiply(3.0f32.to_bits(), (-1.0f32).to_bits()),
        ]
    );
}

#[test]
fn both_operands_are_evaluated_whatever_the_operator() {
    let tree = binary(
        lit(LiteralValue::Nil),
        TokenType::Plus,
        binary(lit(num(1.0)), TokenType::Star, lit(num(2.0))),
    );
    let (result, asked) = evaluate(*tree);
    assert_eq!(result, LiteralValue::Nil);
    assert_eq!(asked, vec![Question::Multiply(1.0f32.to_bits(), 2.0f32.to_bits())]);
}

#[test]
fn first_question_and_the_state_that_waits() {
    let tree = unary(
        TokenType::Bang,
        binary(lit(num(1.0)), TokenType::Less, lit(num(2.0))),
    );
    match Interpreter::evaluate(*tree) {
        Evaluation::Pending(interpreter, question) => {
            assert_eq!(question, Question::Less(1.0f32.to_bits(), 2.0f32.to_bits()));
            assert!(interpreter.accepts(Answer::Truth(true)));
            match interpreter.resume(Answer::Truth(true)) {
                Evaluation::Done(result) => assert_eq!(result, LiteralValue::False),
                Evaluation::Pending(_, _) => panic!("no second question"),
            }
        }
        Evaluation::Done(_) => panic!("a question was expected"),
    }
}

#[test]
fn only_an_answer_of_the_questions_kind_is_accepted() {
    let one = 1.0f32.to_bits();
    let cases = [
        (unary(TokenType::Minus, lit(num(1.0))), Question::Negate(one), true),
        (both(TokenType::Minus), Question::Subtract(one, one), true),
        (both(TokenType::Slash), Question::Divide(one, one), true),
        (both(TokenType::Star), Question::Multiply(one, one), true),
        (both(TokenType::Plus), Question::Add(one, one), true),
        (both(TokenType::Greater), Question::Greater(one, one), false),
        (both(TokenType::GreaterEqual), Question::GreaterEqual(one, one), false),
        (both(TokenType::Less), Question::Less(one, one), false),
        (both(TokenType::LessEqual), Question::LessEqual(one, one), false),
        (both(TokenType::EqualEqual), Question::Equal(one, one), false),
        (both(TokenType::BangEqual), Question::Equal(one, one), false),
    ];
    for (tree, expected, numeric) in cases {
        match Interpreter::evaluate(*tree) {
            Evaluation::Pending(interpreter, question) => {
                assert_eq!(question, expected);
                assert_eq!(interpreter.question(), expected);
                assert_eq!(interpreter.accepts(Answer::Number(0)), numeric);
                assert_eq!(interpreter.accepts(Answer::Truth(true)), !numeric);
                assert_eq!(interpreter.accepts(Answer::Truth(false)), !numeric);
            }
            Evaluation::Done(_) => panic!("a question was expected"),
        }
    }
}

#[test]
fn comparison_comes_out_as_true_or_false() {
    for truth in [true, false] {
        let tree = binary(lit(num(1.0)), TokenType::Less, lit(num(2.0)));
        match Interpreter::evaluate(*tree) {
            Evaluation::Pending(interpreter, _) => {
                assert!(interpreter.accepts(Answer::Truth(truth)));
                match interpreter.resume(Answer::Truth(truth)) {
                    Evaluation::Done(result) => assert_eq!(
                        result,
                        if truth { LiteralValue::True } else { LiteralValue::False }
                    ),
                    Evaluation::Pending(_, _) => panic!("no second question"),
                }
            }
            Evaluation::Done(_) => panic!("a question was expected"),
        }
    }
}

#[test]
fn answer_is_taken_as_given() {
    let tree = binary(lit(num(1.0)), TokenType::Plus, lit(num(1.0)));
    match Interpreter::evaluate(*tree) {
        Evaluation::Pending(interpreter, _) => {
            assert!(interpreter.accepts(Answer::Number(12345)));
            match interpreter.resume(Answer::Number(12345)) {
                Evaluation::Done(result) => assert_eq!(result, LiteralValue::Number(12345)),
                Evaluation::Pending(_, _) => panic!("no second question"),
            }
        }
        Evaluation::Done(_) => panic!("a question was expected"),
    }
}

#[test]
fn binary_on_values_decides_by_kind() {
    let one = 1.0f32.to_bits();
    let two = 2.0f32.to_bits();
    assert_eq!(
        Interpreter::evaluate_binary(num(1.0), op(TokenType::Minus), num(2.0)),
        ask(Question::Subtract(one, two))
    );
    assert_eq!(
        Interpreter::evaluate_binary(num(1.0), op(TokenType::Slash), num(2.0)),
        ask(Question::Divide(one, two))
    );
    assert_eq!(
        Interpreter::evaluate_binary(num(1.0), op(TokenType::Star), num(2.0)),
        ask(Question::Multiply(one, two))
    );
    assert_eq!(
        Interpreter::evaluate_binary(num(1.0), op(TokenType::Plus), num(2.0)),
        ask(Question::Add(one, two))
    );
    assert_eq!(
        Interpreter::evaluate_binary(num(1.0), op(TokenType::Greater), num(2.0)),
        ask(Question::Greater(one, two))
    );
    assert_eq!(
        Interpreter::evaluate_binary(num(1.0), op(TokenType::GreaterEqual), num(2.0)),
        ask(Question::GreaterEqual(one, two))
    );
    assert_eq!(
        Interpreter::evaluate_binary(num(1.0), op(TokenType::Less), num(2.0)),
        ask(Question::Less(one, two))
    );
    assert_eq!(
        Interpreter::evaluate_binary(num(1.0), op(TokenType::LessEqual), num(2.0)),
        ask(Question::LessEqual(one, two))
    );
    assert_eq!(
        Interpreter::evaluate_binary(num(1.0), op(TokenType::EqualEqual), num(2.0)),
        ask(Question::Equal(one, two))
    );
    assert_eq!(
        Interpreter::evaluate_binary(num(1.0), op(TokenType::BangEqual), num(2.0)),
        Outcome::Ask { question: Question::Equal(one, two), negated: true }
    );
    assert_eq!(
        Interpreter::evaluate_binary(text("a"), op(TokenType::Plus), text("b")),
        Outcome::Value(text("ab"))
    );
}

#[test]
fn undefined_pairings_give_nil() {
    let operators = [
        TokenType::Minus,
        TokenType::Slash,
        TokenType::Star,
        TokenType::Plus,
        TokenType::Greater,
        TokenType::GreaterEqual,
        TokenType::Less,
        TokenType::LessEqual,
    ];
    for token_type in operators {
        let pairs = [
            (num(1.0), text("a")),
            (text("a"), num(1.0)),
            (LiteralValue::Nil, num(1.0)),
            (num(1.0), LiteralValue::True),
            (LiteralValue::True, LiteralValue::False),
            (LiteralValue::Nil, LiteralValue::Nil),
            (text("a"), LiteralValue::Nil),
        ];
        for (left, right) in pairs {
            assert_eq!(
                Interpreter::evaluate_binary(left, op(token_type.clone()), right),
                Outcome::Value(LiteralValue::Nil)
            );
        }
    }
    for token_type in [
        TokenType::Minus,
        TokenType::Slash,
        TokenType::Star,
        TokenType::Greater,
        TokenType::LessEqual,
    ] {
        assert_eq!(
            Interpreter::evaluate_binary(text("a"), op(token_type), text("b")),
            Outcome::Value(LiteralValue::Nil)
        );
    }
}

#[test]
fn token_that_is_no_operator_gives_nil() {
    for token_type in [TokenType::Comma, TokenType::And, TokenType::Equal, TokenType::EOF] {
        assert_eq!(
            Interpreter::evaluate_binary(num(1.0), op(token_type.clone()), num(2.0)),
            Outcome::Value(LiteralValue::Nil)
        );
        assert_eq!(
            Interpreter::evaluate_unary(op(token_type), num(2.0)),
            Outcome::Value(LiteralValue::Nil)
        );
    }
    assert_eq!(
        Interpreter::evaluate_unary(op(TokenType::Plus), num(2.0)),
        Outcome::Value(LiteralValue::Nil)
    );
}

#[test]
fn unary_on_values() {
    assert_eq!(
        Interpreter::evaluate_unary(op(TokenType::Minus), num(2.0)),
        ask(Question::Negate(2.0f32.to_bits()))
    );
    for other in [text("2"), LiteralValue::True, LiteralValue::False, LiteralValue::Nil] {
        assert_eq!(
            Interpreter::evaluate_unary(op(TokenType::Minus), other),
            Outcome::Value(LiteralValue::Nil)
        );
    }
    assert_eq!(
        Interpreter::evaluate_unary(op(TokenType::Bang), LiteralValue::Nil),
        Outcome::Value(LiteralValue::True)
    );
    assert_eq!(
        Interpreter::evaluate_unary(op(TokenType::Bang), LiteralValue::False),
        Outcome::Value(LiteralValue::True)
    );
    assert_eq!(
        Interpreter::evaluate_unary(op(TokenType::Bang), num(0.0)),
        Outcome::Value(LiteralValue::False)
    );
    assert_eq!(
        Interpreter::evaluate_unary(op(TokenType::Bang), text("")),
        Outcome::Value(LiteralValue::False)
    );
    assert_eq!(
        Interpreter::evaluate_unary(op(TokenType::Bang), LiteralValue::True),
        Outcome::Value(LiteralValue::False)
    );
}

#[test]
fn equals_compares_within_a_kind_only() {
    let yes = Outcome::Value(LiteralValue::True);
    let no = Outcome::Value(LiteralValue::False);
    assert_eq!(Interpreter::equals(LiteralValue::Nil, LiteralValue::Nil), yes);
    assert_eq!(Interpreter::equals(LiteralValue::True, LiteralValue::True), yes);
    assert_eq!(Interpreter::equals(LiteralValue::False, LiteralValue::False), yes);
    assert_eq!(Interpreter::equals(text("a"), text("a")), yes);
    assert_eq!(Interpreter::equals(text("a"), text("A")), no);
    assert_eq!(Interpreter::equals(LiteralValue::True, LiteralValue::False), no);
    assert_eq!(Interpreter::equals(LiteralValue::Nil, LiteralValue::False), no);
    assert_eq!(Interpreter::equals(num(1.0), text("1")), no);
    assert_eq!(Interpreter::equals(text("1"), num(1.0)), no);
    assert_eq!(Interpreter::equals(num(0.0), LiteralValue::False), no);
    assert_eq!(Interpreter::equals(num(0.0), LiteralValue::Nil), no);
    assert_eq!(
        Interpreter::equals(num(1.0), num(3.0)),
        ask(Question::Equal(1.0f32.to_bits(), 3.0f32.to_bits()))
    );
}

#[test]
fn only_false_and_nil_are_falsy() {
    assert_eq!(Interpreter::is_truthy(LiteralValue::False), LiteralValue::False);
    assert_eq!(Interpreter::is_truthy(LiteralValue::Nil), LiteralValue::False);
    assert_eq!(Interpreter::is_truthy(LiteralValue::True), LiteralValue::True);
    assert_eq!(Interpreter::is_truthy(num(0.0)), LiteralValue::True);
    assert_eq!(Interpreter::is_truthy(text("")), LiteralValue::True);
    assert_eq!(Interpreter::is_falsy(LiteralValue::False), LiteralValue::True);
    assert_eq!(Interpreter::is_falsy(LiteralValue::Nil), LiteralValue::True);
    assert_eq!(Interpreter::is_falsy(LiteralValue::True), LiteralValue::False);
    assert_eq!(Interpreter::is_falsy(num(0.0)), LiteralValue::False);
    assert_eq!(Interpreter::is_falsy(text("")), LiteralValue::False);
    assert_eq!(Interpreter::negate(LiteralValue::False), LiteralValue::True);
    assert_eq!(Interpreter::negate(LiteralValue::Nil), LiteralValue::True);
    assert_eq!(Interpreter::negate(LiteralValue::True), LiteralValue::False);
    assert_eq!(Interpreter::negate(num(1.0)), LiteralValue::False);
    assert_eq!(Interpreter::negate(text("x")), LiteralValue::False);
}

#[test]
fn deep_tree_is_reduced_without_recursion() {
    let mut tree = lit(num(0.0));
    for _ in 0..20000 {
        tree = binary(tree, TokenType::Plus, lit(num(1.0)));
    }
    let mut step = Interpreter::evaluate(*tree);
    let mut questions = 0;
    let result = loop {
        match step {
            Evaluation::Done(value) => break value,
            Evaluation::Pending(interpreter, question) => {
                questions += 1;
                assert!(interpreter.accepts(answer(question)));
                step = interpreter.resume(answer(question));
            }
        }
    };
    assert_eq!(questions, 20000);
    assert_eq!(result, num(20000.0));
}
