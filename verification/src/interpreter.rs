//! The evaluator: an expression tree to a value.
//!
//! The evaluator walks the tree with an explicit stack. It makes every
//! decision that depends on the kinds of the values at hand: which operator
//! applies, when an operation is undefined and gives `Nil`, what equals what,
//! what counts as true. What a numeric operation yields it does not compute:
//! it stops with a [`Question`] and goes on when it is given the
//! [`Answer`].

use vstd::prelude::*;
use vstd::string::StringExecFns;
use crate::expr::{Expr, LiteralValue, SpecExpr, SpecValue};
use crate::token::{SpecToken, SpecTokenType, Token, TokenType};

verus! {

/// An operation on the numeric meaning of bit patterns, put to the caller.
#[derive(Debug, PartialEq, Eq, Clone, Copy)]
pub enum Question {
    /// The negation of a number.
    Negate(u32),
    /// The difference of two numbers.
    Subtract(u32, u32),
    /// The quotient of two numbers.
    Divide(u32, u32),
    /// The product of two numbers.
    Multiply(u32, u32),
    /// The sum of two numbers.
    Add(u32, u32),
    /// Whether the first number is greater than the second.
    Greater(u32, u32),
    /// Whether the first number is greater than or equal to the second.
    GreaterEqual(u32, u32),
    /// Whether the first number is less than the second.
    Less(u32, u32),
    /// Whether the first number is less than or equal to the second.
    LessEqual(u32, u32),
    /// Whether the two numbers are equal.
    Equal(u32, u32),
}

/// The caller's answer to a [`Question`].
#[derive(Debug, PartialEq, Eq, Clone, Copy)]
pub enum Answer {
    /// The bit pattern of a numeric result.
    Number(u32),
    /// The truth of a comparison.
    Truth(bool),
}

/// What applying an operator to values gives: a value, or a question whose
/// answer is the value. If `negated` is set, the value is the logical
/// negation of the answer.
#[derive(Debug, PartialEq)]
pub enum Outcome {
    Value(LiteralValue),
    Ask { question: Question, negated: bool },
}

/// Mathematical model of an [`Outcome`].
pub ghost enum SpecOutcome {
    Value(SpecValue),
    Ask { question: Question, negated: bool },
}

impl View for Outcome {
    type V = SpecOutcome;

    open spec fn view(&self) -> SpecOutcome {
        match self {
            Outcome::Value(value) => SpecOutcome::Value(value@),
            Outcome::Ask { question, negated } => SpecOutcome::Ask {
                question: *question,
                negated: *negated,
            },
        }
    }
}

/// Logical negation: `True` for the falsy values `False` and `Nil`, `False`
/// for every other value.
pub open spec fn negation(value: SpecValue) -> SpecValue {
    match value {
        SpecValue::False | SpecValue::Nil => SpecValue::True,
        _ => SpecValue::False,
    }
}

/// Truthiness: `False` for `False` and `Nil`, `True` for every other value,
/// zero and the empty string among them.
pub open spec fn truthiness(value: SpecValue) -> SpecValue {
    match value {
        SpecValue::False | SpecValue::Nil => SpecValue::False,
        _ => SpecValue::True,
    }
}

/// Equality of two values. Values of different kinds are unequal; strings
/// are equal if their texts are; whether two numbers are equal is asked.
pub open spec fn equality(left: SpecValue, right: SpecValue) -> SpecOutcome {
    match (left, right) {
        (SpecValue::Nil, SpecValue::Nil) => SpecOutcome::Value(SpecValue::True),
        (SpecValue::True, SpecValue::True) => SpecOutcome::Value(SpecValue::True),
        (SpecValue::False, SpecValue::False) => SpecOutcome::Value(SpecValue::True),
        (SpecValue::Number(a), SpecValue::Number(b)) => SpecOutcome::Ask {
            question: Question::Equal(a, b),
            negated: false,
        },
        (SpecValue::String(a), SpecValue::String(b)) => SpecOutcome::Value(
            if a == b {
                SpecValue::True
            } else {
                SpecValue::False
            },
        ),
        _ => SpecOutcome::Value(SpecValue::False),
    }
}

/// The outcome negated: the negation of a value, the opposite reading of an
/// answer.
pub open spec fn negated_outcome(outcome: SpecOutcome) -> SpecOutcome {
    match outcome {
        SpecOutcome::Value(value) => SpecOutcome::Value(negation(value)),
        SpecOutcome::Ask { question, negated } => SpecOutcome::Ask { question, negated: !negated },
    }
}

/// A prefix operator applied to a value. `!` negates under truthiness; `-`
/// is defined for a number only.
pub open spec fn unary_outcome(operator: SpecTokenType, value: SpecValue) -> SpecOutcome {
    match operator {
        SpecTokenType::Bang => SpecOutcome::Value(negation(truthiness(value))),
        SpecTokenType::Minus => match value {
            SpecValue::Number(a) => SpecOutcome::Ask {
                question: Question::Negate(a),
                negated: false,
            },
            _ => SpecOutcome::Value(SpecValue::Nil),
        },
        _ => SpecOutcome::Value(SpecValue::Nil),
    }
}

/// The question that a binary operator puts on two numbers, if it is an
/// arithmetic or ordering operator.
pub open spec fn numeric_question(operator: SpecTokenType, a: u32, b: u32) -> Option<Question> {
    match operator {
        SpecTokenType::Minus => Some(Question::Subtract(a, b)),
        SpecTokenType::Slash => Some(Question::Divide(a, b)),
        SpecTokenType::Star => Some(Question::Multiply(a, b)),
        SpecTokenType::Plus => Some(Question::Add(a, b)),
        SpecTokenType::Greater => Some(Question::Greater(a, b)),
        SpecTokenType::GreaterEqual => Some(Question::GreaterEqual(a, b)),
        SpecTokenType::Less => Some(Question::Less(a, b)),
        SpecTokenType::LessEqual => Some(Question::LessEqual(a, b)),
        _ => None,
    }
}

/// A binary operator applied to two values. Arithmetic and ordering are
/// defined for two numbers, `+` for two strings as well; every other pairing
/// gives `Nil`. `==` is [`equality`], `!=` its negation. A token that is no
/// binary operator gives `Nil`.
pub open spec fn binary_outcome(
    left: SpecValue,
    operator: SpecTokenType,
    right: SpecValue,
) -> SpecOutcome {
    match operator {
        SpecTokenType::EqualEqual => equality(left, right),
        SpecTokenType::BangEqual => negated_outcome(equality(left, right)),
        _ => match (left, right) {
            (SpecValue::Number(a), SpecValue::Number(b)) => match numeric_question(
                operator,
                a,
                b,
            ) {
                Some(question) => SpecOutcome::Ask { question, negated: false },
                None => SpecOutcome::Value(SpecValue::Nil),
            },
            (SpecValue::String(a), SpecValue::String(b)) => if operator is Plus {
                SpecOutcome::Value(SpecValue::String(a + b))
            } else {
                SpecOutcome::Value(SpecValue::Nil)
            },
            _ => SpecOutcome::Value(SpecValue::Nil),
        },
    }
}

/// A fitting answer to a comparison stands for `True` or `False`, a fitting
/// answer to arithmetic for a number.
pub proof fn lemma_fitting_answer(question: Question, answer: Answer)
    requires
        fits(question, answer),
    ensures
        answer is Truth ==> answer_value(answer) is True || answer_value(answer) is False,
        answer is Number ==> answer_value(answer) is Number,
        answer is Number <==> (question is Negate || question is Subtract || question is Divide
            || question is Multiply || question is Add),
{
}

/// The value that an answer stands for.
pub open spec fn answer_value(answer: Answer) -> SpecValue {
    match answer {
        Answer::Number(bits) => SpecValue::Number(bits),
        Answer::Truth(true) => SpecValue::True,
        Answer::Truth(false) => SpecValue::False,
    }
}

/// The value of an outcome when `unit` answers the questions.
pub open spec fn settled(outcome: SpecOutcome, unit: spec_fn(Question) -> Answer) -> SpecValue {
    match outcome {
        SpecOutcome::Value(value) => value,
        SpecOutcome::Ask { question, negated } => if negated {
            negation(answer_value(unit(question)))
        } else {
            answer_value(unit(question))
        },
    }
}

/// The value of an expression when `unit` answers the questions: the
/// meaning that the evaluator is held to.
pub open spec fn value_of(expr: SpecExpr, unit: spec_fn(Question) -> Answer) -> SpecValue
    decreases expr,
{
    match expr {
        SpecExpr::Literal(value) => value,
        SpecExpr::Grouping(inner) => value_of(*inner, unit),
        SpecExpr::Unary(operator, operand) => settled(
            unary_outcome(operator.token_type, value_of(*operand, unit)),
            unit,
        ),
        SpecExpr::Binary(left, operator, right) => settled(
            binary_outcome(value_of(*left, unit), operator.token_type, value_of(*right, unit)),
            unit,
        ),
    }
}

/// Number of nodes of a tree.
pub open spec fn size(expr: SpecExpr) -> nat
    decreases expr,
{
    match expr {
        SpecExpr::Literal(_) => 1,
        SpecExpr::Grouping(inner) => 1 + size(*inner),
        SpecExpr::Unary(_, operand) => 1 + size(*operand),
        SpecExpr::Binary(left, _, right) => 1 + size(*left) + size(*right),
    }
}

/// What the evaluator has in hand: a tree to reduce, or the value of the
/// tree that it reduced last.
#[derive(Debug)]
enum Control {
    Eval(Expr),
    Return(LiteralValue),
}

/// Mathematical model of the evaluator's focus.
pub ghost enum SpecControl {
    Eval(SpecExpr),
    Return(SpecValue),
}

impl View for Control {
    type V = SpecControl;

    closed spec fn view(&self) -> SpecControl {
        match self {
            Control::Eval(expr) => SpecControl::Eval(expr@),
            Control::Return(value) => SpecControl::Return(value@),
        }
    }
}

/// Work that waits for a value.
#[derive(Debug)]
enum Frame {
    /// A prefix operator waits for its operand.
    Operand(Token),
    /// A binary operator waits for its left operand; the right one is still
    /// a tree.
    Left(Token, Expr),
    /// A binary operator has its left operand and waits for the right one.
    Right(Token, LiteralValue),
    /// The value is to be negated.
    Not,
}

/// Mathematical model of a frame of the evaluator's stack.
pub ghost enum SpecFrame {
    Operand(SpecToken),
    Left(SpecToken, SpecExpr),
    Right(SpecToken, SpecValue),
    Not,
}

impl View for Frame {
    type V = SpecFrame;

    closed spec fn view(&self) -> SpecFrame {
        match self {
            Frame::Operand(operator) => SpecFrame::Operand(operator@),
            Frame::Left(operator, right) => SpecFrame::Left(operator@, right@),
            Frame::Right(operator, left) => SpecFrame::Right(operator@, left@),
            Frame::Not => SpecFrame::Not,
        }
    }
}

/// The evaluator, stopped at a question: the question it put, and the
/// stack of work that waits for the answer, innermost last.
#[derive(Debug)]
pub struct Interpreter {
    frames: Vec<Frame>,
    question: Question,
}

/// The answer is of the kind that the question asks for: a number for
/// arithmetic, a truth for a comparison.
pub open spec fn fits(question: Question, answer: Answer) -> bool {
    match question {
        Question::Negate(_)
        | Question::Subtract(_, _)
        | Question::Divide(_, _)
        | Question::Multiply(_, _)
        | Question::Add(_, _) => answer is Number,
        Question::Greater(_, _)
        | Question::GreaterEqual(_, _)
        | Question::Less(_, _)
        | Question::LessEqual(_, _)
        | Question::Equal(_, _) => answer is Truth,
    }
}

impl View for Interpreter {
    type V = Seq<SpecFrame>;

    closed spec fn view(&self) -> Seq<SpecFrame> {
        self.frames@.map_values(|frame: Frame| frame@)
    }
}

/// How a run of the evaluator ends.
#[derive(Debug)]
pub enum Evaluation {
    /// The tree is reduced to this value.
    Done(LiteralValue),
    /// The evaluator needs the answer to this question to go on.
    Pending(Interpreter, Question),
}

/// Mathematical model of an [`Evaluation`].
pub ghost enum SpecEvaluation {
    Done(SpecValue),
    Pending(Seq<SpecFrame>, Question),
}

impl View for Evaluation {
    type V = SpecEvaluation;

    open spec fn view(&self) -> SpecEvaluation {
        match self {
            Evaluation::Done(value) => SpecEvaluation::Done(value@),
            Evaluation::Pending(interpreter, question) => SpecEvaluation::Pending(
                interpreter@,
                *question,
            ),
        }
    }
}

/// Work that a frame stands for, as a number.
pub open spec fn frame_weight(frame: SpecFrame) -> nat {
    match frame {
        SpecFrame::Operand(_) => 3,
        SpecFrame::Left(_, right) => 4 * size(right) + 3,
        SpecFrame::Right(_, _) => 3,
        SpecFrame::Not => 1,
    }
}

/// Work that a stack stands for.
pub open spec fn stack_weight(frames: Seq<SpecFrame>) -> nat
    decreases frames.len(),
{
    if frames.len() == 0 {
        0
    } else {
        stack_weight(frames.drop_last()) + frame_weight(frames.last())
    }
}

/// Work that the focus stands for.
pub open spec fn control_weight(control: SpecControl) -> nat {
    match control {
        SpecControl::Eval(expr) => 4 * size(expr),
        SpecControl::Return(_) => 1,
    }
}

/// A frame on top of a stack adds its weight.
pub proof fn lemma_weight_push(frames: Seq<SpecFrame>, frame: SpecFrame)
    ensures
        stack_weight(frames.push(frame)) == stack_weight(frames) + frame_weight(frame),
{
    assert(frames.push(frame).drop_last() == frames);
}

/// The run of the evaluator from focus `control` under stack `frames`, up
/// to the first question or to the value.
pub open spec fn run(control: SpecControl, frames: Seq<SpecFrame>) -> SpecEvaluation
    decreases control_weight(control) + stack_weight(frames),
    via run_decreases
{
    match control {
        SpecControl::Eval(SpecExpr::Literal(value)) => run(SpecControl::Return(value), frames),
        SpecControl::Eval(SpecExpr::Grouping(inner)) => run(SpecControl::Eval(*inner), frames),
        SpecControl::Eval(SpecExpr::Unary(operator, operand)) => run(
            SpecControl::Eval(*operand),
            frames.push(SpecFrame::Operand(operator)),
        ),
        SpecControl::Eval(SpecExpr::Binary(left, operator, right)) => run(
            SpecControl::Eval(*left),
            frames.push(SpecFrame::Left(operator, *right)),
        ),
        SpecControl::Return(value) => if frames.len() == 0 {
            SpecEvaluation::Done(value)
        } else {
            let rest = frames.drop_last();
            match frames.last() {
                SpecFrame::Operand(operator) => match unary_outcome(operator.token_type, value) {
                    SpecOutcome::Value(result) => run(SpecControl::Return(result), rest),
                    SpecOutcome::Ask { question, negated } => SpecEvaluation::Pending(
                        suspended(rest, negated),
                        question,
                    ),
                },
                SpecFrame::Left(operator, right) => run(
                    SpecControl::Eval(right),
                    rest.push(SpecFrame::Right(operator, value)),
                ),
                SpecFrame::Right(operator, left) => match binary_outcome(
                    left,
                    operator.token_type,
                    value,
                ) {
                    SpecOutcome::Value(result) => run(SpecControl::Return(result), rest),
                    SpecOutcome::Ask { question, negated } => SpecEvaluation::Pending(
                        suspended(rest, negated),
                        question,
                    ),
                },
                SpecFrame::Not => run(SpecControl::Return(negation(value)), rest),
            }
        },
    }
}

/// The stack that waits for an answer: `rest`, under a negation if the
/// answer is to be negated.
pub open spec fn suspended(rest: Seq<SpecFrame>, negated: bool) -> Seq<SpecFrame> {
    if negated {
        rest.push(SpecFrame::Not)
    } else {
        rest
    }
}

#[via_fn]
proof fn run_decreases(control: SpecControl, frames: Seq<SpecFrame>) {
    match control {
        SpecControl::Eval(SpecExpr::Unary(operator, operand)) => {
            lemma_weight_push(frames, SpecFrame::Operand(operator));
        },
        SpecControl::Eval(SpecExpr::Binary(left, operator, right)) => {
            lemma_weight_push(frames, SpecFrame::Left(operator, *right));
        },
        SpecControl::Return(value) => {
            if frames.len() > 0 {
                if let SpecFrame::Left(operator, right) = frames.last() {
                    lemma_weight_push(frames.drop_last(), SpecFrame::Right(operator, value));
                }
            }
        },
        _ => {},
    }
}


impl Interpreter {
    /// The question that the evaluator stopped at.
    pub closed spec fn pending(&self) -> Question {
        self.question
    }

    /// The question that the evaluator stopped at.
    pub fn question(&self) -> (question: Question)
        ensures
            question == self.pending(),
    {
        self.question
    }

    /// Whether `answer` is of the kind that the pending question asks for.
    pub fn accepts(&self, answer: Answer) -> (yes: bool)
        ensures
            yes == fits(self.pending(), answer),
    {
        match self.question {
            Question::Negate(_)
            | Question::Subtract(_, _)
            | Question::Divide(_, _)
            | Question::Multiply(_, _)
            | Question::Add(_, _) => match answer {
                Answer::Number(_) => true,
                Answer::Truth(_) => false,
            },
            _ => match answer {
                Answer::Number(_) => false,
                Answer::Truth(_) => true,
            },
        }
    }

    /// Reduces `expr` as far as it goes without an answer: to its value, or
    /// to the first question.
    pub fn evaluate(expr: Expr) -> (result: Evaluation)
        ensures
            result@ == run(SpecControl::Eval(expr@), Seq::empty()),
            result matches Evaluation::Pending(waiting, question) ==> waiting.pending()
                == question,
            forall|unit: spec_fn(Question) -> Answer| #[trigger]
                meaning(result@, unit) == value_of(expr@, unit),
    {
        let frames: Vec<Frame> = Vec::new();
        proof {
            assert(frames@.map_values(|frame: Frame| frame@) =~= Seq::<SpecFrame>::empty());
            assert forall|unit: spec_fn(Question) -> Answer|
                meaning(#[trigger] run(SpecControl::Eval(expr@), Seq::empty()), unit) == value_of(
                    expr@,
                    unit,
                ) by {
                lemma_evaluate_sound(expr@, unit);
            }
        }
        Self::run(Control::Eval(expr), frames)
    }

    /// Goes on with the answer to the question that the evaluator stopped
    /// at: to the value of the tree, or to the next question. The answer is
    /// of the kind that the question asks for, so that a comparison comes out
    /// as `True` or `False` and arithmetic as a number.
    pub fn resume(self, answer: Answer) -> (result: Evaluation)
        requires
            fits(self.pending(), answer),
        ensures
            result@ == run(SpecControl::Return(answer_value(answer)), self@),
            result matches Evaluation::Pending(waiting, question) ==> waiting.pending()
                == question,
            forall|unit: spec_fn(Question) -> Answer| #[trigger]
                meaning(result@, unit) == plugged(self@, answer_value(answer), unit),
    {
        proof {
            assert forall|unit: spec_fn(Question) -> Answer|
                meaning(
                    #[trigger] run(SpecControl::Return(answer_value(answer)), self@),
                    unit,
                ) == plugged(self@, answer_value(answer), unit) by {
                lemma_run_sound(SpecControl::Return(answer_value(answer)), self@, unit);
            }
        }
        let value = match answer {
            Answer::Number(bits) => LiteralValue::Number(bits),
            Answer::Truth(true) => LiteralValue::True,
            Answer::Truth(false) => LiteralValue::False,
        };
        Self::run(Control::Return(value), self.frames)
    }

    fn run(control: Control, frames: Vec<Frame>) -> (result: Evaluation)
        ensures
            result@ == run(control@, frames@.map_values(|frame: Frame| frame@)),
            result matches Evaluation::Pending(waiting, question) ==> waiting.pending()
                == question,
    {
        let mut focus = control;
        let mut work = frames;
        loop
            invariant
                run(control@, frames@.map_values(|frame: Frame| frame@)) == run(
                    focus@,
                    work@.map_values(|frame: Frame| frame@),
                ),
            decreases control_weight(focus@) + stack_weight(
                work@.map_values(|frame: Frame| frame@),
            ),
        {
            let ghost stack = work@.map_values(|frame: Frame| frame@);
            match focus {
                Control::Eval(expr) => {
                    match expr {
                        Expr::Literal(value) => {
                            focus = Control::Return(value);
                        },
                        Expr::Grouping(inner) => {
                            focus = Control::Eval(*inner);
                        },
                        Expr::Unary(operator, operand) => {
                            let frame = Frame::Operand(operator);
                            proof {
                                lemma_weight_push(stack, frame@);
                                assert(work@.push(frame).map_values(|frame: Frame| frame@)
                                    =~= stack.push(frame@));
                            }
                            work.push(frame);
                            focus = Control::Eval(*operand);
                        },
                        Expr::Binary(left, operator, right) => {
                            let frame = Frame::Left(operator, *right);
                            proof {
                                lemma_weight_push(stack, frame@);
                                assert(work@.push(frame).map_values(|frame: Frame| frame@)
                                    =~= stack.push(frame@));
                            }
                            work.push(frame);
                            focus = Control::Eval(*left);
                        },
                    }
                },
                Control::Return(value) => {
                    let top = work.pop();
                    let ghost rest = work@.map_values(|frame: Frame| frame@);
                    proof {
                        if stack.len() > 0 {
                            assert(rest =~= stack.drop_last());
                        }
                    }
                    let outcome = match top {
                        None => {
                            return Evaluation::Done(value);
                        },
                        Some(Frame::Operand(operator)) => Self::evaluate_unary(operator, value),
                        Some(Frame::Left(operator, right)) => {
                            let frame = Frame::Right(operator, value);
                            proof {
                                lemma_weight_push(rest, frame@);
                                assert(work@.push(frame).map_values(|frame: Frame| frame@)
                                    =~= rest.push(frame@));
                            }
                            work.push(frame);
                            focus = Control::Eval(right);
                            continue ;
                        },
                        Some(Frame::Right(operator, left)) => Self::evaluate_binary(
                            left,
                            operator,
                            value,
                        ),
                        Some(Frame::Not) => Outcome::Value(Self::negate(value)),
                    };
                    match outcome {
                        Outcome::Value(result) => {
                            focus = Control::Return(result);
                        },
                        Outcome::Ask { question, negated } => {
                            if negated {
                                proof {
                                    assert(work@.push(Frame::Not).map_values(
                                        |frame: Frame| frame@,
                                    ) =~= rest.push(SpecFrame::Not));
                                }
                                work.push(Frame::Not);
                            }
                            let waiting = Interpreter { frames: work, question };
                            return Evaluation::Pending(waiting, question);
                        },
                    }
                },
            }
        }
    }

    /// Applies a binary operator to the values of its operands.
    pub fn evaluate_binary(
        left: LiteralValue,
        op: Token,
        right: LiteralValue,
    ) -> (outcome: Outcome)
        ensures
            outcome@ == binary_outcome(left@, op@.token_type, right@),
    {
        match op.token_type {
            TokenType::Minus => {
                if let LiteralValue::Number(left) = left {
                    if let LiteralValue::Number(right) = right {
                        return Outcome::Ask {
                            question: Question::Subtract(left, right),
                            negated: false,
                        };
                    }
                }
                Outcome::Value(LiteralValue::Nil)
            },
            TokenType::Slash => {
                if let LiteralValue::Number(left) = left {
                    if let LiteralValue::Number(right) = right {
                        return Outcome::Ask {
                            question: Question::Divide(left, right),
                            negated: false,
                        };
                    }
                }
                Outcome::Value(LiteralValue::Nil)
            },
            TokenType::Star => {
                if let LiteralValue::Number(left) = left {
                    if let LiteralValue::Number(right) = right {
                        return Outcome::Ask {
                            question: Question::Multiply(left, right),
                            negated: false,
                        };
                    }
                }
                Outcome::Value(LiteralValue::Nil)
            },
            TokenType::Plus => {
                if let LiteralValue::String(left) = left {
                    if let LiteralValue::String(right) = right {
                        return Outcome::Value(LiteralValue::String(left.concat(right.as_str())));
                    }
                } else if let LiteralValue::Number(left) = left {
                    if let LiteralValue::Number(right) = right {
                        return Outcome::Ask {
                            question: Question::Add(left, right),
                            negated: false,
                        };
                    }
                }
                Outcome::Value(LiteralValue::Nil)
            },
            TokenType::Greater => {
                if let LiteralValue::Number(left) = left {
                    if let LiteralValue::Number(right) = right {
                        return Outcome::Ask {
                            question: Question::Greater(left, right),
                            negated: false,
                        };
                    }
                }
                Outcome::Value(LiteralValue::Nil)
            },
            TokenType::GreaterEqual => {
                if let LiteralValue::Number(left) = left {
                    if let LiteralValue::Number(right) = right {
                        return Outcome::Ask {
                            question: Question::GreaterEqual(left, right),
                            negated: false,
                        };
                    }
                }
                Outcome::Value(LiteralValue::Nil)
            },
            TokenType::Less => {
                if let LiteralValue::Number(left) = left {
                    if let LiteralValue::Number(right) = right {
                        return Outcome::Ask {
                            question: Question::Less(left, right),
                            negated: false,
                        };
                    }
                }
                Outcome::Value(LiteralValue::Nil)
            },
            TokenType::LessEqual => {
                if let LiteralValue::Number(left) = left {
                    if let LiteralValue::Number(right) = right {
                        return Outcome::Ask {
                            question: Question::LessEqual(left, right),
                            negated: false,
                        };
                    }
                }
                Outcome::Value(LiteralValue::Nil)
            },
            TokenType::EqualEqual => Self::equals(left, right),
            TokenType::BangEqual => match Self::equals(left, right) {
                Outcome::Value(value) => Outcome::Value(Self::negate(value)),
                Outcome::Ask { question, negated } => Outcome::Ask { question, negated: !negated },
            },
            _ => Outcome::Value(LiteralValue::Nil),
        }
    }

    /// Applies a prefix operator to the value of its operand.
    pub fn evaluate_unary(op: Token, value: LiteralValue) -> (outcome: Outcome)
        ensures
            outcome@ == unary_outcome(op@.token_type, value@),
    {
        match op.token_type {
            TokenType::Bang => Outcome::Value(Self::is_falsy(value)),
            TokenType::Minus => {
                if let LiteralValue::Number(value) = value {
                    return Outcome::Ask { question: Question::Negate(value), negated: false };
                }
                Outcome::Value(LiteralValue::Nil)
            },
            _ => Outcome::Value(LiteralValue::Nil),
        }
    }

    /// Structural equality of two values.
    pub fn equals(left: LiteralValue, right: LiteralValue) -> (outcome: Outcome)
        ensures
            outcome@ == equality(left@, right@),
    {
        match (left, right) {
            (LiteralValue::Nil, LiteralValue::Nil) => Outcome::Value(LiteralValue::True),
            (LiteralValue::True, LiteralValue::True) => Outcome::Value(LiteralValue::True),
            (LiteralValue::False, LiteralValue::False) => Outcome::Value(LiteralValue::True),
            (LiteralValue::Number(left), LiteralValue::Number(right)) => Outcome::Ask {
                question: Question::Equal(left, right),
                negated: false,
            },
            (LiteralValue::String(left), LiteralValue::String(right)) => {
                if left == right {
                    return Outcome::Value(LiteralValue::True);
                }
                Outcome::Value(LiteralValue::False)
            },
            _ => Outcome::Value(LiteralValue::False),
        }
    }

    /// Logical negation of a value.
    pub fn negate(value: LiteralValue) -> (result: LiteralValue)
        ensures
            result@ == negation(value@),
    {
        match value {
            LiteralValue::False | LiteralValue::Nil => LiteralValue::True,
            _ => LiteralValue::False,
        }
    }

    /// The truthiness of a value, as `True` or `False`.
    pub fn is_truthy(value: LiteralValue) -> (result: LiteralValue)
        ensures
            result@ == truthiness(value@),
    {
        match value {
            LiteralValue::False | LiteralValue::Nil => LiteralValue::False,
            _ => LiteralValue::True,
        }
    }

    /// The negation of a value's truthiness: what `!` gives.
    pub fn is_falsy(value: LiteralValue) -> (result: LiteralValue)
        ensures
            result@ == negation(truthiness(value@)),
    {
        Self::negate(Self::is_truthy(value))
    }
}


/// The value that the stack `frames` comes to once the work on its top
/// receives `value`, when `unit` answers the questions.
pub open spec fn plugged(
    frames: Seq<SpecFrame>,
    value: SpecValue,
    unit: spec_fn(Question) -> Answer,
) -> SpecValue
    decreases frames.len(),
{
    if frames.len() == 0 {
        value
    } else {
        let rest = frames.drop_last();
        match frames.last() {
            SpecFrame::Operand(operator) => plugged(
                rest,
                settled(unary_outcome(operator.token_type, value), unit),
                unit,
            ),
            SpecFrame::Left(operator, right) => plugged(
                rest,
                settled(
                    binary_outcome(value, operator.token_type, value_of(right, unit)),
                    unit,
                ),
                unit,
            ),
            SpecFrame::Right(operator, left) => plugged(
                rest,
                settled(binary_outcome(left, operator.token_type, value), unit),
                unit,
            ),
            SpecFrame::Not => plugged(rest, negation(value), unit),
        }
    }
}

/// The value of the evaluator's focus when `unit` answers the questions.
pub open spec fn control_value(
    control: SpecControl,
    unit: spec_fn(Question) -> Answer,
) -> SpecValue {
    match control {
        SpecControl::Eval(expr) => value_of(expr, unit),
        SpecControl::Return(value) => value,
    }
}

/// The value that an evaluation stands for when `unit` answers the
/// questions: the value itself, or what the waiting stack makes of the
/// answer to the pending question.
pub open spec fn meaning(
    evaluation: SpecEvaluation,
    unit: spec_fn(Question) -> Answer,
) -> SpecValue {
    match evaluation {
        SpecEvaluation::Done(value) => value,
        SpecEvaluation::Pending(frames, question) => plugged(
            frames,
            answer_value(unit(question)),
            unit,
        ),
    }
}

proof fn lemma_plugged_push(
    frames: Seq<SpecFrame>,
    frame: SpecFrame,
    value: SpecValue,
    unit: spec_fn(Question) -> Answer,
)
    ensures
        plugged(frames.push(frame), value, unit) == match frame {
            SpecFrame::Operand(operator) => plugged(
                frames,
                settled(unary_outcome(operator.token_type, value), unit),
                unit,
            ),
            SpecFrame::Left(operator, right) => plugged(
                frames,
                settled(
                    binary_outcome(value, operator.token_type, value_of(right, unit)),
                    unit,
                ),
                unit,
            ),
            SpecFrame::Right(operator, left) => plugged(
                frames,
                settled(binary_outcome(left, operator.token_type, value), unit),
                unit,
            ),
            SpecFrame::Not => plugged(frames, negation(value), unit),
        },
{
    assert(frames.push(frame).drop_last() == frames);
}

/// A run keeps the meaning: whatever it ends in, a value or a question,
/// stands for the value that the stack makes of the focus.
pub proof fn lemma_run_sound(
    control: SpecControl,
    frames: Seq<SpecFrame>,
    unit: spec_fn(Question) -> Answer,
)
    ensures
        meaning(run(control, frames), unit) == plugged(frames, control_value(control, unit), unit),
    decreases control_weight(control) + stack_weight(frames),
{
    match control {
        SpecControl::Eval(SpecExpr::Literal(value)) => {
            lemma_run_sound(SpecControl::Return(value), frames, unit);
        },
        SpecControl::Eval(SpecExpr::Grouping(inner)) => {
            lemma_run_sound(SpecControl::Eval(*inner), frames, unit);
        },
        SpecControl::Eval(SpecExpr::Unary(operator, operand)) => {
            let frame = SpecFrame::Operand(operator);
            lemma_weight_push(frames, frame);
            lemma_run_sound(SpecControl::Eval(*operand), frames.push(frame), unit);
            lemma_plugged_push(frames, frame, value_of(*operand, unit), unit);
        },
        SpecControl::Eval(SpecExpr::Binary(left, operator, right)) => {
            let frame = SpecFrame::Left(operator, *right);
            lemma_weight_push(frames, frame);
            lemma_run_sound(SpecControl::Eval(*left), frames.push(frame), unit);
            lemma_plugged_push(frames, frame, value_of(*left, unit), unit);
        },
        SpecControl::Return(value) => {
            if frames.len() > 0 {
                let rest = frames.drop_last();
                match frames.last() {
                    SpecFrame::Operand(operator) => {
                        match unary_outcome(operator.token_type, value) {
                            SpecOutcome::Value(result) => {
                                lemma_run_sound(SpecControl::Return(result), rest, unit);
                            },
                            SpecOutcome::Ask { question, negated } => {
                                if negated {
                                    lemma_plugged_push(
                                        rest,
                                        SpecFrame::Not,
                                        answer_value(unit(question)),
                                        unit,
                                    );
                                }
                            },
                        }
                    },
                    SpecFrame::Left(operator, right) => {
                        let frame = SpecFrame::Right(operator, value);
                        lemma_weight_push(rest, frame);
                        lemma_run_sound(SpecControl::Eval(right), rest.push(frame), unit);
                        lemma_plugged_push(rest, frame, value_of(right, unit), unit);
                    },
                    SpecFrame::Right(operator, left) => {
                        match binary_outcome(left, operator.token_type, value) {
                            SpecOutcome::Value(result) => {
                                lemma_run_sound(SpecControl::Return(result), rest, unit);
                            },
                            SpecOutcome::Ask { question, negated } => {
                                if negated {
                                    lemma_plugged_push(
                                        rest,
                                        SpecFrame::Not,
                                        answer_value(unit(question)),
                                        unit,
                                    );
                                }
                            },
                        }
                    },
                    SpecFrame::Not => {
                        lemma_run_sound(SpecControl::Return(negation(value)), rest, unit);
                    },
                }
            }
        },
    }
}

/// Evaluation is sound. What [`Interpreter::evaluate`] ends in stands for
/// the value of the expression, whatever unit answers the questions.
pub proof fn lemma_evaluate_sound(expr: SpecExpr, unit: spec_fn(Question) -> Answer)
    ensures
        meaning(run(SpecControl::Eval(expr), Seq::empty()), unit) == value_of(expr, unit),
{
    lemma_run_sound(SpecControl::Eval(expr), Seq::empty(), unit);
}

/// Going on is sound. If the question was answered as `unit` answers it,
/// what [`Interpreter::resume`] ends in stands for the same value as the
/// evaluation that put the question.
pub proof fn lemma_resume_sound(
    frames: Seq<SpecFrame>,
    question: Question,
    unit: spec_fn(Question) -> Answer,
)
    ensures
        meaning(run(SpecControl::Return(answer_value(unit(question))), frames), unit) == meaning(
            SpecEvaluation::Pending(frames, question),
            unit,
        ),
{
    lemma_run_sound(SpecControl::Return(answer_value(unit(question))), frames, unit);
}

/// Every question is progress. The stack that waits for an answer stands
/// for less work than the state that the run started from, so an evaluation
/// puts finitely many questions.
pub proof fn lemma_run_progress(control: SpecControl, frames: Seq<SpecFrame>)
    ensures
        run(control, frames) matches SpecEvaluation::Pending(waiting, _) ==> control_weight(
            SpecControl::Return(SpecValue::Nil),
        ) + stack_weight(waiting) < control_weight(control) + stack_weight(frames),
    decreases control_weight(control) + stack_weight(frames),
{
    match control {
        SpecControl::Eval(SpecExpr::Literal(value)) => {
            lemma_run_progress(SpecControl::Return(value), frames);
        },
        SpecControl::Eval(SpecExpr::Grouping(inner)) => {
            lemma_run_progress(SpecControl::Eval(*inner), frames);
        },
        SpecControl::Eval(SpecExpr::Unary(operator, operand)) => {
            let frame = SpecFrame::Operand(operator);
            lemma_weight_push(frames, frame);
            lemma_run_progress(SpecControl::Eval(*operand), frames.push(frame));
        },
        SpecControl::Eval(SpecExpr::Binary(left, operator, right)) => {
            let frame = SpecFrame::Left(operator, *right);
            lemma_weight_push(frames, frame);
            lemma_run_progress(SpecControl::Eval(*left), frames.push(frame));
        },
        SpecControl::Return(value) => {
            if frames.len() > 0 {
                let rest = frames.drop_last();
                lemma_weight_push(rest, SpecFrame::Not);
                match frames.last() {
                    SpecFrame::Operand(operator) => {
                        if let SpecOutcome::Value(result) = unary_outcome(
                            operator.token_type,
                            value,
                        ) {
                            lemma_run_progress(SpecControl::Return(result), rest);
                        }
                    },
                    SpecFrame::Left(operator, right) => {
                        let frame = SpecFrame::Right(operator, value);
                        lemma_weight_push(rest, frame);
                        lemma_run_progress(SpecControl::Eval(right), rest.push(frame));
                    },
                    SpecFrame::Right(operator, left) => {
                        if let SpecOutcome::Value(result) = binary_outcome(
                            left,
                            operator.token_type,
                            value,
                        ) {
                            lemma_run_progress(SpecControl::Return(result), rest);
                        }
                    },
                    SpecFrame::Not => {
                        lemma_run_progress(SpecControl::Return(negation(value)), rest);
                    },
                }
            }
        },
    }
}

/// The tree holds no number literal.
pub open spec fn number_free(expr: SpecExpr) -> bool
    decreases expr,
{
    match expr {
        SpecExpr::Literal(value) => value !is Number,
        SpecExpr::Grouping(inner) => number_free(*inner),
        SpecExpr::Unary(_, operand) => number_free(*operand),
        SpecExpr::Binary(left, _, right) => number_free(*left) && number_free(*right),
    }
}

/// No frame of the stack holds a number or a tree with a number literal.
spec fn stack_number_free(frames: Seq<SpecFrame>) -> bool {
    forall|i: int|
        0 <= i < frames.len() ==> match #[trigger] frames[i] {
            SpecFrame::Left(_, right) => number_free(right),
            SpecFrame::Right(_, left) => left !is Number,
            _ => true,
        }
}

proof fn lemma_number_free_run(control: SpecControl, frames: Seq<SpecFrame>)
    requires
        match control {
            SpecControl::Eval(expr) => number_free(expr),
            SpecControl::Return(value) => value !is Number,
        },
        stack_number_free(frames),
    ensures
        run(control, frames) is Done,
    decreases control_weight(control) + stack_weight(frames),
{
    match control {
        SpecControl::Eval(SpecExpr::Literal(value)) => {
            lemma_number_free_run(SpecControl::Return(value), frames);
        },
        SpecControl::Eval(SpecExpr::Grouping(inner)) => {
            lemma_number_free_run(SpecControl::Eval(*inner), frames);
        },
        SpecControl::Eval(SpecExpr::Unary(operator, operand)) => {
            let frame = SpecFrame::Operand(operator);
            lemma_weight_push(frames, frame);
            lemma_number_free_run(SpecControl::Eval(*operand), frames.push(frame));
        },
        SpecControl::Eval(SpecExpr::Binary(left, operator, right)) => {
            let frame = SpecFrame::Left(operator, *right);
            lemma_weight_push(frames, frame);
            lemma_number_free_run(SpecControl::Eval(*left), frames.push(frame));
        },
        SpecControl::Return(value) => {
            if frames.len() > 0 {
                let rest = frames.drop_last();
                assert(stack_number_free(rest)) by {
                    assert forall|i: int| 0 <= i < rest.len() implies match #[trigger] rest[i] {
                        SpecFrame::Left(_, right) => number_free(right),
                        SpecFrame::Right(_, left) => left !is Number,
                        _ => true,
                    } by {
                        assert(rest[i] == frames[i]);
                    }
                }
                match frames.last() {
                    SpecFrame::Operand(operator) => {
                        let outcome = unary_outcome(operator.token_type, value);
                        lemma_number_free_run(SpecControl::Return(outcome->Value_0), rest);
                    },
                    SpecFrame::Left(operator, right) => {
                        let frame = SpecFrame::Right(operator, value);
                        lemma_weight_push(rest, frame);
                        lemma_number_free_run(SpecControl::Eval(right), rest.push(frame));
                    },
                    SpecFrame::Right(operator, left) => {
                        let outcome = binary_outcome(left, operator.token_type, value);
                        lemma_number_free_run(SpecControl::Return(outcome->Value_0), rest);
                    },
                    SpecFrame::Not => {
                        lemma_number_free_run(SpecControl::Return(negation(value)), rest);
                    },
                }
            }
        },
    }
}

/// No numbers, no questions. A tree without a number literal is reduced to
/// its value in one run, and no unit has a say in that value.
pub proof fn lemma_number_free(expr: SpecExpr, unit: spec_fn(Question) -> Answer)
    requires
        number_free(expr),
    ensures
        run(SpecControl::Eval(expr), Seq::empty()) == SpecEvaluation::Done(value_of(expr, unit)),
{
    lemma_number_free_run(SpecControl::Eval(expr), Seq::empty());
    lemma_evaluate_sound(expr, unit);
}

} // verus!
