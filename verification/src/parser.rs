//! The parser: tokens to one expression tree.
//!
//! The grammar, from lowest to highest precedence:
//!
//! ```text
//! expression → equality
//! equality   → comparison ( ( "!=" | "==" ) comparison )*
//! comparison → term ( ( ">" | ">=" | "<" | "<=" ) term )*
//! term       → factor ( ( "-" | "+" ) factor )*
//! factor     → unary ( ( "/" | "*" ) unary )*
//! unary      → ( "!" | "-" ) unary | primary
//! primary    → NUMBER | STRING | "true" | "false" | "nil" | "(" expression ")"
//! ```

use vstd::prelude::*;
use vstd::string::StringExecFns;
use crate::error::{parsing_error, Error, SpecError};
use crate::expr::{Expr, LiteralValue, SpecExpr, SpecValue};
use crate::shape::{lemma_parsed_shape, well_shaped};
use crate::token::{token_views, SpecToken, SpecTokenType, Token, TokenType};

verus! {

/// What parsing from some position gives: the tree or the first syntax
/// error, and the number of tokens taken on the way.
pub ghost struct Parsed {
    pub result: Result<SpecExpr, SpecError>,
    pub used: nat,
}

impl Parsed {
    /// The same result after `n` more tokens were taken before it.
    pub open spec fn after(self, n: nat) -> Parsed {
        Parsed { result: self.result, used: self.used + n }
    }
}

/// The four levels of left-associative binary operators.
pub ghost enum Level {
    Equality,
    Comparison,
    Term,
    Factor,
}

impl Level {
    /// Whether a token of type `token_type` is an operator of this level.
    pub open spec fn has_operator(self, token_type: SpecTokenType) -> bool {
        match self {
            Level::Equality => token_type is BangEqual || token_type is EqualEqual,
            Level::Comparison => token_type is Greater || token_type is GreaterEqual
                || token_type is Less || token_type is LessEqual,
            Level::Term => token_type is Minus || token_type is Plus,
            Level::Factor => token_type is Slash || token_type is Star,
        }
    }

    /// Height of the level above `unary`.
    pub open spec fn rank(self) -> nat {
        match self {
            Level::Equality => 4,
            Level::Comparison => 3,
            Level::Term => 2,
            Level::Factor => 1,
        }
    }
}

/// Number of tokens at and after `pos`.
pub open spec fn tokens_left(tokens: Seq<SpecToken>, pos: nat) -> nat {
    if pos <= tokens.len() {
        (tokens.len() - pos) as nat
    } else {
        0
    }
}

/// The input is exhausted at `pos`: the token there is the terminal token,
/// or there is none.
pub open spec fn at_end(tokens: Seq<SpecToken>, pos: nat) -> bool {
    pos >= tokens.len() || tokens[pos as int].token_type is EOF
}

/// The token at `pos` is an operator of `level`.
pub open spec fn operator_at(tokens: Seq<SpecToken>, level: Level, pos: nat) -> bool {
    pos < tokens.len() && level.has_operator(tokens[pos as int].token_type)
}

/// The token at `pos` is a prefix operator, `!` or `-`.
pub open spec fn prefix_at(tokens: Seq<SpecToken>, pos: nat) -> bool {
    pos < tokens.len() && (tokens[pos as int].token_type is Bang
        || tokens[pos as int].token_type is Minus)
}

/// Message of the error for a position where no expression starts.
pub open spec fn expected_expression() -> Seq<char> {
    "Expected Expression"@
}

/// Message of the error for a group that is not closed.
pub open spec fn expected_paren() -> Seq<char> {
    "Expect ')' after expression."@
}

/// `expression → equality`
pub open spec fn expression(tokens: Seq<SpecToken>, pos: nat) -> Parsed
    decreases tokens_left(tokens, pos), 10nat,
{
    binary(tokens, Level::Equality, pos)
}

/// One binary level: an operand of the next higher level, then any number
/// of operators of this level, each with its right operand, folded to the
/// left.
pub open spec fn binary(tokens: Seq<SpecToken>, level: Level, pos: nat) -> Parsed
    decreases tokens_left(tokens, pos), 2 * level.rank() + 1,
{
    let first = operand(tokens, level, pos);
    match first.result {
        Ok(left) => binary_rest(tokens, level, left, pos + first.used).after(first.used),
        Err(_) => first,
    }
}

/// An operand of `level`: the next higher level, `unary` above `factor`.
pub open spec fn operand(tokens: Seq<SpecToken>, level: Level, pos: nat) -> Parsed
    decreases tokens_left(tokens, pos), 2 * level.rank(),
{
    match level {
        Level::Equality => binary(tokens, Level::Comparison, pos),
        Level::Comparison => binary(tokens, Level::Term, pos),
        Level::Term => binary(tokens, Level::Factor, pos),
        Level::Factor => unary(tokens, pos),
    }
}

/// What follows a left operand `left` that ends before `pos`: while the
/// token at hand is an operator of `level`, it and the operand after it are
/// folded into the tree on their left.
pub open spec fn binary_rest(
    tokens: Seq<SpecToken>,
    level: Level,
    left: SpecExpr,
    pos: nat,
) -> Parsed
    decreases tokens_left(tokens, pos), 2 * level.rank(),
{
    if operator_at(tokens, level, pos) {
        let right = operand(tokens, level, pos + 1);
        match right.result {
            Ok(tree) => binary_rest(
                tokens,
                level,
                SpecExpr::Binary(Box::new(left), tokens[pos as int], Box::new(tree)),
                pos + 1 + right.used,
            ).after(1 + right.used),
            Err(_) => right.after(1),
        }
    } else {
        Parsed { result: Ok(left), used: 0 }
    }
}

/// `unary → ( "!" | "-" ) unary | primary`
pub open spec fn unary(tokens: Seq<SpecToken>, pos: nat) -> Parsed
    decreases tokens_left(tokens, pos), 1nat,
{
    if prefix_at(tokens, pos) {
        let inner = unary(tokens, pos + 1);
        match inner.result {
            Ok(tree) => Parsed {
                result: Ok(SpecExpr::Unary(tokens[pos as int], Box::new(tree))),
                used: 1 + inner.used,
            },
            Err(_) => inner.after(1),
        }
    } else {
        primary(tokens, pos)
    }
}

/// `primary → NUMBER | STRING | "true" | "false" | "nil" | "(" expression ")"`
///
/// A group that the input ends in needs no closing parenthesis: at the end
/// of the input the demand for one counts as met.
pub open spec fn primary(tokens: Seq<SpecToken>, pos: nat) -> Parsed
    decreases tokens_left(tokens, pos), 0nat,
{
    let nothing = Parsed { result: Err(parsing_error(expected_expression())), used: 0 };
    if pos >= tokens.len() {
        nothing
    } else {
        match tokens[pos as int].token_type {
            SpecTokenType::False => Parsed {
                result: Ok(SpecExpr::Literal(SpecValue::False)),
                used: 1,
            },
            SpecTokenType::True => Parsed {
                result: Ok(SpecExpr::Literal(SpecValue::True)),
                used: 1,
            },
            SpecTokenType::Nil => Parsed { result: Ok(SpecExpr::Literal(SpecValue::Nil)), used: 1 },
            SpecTokenType::Number(bits) => Parsed {
                result: Ok(SpecExpr::Literal(SpecValue::Number(bits))),
                used: 1,
            },
            SpecTokenType::String(text) => Parsed {
                result: Ok(SpecExpr::Literal(SpecValue::String(text))),
                used: 1,
            },
            SpecTokenType::LeftParen => {
                let inner = expression(tokens, pos + 1);
                let close = pos + 1 + inner.used;
                match inner.result {
                    Ok(tree) => if at_end(tokens, close) {
                        Parsed {
                            result: Ok(SpecExpr::Grouping(Box::new(tree))),
                            used: 1 + inner.used,
                        }
                    } else if tokens[close as int].token_type is RightParen {
                        Parsed {
                            result: Ok(SpecExpr::Grouping(Box::new(tree))),
                            used: 2 + inner.used,
                        }
                    } else {
                        Parsed {
                            result: Err(parsing_error(expected_paren())),
                            used: 1 + inner.used,
                        }
                    },
                    Err(_) => inner.after(1),
                }
            },
            _ => nothing,
        }
    }
}

/// One turn of a binary level's loop: at an operator, the rest is the right
/// operand's failure, or the rest after the tree that the operator builds.
proof fn lemma_rest_step(tokens: Seq<SpecToken>, level: Level, left: SpecExpr, pos: nat)
    requires
        operator_at(tokens, level, pos),
    ensures
        ({
            let right = operand(tokens, level, pos + 1);
            binary_rest(tokens, level, left, pos) == match right.result {
                Ok(tree) => binary_rest(
                    tokens,
                    level,
                    SpecExpr::Binary(Box::new(left), tokens[pos as int], Box::new(tree)),
                    pos + 1 + right.used,
                ).after(1 + right.used),
                Err(_) => right.after(1),
            }
        }),
        operand(tokens, Level::Equality, pos + 1) == binary(tokens, Level::Comparison, pos + 1),
        operand(tokens, Level::Comparison, pos + 1) == binary(tokens, Level::Term, pos + 1),
        operand(tokens, Level::Term, pos + 1) == binary(tokens, Level::Factor, pos + 1),
        operand(tokens, Level::Factor, pos + 1) == unary(tokens, pos + 1),
{
}

/// A token at which a statement starts.
pub open spec fn starts_statement(token_type: SpecTokenType) -> bool {
    token_type is Func || token_type is Var || token_type is For || token_type is If
        || token_type is While || token_type is Print || token_type is Return
}

/// A position at which [`Parser::synchronize`] stops: the end of the input,
/// just after a `;`, or just before a token that starts a statement.
pub open spec fn is_boundary(tokens: Seq<SpecToken>, pos: nat) -> bool {
    ||| at_end(tokens, pos)
    ||| pos > 0 && tokens[pos - 1].token_type is SemiColon
    ||| starts_statement(tokens[pos as int].token_type)
}

/// The parser's state: the tokens and the position of the token at hand.
#[derive(Debug)]
pub struct Parser {
    tokens: Vec<Token>,
    current: usize,
}

/// Mathematical model of a [`Parser`].
pub ghost struct SpecParser {
    pub tokens: Seq<SpecToken>,
    pub position: nat,
}

impl View for Parser {
    type V = SpecParser;

    closed spec fn view(&self) -> SpecParser {
        SpecParser { tokens: token_views(self.tokens@), position: self.current as nat }
    }
}

/// `result` is the outcome `parsed`, tree for tree or error for error.
pub open spec fn agrees(result: Result<Expr, Error>, parsed: Parsed) -> bool {
    match result {
        Ok(tree) => parsed.result == Ok::<SpecExpr, SpecError>(tree@),
        Err(error) => parsed.result == Err::<SpecExpr, SpecError>(error@),
    }
}

impl Parser {
    /// The parser's invariant: the position is at most the number of tokens.
    pub closed spec fn wf(&self) -> bool {
        self.current <= self.tokens.len()
    }

    /// `self` went from `before` to here by the parse `parsed`: the tokens are
    /// the same and the position has moved over the tokens that were taken.
    pub open spec fn moved(&self, before: &Parser, parsed: Parsed) -> bool {
        &&& self.wf()
        &&& self@.tokens == before@.tokens
        &&& self@.position == before@.position + parsed.used
    }

    /// A parser at the first of `tokens`.
    pub fn from(tokens: Vec<Token>) -> (parser: Self)
        ensures
            parser.wf(),
            parser@ == (SpecParser { tokens: token_views(tokens@), position: 0 }),
    {
        Parser { tokens, current: 0 }
    }

    /// Parses one expression from the position at hand: the tree that the
    /// grammar gives, or the first syntax error. The tree is well shaped.
    pub fn parse(&mut self) -> (result: Result<Expr, Error>)
        requires
            old(self).wf(),
        ensures
            final(self).moved(old(self), expression(old(self)@.tokens, old(self)@.position)),
            agrees(result, expression(old(self)@.tokens, old(self)@.position)),
            result matches Ok(tree) ==> well_shaped(tree@),
    {
        proof {
            lemma_parsed_shape(self@.tokens, self@.position);
        }
        self.expression()
    }

    fn expression(&mut self) -> (result: Result<Expr, Error>)
        requires
            old(self).wf(),
        ensures
            final(self).moved(old(self), expression(old(self)@.tokens, old(self)@.position)),
            agrees(result, expression(old(self)@.tokens, old(self)@.position)),
        decreases old(self).tokens.len() - old(self).current, 10nat,
    {
        self.equality()
    }

    fn equality(&mut self) -> (result: Result<Expr, Error>)
        requires
            old(self).wf(),
        ensures
            final(self).moved(
                old(self),
                binary(old(self)@.tokens, Level::Equality, old(self)@.position),
            ),
            agrees(result, binary(old(self)@.tokens, Level::Equality, old(self)@.position)),
        decreases old(self).tokens.len() - old(self).current, 9nat,
    {
        let ghost tokens = self@.tokens;
        let ghost start = self@.position;
        let mut expr = match self.comparison() {
            Ok(tree) => tree,
            Err(error) => {
                return Err(error);
            },
        };
        loop
            invariant
                self.wf(),
                self@.tokens == tokens,
                tokens == old(self)@.tokens,
                start == old(self)@.position,
                start <= self@.position,
                binary(tokens, Level::Equality, start) == binary_rest(
                    tokens,
                    Level::Equality,
                    expr@,
                    self@.position,
                ).after((self@.position - start) as nat),
            ensures
                self.wf(),
                self@.tokens == tokens,
                start <= self@.position,
                binary(tokens, Level::Equality, start) == (Parsed {
                    result: Ok(expr@),
                    used: (self@.position - start) as nat,
                }),
            decreases self.tokens.len() - self.current,
        {
            let operators = [TokenType::BangEqual, TokenType::EqualEqual];
            let ghost pos = self@.position;
            let matched = self.match_tokens(&operators);
            proof {
                if operator_at(tokens, Level::Equality, pos) {
                    lemma_rest_step(tokens, Level::Equality, expr@, pos);
                }
                assert(matched == operator_at(tokens, Level::Equality, pos)) by {
                    assert(operators@[0]@ is BangEqual);
                    assert(operators@[1]@ is EqualEqual);
                }
            }
            if !matched {
                break ;
            }
            let op = self.previous();
            let right = match self.comparison() {
                Ok(tree) => tree,
                Err(error) => {
                    return Err(error);
                },
            };
            expr = Expr::Binary(Box::new(expr), op, Box::new(right));
        }
        Ok(expr)
    }

    fn comparison(&mut self) -> (result: Result<Expr, Error>)
        requires
            old(self).wf(),
        ensures
            final(self).moved(
                old(self),
                binary(old(self)@.tokens, Level::Comparison, old(self)@.position),
            ),
            agrees(result, binary(old(self)@.tokens, Level::Comparison, old(self)@.position)),
        decreases old(self).tokens.len() - old(self).current, 7nat,
    {
        let ghost tokens = self@.tokens;
        let ghost start = self@.position;
        let mut expr = match self.term() {
            Ok(tree) => tree,
            Err(error) => {
                return Err(error);
            },
        };
        loop
            invariant
                self.wf(),
                self@.tokens == tokens,
                tokens == old(self)@.tokens,
                start == old(self)@.position,
                start <= self@.position,
                binary(tokens, Level::Comparison, start) == binary_rest(
                    tokens,
                    Level::Comparison,
                    expr@,
                    self@.position,
                ).after((self@.position - start) as nat),
            ensures
                self.wf(),
                self@.tokens == tokens,
                start <= self@.position,
                binary(tokens, Level::Comparison, start) == (Parsed {
                    result: Ok(expr@),
                    used: (self@.position - start) as nat,
                }),
            decreases self.tokens.len() - self.current,
        {
            let operators = [
                TokenType::Greater,
                TokenType::GreaterEqual,
                TokenType::Less,
                TokenType::LessEqual,
            ];
            let ghost pos = self@.position;
            let matched = self.match_tokens(&operators);
            proof {
                if operator_at(tokens, Level::Comparison, pos) {
                    lemma_rest_step(tokens, Level::Comparison, expr@, pos);
                }
                assert(matched == operator_at(tokens, Level::Comparison, pos)) by {
                    assert(operators@[0]@ is Greater);
                    assert(operators@[1]@ is GreaterEqual);
                    assert(operators@[2]@ is Less);
                    assert(operators@[3]@ is LessEqual);
                }
            }
            if !matched {
                break ;
            }
            let op = self.previous();
            let right = match self.term() {
                Ok(tree) => tree,
                Err(error) => {
                    return Err(error);
                },
            };
            expr = Expr::Binary(Box::new(expr), op, Box::new(right));
        }
        Ok(expr)
    }

    fn term(&mut self) -> (result: Result<Expr, Error>)
        requires
            old(self).wf(),
        ensures
            final(self).moved(
                old(self),
                binary(old(self)@.tokens, Level::Term, old(self)@.position),
            ),
            agrees(result, binary(old(self)@.tokens, Level::Term, old(self)@.position)),
        decreases old(self).tokens.len() - old(self).current, 5nat,
    {
        let ghost tokens = self@.tokens;
        let ghost start = self@.position;
        let mut expr = match self.factor() {
            Ok(tree) => tree,
            Err(error) => {
                return Err(error);
            },
        };
        loop
            invariant
                self.wf(),
                self@.tokens == tokens,
                tokens == old(self)@.tokens,
                start == old(self)@.position,
                start <= self@.position,
                binary(tokens, Level::Term, start) == binary_rest(
                    tokens,
                    Level::Term,
                    expr@,
                    self@.position,
                ).after((self@.position - start) as nat),
            ensures
                self.wf(),
                self@.tokens == tokens,
                start <= self@.position,
                binary(tokens, Level::Term, start) == (Parsed {
                    result: Ok(expr@),
                    used: (self@.position - start) as nat,
                }),
            decreases self.tokens.len() - self.current,
        {
            let operators = [TokenType::Minus, TokenType::Plus];
            let ghost pos = self@.position;
            let matched = self.match_tokens(&operators);
            proof {
                if operator_at(tokens, Level::Term, pos) {
                    lemma_rest_step(tokens, Level::Term, expr@, pos);
                }
                assert(matched == operator_at(tokens, Level::Term, pos)) by {
                    assert(operators@[0]@ is Minus);
                    assert(operators@[1]@ is Plus);
                }
            }
            if !matched {
                break ;
            }
            let op = self.previous();
            let right = match self.factor() {
                Ok(tree) => tree,
                Err(error) => {
                    return Err(error);
                },
            };
            expr = Expr::Binary(Box::new(expr), op, Box::new(right));
        }
        Ok(expr)
    }

    fn factor(&mut self) -> (result: Result<Expr, Error>)
        requires
            old(self).wf(),
        ensures
            final(self).moved(
                old(self),
                binary(old(self)@.tokens, Level::Factor, old(self)@.position),
            ),
            agrees(result, binary(old(self)@.tokens, Level::Factor, old(self)@.position)),
        decreases old(self).tokens.len() - old(self).current, 3nat,
    {
        let ghost tokens = self@.tokens;
        let ghost start = self@.position;
        let mut expr = match self.unary() {
            Ok(tree) => tree,
            Err(error) => {
                return Err(error);
            },
        };
        loop
            invariant
                self.wf(),
                self@.tokens == tokens,
                tokens == old(self)@.tokens,
                start == old(self)@.position,
                start <= self@.position,
                binary(tokens, Level::Factor, start) == binary_rest(
                    tokens,
                    Level::Factor,
                    expr@,
                    self@.position,
                ).after((self@.position - start) as nat),
            ensures
                self.wf(),
                self@.tokens == tokens,
                start <= self@.position,
                binary(tokens, Level::Factor, start) == (Parsed {
                    result: Ok(expr@),
                    used: (self@.position - start) as nat,
                }),
            decreases self.tokens.len() - self.current,
        {
            let operators = [TokenType::Slash, TokenType::Star];
            let ghost pos = self@.position;
            let matched = self.match_tokens(&operators);
            proof {
                if operator_at(tokens, Level::Factor, pos) {
                    lemma_rest_step(tokens, Level::Factor, expr@, pos);
                }
                assert(matched == operator_at(tokens, Level::Factor, pos)) by {
                    assert(operators@[0]@ is Slash);
                    assert(operators@[1]@ is Star);
                }
            }
            if !matched {
                break ;
            }
            let op = self.previous();
            let right = match self.unary() {
                Ok(tree) => tree,
                Err(error) => {
                    return Err(error);
                },
            };
            expr = Expr::Binary(Box::new(expr), op, Box::new(right));
        }
        Ok(expr)
    }

    fn unary(&mut self) -> (result: Result<Expr, Error>)
        requires
            old(self).wf(),
        ensures
            final(self).moved(old(self), unary(old(self)@.tokens, old(self)@.position)),
            agrees(result, unary(old(self)@.tokens, old(self)@.position)),
        decreases old(self).tokens.len() - old(self).current, 1nat,
    {
        if self.match_tokens(&[TokenType::Bang, TokenType::Minus]) {
            let op = self.previous();
            let right = match self.unary() {
                Ok(tree) => tree,
                Err(error) => {
                    return Err(error);
                },
            };
            return Ok(Expr::Unary(op, Box::new(right)));
        }
        self.primary()
    }

    fn primary(&mut self) -> (result: Result<Expr, Error>)
        requires
            old(self).wf(),
        ensures
            final(self).moved(old(self), primary(old(self)@.tokens, old(self)@.position)),
            agrees(result, primary(old(self)@.tokens, old(self)@.position)),
        decreases old(self).tokens.len() - old(self).current, 0nat,
    {
        if self.match_tokens(&[TokenType::False]) {
            return Ok(Expr::Literal(LiteralValue::False));
        }
        if self.match_tokens(&[TokenType::True]) {
            return Ok(Expr::Literal(LiteralValue::True));
        }
        if self.match_tokens(&[TokenType::Nil]) {
            return Ok(Expr::Literal(LiteralValue::Nil));
        }
        if self.match_tokens(&[TokenType::Number(0)]) {
            if let TokenType::Number(val) = self.previous().token_type {
                return Ok(Expr::Literal(LiteralValue::Number(val)));
            }
        }
        if self.match_tokens(&[TokenType::String(String::new())]) {
            if let TokenType::String(val) = self.previous().token_type {
                return Ok(Expr::Literal(LiteralValue::String(val)));
            }
        }
        if self.match_tokens(&[TokenType::LeftParen]) {
            let expr = match self.expression() {
                Ok(tree) => tree,
                Err(error) => {
                    return Err(error);
                },
            };
            match self.consume(
                &TokenType::RightParen,
                String::from_str("Expect ')' after expression."),
            ) {
                Ok(()) => {},
                Err(error) => {
                    return Err(error);
                },
            }
            return Ok(Expr::Grouping(Box::new(expr)));
        }
        Err(Error::parsing(String::from_str("Expected Expression")))
    }

    /// Skips to the next place where a statement may start: moves one token
    /// on, then further until the position is a boundary. The first boundary
    /// after the token that the parser starts on is where it stops.
    pub fn synchronize(&mut self)
        requires
            old(self).wf(),
        ensures
            final(self).wf(),
            final(self)@.tokens == old(self)@.tokens,
            at_end(old(self)@.tokens, old(self)@.position) ==> final(self)@.position == old(
                self,
            )@.position,
            !at_end(old(self)@.tokens, old(self)@.position) ==> {
                &&& final(self)@.position > old(self)@.position
                &&& is_boundary(final(self)@.tokens, final(self)@.position)
                &&& forall|pos: nat|
                    old(self)@.position < pos < final(self)@.position ==> !is_boundary(
                        old(self)@.tokens,
                        pos,
                    )
            },
    {
        let ghost first = self@.position + 1;
        self.next();
        while !self.is_finished()
            invariant
                self.wf(),
                self@.tokens == old(self)@.tokens,
                first == old(self)@.position + 1,
                !at_end(old(self)@.tokens, old(self)@.position) ==> {
                    &&& first <= self@.position
                    &&& forall|pos: nat|
                        first <= pos < self@.position ==> !is_boundary(old(self)@.tokens, pos)
                },
                at_end(old(self)@.tokens, old(self)@.position) ==> self@.position == old(
                    self,
                )@.position,
            decreases self.tokens.len() - self.current,
        {
            if self.current > 0 {
                if let TokenType::SemiColon = self.tokens[self.current - 1].token_type {
                    return ;
                }
            }
            match self.peek().token_type {
                TokenType::Func => return ,
                TokenType::Var => return ,
                TokenType::For => return ,
                TokenType::If => return ,
                TokenType::While => return ,
                TokenType::Print => return ,
                TokenType::Return => return ,
                _ => (),
            }
            self.next();
        }
    }

    /// Demands a token of type `token_type`: takes it if it is at hand, and
    /// fails with `message` if another token is. At the end of the input the
    /// demand counts as met and nothing is taken.
    fn consume(&mut self, token_type: &TokenType, message: String) -> (result: Result<(), Error>)
        requires
            old(self).wf(),
        ensures
            final(self).wf(),
            final(self)@.tokens == old(self)@.tokens,
            ({
                let tokens = old(self)@.tokens;
                let pos = old(self)@.position;
                if at_end(tokens, pos) {
                    result is Ok && final(self)@.position == pos
                } else if tokens[pos as int].token_type.matches(token_type@) {
                    result is Ok && final(self)@.position == pos + 1
                } else {
                    &&& result matches Err(error)
                    &&& error@ == parsing_error(message@)
                    &&& final(self)@.position == pos
                }
            }),
    {
        if self.is_finished() || self.check(token_type) {
            self.next();
            return Ok(());
        }
        Err(Error::parsing(message))
    }

    /// Takes the token at hand if its category is one of `token_types`.
    fn match_tokens(&mut self, token_types: &[TokenType]) -> (matched: bool)
        requires
            old(self).wf(),
        ensures
            final(self).wf(),
            final(self)@.tokens == old(self)@.tokens,
            matched == (old(self)@.position < old(self)@.tokens.len() && exists|i: int|
                0 <= i < token_types@.len() && (#[trigger] token_types@[i])@.matches(
                    old(self)@.tokens[old(self)@.position as int].token_type,
                )),
            final(self)@.position == if matched {
                old(self)@.position + 1
            } else {
                old(self)@.position
            },
            matched ==> !at_end(old(self)@.tokens, old(self)@.position) || exists|i: int|
                0 <= i < token_types@.len() && (#[trigger] token_types@[i])@ is EOF,
    {
        let mut i: usize = 0;
        while i < token_types.len()
            invariant
                self.wf(),
                *self == *old(self),
                i <= token_types@.len(),
                forall|j: int|
                    0 <= j < i ==> !(self@.position < self@.tokens.len() && (
                    #[trigger] token_types@[j])@.matches(
                        self@.tokens[self@.position as int].token_type,
                    )),
            decreases token_types.len() - i,
        {
            if self.check(&token_types[i]) {
                self.current = self.current + 1;
                return true;
            }
            i += 1;
        }
        false
    }

    /// Whether the token at hand has the category of `token_type`.
    fn check(&self, token_type: &TokenType) -> (same: bool)
        requires
            self.wf(),
        ensures
            same == (self@.position < self@.tokens.len() && token_type@.matches(
                self@.tokens[self@.position as int].token_type,
            )),
    {
        if self.current >= self.tokens.len() {
            return false;
        }
        token_type.matches(&self.tokens[self.current].token_type)
    }

    /// Moves one token on, unless the input is exhausted.
    fn next(&mut self)
        requires
            old(self).wf(),
        ensures
            final(self).wf(),
            final(self)@.tokens == old(self)@.tokens,
            final(self)@.position == if at_end(old(self)@.tokens, old(self)@.position) {
                old(self)@.position
            } else {
                old(self)@.position + 1
            },
    {
        if !self.is_finished() {
            self.current += 1;
        }
    }

    fn is_finished(&self) -> (finished: bool)
        requires
            self.wf(),
        ensures
            finished == at_end(self@.tokens, self@.position),
    {
        if self.current >= self.tokens.len() {
            return true;
        }
        match self.tokens[self.current].token_type {
            TokenType::EOF => true,
            _ => false,
        }
    }

    fn peek(&self) -> (token: &Token)
        requires
            self.wf(),
            self@.position < self@.tokens.len(),
        ensures
            token@ == self@.tokens[self@.position as int],
    {
        &self.tokens[self.current]
    }

    fn previous(&self) -> (token: Token)
        requires
            self.wf(),
            self@.position > 0,
        ensures
            token@ == self@.tokens[self@.position - 1],
    {
        self.tokens[self.current - 1].clone()
    }
}

} // verus!
