//! Values and expression trees.

use vstd::prelude::*;
use vstd::string::StringExecFns;
use crate::token::{SpecToken, Token};

verus! {

/// A value: the payload of a literal node and the result of evaluation.
/// A number is held as the bit pattern of a single-precision value.
#[derive(Debug, PartialEq)]
pub enum LiteralValue {
    String(String),
    Number(u32),
    True,
    False,
    Nil,
}

/// Mathematical model of a [`LiteralValue`].
pub ghost enum SpecValue {
    String(Seq<char>),
    Number(u32),
    True,
    False,
    Nil,
}

impl View for LiteralValue {
    type V = SpecValue;

    open spec fn view(&self) -> SpecValue {
        match self {
            LiteralValue::String(text) => SpecValue::String(text@),
            LiteralValue::Number(bits) => SpecValue::Number(*bits),
            LiteralValue::True => SpecValue::True,
            LiteralValue::False => SpecValue::False,
            LiteralValue::Nil => SpecValue::Nil,
        }
    }
}

/// An expression tree. Every node owns its children.
#[derive(Debug, PartialEq)]
pub enum Expr {
    /// `<expr> <op> <expr>`
    Binary(Box<Expr>, Token, Box<Expr>),
    /// `( <expr> )`
    Grouping(Box<Expr>),
    /// A literal value.
    Literal(LiteralValue),
    /// `<op> <expr>`
    Unary(Token, Box<Expr>),
}

/// Mathematical model of an [`Expr`].
pub ghost enum SpecExpr {
    Binary(Box<SpecExpr>, SpecToken, Box<SpecExpr>),
    Grouping(Box<SpecExpr>),
    Literal(SpecValue),
    Unary(SpecToken, Box<SpecExpr>),
}

impl Expr {
    /// The tree's model, node by node.
    pub open spec fn model(&self) -> SpecExpr
        decreases self,
    {
        match self {
            Expr::Binary(left, operator, right) => SpecExpr::Binary(
                Box::new(left.model()),
                operator@,
                Box::new(right.model()),
            ),
            Expr::Grouping(inner) => SpecExpr::Grouping(Box::new(inner.model())),
            Expr::Literal(value) => SpecExpr::Literal(value@),
            Expr::Unary(operator, operand) => SpecExpr::Unary(
                operator@,
                Box::new(operand.model()),
            ),
        }
    }
}

impl View for Expr {
    type V = SpecExpr;

    open spec fn view(&self) -> SpecExpr {
        self.model()
    }
}

/// The debug form of a text: the text between double quotes, with the
/// characters that cannot stand for themselves there written as escapes.
pub uninterp spec fn debug_text(text: Seq<char>) -> Seq<char>;

/// The debug form of `text`, as `format!` writes a `str` under `{:?}`. The
/// form depends on the text alone, so the result is [`debug_text`] of it.
#[verifier::external_body]
fn debug_string(text: &str) -> (form: String)
    ensures
        form@ == debug_text(text@),
{
    format!("{:?}", text)
}

impl SpecExpr {
    /// The number literals of the tree, from left to right.
    pub open spec fn numbers(self) -> Seq<u32>
        decreases self,
    {
        match self {
            SpecExpr::Binary(left, _, right) => left.numbers() + right.numbers(),
            SpecExpr::Grouping(inner) => inner.numbers(),
            SpecExpr::Literal(SpecValue::Number(bits)) => seq![bits],
            SpecExpr::Literal(_) => Seq::empty(),
            SpecExpr::Unary(_, operand) => operand.numbers(),
        }
    }

    /// The printed form of the tree: fully parenthesised, operator first.
    /// `numerals` holds the written forms of numbers; the tree's number
    /// literals take theirs from position `at` on, from left to right.
    pub open spec fn printed(self, numerals: Seq<Seq<char>>, at: int) -> Seq<char>
        decreases self,
    {
        match self {
            SpecExpr::Binary(left, operator, right) => "("@ + operator.lexeme + " "@
                + left.printed(numerals, at) + " "@ + right.printed(
                numerals,
                at + left.numbers().len(),
            ) + ")"@,
            SpecExpr::Grouping(inner) => "(group "@ + inner.printed(numerals, at) + ")"@,
            SpecExpr::Literal(value) => value.printed(numerals[at]),
            SpecExpr::Unary(operator, operand) => "("@ + operator.lexeme + " "@
                + operand.printed(numerals, at) + ")"@,
        }
    }
}

impl SpecValue {
    /// The printed form of a value; `numeral` is the written form of the
    /// number, if the value is one.
    pub open spec fn printed(self, numeral: Seq<char>) -> Seq<char> {
        match self {
            SpecValue::String(text) => "String("@ + debug_text(text) + ")"@,
            SpecValue::Number(_) => "Number("@ + numeral + ")"@,
            SpecValue::True => "True"@,
            SpecValue::False => "False"@,
            SpecValue::Nil => "Nil"@,
        }
    }
}

/// The views of a vector's texts, in order.
pub open spec fn text_views(texts: Seq<String>) -> Seq<Seq<char>> {
    texts.map_values(|text: String| text@)
}

impl LiteralValue {
    /// The printed form of a string value whose debug form is `form`.
    pub fn quoted(form: &str) -> (text: String)
        ensures
            text@ == "String("@ + form@ + ")"@,
    {
        let mut text = String::from_str("String(");
        text.append(form);
        text.append(")");
        text
    }

    /// The value's printed form. `numeral` is the written form of the
    /// number and is used only if the value is a number.
    pub fn to_string(&self, numeral: &str) -> (text: String)
        ensures
            text@ == self@.printed(numeral@),
    {
        let mut text = String::new();
        self.write(numeral, &mut text);
        text
    }

    fn write(&self, numeral: &str, out: &mut String)
        ensures
            final(out)@ == old(out)@ + self@.printed(numeral@),
    {
        let ghost before = out@;
        match self {
            LiteralValue::String(text) => {
                let form = debug_string(text.as_str());
                out.append(Self::quoted(form.as_str()).as_str());
            },
            LiteralValue::Number(_) => {
                out.append("Number(");
                out.append(numeral);
                out.append(")");
                assert(out@ == before + ("Number("@ + numeral@ + ")"@));
            },
            LiteralValue::True => {
                out.append("True");
            },
            LiteralValue::False => {
                out.append("False");
            },
            LiteralValue::Nil => {
                out.append("Nil");
            },
        }
    }
}

impl Expr {
    /// The bit patterns of the tree's number literals, from left to right:
    /// the numbers whose written forms [`Expr::to_string`] asks for.
    pub fn numbers(&self) -> (bits: Vec<u32>)
        ensures
            bits@ == self@.numbers(),
    {
        let mut bits: Vec<u32> = Vec::new();
        self.collect(&mut bits);
        bits
    }

    fn collect(&self, bits: &mut Vec<u32>)
        ensures
            final(bits)@ == old(bits)@ + self@.numbers(),
        decreases self,
    {
        let ghost before = bits@;
        match self {
            Expr::Binary(left, _, right) => {
                left.collect(bits);
                right.collect(bits);
                assert(bits@ == before + (left@.numbers() + right@.numbers()));
            },
            Expr::Grouping(inner) => {
                inner.collect(bits);
            },
            Expr::Literal(value) => {
                match value {
                    LiteralValue::Number(n) => {
                        bits.push(*n);
                        assert(bits@ == before + seq![*n]);
                    },
                    _ => {
                        assert(bits@ == before + Seq::<u32>::empty());
                    },
                }
            },
            Expr::Unary(_, operand) => {
                operand.collect(bits);
            },
        }
    }

    /// The printed form of the tree, or `None` if `numerals` does not hold
    /// exactly one written form for each number literal. `numerals[i]` is
    /// the written form of the `i`-th number of [`Expr::numbers`].
    pub fn to_string(&self, numerals: &Vec<String>) -> (text: Option<String>)
        ensures
            match text {
                Some(text) => numerals.len() == self@.numbers().len() && text@
                    == self@.printed(text_views(numerals@), 0),
                None => numerals.len() != self@.numbers().len(),
            },
    {
        let count = self.numbers().len();
        if numerals.len() != count {
            return None;
        }
        let mut text = String::new();
        self.write(numerals, 0, &mut text);
        Some(text)
    }

    fn write(&self, numerals: &Vec<String>, at: usize, out: &mut String) -> (next: usize)
        requires
            at + self@.numbers().len() <= numerals.len(),
        ensures
            next == at + self@.numbers().len(),
            final(out)@ == old(out)@ + self@.printed(text_views(numerals@), at as int),
        decreases self,
    {
        let ghost before = out@;
        let ghost forms = text_views(numerals@);
        match self {
            Expr::Binary(left, operator, right) => {
                out.append("(");
                out.append(operator.to_string().as_str());
                out.append(" ");
                let middle = left.write(numerals, at, out);
                out.append(" ");
                let next = right.write(numerals, middle, out);
                out.append(")");
                assert(out@ == before + ("("@ + operator@.lexeme + " "@ + left@.printed(
                    forms,
                    at as int,
                ) + " "@ + right@.printed(forms, at + left@.numbers().len()) + ")"@));
                next
            },
            Expr::Grouping(inner) => {
                out.append("(group ");
                let next = inner.write(numerals, at, out);
                out.append(")");
                assert(out@ == before + ("(group "@ + inner@.printed(forms, at as int) + ")"@));
                next
            },
            Expr::Literal(value) => {
                match value {
                    LiteralValue::Number(_) => {
                        value.write(numerals[at].as_str(), out);
                        at + 1
                    },
                    _ => {
                        value.write("", out);
                        assert(value@.printed(""@) == value@.printed(forms[at as int]));
                        at
                    },
                }
            },
            Expr::Unary(operator, operand) => {
                out.append("(");
                out.append(operator.to_string().as_str());
                out.append(" ");
                let next = operand.write(numerals, at, out);
                out.append(")");
                assert(out@ == before + ("("@ + operator@.lexeme + " "@ + operand@.printed(
                    forms,
                    at as int,
                ) + ")"@));
                next
            },
        }
    }
}

} // verus!
