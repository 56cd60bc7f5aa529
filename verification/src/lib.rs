//! Front end and evaluator of a small expression language.
//!
//! Source text is scanned into tokens ([`lexer`]), tokens are parsed into
//! one expression tree ([`parser`]), and the tree is reduced to a value
//! ([`interpreter`]). [`runs`], [`lexing`], [`comments`] and [`shape`] hold
//! what is proved of the scanner's runs, of token sequences, of comments and
//! of the trees.
//!
//! Numbers are carried as IEEE-754 single-precision bit patterns. The
//! library never computes with their numeric meaning: where the value of a
//! literal, the written form of a number or the result of an operation is
//! needed, it hands the question to its caller and goes on with the answer.
//! Every decision made here is therefore an exact function of plain values,
//! and what is proved holds whatever arithmetic answers.

pub mod comments;
pub mod error;
pub mod expr;
pub mod interpreter;
pub mod lexer;
pub mod lexing;
pub mod parser;
pub mod runs;
pub mod shape;
pub mod token;
