//! The shape of the trees that the parser builds: operators stand only
//! where their precedence and their associativity put them.

use vstd::prelude::*;
use crate::expr::SpecExpr;
use crate::parser::{
    binary, binary_rest, expression, operand, operator_at, prefix_at, primary, tokens_left,
    unary, Level,
};
use crate::token::{SpecToken, SpecTokenType};

verus! {

/// How loosely an operator binds: the rank of its level, from 4 for
/// equality down to 1 for factors, and 0 for a token that is no binary
/// operator.
pub open spec fn looseness(token_type: SpecTokenType) -> nat {
    if Level::Equality.has_operator(token_type) {
        4
    } else if Level::Comparison.has_operator(token_type) {
        3
    } else if Level::Term.has_operator(token_type) {
        2
    } else if Level::Factor.has_operator(token_type) {
        1
    } else {
        0
    }
}

/// How loosely a tree is held together at its root: the looseness of its
/// operator if it is a binary node, 0 if it is anything else.
pub open spec fn root_looseness(expr: SpecExpr) -> nat {
    match expr {
        SpecExpr::Binary(_, operator, _) => looseness(operator.token_type),
        _ => 0,
    }
}

/// The tree reads as the grammar groups: every binary node has a binary
/// operator, a left operand that binds at least as tightly and a right
/// operand that binds more tightly; every prefix operator is `!` or `-` and
/// stands before a prefix expression, a literal or a group.
pub open spec fn well_shaped(expr: SpecExpr) -> bool
    decreases expr,
{
    match expr {
        SpecExpr::Literal(_) => true,
        SpecExpr::Grouping(inner) => well_shaped(*inner),
        SpecExpr::Unary(operator, operand) => {
            &&& operator.token_type is Bang || operator.token_type is Minus
            &&& root_looseness(*operand) == 0
            &&& well_shaped(*operand)
        },
        SpecExpr::Binary(left, operator, right) => {
            &&& looseness(operator.token_type) >= 1
            &&& root_looseness(*left) <= looseness(operator.token_type)
            &&& root_looseness(*right) < looseness(operator.token_type)
            &&& well_shaped(*left)
            &&& well_shaped(*right)
        },
    }
}

/// Every tree that the parser builds is well shaped: a looser operator is
/// never an operand of a tighter one unless it stands in a group, and
/// operators of one level group to the left.
pub proof fn lemma_parsed_shape(tokens: Seq<SpecToken>, pos: nat)
    ensures
        expression(tokens, pos).result matches Ok(tree) ==> well_shaped(tree),
    decreases tokens_left(tokens, pos), 10nat,
{
    lemma_binary_shape(tokens, Level::Equality, pos);
}

proof fn lemma_binary_shape(tokens: Seq<SpecToken>, level: Level, pos: nat)
    ensures
        binary(tokens, level, pos).result matches Ok(tree) ==> well_shaped(tree)
            && root_looseness(tree) <= level.rank(),
    decreases tokens_left(tokens, pos), 2 * level.rank() + 1,
{
    lemma_operand_shape(tokens, level, pos);
    let first = operand(tokens, level, pos);
    if let Ok(left) = first.result {
        lemma_rest_shape(tokens, level, left, pos + first.used);
    }
}

proof fn lemma_operand_shape(tokens: Seq<SpecToken>, level: Level, pos: nat)
    ensures
        operand(tokens, level, pos).result matches Ok(tree) ==> well_shaped(tree)
            && root_looseness(tree) < level.rank(),
    decreases tokens_left(tokens, pos), 2 * level.rank(),
{
    match level {
        Level::Equality => lemma_binary_shape(tokens, Level::Comparison, pos),
        Level::Comparison => lemma_binary_shape(tokens, Level::Term, pos),
        Level::Term => lemma_binary_shape(tokens, Level::Factor, pos),
        Level::Factor => lemma_unary_shape(tokens, pos),
    }
}

proof fn lemma_rest_shape(tokens: Seq<SpecToken>, level: Level, left: SpecExpr, pos: nat)
    requires
        well_shaped(left),
        root_looseness(left) <= level.rank(),
    ensures
        binary_rest(tokens, level, left, pos).result matches Ok(tree) ==> well_shaped(tree)
            && root_looseness(tree) <= level.rank(),
    decreases tokens_left(tokens, pos), 2 * level.rank(),
{
    if operator_at(tokens, level, pos) {
        lemma_operand_shape(tokens, level, pos + 1);
        let right = operand(tokens, level, pos + 1);
        if let Ok(tree) = right.result {
            let folded = SpecExpr::Binary(Box::new(left), tokens[pos as int], Box::new(tree));
            assert(looseness(tokens[pos as int].token_type) == level.rank());
            lemma_rest_shape(tokens, level, folded, pos + 1 + right.used);
        }
    }
}

proof fn lemma_unary_shape(tokens: Seq<SpecToken>, pos: nat)
    ensures
        unary(tokens, pos).result matches Ok(tree) ==> well_shaped(tree) && root_looseness(tree)
            == 0,
    decreases tokens_left(tokens, pos), 1nat,
{
    if prefix_at(tokens, pos) {
        lemma_unary_shape(tokens, pos + 1);
    } else {
        lemma_primary_shape(tokens, pos);
    }
}

proof fn lemma_primary_shape(tokens: Seq<SpecToken>, pos: nat)
    ensures
        primary(tokens, pos).result matches Ok(tree) ==> well_shaped(tree) && root_looseness(tree)
            == 0,
    decreases tokens_left(tokens, pos), 0nat,
{
    if pos < tokens.len() && tokens[pos as int].token_type is LeftParen {
        lemma_parsed_shape(tokens, pos + 1);
    }
}

} // verus!
