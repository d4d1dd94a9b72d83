//! The syntax tree of an expression.

use vstd::prelude::*;

verus! {

/// The operators that take two operands.
#[derive(Debug, Clone, Copy, PartialEq, Eq, Structural)]
pub enum BinaryOperator {
    Addition,
    Subtraction,
    Division,
    Multiplication,
    Exponentiation,
}

/// The operators that take one operand.
#[derive(Debug, Clone, Copy, PartialEq, Eq, Structural)]
pub enum UnaryOperator {
    Negative,
}

/// An expression as a tree. Every node owns its operands; the left operand of
/// a binary node comes first.
#[derive(Debug, PartialEq, Eq)]
pub enum Node {
    Binary(BinaryOperator, Box<Node>, Box<Node>),
    Unary(UnaryOperator, Box<Node>),
    Single(u64),
}

} // verus!
