//! The value of a syntax tree in 32-bit signed integers.
//!
//! A tree has a value where every number in it, and the result of every
//! operation in it, lies in the range of `i32`, no divisor is zero and no
//! exponent is negative. Division rounds toward zero.

use vstd::prelude::*;
use crate::ast::{BinaryOperator, Node, UnaryOperator};

verus! {

/// `v` where it lies in the range of `i32`.
pub open spec fn in_range(v: int) -> Option<int> {
    if i32::MIN <= v <= i32::MAX {
        Some(v)
    } else {
        None
    }
}

/// The distance of `v` from zero.
pub open spec fn magnitude(v: int) -> int {
    if v < 0 {
        -v
    } else {
        v
    }
}

/// The quotient of `a` by `b`, rounded toward zero.
pub open spec fn quotient(a: int, b: int) -> int
    recommends
        b != 0,
{
    if (a < 0) == (b < 0) {
        magnitude(a) / magnitude(b)
    } else {
        -(magnitude(a) / magnitude(b))
    }
}

/// `base` multiplied by itself `exponent` times; one where `exponent` is zero.
pub open spec fn power(base: int, exponent: nat) -> int
    decreases exponent,
{
    if exponent == 0 {
        1
    } else {
        base * power(base, (exponent - 1) as nat)
    }
}

/// The result of one binary operation on two values.
pub open spec fn apply(op: BinaryOperator, a: int, b: int) -> Option<int> {
    match op {
        BinaryOperator::Addition => in_range(a + b),
        BinaryOperator::Subtraction => in_range(a - b),
        BinaryOperator::Multiplication => in_range(a * b),
        BinaryOperator::Division => if b == 0 {
            None
        } else {
            in_range(quotient(a, b))
        },
        BinaryOperator::Exponentiation => if b < 0 {
            None
        } else {
            in_range(power(a, b as nat))
        },
    }
}

/// Whether a computed result is the value that the rules give.
pub open spec fn is_value(r: Option<i32>, value: Option<int>) -> bool {
    match value {
        Some(v) => r == Some(v as i32),
        None => r is None,
    }
}

impl Node {
    /// The value of the tree, where it has one.
    pub open spec fn value(self) -> Option<int>
        decreases self,
    {
        match self {
            Node::Single(n) => in_range(n as int),
            Node::Unary(UnaryOperator::Negative, operand) => match operand.value() {
                Some(v) => in_range(-v),
                None => None,
            },
            Node::Binary(op, left, right) => match (left.value(), right.value()) {
                (Some(a), Some(b)) => apply(op, a, b),
                _ => None,
            },
        }
    }
}

/// The quotient times the divisor lies between zero and the dividend, less
/// than one divisor away from the dividend: the division rounds toward zero.
pub proof fn lemma_quotient_rounds_toward_zero(a: int, b: int)
    requires
        b != 0,
    ensures
        a >= 0 ==> 0 <= quotient(a, b) * b <= a,
        a <= 0 ==> a <= quotient(a, b) * b <= 0,
        magnitude(a - quotient(a, b) * b) < magnitude(b),
{
    let q = magnitude(a) / magnitude(b);
    let r = magnitude(a) % magnitude(b);
    vstd::arithmetic::div_mod::lemma_fundamental_div_mod(magnitude(a), magnitude(b));
    assert(quotient(a, b) * b == if a < 0 {
        -(magnitude(b) * q)
    } else {
        magnitude(b) * q
    }) by (nonlinear_arith)
        requires
            b != 0,
            q == magnitude(a) / magnitude(b),
    ;
}

/// Once a power of a base of magnitude two or more has left the range of
/// `i32`, every higher power of that base lies outside it too.
proof fn lemma_pow_stays_out(base: int, low: nat, high: nat)
    requires
        magnitude(base) >= 2,
        low <= high,
        in_range(power(base, low)) is None,
    ensures
        in_range(power(base, high)) is None,
    decreases high - low,
{
    if low < high {
        lemma_pow_stays_out(base, low, (high - 1) as nat);
        let below = power(base, (high - 1) as nat);
        assert(in_range(base * below) is None) by (nonlinear_arith)
            requires
                magnitude(base) >= 2,
                in_range(below) is None,
        ;
    }
}

/// The powers of zero, one and minus one: a positive power of zero is zero,
/// every power of one is one, and the powers of minus one alternate.
proof fn lemma_pow_of_units(e: nat)
    ensures
        e > 0 ==> power(0, e) == 0,
        power(1, e) == 1,
        power(-1, e) == if e % 2 == 0 {
            1int
        } else {
            -1int
        },
    decreases e,
{
    if e > 0 {
        lemma_pow_of_units((e - 1) as nat);
    }
}

/// `base` raised to `exponent`, where that lies in the range of `i32`.
pub fn checked_pow(base: i32, exponent: u32) -> (r: Option<i32>)
    ensures
        is_value(r, in_range(power(base as int, exponent as nat))),
{
    if exponent == 0 {
        return Some(1);
    }
    proof {
        lemma_pow_of_units(exponent as nat);
    }
    if base == 0 {
        return Some(0);
    }
    if base == 1 {
        return Some(1);
    }
    if base == -1 {
        return Some(if exponent % 2 == 0 { 1 } else { -1 });
    }
    let mut result: i32 = 1;
    let mut done: u32 = 0;
    while done < exponent
        invariant
            done <= exponent,
            magnitude(base as int) >= 2,
            result == power(base as int, done as nat),
        decreases exponent - done,
    {
        match result.checked_mul(base) {
            Some(next) => {
                assert(result * base == base * result) by (nonlinear_arith);
                result = next;
            },
            None => {
                proof {
                    assert(result * base == base * result) by (nonlinear_arith);
                    lemma_pow_stays_out(base as int, (done + 1) as nat, exponent as nat);
                }
                return None;
            },
        }
        done += 1;
    }
    Some(result)
}

/// The quotient of `a` by `b` rounded toward zero, where `b` is not zero and
/// the quotient lies in the range of `i32`.
pub fn checked_quotient(a: i32, b: i32) -> (r: Option<i32>)
    ensures
        is_value(r, if b == 0 { None } else { in_range(quotient(a as int, b as int)) }),
{
    a.checked_div(b)
}

impl Node {
    /// Computes the value of the tree, or `None` where it has none.
    pub fn checked_calc(&self) -> (r: Option<i32>)
        ensures
            is_value(r, self.value()),
        decreases self,
    {
        match self {
            Node::Single(n) => {
                if *n <= i32::MAX as u64 {
                    Some(*n as i32)
                } else {
                    None
                }
            },
            Node::Unary(op, node) => match op {
                UnaryOperator::Negative => match node.checked_calc() {
                    Some(v) => v.checked_mul(-1),
                    None => None,
                },
            },
            Node::Binary(op, node0, node1) => {
                let a = match node0.checked_calc() {
                    Some(v) => v,
                    None => {
                        return None;
                    },
                };
                let b = match node1.checked_calc() {
                    Some(v) => v,
                    None => {
                        return None;
                    },
                };
                match op {
                    BinaryOperator::Addition => a.checked_add(b),
                    BinaryOperator::Subtraction => a.checked_sub(b),
                    BinaryOperator::Division => checked_quotient(a, b),
                    BinaryOperator::Multiplication => a.checked_mul(b),
                    BinaryOperator::Exponentiation => {
                        if b < 0 {
                            None
                        } else {
                            checked_pow(a, b as u32)
                        }
                    },
                }
            },
        }
    }

    /// Computes the value of a tree that has one.
    pub fn calc(&self) -> (r: i32)
        requires
            self.value() is Some,
        ensures
            self.value() == Some(r as int),
        decreases self,
    {
        match self {
            Node::Single(n) => *n as i32,
            Node::Unary(op, node) => match op {
                UnaryOperator::Negative => -node.calc(),
            },
            Node::Binary(op, node0, node1) => {
                let a = node0.calc();
                let b = node1.calc();
                match op {
                    BinaryOperator::Addition => a + b,
                    BinaryOperator::Subtraction => a - b,
                    BinaryOperator::Division => checked_quotient(a, b).unwrap(),
                    BinaryOperator::Multiplication => a * b,
                    BinaryOperator::Exponentiation => checked_pow(a, b as u32).unwrap(),
                }
            },
        }
    }
}

} // verus!
