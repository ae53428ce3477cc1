//! The evaluator: from an expression tree to its value.
//!
//! Values are 64-bit signed integers. What a tree evaluates to is defined by
//! [`value_of`]; [`evaluate`] computes it.

use crate::parser::{BinaryOp, Expr, UnaryOp};
use vstd::prelude::*;

verus! {

/// A failure of the evaluator.
#[derive(Debug, Clone, Copy, PartialEq, Eq, Structural)]
pub enum EvalError {
    /// The right operand of a division is zero.
    DivisionByZero,
    /// The result of an operation does not fit into an `i64`.
    Overflow,
}

impl EvalError {
    /// The message of the failure.
    pub open spec fn message_text(self) -> Seq<char> {
        match self {
            EvalError::DivisionByZero => "division by zero"@,
            EvalError::Overflow => "integer overflow"@,
        }
    }

    /// The message of the failure, for a person to read.
    pub fn message(&self) -> (text: String)
        ensures
            text@ == self.message_text(),
    {
        match self {
            EvalError::DivisionByZero => String::from_str("division by zero"),
            EvalError::Overflow => String::from_str("integer overflow"),
        }
    }
}

/// The quotient of `a` by `b`, rounded towards zero.
pub open spec fn quotient(a: int, b: int) -> int
    recommends
        b != 0,
{
    if a >= 0 && b > 0 {
        a / b
    } else if a < 0 && b > 0 {
        -((-a) / b)
    } else if a >= 0 && b < 0 {
        -(a / (-b))
    } else {
        (-a) / (-b)
    }
}

/// The mathematical result of `op` on `a` and `b`, where `b` is not zero or
/// `op` is no division.
pub open spec fn exact_binary(op: BinaryOp, a: int, b: int) -> int {
    match op {
        BinaryOp::Add => a + b,
        BinaryOp::Sub => a - b,
        BinaryOp::Mul => a * b,
        BinaryOp::Div => quotient(a, b),
    }
}

/// The value `v` if it fits into an `i64`, else the overflow.
pub open spec fn in_range(v: int) -> Result<i64, EvalError> {
    if i64::MIN <= v <= i64::MAX {
        Ok(v as i64)
    } else {
        Err(EvalError::Overflow)
    }
}

/// The result of `op` on the value `a`.
pub open spec fn apply_unary(op: UnaryOp, a: i64) -> Result<i64, EvalError> {
    match op {
        UnaryOp::Neg => in_range(-a),
    }
}

/// The result of `op` on the values `a` and `b`.
pub open spec fn apply_binary(op: BinaryOp, a: i64, b: i64) -> Result<i64, EvalError> {
    if op == BinaryOp::Div && b == 0 {
        Err(EvalError::DivisionByZero)
    } else {
        in_range(exact_binary(op, a as int, b as int))
    }
}

/// The number of nodes of the tree `expr`.
pub open spec fn node_count(expr: Expr) -> nat
    decreases expr,
{
    match expr {
        Expr::Int(_) => 1,
        Expr::Unary(_, operand) => 1 + node_count(*operand),
        Expr::Binary(_, lhs, rhs) => 1 + node_count(*lhs) + node_count(*rhs),
    }
}

/// The value of the tree `expr`. The operands of a node are evaluated from
/// left to right, and the first failure is the failure of the whole.
pub open spec fn value_of(expr: Expr) -> Result<i64, EvalError>
    decreases expr,
{
    match expr {
        Expr::Int(n) => Ok(n),
        Expr::Unary(op, operand) => match value_of(*operand) {
            Ok(a) => apply_unary(op, a),
            Err(e) => Err(e),
        },
        Expr::Binary(op, lhs, rhs) => match value_of(*lhs) {
            Ok(a) => match value_of(*rhs) {
                Ok(b) => apply_binary(op, a, b),
                Err(e) => Err(e),
            },
            Err(e) => Err(e),
        },
    }
}

/// Evaluates the tree `root_expr`.
pub fn evaluate(root_expr: &Expr) -> (r: Result<i64, EvalError>)
    ensures
        r == value_of(*root_expr),
    decreases node_count(*root_expr), 0nat,
{
    match root_expr {
        Expr::Int(n) => Ok(*n),
        Expr::Unary(op, expr) => evaluate_unary(*op, expr),
        Expr::Binary(op, lhs, rhs) => evaluate_binary(*op, lhs, rhs),
    }
}

/// Evaluates `expr` and applies `op` to its value.
fn evaluate_unary(op: UnaryOp, expr: &Expr) -> (r: Result<i64, EvalError>)
    ensures
        r == match value_of(*expr) {
            Ok(a) => apply_unary(op, a),
            Err(e) => Err(e),
        },
    decreases node_count(*expr), 1nat,
{
    let a = match evaluate(expr) {
        Ok(a) => a,
        Err(e) => {
            return Err(e);
        },
    };
    match op {
        UnaryOp::Neg => match 0i64.checked_sub(a) {
            Some(v) => Ok(v),
            None => Err(EvalError::Overflow),
        },
    }
}

/// Evaluates `lhs`, then `rhs`, and applies `op` to their values.
fn evaluate_binary(op: BinaryOp, lhs: &Expr, rhs: &Expr) -> (r: Result<i64, EvalError>)
    ensures
        r == match value_of(*lhs) {
            Ok(a) => match value_of(*rhs) {
                Ok(b) => apply_binary(op, a, b),
                Err(e) => Err(e),
            },
            Err(e) => Err(e),
        },
    decreases node_count(*lhs) + node_count(*rhs), 1nat,
{
    let a = match evaluate(lhs) {
        Ok(a) => a,
        Err(e) => {
            return Err(e);
        },
    };
    let b = match evaluate(rhs) {
        Ok(b) => b,
        Err(e) => {
            return Err(e);
        },
    };
    let result = match op {
        BinaryOp::Add => a.checked_add(b),
        BinaryOp::Sub => a.checked_sub(b),
        BinaryOp::Mul => a.checked_mul(b),
        BinaryOp::Div => {
            if b == 0 {
                return Err(EvalError::DivisionByZero);
            }
            a.checked_div(b)
        },
    };
    match result {
        Some(v) => Ok(v),
        None => Err(EvalError::Overflow),
    }
}

} // verus!
