use rcalc::evaluator::{evaluate, EvalError};
use rcalc::lexer::tokenize;
use rcalc::parser::{parse, BinaryOp, Expr, UnaryOp};

fn leaf(n: i64) -> Expr {
    Expr::Int(n)
}

fn neg(operand: Expr) -> Expr {
    Expr::Unary(UnaryOp::Neg, Box::new(operand))
}

fn bin(op: BinaryOp, lhs: Expr, rhs: Expr) -> Expr {
    Expr::Binary(op, Box::new(lhs), Box::new(rhs))
}

fn value(text: &str) -> Result<i64, EvalError> {
    evaluate(&parse(tokenize(text).unwrap()).unwrap())
}

#[test]
fn multiplication_before_addition() {
    assert_eq!(value("2+3*4"), Ok(14));
}

#[test]
fn brackets_first() {
    assert_eq!(value("(2+3)*4"), Ok(20));
}

#[test]
fn subtraction_groups_from_the_left() {
    assert_eq!(value("10-1+3"), Ok(12));
    assert_eq!(value("10-1-3"), Ok(6));
}

#[test]
fn negation_and_double_negation() {
    assert_eq!(value("-5+3"), Ok(-2));
    assert_eq!(value("--5"), Ok(5));
    assert_eq!(value("---5"), Ok(-5));
}

#[test]
fn mixed_operators() {
    assert_eq!(value("3*10-1+3"), Ok(32));
}

#[test]
fn division_by_zero_fails_in_the_evaluator() {
    let tree = parse(tokenize("1/0").unwrap());
    assert_eq!(tree, Ok(bin(BinaryOp::Div, leaf(1), leaf(0))));
    assert_eq!(evaluate(&tree.unwrap()), Err(EvalError::DivisionByZero));
    assert_eq!(value("0/0"), Err(EvalError::DivisionByZero));
    assert_eq!(value("5/(3-3)"), Err(EvalError::DivisionByZero));
    assert_eq!(value("2+3*(4/(1-1))"), Err(EvalError::DivisionByZero));
}

#[test]
fn leaf_evaluates_to_its_number() {
    assert_eq!(evaluate(&leaf(0)), Ok(0));
    assert_eq!(evaluate(&leaf(7)), Ok(7));
    assert_eq!(evaluate(&leaf(-7)), Ok(-7));
    assert_eq!(evaluate(&leaf(i64::MAX)), Ok(i64::MAX));
    assert_eq!(evaluate(&leaf(i64::MIN)), Ok(i64::MIN));
    assert_eq!(value("4294967295"), Ok(4294967295));
}

#[test]
fn each_operator_computes() {
    assert_eq!(evaluate(&bin(BinaryOp::Add, leaf(7), leaf(5))), Ok(12));
    assert_eq!(evaluate(&bin(BinaryOp::Sub, leaf(7), leaf(5))), Ok(2));
    assert_eq!(evaluate(&bin(BinaryOp::Sub, leaf(5), leaf(7))), Ok(-2));
    assert_eq!(evaluate(&bin(BinaryOp::Mul, leaf(7), leaf(5))), Ok(35));
    assert_eq!(evaluate(&bin(BinaryOp::Div, leaf(7), leaf(5))), Ok(1));
    assert_eq!(evaluate(&neg(leaf(7))), Ok(-7));
    assert_eq!(evaluate(&neg(leaf(-7))), Ok(7));
    assert_eq!(evaluate(&neg(leaf(0))), Ok(0));
}

#[test]
fn division_rounds_towards_zero() {
    assert_eq!(evaluate(&bin(BinaryOp::Div, leaf(7), leaf(2))), Ok(3));
    assert_eq!(evaluate(&bin(BinaryOp::Div, leaf(-7), leaf(2))), Ok(-3));
    assert_eq!(evaluate(&bin(BinaryOp::Div, leaf(7), leaf(-2))), Ok(-3));
    assert_eq!(evaluate(&bin(BinaryOp::Div, leaf(-7), leaf(-2))), Ok(3));
    assert_eq!(evaluate(&bin(BinaryOp::Div, leaf(0), leaf(-2))), Ok(0));
    assert_eq!(evaluate(&bin(BinaryOp::Div, leaf(1), leaf(2))), Ok(0));
    assert_eq!(evaluate(&bin(BinaryOp::Div, leaf(-1), leaf(2))), Ok(0));
    assert_eq!(value("-7/2"), Ok(-3));
    assert_eq!(value("7/-2"), Ok(-3));
    assert_eq!(value("8/2/2"), Ok(2));
}

#[test]
fn results_at_the_bounds() {
    assert_eq!(evaluate(&bin(BinaryOp::Add, leaf(i64::MAX - 1), leaf(1))), Ok(i64::MAX));
    assert_eq!(evaluate(&bin(BinaryOp::Sub, leaf(i64::MIN + 1), leaf(1))), Ok(i64::MIN));
    assert_eq!(evaluate(&bin(BinaryOp::Mul, leaf(i64::MIN), leaf(1))), Ok(i64::MIN));
    assert_eq!(evaluate(&bin(BinaryOp::Div, leaf(i64::MIN), leaf(1))), Ok(i64::MIN));
    assert_eq!(evaluate(&bin(BinaryOp::Div, leaf(i64::MAX), leaf(-1))), Ok(-i64::MAX));
    assert_eq!(evaluate(&neg(leaf(i64::MAX))), Ok(-i64::MAX));
    assert_eq!(value("2147483647+1"), Ok(2147483648));
    assert_eq!(value("3037000499*3037000499"), Ok(9223372030926249001));
    assert_eq!(value("4294967295*2147483647"), Ok(9223372030412324865));
}

#[test]
fn overflow_fails() {
    assert_eq!(evaluate(&bin(BinaryOp::Add, leaf(i64::MAX), leaf(1))), Err(EvalError::Overflow));
    assert_eq!(evaluate(&bin(BinaryOp::Add, leaf(i64::MIN), leaf(-1))), Err(EvalError::Overflow));
    assert_eq!(evaluate(&bin(BinaryOp::Sub, leaf(i64::MIN), leaf(1))), Err(EvalError::Overflow));
    assert_eq!(evaluate(&bin(BinaryOp::Sub, leaf(0), leaf(i64::MIN))), Err(EvalError::Overflow));
    assert_eq!(evaluate(&bin(BinaryOp::Mul, leaf(i64::MAX), leaf(2))), Err(EvalError::Overflow));
    assert_eq!(evaluate(&bin(BinaryOp::Mul, leaf(i64::MIN), leaf(-1))), Err(EvalError::Overflow));
    assert_eq!(evaluate(&bin(BinaryOp::Div, leaf(i64::MIN), leaf(-1))), Err(EvalError::Overflow));
    assert_eq!(evaluate(&neg(leaf(i64::MIN))), Err(EvalError::Overflow));
    assert_eq!(value("3037000500*3037000500"), Err(EvalError::Overflow));
    assert_eq!(value("4294967295*4294967295"), Err(EvalError::Overflow));
}

#[test]
fn left_operand_fails_first() {
    let zero_division = bin(BinaryOp::Div, leaf(1), leaf(0));
    let overflow = bin(BinaryOp::Add, leaf(i64::MAX), leaf(1));
    assert_eq!(
        evaluate(&bin(
            BinaryOp::Add,
            bin(BinaryOp::Div, leaf(1), leaf(0)),
            bin(BinaryOp::Add, leaf(i64::MAX), leaf(1))
        )),
        Err(EvalError::DivisionByZero)
    );
    assert_eq!(
        evaluate(&bin(BinaryOp::Add, overflow, zero_division)),
        Err(EvalError::Overflow)
    );
    // A zero divisor that fails to evaluate is no division by zero.
    assert_eq!(
        evaluate(&bin(BinaryOp::Div, leaf(1), bin(BinaryOp::Mul, leaf(i64::MAX), leaf(2)))),
        Err(EvalError::Overflow)
    );
}

#[test]
fn failure_inside_a_negation_is_kept() {
    assert_eq!(
        evaluate(&neg(bin(BinaryOp::Div, leaf(1), leaf(0)))),
        Err(EvalError::DivisionByZero)
    );
    assert_eq!(value("-(1/0)"), Err(EvalError::DivisionByZero));
}

#[test]
fn tree_can_be_evaluated_again() {
    let tree = parse(tokenize("(2+3)*4").unwrap()).unwrap();
    assert_eq!(evaluate(&tree), Ok(20));
    assert_eq!(evaluate(&tree), Ok(20));
    assert_eq!(tree.render(), "((2 + 3) * 4)");
    assert_eq!(evaluate(&tree), Ok(20));
}

#[test]
fn eval_error_messages() {
    assert_eq!(EvalError::DivisionByZero.message(), "division by zero");
    assert_eq!(EvalError::Overflow.message(), "integer overflow");
}
