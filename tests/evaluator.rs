use infix_eval::error::{Error, ErrorKind};
use infix_eval::evaluator::{build_expr, Expr};
use infix_eval::token::Operator;

fn value(e: &Expr) -> f64 {
    match e {
        Expr::Number(text) => std::str::from_utf8(text).unwrap().parse::<f64>().unwrap(),
        Expr::Binary(op, l, r) => {
            let (a, b) = (value(l), value(r));
            match op {
                Operator::Add => a + b,
                Operator::Sub => a - b,
                Operator::Mul => a * b,
                Operator::Div => a / b,
            }
        }
    }
}

fn eval(input: &str) -> Result<f64, Error> {
    build_expr(input.as_bytes().to_vec()).map(|e| value(&e))
}

fn err(kind: ErrorKind) -> Result<f64, Error> {
    Err(Error::new(kind))
}

fn n(text: &str) -> Expr {
    Expr::Number(text.as_bytes().to_vec())
}

fn bin(op: Operator, l: Expr, r: Expr) -> Expr {
    Expr::Binary(op, Box::new(l), Box::new(r))
}

#[test]
fn add() {
    assert_eq!(eval("2+3"), Ok(5.0));
}

#[test]
fn add_mul() {
    assert_eq!(eval("2+3*4"), Ok(14.0));
}

#[test]
fn paren() {
    assert_eq!(eval("(2+3)*4"), Ok(20.0));
}

#[test]
fn add_sub() {
    assert_eq!(eval("2+3-4"), Ok(1.0));
}

#[test]
fn add_div() {
    assert_eq!(eval("2+12/4"), Ok(5.0));
}

#[test]
fn funny_twitter_term() {
    assert_eq!(eval("8/2*(2+2)"), Ok(16.0));
}

#[test]
fn tree_respects_precedence() {
    assert_eq!(
        build_expr(b"2+3*4".to_vec()),
        Ok(bin(Operator::Add, n("2"), bin(Operator::Mul, n("3"), n("4"))))
    );
}

#[test]
fn tree_is_left_associative() {
    assert_eq!(
        build_expr(b"9-4-2".to_vec()),
        Ok(bin(Operator::Sub, bin(Operator::Sub, n("9"), n("4")), n("2")))
    );
    assert_eq!(eval("9-4-2"), Ok(3.0));
    assert_eq!(eval("16/4/2"), Ok(2.0));
}

#[test]
fn nested_parentheses() {
    assert_eq!(eval("((1+2)*(3+4))/7"), Ok(3.0));
    assert_eq!(eval(" 2 * ( 3 + ( 4 - 1 ) ) "), Ok(12.0));
}

#[test]
fn decimal_numbers() {
    assert_eq!(eval("1.5*4"), Ok(6.0));
    assert_eq!(eval(".5+1."), Ok(1.5));
}

#[test]
fn division_by_zero_follows_ieee() {
    assert_eq!(eval("1/0"), Ok(f64::INFINITY));
    assert!(eval("0/0").unwrap().is_nan());
}

#[test]
fn empty_input_underflows() {
    assert_eq!(eval(""), err(ErrorKind::StackUnderflow));
}

#[test]
fn whitespace_only_underflows() {
    assert_eq!(eval(" \t\n"), err(ErrorKind::StackUnderflow));
}

#[test]
fn single_number() {
    assert_eq!(build_expr(b"42".to_vec()), Ok(n("42")));
    assert_eq!(eval("42"), Ok(42.0));
}

#[test]
fn unmatched_right_parenthesis() {
    assert_eq!(eval(")1"), err(ErrorKind::UnmatchedParenthesis));
    assert_eq!(eval("1+2)"), err(ErrorKind::UnmatchedParenthesis));
}

#[test]
fn unmatched_left_parenthesis() {
    assert_eq!(eval("(1+2"), err(ErrorKind::UnmatchedParenthesis));
}

#[test]
fn trailing_operator_underflows() {
    assert_eq!(eval("2+"), err(ErrorKind::StackUnderflow));
}

#[test]
fn two_numbers_without_operator_fail() {
    assert_eq!(eval("2 3"), err(ErrorKind::ExcessOperands));
}

#[test]
fn invalid_number_fails() {
    assert_eq!(eval("2.3.4+1"), err(ErrorKind::InvalidNumber));
    assert_eq!(eval("."), err(ErrorKind::InvalidNumber));
}

#[test]
fn unexpected_character_fails() {
    assert_eq!(eval("2+a"), err(ErrorKind::UnexpectedCharacter(b'a')));
}

#[test]
fn first_failure_wins() {
    assert_eq!(eval("+ x"), err(ErrorKind::UnexpectedCharacter(b'x')));
    assert_eq!(eval("* 1"), err(ErrorKind::StackUnderflow));
}
