use infix_eval::error::{Error, ErrorKind};
use infix_eval::scanner::Scanner;
use infix_eval::token::{Operator, Paren, Token};

fn scan(input: &str) -> Vec<Result<Token, Error>> {
    let mut s = Scanner::new(input.as_bytes().to_vec());
    let mut items = Vec::new();
    while let Some(item) = s.next() {
        items.push(item);
    }
    items
}

fn num(text: &str) -> Token {
    Token::Number(text.as_bytes().to_vec())
}

fn ok(tokens: Vec<Token>) -> Vec<Result<Token, Error>> {
    tokens.into_iter().map(Ok).collect()
}

#[test]
fn operator_add() {
    assert_eq!(scan("+"), ok(vec![Token::Operator(Operator::Add)]));
}

#[test]
fn operator_add_w_spaces() {
    assert_eq!(scan(" +  "), ok(vec![Token::Operator(Operator::Add)]));
}

#[test]
fn operator_sub() {
    assert_eq!(scan("-"), ok(vec![Token::Operator(Operator::Sub)]));
}

#[test]
fn operator_mul() {
    assert_eq!(scan("*"), ok(vec![Token::Operator(Operator::Mul)]));
}

#[test]
fn operator_div() {
    assert_eq!(scan("/"), ok(vec![Token::Operator(Operator::Div)]));
}

#[test]
fn operator_lparen() {
    assert_eq!(scan("("), ok(vec![Token::Parenthesis(Paren::Left)]));
}

#[test]
fn operator_rparen() {
    assert_eq!(scan(")"), ok(vec![Token::Parenthesis(Paren::Right)]));
}

#[test]
fn operator_number() {
    assert_eq!(scan("2.34"), ok(vec![num("2.34")]));
}

#[test]
fn simple_expr_0() {
    assert_eq!(
        scan("2+3"),
        ok(vec![num("2"), Token::Operator(Operator::Add), num("3")])
    );
}

#[test]
fn simple_expr_1() {
    assert_eq!(
        scan(" 2   + 3  *  4  "),
        ok(vec![
            num("2"),
            Token::Operator(Operator::Add),
            num("3"),
            Token::Operator(Operator::Mul),
            num("4"),
        ])
    );
}

#[test]
fn paren_expr() {
    assert_eq!(
        scan("2*(3+4)"),
        ok(vec![
            num("2"),
            Token::Operator(Operator::Mul),
            Token::Parenthesis(Paren::Left),
            num("3"),
            Token::Operator(Operator::Add),
            num("4"),
            Token::Parenthesis(Paren::Right),
        ])
    );
}

#[test]
fn number_at_end_of_input_is_flushed() {
    assert_eq!(scan("12"), ok(vec![num("12")]));
    assert_eq!(scan("1\t\r\n"), ok(vec![num("1")]));
}

#[test]
fn number_ends_at_whitespace() {
    assert_eq!(scan("2 3"), ok(vec![num("2"), num("3")]));
}

#[test]
fn empty_and_blank_input_yield_nothing() {
    assert_eq!(scan(""), Vec::new());
    assert_eq!(scan(" \t\r\n "), Vec::new());
}

#[test]
fn leading_and_trailing_points_are_numbers() {
    assert_eq!(scan(".5"), ok(vec![num(".5")]));
    assert_eq!(scan("1."), ok(vec![num("1.")]));
}

#[test]
fn several_points_are_an_invalid_number() {
    assert_eq!(
        scan("2.3.4"),
        vec![Err(Error::new(ErrorKind::InvalidNumber))]
    );
}

#[test]
fn lone_point_is_an_invalid_number() {
    assert_eq!(scan("."), vec![Err(Error::new(ErrorKind::InvalidNumber))]);
}

#[test]
fn unexpected_character() {
    assert_eq!(
        scan("x"),
        vec![Err(Error::new(ErrorKind::UnexpectedCharacter(b'x')))]
    );
    assert_eq!(
        scan("\0"),
        vec![Err(Error::new(ErrorKind::UnexpectedCharacter(0)))]
    );
}

#[test]
fn rescanning_yields_identical_tokens() {
    let input = " (1.5+ 22)*3 /4-x";
    assert_eq!(scan(input), scan(input));
}

#[test]
fn resolve_number_checks_the_run() {
    assert_eq!(
        Scanner::resolve_number(b"10.25".to_vec()),
        Ok(num("10.25"))
    );
    assert_eq!(
        Scanner::resolve_number(b"..".to_vec()),
        Err(Error::new(ErrorKind::InvalidNumber))
    );
}

#[test]
fn precedence_ranks() {
    assert_eq!(Operator::Add.precedence(), 1);
    assert_eq!(Operator::Sub.precedence(), 1);
    assert_eq!(Operator::Mul.precedence(), 2);
    assert_eq!(Operator::Div.precedence(), 2);
}
