use infix_eval::error::{Error, ErrorKind};
use infix_eval::scanner::Scanner;
use infix_eval::token::{Operator, Token};
use infix_eval::translator::InfixToRPNTranslator;

fn postfix(input: &str) -> Vec<Result<Token, Error>> {
    let mut rpn = InfixToRPNTranslator::new(Scanner::new(input.as_bytes().to_vec()));
    let mut items = Vec::new();
    while let Some(item) = rpn.next() {
        let failed = item.is_err();
        items.push(item);
        if failed {
            break;
        }
    }
    items
}

fn num(text: &str) -> Result<Token, Error> {
    Ok(Token::Number(text.as_bytes().to_vec()))
}

fn op(o: Operator) -> Result<Token, Error> {
    Ok(Token::Operator(o))
}

#[test]
fn simple() {
    assert_eq!(postfix("1+2"), vec![num("1"), num("2"), op(Operator::Add)]);
}

#[test]
fn precedence() {
    assert_eq!(
        postfix("1+2*3"),
        vec![num("1"), num("2"), num("3"), op(Operator::Mul), op(Operator::Add)]
    );
}

#[test]
fn chain() {
    assert_eq!(
        postfix("2+3*4-5"),
        vec![
            num("2"),
            num("3"),
            num("4"),
            op(Operator::Mul),
            op(Operator::Add),
            num("5"),
            op(Operator::Sub),
        ]
    );
}

#[test]
fn parenthesis() {
    assert_eq!(
        postfix("2+3*(4-5)"),
        vec![
            num("2"),
            num("3"),
            num("4"),
            num("5"),
            op(Operator::Sub),
            op(Operator::Mul),
            op(Operator::Add),
        ]
    );
}

#[test]
fn equal_precedence_is_left_associative() {
    assert_eq!(
        postfix("8/2*3"),
        vec![num("8"), num("2"), op(Operator::Div), num("3"), op(Operator::Mul)]
    );
}

#[test]
fn right_parenthesis_without_left_fails() {
    assert_eq!(
        postfix(")1"),
        vec![Err(Error::new(ErrorKind::UnmatchedParenthesis))]
    );
}

#[test]
fn left_parenthesis_left_open_fails_at_end() {
    assert_eq!(
        postfix("(1+2"),
        vec![num("1"), num("2"), Err(Error::new(ErrorKind::UnmatchedParenthesis))]
    );
}

#[test]
fn scanner_failure_passes_through() {
    assert_eq!(
        postfix("1+y"),
        vec![num("1"), Err(Error::new(ErrorKind::UnexpectedCharacter(b'y')))]
    );
}
