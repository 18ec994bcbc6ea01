use vstd::prelude::*;

verus! {

/// A binary arithmetic operator.
#[derive(PartialEq, Eq, Structural, Clone, Copy, Debug)]
pub enum Operator {
    Add,
    Sub,
    Mul,
    Div,
}

/// The binding strength of an operator: a higher value binds tighter.
pub open spec fn prec(op: Operator) -> nat {
    match op {
        Operator::Add | Operator::Sub => 1,
        Operator::Mul | Operator::Div => 2,
    }
}

impl Operator {
    pub fn precedence(&self) -> (r: usize)
        ensures
            r == prec(*self),
    {
        match self {
            Operator::Add | Operator::Sub => 1,
            Operator::Mul | Operator::Div => 2,
        }
    }
}

/// The side of a parenthesis.
#[derive(PartialEq, Eq, Structural, Clone, Copy, Debug)]
pub enum Paren {
    Left,
    Right,
}

/// A token of the infix or postfix stream. A number carries the run of
/// digit and decimal-point bytes it was scanned from; turning that run into
/// a floating-point value is left to the caller.
#[derive(PartialEq, Eq, Clone, Debug)]
pub enum Token {
    Number(Vec<u8>),
    Operator(Operator),
    Parenthesis(Paren),
}

/// The mathematical value of a token.
pub enum TokenView {
    Number(Seq<u8>),
    Operator(Operator),
    Parenthesis(Paren),
}

impl View for Token {
    type V = TokenView;

    open spec fn view(&self) -> TokenView {
        match self {
            Token::Number(v) => TokenView::Number(v@),
            Token::Operator(op) => TokenView::Operator(*op),
            Token::Parenthesis(p) => TokenView::Parenthesis(*p),
        }
    }
}

} // verus!
