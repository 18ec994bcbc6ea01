use vstd::prelude::*;

use crate::error::{Error, ErrorKind};
use crate::scanner::{error_of, Scanner};
use crate::token::{Operator, Token, TokenView};
use crate::translator::{
    lemma_rpn_next, rpn_next, state_ok, InfixToRPNTranslator, RpnState,
};

verus! {

/// An arithmetic expression: what the evaluator folds a postfix stream into.
/// A number keeps the digit run it was scanned from.
#[derive(PartialEq, Eq, Debug)]
pub enum Expr {
    Number(Vec<u8>),
    Binary(Operator, Box<Expr>, Box<Expr>),
}

/// The mathematical value of an expression.
pub enum ExprView {
    Number(Seq<u8>),
    Binary(Operator, Box<ExprView>, Box<ExprView>),
}

impl View for Expr {
    type V = ExprView;

    open spec fn view(&self) -> ExprView
        decreases self,
    {
        match self {
            Expr::Number(v) => ExprView::Number(v@),
            Expr::Binary(op, l, r) => ExprView::Binary(*op, Box::new((**l).view()), Box::new((**r).view())),
        }
    }
}

pub open spec fn expr_views(v: Seq<Expr>) -> Seq<ExprView> {
    v.map_values(|e: Expr| e@)
}

/// The result of folding the remaining pulls of a translator over `s` in
/// state `st` onto the value stack `stack` (top last).
pub open spec fn fold_from(s: Seq<u8>, st: RpnState, stack: Seq<ExprView>) -> Result<ExprView, Error>
    decreases s.len() - st.pos, st.ops.len(), st.out.len(),
    when state_ok(s, st)
    via fold_from_decreases
{
    let (item, st2) = rpn_next(s, st);
    match item {
        None => if stack.len() == 1 {
            Ok(stack[0])
        } else if stack.len() == 0 {
            Err(error_of(ErrorKind::StackUnderflow))
        } else {
            Err(error_of(ErrorKind::ExcessOperands))
        },
        Some(Err(e)) => Err(e),
        Some(Ok(TokenView::Number(n))) => fold_from(s, st2, stack.push(ExprView::Number(n))),
        Some(Ok(TokenView::Operator(op))) => if stack.len() < 2 {
            Err(error_of(ErrorKind::StackUnderflow))
        } else {
            let right = stack[stack.len() - 1];
            let left = stack[stack.len() - 2];
            fold_from(s, st2, stack.subrange(0, stack.len() - 2).push(ExprView::Binary(op, Box::new(left), Box::new(right))))
        },
        // never pulled: see `lemma_rpn_next`
        Some(Ok(TokenView::Parenthesis(_))) => Err(error_of(ErrorKind::UnmatchedParenthesis)),
    }
}

#[via_fn]
proof fn fold_from_decreases(s: Seq<u8>, st: RpnState, stack: Seq<ExprView>) {
    lemma_rpn_next(s, st);
}

/// The state of a translator that has not been pulled yet.
pub open spec fn start() -> RpnState {
    RpnState { pos: 0, out: Seq::empty(), ops: Seq::empty() }
}

/// What evaluating the bytes `s` gives: the expression tree of the whole
/// input, or the first failure.
pub open spec fn evaluation(s: Seq<u8>) -> Result<ExprView, Error> {
    fold_from(s, start(), Seq::empty())
}

pub open spec fn result_view(r: Result<Expr, Error>) -> Result<ExprView, Error> {
    match r {
        Ok(e) => Ok(e@),
        Err(e) => Err(e),
    }
}

/// Scans, translates and folds `input` into its expression tree.
pub fn build_expr(input: Vec<u8>) -> (r: Result<Expr, Error>)
    ensures
        result_view(r) == evaluation(input@),
{
    let ghost s = input@;
    let scanner = Scanner::new(input);
    let mut rpn = InfixToRPNTranslator::new(scanner);
    let mut stack: Vec<Expr> = Vec::new();
    proof {
        assert(expr_views(stack@) =~= Seq::<ExprView>::empty());
    }
    loop
        invariant
            rpn.wf(),
            rpn.source() == s,
            s == input@,
            fold_from(s, rpn.state(), expr_views(stack@)) == evaluation(s),
        decreases s.len() - rpn.state().pos, rpn.state().ops.len(), rpn.state().out.len(),
    {
        let ghost st = rpn.state();
        let ghost vs = expr_views(stack@);
        proof {
            lemma_rpn_next(s, st);
        }
        let item = rpn.next();
        match item {
            None => {
                if stack.len() == 1 {
                    let e = stack.pop().unwrap();
                    assert(e@ == vs[0]);
                    return Ok(e);
                } else if stack.len() == 0 {
                    return Err(Error::new(ErrorKind::StackUnderflow));
                } else {
                    return Err(Error::new(ErrorKind::ExcessOperands));
                }
            },
            Some(Err(e)) => {
                assert(rpn_next(s, st).0 == Some(Err::<TokenView, Error>(e)));
                return Err(e);
            },
            Some(Ok(Token::Number(n))) => {
                stack.push(Expr::Number(n));
                proof {
                    assert(expr_views(stack@) =~= vs.push(ExprView::Number(n@)));
                }
            },
            Some(Ok(Token::Operator(op))) => {
                if stack.len() < 2 {
                    return Err(Error::new(ErrorKind::StackUnderflow));
                }
                let right = stack.pop().unwrap();
                let left = stack.pop().unwrap();
                let ghost rest = stack@;
                stack.push(Expr::Binary(op, Box::new(left), Box::new(right)));
                proof {
                    assert(vs[vs.len() - 1] == right@);
                    assert(vs[vs.len() - 2] == left@);
                    assert(expr_views(rest) =~= vs.subrange(0, vs.len() - 2));
                    assert(expr_views(stack@) =~= expr_views(rest).push(
                        ExprView::Binary(op, Box::new(left@), Box::new(right@)),
                    ));
                }
            },
            Some(Ok(Token::Parenthesis(_))) => {
                proof {
                    assert(false);
                }
                return Err(Error::new(ErrorKind::UnmatchedParenthesis));
            },
        }
    }
}

} // verus!
