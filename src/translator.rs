use vstd::prelude::*;

use crate::error::{Error, ErrorKind};
use crate::scanner::{error_of, item_view, lemma_scan_step_advances, scan_step, Scanner};
use crate::token::{prec, Operator, Paren, Token, TokenView};

verus! {

/// The abstract state of a translator: where its scanner stands, the tokens
/// ready to be emitted (front first), and the operator stack (top last).
pub struct RpnState {
    pub pos: int,
    pub out: Seq<TokenView>,
    pub ops: Seq<TokenView>,
}

pub open spec fn is_left(t: TokenView) -> bool {
    t == TokenView::Parenthesis(Paren::Left)
}

pub open spec fn is_operator(t: TokenView) -> bool {
    t is Operator
}

/// A stack entry that must leave the stack before `op` is pushed: an
/// operator that binds at least as tightly (left associativity).
pub open spec fn binds_over(t: TokenView, op: Operator) -> bool {
    match t {
        TokenView::Operator(o2) => prec(o2) >= prec(op),
        _ => false,
    }
}

/// The index of the topmost left parenthesis on the stack, or -1.
pub open spec fn last_left(ops: Seq<TokenView>) -> int
    decreases ops.len(),
{
    if ops.len() == 0 {
        -1
    } else if is_left(ops.last()) {
        ops.len() - 1
    } else {
        last_left(ops.drop_last())
    }
}

/// How many stack entries stay when `op` arrives: the entries above them
/// all bind over `op`.
pub open spec fn keep_below(ops: Seq<TokenView>, op: Operator) -> int
    decreases ops.len(),
{
    if ops.len() > 0 && binds_over(ops.last(), op) {
        keep_below(ops.drop_last(), op)
    } else {
        ops.len() as int
    }
}

/// The entries above index `k`, in the order in which popping yields them.
pub open spec fn pop_order(ops: Seq<TokenView>, k: int) -> Seq<TokenView> {
    Seq::new((ops.len() - k) as nat, |i: int| ops[ops.len() - 1 - i])
}

/// The stack holds operators and left parentheses only.
pub open spec fn stack_ok(ops: Seq<TokenView>) -> bool {
    forall|i: int| 0 <= i < ops.len() ==> is_operator(#[trigger] ops[i]) || is_left(ops[i])
}

/// The pending output holds operators only.
pub open spec fn pending_ok(out: Seq<TokenView>) -> bool {
    forall|i: int| 0 <= i < out.len() ==> is_operator(#[trigger] out[i])
}

/// The invariant of a translator over `s` in state `st`.
pub open spec fn state_ok(s: Seq<u8>, st: RpnState) -> bool {
    &&& 0 <= st.pos <= s.len()
    &&& stack_ok(st.ops)
    &&& pending_ok(st.out)
}

/// The order in which pulls make progress: the scanner moves forward, or
/// the stack shrinks, or the pending output shrinks.
pub open spec fn progresses(after: RpnState, before: RpnState) -> bool {
    ||| after.pos > before.pos
    ||| after.pos == before.pos && after.ops.len() < before.ops.len()
    ||| after.pos == before.pos && after.ops.len() == before.ops.len() && after.out.len() < before.out.len()
}

pub open spec fn unmatched() -> Error {
    error_of(ErrorKind::UnmatchedParenthesis)
}

/// One pull from a translator in state `st` whose scanner reads `s`: what it
/// yields and the state afterwards. A pull that only moves tokens between
/// the stack and the pending output goes on pulling.
pub open spec fn rpn_next(s: Seq<u8>, st: RpnState) -> (Option<Result<TokenView, Error>>, RpnState)
    decreases s.len() - st.pos,
    when 0 <= st.pos <= s.len()
    via rpn_next_decreases
{
    if st.out.len() > 0 {
        (Some(Ok(st.out[0])), RpnState { out: st.out.drop_first(), ..st })
    } else {
        let (item, p_next) = scan_step(s, st.pos);
        let ops = st.ops;
        match item {
            None => if ops.len() == 0 {
                (None, RpnState { pos: p_next, ..st })
            } else {
                let k = last_left(ops);
                if k >= 0 {
                    (Some(Err(unmatched())), RpnState { pos: p_next, out: pop_order(ops, k + 1), ops: ops.subrange(0, k) })
                } else {
                    let moved = pop_order(ops, 0);
                    (Some(Ok(moved[0])), RpnState { pos: p_next, out: moved.drop_first(), ops: Seq::empty() })
                }
            },
            Some(Err(e)) => (Some(Err(e)), RpnState { pos: p_next, ..st }),
            Some(Ok(TokenView::Number(n))) => (Some(Ok(TokenView::Number(n))), RpnState { pos: p_next, ..st }),
            Some(Ok(TokenView::Operator(op))) => {
                let k = keep_below(ops, op);
                rpn_next(s, RpnState { pos: p_next, out: pop_order(ops, k), ops: ops.subrange(0, k).push(TokenView::Operator(op)) })
            },
            Some(Ok(TokenView::Parenthesis(Paren::Left))) =>
                rpn_next(s, RpnState { pos: p_next, out: st.out, ops: ops.push(TokenView::Parenthesis(Paren::Left)) }),
            Some(Ok(TokenView::Parenthesis(Paren::Right))) => {
                let k = last_left(ops);
                if k >= 0 {
                    rpn_next(s, RpnState { pos: p_next, out: pop_order(ops, k + 1), ops: ops.subrange(0, k) })
                } else {
                    (Some(Err(unmatched())), RpnState { pos: p_next, out: pop_order(ops, 0), ops: Seq::empty() })
                }
            },
        }
    }
}

#[via_fn]
proof fn rpn_next_decreases(s: Seq<u8>, st: RpnState) {
    lemma_scan_step_advances(s, st.pos);
}

pub proof fn lemma_last_left(ops: Seq<TokenView>)
    ensures
        -1 <= last_left(ops) < ops.len(),
        last_left(ops) >= 0 ==> is_left(ops[last_left(ops)]),
        forall|i: int| last_left(ops) < i < ops.len() ==> !is_left(#[trigger] ops[i]),
    decreases ops.len(),
{
    if ops.len() > 0 && !is_left(ops.last()) {
        lemma_last_left(ops.drop_last());
        assert forall|i: int| last_left(ops) < i < ops.len() implies !is_left(#[trigger] ops[i]) by {
            if i < ops.len() - 1 {
                assert(ops[i] == ops.drop_last()[i]);
            }
        }
    }
}

pub proof fn lemma_keep_below(ops: Seq<TokenView>, op: Operator)
    ensures
        0 <= keep_below(ops, op) <= ops.len(),
        keep_below(ops, op) > 0 ==> !binds_over(ops[keep_below(ops, op) - 1], op),
        forall|i: int| keep_below(ops, op) <= i < ops.len() ==> binds_over(#[trigger] ops[i], op),
    decreases ops.len(),
{
    if ops.len() > 0 && binds_over(ops.last(), op) {
        let d = ops.drop_last();
        lemma_keep_below(d, op);
        let k = keep_below(ops, op);
        if k > 0 {
            assert(ops[k - 1] == d[k - 1]);
        }
        assert forall|i: int| k <= i < ops.len() implies binds_over(#[trigger] ops[i], op) by {
            if i < ops.len() - 1 {
                assert(ops[i] == d[i]);
            }
        }
    }
}

/// A pull keeps the translator's invariant, never yields a parenthesis, and
/// makes progress whenever it yields something.
pub proof fn lemma_rpn_next(s: Seq<u8>, st: RpnState)
    requires
        state_ok(s, st),
    ensures
        state_ok(s, rpn_next(s, st).1),
        rpn_next(s, st).1.pos >= st.pos,
        rpn_next(s, st).0 matches Some(Ok(t)) ==> !(t is Parenthesis),
        rpn_next(s, st).0 is Some ==> progresses(rpn_next(s, st).1, st),
    decreases s.len() - st.pos,
{
    if st.out.len() > 0 {
        return;
    }
    lemma_scan_step_advances(s, st.pos);
    let (item, p_next) = scan_step(s, st.pos);
    let ops = st.ops;
    lemma_last_left(ops);
    let k = last_left(ops);
    match item {
        None => {
            if ops.len() > 0 {
                if k >= 0 {
                    assert(pending_ok(pop_order(ops, k + 1))) by {
                        assert forall|i: int| 0 <= i < pop_order(ops, k + 1).len() implies is_operator(#[trigger] pop_order(ops, k + 1)[i]) by {
                            assert(!is_left(ops[ops.len() - 1 - i]));
                        }
                    }
                } else {
                    let moved = pop_order(ops, 0);
                    assert forall|i: int| 0 <= i < moved.len() implies is_operator(#[trigger] moved[i]) by {
                        assert(!is_left(ops[ops.len() - 1 - i]));
                    }
                    assert(pending_ok(moved.drop_first())) by {
                        assert forall|i: int| 0 <= i < moved.drop_first().len() implies is_operator(#[trigger] moved.drop_first()[i]) by {
                            assert(moved.drop_first()[i] == moved[i + 1]);
                        }
                    }
                    assert(is_operator(moved[0]));
                }
            }
        },
        Some(Err(e)) => {},
        Some(Ok(TokenView::Number(n))) => {},
        Some(Ok(TokenView::Operator(op))) => {
            lemma_keep_below(ops, op);
            let kb = keep_below(ops, op);
            let next = RpnState { pos: p_next, out: pop_order(ops, kb), ops: ops.subrange(0, kb).push(TokenView::Operator(op)) };
            assert forall|i: int| 0 <= i < next.out.len() implies is_operator(#[trigger] next.out[i]) by {
                assert(binds_over(ops[ops.len() - 1 - i], op));
            }
            assert forall|i: int| 0 <= i < next.ops.len() implies is_operator(#[trigger] next.ops[i]) || is_left(next.ops[i]) by {
                if i < kb {
                    assert(next.ops[i] == ops[i]);
                }
            }
            lemma_rpn_next(s, next);
        },
        Some(Ok(TokenView::Parenthesis(Paren::Left))) => {
            let next = RpnState { pos: p_next, out: st.out, ops: ops.push(TokenView::Parenthesis(Paren::Left)) };
            assert forall|i: int| 0 <= i < next.ops.len() implies is_operator(#[trigger] next.ops[i]) || is_left(next.ops[i]) by {
                if i < ops.len() {
                    assert(next.ops[i] == ops[i]);
                }
            }
            lemma_rpn_next(s, next);
        },
        Some(Ok(TokenView::Parenthesis(Paren::Right))) => {
            if k >= 0 {
                let next = RpnState { pos: p_next, out: pop_order(ops, k + 1), ops: ops.subrange(0, k) };
                assert forall|i: int| 0 <= i < next.out.len() implies is_operator(#[trigger] next.out[i]) by {
                    assert(!is_left(ops[ops.len() - 1 - i]));
                }
                assert forall|i: int| 0 <= i < next.ops.len() implies is_operator(#[trigger] next.ops[i]) || is_left(next.ops[i]) by {
                    assert(next.ops[i] == ops[i]);
                }
                lemma_rpn_next(s, next);
            } else {
                assert forall|i: int| 0 <= i < pop_order(ops, 0).len() implies is_operator(#[trigger] pop_order(ops, 0)[i]) by {
                    assert(!is_left(ops[ops.len() - 1 - i]));
                }
            }
        },
    }
}

/// A translator: the second stage, which reorders the scanner's infix
/// tokens into postfix order one token per pull.
pub struct InfixToRPNTranslator {
    scanner: Scanner,
    out: Vec<Token>,
    operators: Vec<Token>,
}

pub open spec fn views(v: Seq<Token>) -> Seq<TokenView> {
    v.map_values(|t: Token| t@)
}

impl InfixToRPNTranslator {
    pub closed spec fn source(&self) -> Seq<u8> {
        self.scanner.source()
    }

    pub closed spec fn state(&self) -> RpnState {
        RpnState { pos: self.scanner.position(), out: views(self.out@), ops: views(self.operators@) }
    }

    pub open spec fn wf(&self) -> bool {
        state_ok(self.source(), self.state())
    }

    pub fn new(scanner: Scanner) -> (r: InfixToRPNTranslator)
        requires
            scanner.wf(),
        ensures
            r.wf(),
            r.source() == scanner.source(),
            r.state() == (RpnState { pos: scanner.position(), out: Seq::empty(), ops: Seq::empty() }),
    {
        let r = InfixToRPNTranslator { scanner, out: Vec::new(), operators: Vec::new() };
        assert(views(r.out@) =~= Seq::empty());
        assert(views(r.operators@) =~= Seq::empty());
        r
    }

    /// Pops the stack onto the pending output down to the topmost left
    /// parenthesis, which is dropped. Tells whether there was one.
    fn pop_to_left(&mut self) -> (found: bool)
        requires
            old(self).wf(),
        ensures
            final(self).wf(),
            final(self).scanner == old(self).scanner,
            found == (last_left(old(self).state().ops) >= 0),
            ({
                let ops = old(self).state().ops;
                let k = last_left(ops);
                if k >= 0 {
                    &&& final(self).state().ops == ops.subrange(0, k)
                    &&& final(self).state().out == old(self).state().out + pop_order(ops, k + 1)
                } else {
                    &&& final(self).state().ops == Seq::<TokenView>::empty()
                    &&& final(self).state().out == old(self).state().out + pop_order(ops, 0)
                }
            }),
    {
        let ghost ops0 = views(self.operators@);
        let ghost out0 = views(self.out@);
        proof {
            lemma_last_left(ops0);
        }
        while self.operators.len() > 0
            invariant
                self.wf(),
                self.scanner == old(self).scanner,
                ops0 == old(self).state().ops,
                stack_ok(ops0),
                out0 == old(self).state().out,
                self.operators@.len() <= ops0.len(),
                views(self.operators@) == ops0.subrange(0, self.operators@.len() as int),
                views(self.out@) == out0 + pop_order(ops0, self.operators@.len() as int),
                forall|i: int| self.operators@.len() <= i < ops0.len() ==> !is_left(#[trigger] ops0[i]),
                -1 <= last_left(ops0) < ops0.len(),
                last_left(ops0) >= 0 ==> is_left(ops0[last_left(ops0)]),
                forall|i: int| last_left(ops0) < i < ops0.len() ==> !is_left(#[trigger] ops0[i]),
            decreases self.operators@.len(),
        {
            let j = self.operators.len();
            let ghost before_ops = self.operators@;
            let t = self.operators.pop().unwrap();
            proof {
                assert(before_ops == self.operators@.push(t));
                assert(views(before_ops)[j - 1] == t@);
                assert(ops0.subrange(0, j as int)[j - 1] == ops0[j - 1]);
                assert(t@ == ops0[j - 1]);
                assert(views(self.operators@) =~= ops0.subrange(0, j - 1));
            }
            match t {
                Token::Parenthesis(Paren::Left) => {
                    proof {
                        assert(last_left(ops0) == j - 1);
                    }
                    return true;
                },
                _ => {
                    proof {
                        assert(!is_left(t@));
                        assert(stack_ok(ops0));
                        assert(is_operator(ops0[j - 1]));
                    }
                    let ghost before = self.out@;
                    self.out.push(t);
                    proof {
                        assert(views(self.out@) =~= views(before).push(t@));
                        assert(pop_order(ops0, j - 1) =~= pop_order(ops0, j as int).push(ops0[j - 1]));
                        assert(views(self.out@) =~= out0 + pop_order(ops0, j - 1));
                    }
                },
            }
        }
        proof {
            assert(last_left(ops0) == -1);
            assert(views(self.operators@) =~= Seq::<TokenView>::empty());
        }
        false
    }

    /// Pops onto the pending output every stack entry that binds over `op`.
    fn pop_binding(&mut self, op: Operator)
        requires
            old(self).wf(),
        ensures
            final(self).wf(),
            final(self).scanner == old(self).scanner,
            ({
                let ops = old(self).state().ops;
                let k = keep_below(ops, op);
                &&& final(self).state().ops == ops.subrange(0, k)
                &&& final(self).state().out == old(self).state().out + pop_order(ops, k)
            }),
    {
        let ghost ops0 = views(self.operators@);
        let ghost out0 = views(self.out@);
        proof {
            lemma_keep_below(ops0, op);
        }
        let prec_op = op.precedence();
        while self.operators.len() > 0
            invariant
                self.wf(),
                self.scanner == old(self).scanner,
                ops0 == old(self).state().ops,
                out0 == old(self).state().out,
                prec_op == prec(op),
                0 <= keep_below(ops0, op) <= self.operators@.len() <= ops0.len(),
                views(self.operators@) == ops0.subrange(0, self.operators@.len() as int),
                views(self.out@) == out0 + pop_order(ops0, self.operators@.len() as int),
                keep_below(ops0, op) > 0 ==> !binds_over(ops0[keep_below(ops0, op) - 1], op),
                forall|i: int| keep_below(ops0, op) <= i < ops0.len() ==> binds_over(#[trigger] ops0[i], op),
            ensures
                self.wf(),
                self.scanner == old(self).scanner,
                views(self.operators@) == ops0.subrange(0, keep_below(ops0, op)),
                views(self.out@) == out0 + pop_order(ops0, keep_below(ops0, op)),
            decreases self.operators@.len(),
        {
            let j = self.operators.len();
            proof {
                assert(views(self.operators@)[j - 1] == self.operators@[j - 1]@);
                assert(ops0.subrange(0, j as int)[j - 1] == ops0[j - 1]);
            }
            let binds = match &self.operators[j - 1] {
                Token::Operator(op2) => op2.precedence() >= prec_op,
                _ => false,
            };
            if !binds {
                proof {
                    assert(!binds_over(ops0[j - 1], op));
                    assert(keep_below(ops0, op) == j);
                }
                break;
            }
            let ghost before_ops = self.operators@;
            let t = self.operators.pop().unwrap();
            proof {
                assert(before_ops == self.operators@.push(t));
                assert(views(before_ops)[j - 1] == t@);
                assert(t@ == ops0[j - 1]);
                assert(views(self.operators@) =~= ops0.subrange(0, j - 1));
            }
            let ghost before = self.out@;
            self.out.push(t);
            proof {
                assert(views(self.out@) =~= views(before).push(t@));
                assert(pop_order(ops0, j - 1) =~= pop_order(ops0, j as int).push(ops0[j - 1]));
                assert(views(self.out@) =~= out0 + pop_order(ops0, j - 1));
            }
        }
    }

    /// Yields the next postfix token, a failure, or `None` once the input
    /// and the operator stack are exhausted.
    pub fn next(&mut self) -> (r: Option<Result<Token, Error>>)
        requires
            old(self).wf(),
        ensures
            final(self).wf(),
            final(self).source() == old(self).source(),
            (item_view(r), final(self).state()) == rpn_next(old(self).source(), old(self).state()),
    {
        let ghost s = self.source();
        loop
            invariant
                self.wf(),
                self.source() == s,
                s == old(self).source(),
                rpn_next(s, self.state()) == rpn_next(s, old(self).state()),
            decreases s.len() - self.state().pos,
        {
            if self.out.len() > 0 {
                let ghost before = self.out@;
                let t = self.out.remove(0);
                proof {
                    assert(views(self.out@) =~= views(before).drop_first());
                    assert(views(before)[0] == t@);
                }
                return Some(Ok(t));
            }
            let ghost st = self.state();
            proof {
                lemma_scan_step_advances(s, st.pos);
            }
            let item = self.scanner.next();
            assert(self.state().pos == scan_step(s, st.pos).1);
            match item {
                None => {
                    if self.operators.len() == 0 {
                        return None;
                    }
                    let found = self.pop_to_left();
                    if found {
                        return Some(Err(Error::new(ErrorKind::UnmatchedParenthesis)));
                    }
                    proof {
                        assert(views(self.out@) =~= pop_order(st.ops, 0));
                    }
                    let ghost before = self.out@;
                    let t = self.out.remove(0);
                    proof {
                        assert(views(self.out@) =~= views(before).drop_first());
                        assert(views(before)[0] == t@);
                    }
                    return Some(Ok(t));
                },
                Some(Err(e)) => {
                    return Some(Err(e));
                },
                Some(Ok(tok)) => {
                    match tok {
                        Token::Number(n) => {
                            return Some(Ok(Token::Number(n)));
                        },
                        Token::Operator(op) => {
                            self.pop_binding(op);
                            let ghost before = self.operators@;
                            self.operators.push(Token::Operator(op));
                            proof {
                                assert(views(self.operators@) =~= views(before).push(TokenView::Operator(op)));
                                assert(views(self.out@) =~= pop_order(st.ops, keep_below(st.ops, op)));
                            }
                        },
                        Token::Parenthesis(Paren::Left) => {
                            let ghost before = self.operators@;
                            self.operators.push(Token::Parenthesis(Paren::Left));
                            proof {
                                assert(views(self.operators@) =~= views(before).push(TokenView::Parenthesis(Paren::Left)));
                            }
                        },
                        Token::Parenthesis(Paren::Right) => {
                            let found = self.pop_to_left();
                            if !found {
                                proof {
                                    assert(views(self.out@) =~= pop_order(st.ops, 0));
                                }
                                return Some(Err(Error::new(ErrorKind::UnmatchedParenthesis)));
                            }
                            proof {
                                assert(views(self.out@) =~= pop_order(st.ops, last_left(st.ops) + 1));
                            }
                        },
                    }
                },
            }
        }
    }
}

} // verus!
