use vstd::prelude::*;

use crate::error::Error;
use crate::evaluator::{evaluation, fold_from, start, ExprView};
use crate::scanner::{lemma_scan_step_advances, scan_step};
use crate::token::{prec, Operator, Paren, TokenView};
use crate::translator::{
    binds_over, is_left, is_operator, keep_below, last_left, lemma_keep_below, lemma_last_left,
    lemma_rpn_next, pop_order, rpn_next, stack_ok, state_ok, RpnState,
};

verus! {

/// What a scanner over `s` standing at `p` yields next.
pub open spec fn tok(s: Seq<u8>, p: int) -> Option<Result<TokenView, Error>> {
    scan_step(s, p).0
}

/// Where a scanner over `s` standing at `p` stands after one pull.
pub open spec fn nxt(s: Seq<u8>, p: int) -> int {
    scan_step(s, p).1
}

/// The item is an operator of precedence `level`.
pub open spec fn is_op_at(t: Option<Result<TokenView, Error>>, level: nat) -> bool {
    t matches Some(Ok(TokenView::Operator(op))) && prec(op) == level
}

pub open spec fn op_in(t: Option<Result<TokenView, Error>>) -> Operator {
    match t {
        Some(Ok(TokenView::Operator(op))) => op,
        _ => Operator::Add,
    }
}

pub open spec fn right_paren() -> Option<Result<TokenView, Error>> {
    Some(Ok(TokenView::Parenthesis(Paren::Right)))
}

/// A factor at `p`: a number, or a sum in parentheses. Gives its tree and
/// the position after it.
pub open spec fn parse_factor(s: Seq<u8>, p: int) -> Option<(ExprView, int)>
    decreases s.len() - p, 0nat,
    when 0 <= p <= s.len()
    via parse_factor_decreases
{
    match tok(s, p) {
        Some(Ok(TokenView::Number(n))) => Some((ExprView::Number(n), nxt(s, p))),
        Some(Ok(TokenView::Parenthesis(Paren::Left))) => match parse_sum(s, nxt(s, p)) {
            Some((e, q)) => if tok(s, q) == right_paren() {
                Some((e, nxt(s, q)))
            } else {
                None
            },
            None => None,
        },
        _ => None,
    }
}

/// The rest of a term at `p` whose factors so far give `acc`: further
/// factors joined by `*` or `/`, grouped from the left. Here and below, a
/// step checks that the position has moved forward before going on; that
/// always holds, and it makes the recursion visibly finite.
pub open spec fn parse_term_rest(s: Seq<u8>, p: int, acc: ExprView) -> Option<(ExprView, int)>
    decreases s.len() - p, 1nat,
    when 0 <= p <= s.len()
    via parse_term_rest_decreases
{
    if is_op_at(tok(s, p), 2) {
        match parse_factor(s, nxt(s, p)) {
            Some((f, q)) => if p < q <= s.len() {
                parse_term_rest(s, q, ExprView::Binary(op_in(tok(s, p)), Box::new(acc), Box::new(f)))
            } else {
                None
            },
            None => None,
        }
    } else {
        Some((acc, p))
    }
}

/// A term at `p`: factors joined by `*` or `/`.
pub open spec fn parse_term(s: Seq<u8>, p: int) -> Option<(ExprView, int)>
    decreases s.len() - p, 2nat,
    when 0 <= p <= s.len()
    via parse_term_decreases
{
    match parse_factor(s, p) {
        Some((f, q)) => if p < q <= s.len() {
            parse_term_rest(s, q, f)
        } else {
            None
        },
        None => None,
    }
}

/// The rest of a sum at `p` whose terms so far give `acc`: further terms
/// joined by `+` or `-`, grouped from the left.
pub open spec fn parse_sum_rest(s: Seq<u8>, p: int, acc: ExprView) -> Option<(ExprView, int)>
    decreases s.len() - p, 3nat,
    when 0 <= p <= s.len()
    via parse_sum_rest_decreases
{
    if is_op_at(tok(s, p), 1) {
        match parse_term(s, nxt(s, p)) {
            Some((t, q)) => if p < q <= s.len() {
                parse_sum_rest(s, q, ExprView::Binary(op_in(tok(s, p)), Box::new(acc), Box::new(t)))
            } else {
                None
            },
            None => None,
        }
    } else {
        Some((acc, p))
    }
}

/// A sum at `p`: terms joined by `+` or `-`.
pub open spec fn parse_sum(s: Seq<u8>, p: int) -> Option<(ExprView, int)>
    decreases s.len() - p, 4nat,
    when 0 <= p <= s.len()
    via parse_sum_decreases
{
    match parse_term(s, p) {
        Some((t, q)) => if p < q <= s.len() {
            parse_sum_rest(s, q, t)
        } else {
            None
        },
        None => None,
    }
}

/// The reference reading of `s` as an infix expression: a sum that spans
/// the whole token sequence, by recursive descent.
pub open spec fn infix_tree(s: Seq<u8>) -> Option<ExprView> {
    match parse_sum(s, 0) {
        Some((e, q)) => if tok(s, q) is None {
            Some(e)
        } else {
            None
        },
        None => None,
    }
}

/// The state of a translator at `p` with stack `ops` and nothing pending.
pub open spec fn at(p: int, ops: Seq<TokenView>) -> RpnState {
    RpnState { pos: p, out: Seq::empty(), ops }
}

/// An item that may follow a complete operand: an operator, a right
/// parenthesis, the end, or a failure.
pub open spec fn ends_operand(t: Option<Result<TokenView, Error>>) -> bool {
    ||| t is None
    ||| t matches Some(Err(_))
    ||| t matches Some(Ok(TokenView::Operator(_)))
    ||| t == right_paren()
}

/// The top of the stack is no `*` or `/`.
pub open spec fn no_mul_top(ops: Seq<TokenView>) -> bool {
    ops.len() == 0 || !(ops.last() matches TokenView::Operator(op) && prec(op) == 2)
}

/// The stack is empty or has a left parenthesis on top.
pub open spec fn left_top(ops: Seq<TokenView>) -> bool {
    ops.len() == 0 || is_left(ops.last())
}

proof fn lemma_end_stays(s: Seq<u8>, q: int)
    requires
        0 <= q <= s.len(),
        tok(s, q) is None,
    ensures
        nxt(s, q) == s.len(),
        tok(s, nxt(s, q)) is None,
{
    lemma_scan_step_advances(s, q);
}

/// Two states whose next pulls agree fold to the same result.
proof fn lemma_same_pull(s: Seq<u8>, a: RpnState, b: RpnState, v: Seq<ExprView>)
    requires
        state_ok(s, a),
        state_ok(s, b),
        rpn_next(s, a) == rpn_next(s, b),
    ensures
        fold_from(s, a, v) == fold_from(s, b, v),
{
}

/// A pending operator `x` on top of the stack, over operands `l` and `r`,
/// is applied as soon as an item arrives that closes it.
proof fn lemma_close(s: Seq<u8>, q: int, ob: Seq<TokenView>, x: Operator, v: Seq<ExprView>, l: ExprView, r: ExprView)
    requires
        state_ok(s, at(q, ob.push(TokenView::Operator(x)))),
        ends_operand(tok(s, q)),
        tok(s, q) matches Some(Ok(TokenView::Operator(o))) ==> prec(x) >= prec(o),
    ensures
        fold_from(s, at(q, ob.push(TokenView::Operator(x))), v.push(l).push(r))
            == fold_from(s, at(q, ob), v.push(ExprView::Binary(x, Box::new(l), Box::new(r)))),
{
    let xt = TokenView::Operator(x);
    let lo = ob.push(xt);
    let la = at(q, lo);
    let ra = at(q, ob);
    assert(ob =~= lo.drop_last());
    assert(state_ok(s, ra)) by {
        assert forall|i: int| 0 <= i < ob.len() implies is_operator(#[trigger] ob[i]) || is_left(ob[i]) by {
            assert(ob[i] == lo[i]);
        }
    }
    lemma_scan_step_advances(s, q);
    let p_next = nxt(s, q);
    let bin = ExprView::Binary(x, Box::new(l), Box::new(r));
    lemma_rpn_next(s, la);
    match tok(s, q) {
        Some(Ok(TokenView::Operator(o))) => {
            let k = keep_below(ob, o);
            lemma_keep_below(ob, o);
            assert(keep_below(lo, o) == k);
            assert(lo.subrange(0, k) =~= ob.subrange(0, k));
            assert(pop_order(lo, k) =~= seq![xt] + pop_order(ob, k));
            let l3 = RpnState { pos: p_next, out: pop_order(ob, k), ops: ob.subrange(0, k).push(TokenView::Operator(o)) };
            assert(pop_order(lo, k).drop_first() =~= pop_order(ob, k));
            let l2 = RpnState { pos: p_next, out: pop_order(lo, k), ops: lo.subrange(0, k).push(TokenView::Operator(o)) };
            assert(rpn_next(s, la) == rpn_next(s, l2));
            assert(rpn_next(s, l2) == (Some(Ok::<TokenView, Error>(xt)), l3));
            lemma_rpn_next(s, ra);
            lemma_same_pull(s, ra, l3, v.push(bin));
            assert(v.push(l).push(r).subrange(0, v.len() as int) =~= v);
        },
        Some(Ok(TokenView::Parenthesis(Paren::Right))) => {
            let k = last_left(ob);
            assert(last_left(lo) == k);
            if k >= 0 {
                lemma_last_left(ob);
                assert(lo.subrange(0, k) =~= ob.subrange(0, k));
                assert(pop_order(lo, k + 1) =~= seq![xt] + pop_order(ob, k + 1));
                let l3 = RpnState { pos: p_next, out: pop_order(ob, k + 1), ops: ob.subrange(0, k) };
                assert(pop_order(lo, k + 1).drop_first() =~= pop_order(ob, k + 1));
                let l2 = RpnState { pos: p_next, out: pop_order(lo, k + 1), ops: lo.subrange(0, k) };
                assert(rpn_next(s, la) == rpn_next(s, l2));
                assert(rpn_next(s, l2) == (Some(Ok::<TokenView, Error>(xt)), l3));
                lemma_rpn_next(s, ra);
                lemma_same_pull(s, ra, l3, v.push(bin));
                assert(v.push(l).push(r).subrange(0, v.len() as int) =~= v);
            }
        },
        None => {
            let k = last_left(ob);
            assert(last_left(lo) == k);
            lemma_last_left(ob);
            if k < 0 {
                lemma_end_stays(s, q);
                assert(pop_order(lo, 0) =~= seq![xt] + pop_order(ob, 0));
                assert(pop_order(lo, 0).drop_first() =~= pop_order(ob, 0));
                let l3 = RpnState { pos: p_next, out: pop_order(ob, 0), ops: Seq::empty() };
                assert(rpn_next(s, la) == (Some(Ok::<TokenView, Error>(xt)), l3));
                assert(v.push(l).push(r).subrange(0, v.len() as int) =~= v);
                if ob.len() > 0 {
                    lemma_same_pull(s, ra, l3, v.push(bin));
                } else {
                    assert(pop_order(ob, 0) =~= Seq::<TokenView>::empty());
                }
            }
        },
        _ => {},
    }
}

proof fn lemma_stack_push(ops: Seq<TokenView>, t: TokenView)
    requires
        stack_ok(ops),
        is_operator(t) || is_left(t),
    ensures
        stack_ok(ops.push(t)),
{
    assert forall|i: int| 0 <= i < ops.push(t).len() implies is_operator(#[trigger] ops.push(t)[i]) || is_left(ops.push(t)[i]) by {
        if i < ops.len() {
            assert(ops.push(t)[i] == ops[i]);
        }
    }
}

/// Pushing an operator that nothing on the stack binds over.
proof fn lemma_push_operator(s: Seq<u8>, p: int, ops: Seq<TokenView>, op: Operator)
    requires
        state_ok(s, at(p, ops)),
        tok(s, p) == Some(Ok::<TokenView, Error>(TokenView::Operator(op))),
        ops.len() == 0 || !binds_over(ops.last(), op),
    ensures
        p < nxt(s, p) <= s.len(),
        state_ok(s, at(nxt(s, p), ops.push(TokenView::Operator(op)))),
        rpn_next(s, at(p, ops)) == rpn_next(s, at(nxt(s, p), ops.push(TokenView::Operator(op)))),
{
    lemma_scan_step_advances(s, p);
    lemma_stack_push(ops, TokenView::Operator(op));
    assert(keep_below(ops, op) == ops.len());
    assert(ops.subrange(0, ops.len() as int) =~= ops);
    assert(pop_order(ops, ops.len() as int) =~= Seq::<TokenView>::empty());
}

/// Folding across a factor pushes its tree.
proof fn lemma_factor(s: Seq<u8>, p: int, ops: Seq<TokenView>, v: Seq<ExprView>)
    requires
        state_ok(s, at(p, ops)),
        parse_factor(s, p) is Some,
    ensures
        p < parse_factor(s, p).unwrap().1 <= s.len(),
        fold_from(s, at(p, ops), v) == fold_from(s, at(parse_factor(s, p).unwrap().1, ops), v.push(parse_factor(s, p).unwrap().0)),
    decreases s.len() - p, 0nat,
{
    lemma_scan_step_advances(s, p);
    let p_after = nxt(s, p);
    match tok(s, p) {
        Some(Ok(TokenView::Number(n))) => {},
        Some(Ok(TokenView::Parenthesis(Paren::Left))) => {
            let lt = TokenView::Parenthesis(Paren::Left);
            let inner = ops.push(lt);
            lemma_stack_push(ops, lt);
            let (e, q0) = parse_sum(s, p_after).unwrap();
            lemma_same_pull(s, at(p, ops), at(p_after, inner), v);
            lemma_sum(s, p_after, inner, v);
            lemma_scan_step_advances(s, q0);
            assert(last_left(inner) == ops.len());
            assert(inner.subrange(0, ops.len() as int) =~= ops);
            assert(pop_order(inner, ops.len() + 1int) =~= Seq::<TokenView>::empty());
            lemma_same_pull(s, at(q0, inner), at(nxt(s, q0), ops), v.push(e));
        },
        _ => {},
    }
}

/// Folding across the rest of a term.
proof fn lemma_term_rest(s: Seq<u8>, p: int, acc: ExprView, ops: Seq<TokenView>, v: Seq<ExprView>)
    requires
        state_ok(s, at(p, ops)),
        no_mul_top(ops),
        parse_term_rest(s, p, acc) is Some,
        ends_operand(tok(s, parse_term_rest(s, p, acc).unwrap().1)),
    ensures
        p <= parse_term_rest(s, p, acc).unwrap().1 <= s.len(),
        !is_op_at(tok(s, parse_term_rest(s, p, acc).unwrap().1), 2),
        fold_from(s, at(p, ops), v.push(acc))
            == fold_from(s, at(parse_term_rest(s, p, acc).unwrap().1, ops), v.push(parse_term_rest(s, p, acc).unwrap().0)),
    decreases s.len() - p, 1nat,
{
    if is_op_at(tok(s, p), 2) {
        let m = op_in(tok(s, p));
        let mt = TokenView::Operator(m);
        lemma_push_operator(s, p, ops, m);
        let p_after = nxt(s, p);
        let inner = ops.push(mt);
        lemma_same_pull(s, at(p, ops), at(p_after, inner), v.push(acc));
        lemma_factor(s, p_after, inner, v.push(acc));
        let (f, q1) = parse_factor(s, p_after).unwrap();
        let bin = ExprView::Binary(m, Box::new(acc), Box::new(f));
        lemma_term_rest(s, q1, bin, ops, v);
        assert(ends_operand(tok(s, q1)));
        lemma_close(s, q1, ops, m, v, acc, f);
    }
}

/// Folding across a term pushes its tree.
proof fn lemma_term(s: Seq<u8>, p: int, ops: Seq<TokenView>, v: Seq<ExprView>)
    requires
        state_ok(s, at(p, ops)),
        no_mul_top(ops),
        parse_term(s, p) is Some,
        ends_operand(tok(s, parse_term(s, p).unwrap().1)),
    ensures
        p < parse_term(s, p).unwrap().1 <= s.len(),
        !is_op_at(tok(s, parse_term(s, p).unwrap().1), 2),
        fold_from(s, at(p, ops), v) == fold_from(s, at(parse_term(s, p).unwrap().1, ops), v.push(parse_term(s, p).unwrap().0)),
    decreases s.len() - p, 2nat,
{
    lemma_factor(s, p, ops, v);
    let (f, q1) = parse_factor(s, p).unwrap();
    lemma_term_rest(s, q1, f, ops, v);
}

/// Folding across the rest of a sum.
proof fn lemma_sum_rest(s: Seq<u8>, p: int, acc: ExprView, ops: Seq<TokenView>, v: Seq<ExprView>)
    requires
        state_ok(s, at(p, ops)),
        left_top(ops),
        parse_sum_rest(s, p, acc) is Some,
        ends_operand(tok(s, parse_sum_rest(s, p, acc).unwrap().1)),
    ensures
        p <= parse_sum_rest(s, p, acc).unwrap().1 <= s.len(),
        !is_op_at(tok(s, parse_sum_rest(s, p, acc).unwrap().1), 1),
        fold_from(s, at(p, ops), v.push(acc))
            == fold_from(s, at(parse_sum_rest(s, p, acc).unwrap().1, ops), v.push(parse_sum_rest(s, p, acc).unwrap().0)),
    decreases s.len() - p, 3nat,
{
    if is_op_at(tok(s, p), 1) {
        let a = op_in(tok(s, p));
        let add_t = TokenView::Operator(a);
        lemma_push_operator(s, p, ops, a);
        let p_after = nxt(s, p);
        let inner = ops.push(add_t);
        lemma_same_pull(s, at(p, ops), at(p_after, inner), v.push(acc));
        let (tm, q1) = parse_term(s, p_after).unwrap();
        let bin = ExprView::Binary(a, Box::new(acc), Box::new(tm));
        assert(parse_sum_rest(s, p, acc) == parse_sum_rest(s, q1, bin));
        if !is_op_at(tok(s, q1), 1) {
            assert(parse_sum_rest(s, q1, bin) == Some((bin, q1)));
        }
        assert(ends_operand(tok(s, q1)));
        lemma_term(s, p_after, inner, v.push(acc));
        lemma_sum_rest(s, q1, bin, ops, v);
        lemma_close(s, q1, ops, a, v, acc, tm);
    }
}

/// Folding across a sum pushes its tree.
proof fn lemma_sum(s: Seq<u8>, p: int, ops: Seq<TokenView>, v: Seq<ExprView>)
    requires
        state_ok(s, at(p, ops)),
        left_top(ops),
        parse_sum(s, p) is Some,
        ends_operand(tok(s, parse_sum(s, p).unwrap().1)),
    ensures
        p < parse_sum(s, p).unwrap().1 <= s.len(),
        fold_from(s, at(p, ops), v) == fold_from(s, at(parse_sum(s, p).unwrap().1, ops), v.push(parse_sum(s, p).unwrap().0)),
    decreases s.len() - p, 4nat,
{
    let (tm, q1) = parse_term(s, p).unwrap();
    assert(ends_operand(tok(s, q1)));
    lemma_term(s, p, ops, v);
    lemma_sum_rest(s, q1, tm, ops, v);
}

/// Translating to postfix and folding gives, for every input that the
/// recursive-descent reading accepts, exactly the tree of that reading:
/// precedence, left associativity and parentheses are respected.
pub proof fn lemma_evaluation_matches_infix(s: Seq<u8>)
    requires
        infix_tree(s) is Some,
    ensures
        evaluation(s) == Ok::<ExprView, Error>(infix_tree(s).unwrap()),
{
    let (e, q) = parse_sum(s, 0).unwrap();
    let empty = Seq::<TokenView>::empty();
    assert(start() == at(0, empty));
    lemma_sum(s, 0, empty, Seq::empty());
    assert(Seq::<ExprView>::empty().push(e)[0] == e);
}

#[via_fn]
proof fn parse_factor_decreases(s: Seq<u8>, p: int) {
    lemma_scan_step_advances(s, p);
}

#[via_fn]
proof fn parse_term_rest_decreases(s: Seq<u8>, p: int, acc: ExprView) {
    lemma_scan_step_advances(s, p);
}

#[via_fn]
proof fn parse_term_decreases(s: Seq<u8>, p: int) {
}

#[via_fn]
proof fn parse_sum_rest_decreases(s: Seq<u8>, p: int, acc: ExprView) {
    lemma_scan_step_advances(s, p);
}

#[via_fn]
proof fn parse_sum_decreases(s: Seq<u8>, p: int) {
}

} // verus!
