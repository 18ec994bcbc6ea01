use vstd::prelude::*;

use crate::error::{Error, ErrorKind};
use crate::token::{Operator, Paren, Token, TokenView};

verus! {

/// Space, tab, carriage return and line feed.
pub open spec fn is_space(b: u8) -> bool {
    b == 32 || b == 9 || b == 13 || b == 10
}

pub open spec fn is_digit(b: u8) -> bool {
    48 <= b && b <= 57
}

/// A byte that belongs to a numeric run: a digit or a decimal point.
pub open spec fn is_number_byte(b: u8) -> bool {
    is_digit(b) || b == 46
}

/// The number of decimal points in a run.
pub open spec fn count_points(run: Seq<u8>) -> nat
    decreases run.len(),
{
    if run.len() == 0 {
        0
    } else {
        count_points(run.drop_last()) + if run.last() == 46 { 1nat } else { 0nat }
    }
}

/// The number of digits in a run.
pub open spec fn count_digits(run: Seq<u8>) -> nat
    decreases run.len(),
{
    if run.len() == 0 {
        0
    } else {
        count_digits(run.drop_last()) + if is_digit(run.last()) { 1nat } else { 0nat }
    }
}

/// A run of digits and decimal points is a float literal when it holds at
/// most one decimal point and at least one digit.
pub open spec fn valid_number(run: Seq<u8>) -> bool {
    count_points(run) <= 1 && count_digits(run) >= 1
}

/// The first position at or after `p` that holds no whitespace.
pub open spec fn skip_space(s: Seq<u8>, p: int) -> int
    decreases s.len() - p,
{
    if 0 <= p < s.len() && is_space(s[p]) {
        skip_space(s, p + 1)
    } else {
        p
    }
}

/// The end of the maximal numeric run that starts at `p`.
pub open spec fn run_end(s: Seq<u8>, p: int) -> int
    decreases s.len() - p,
{
    if 0 <= p < s.len() && is_number_byte(s[p]) {
        run_end(s, p + 1)
    } else {
        p
    }
}

/// The token that a single operator or parenthesis byte stands for.
pub open spec fn single_token(c: u8) -> Option<TokenView> {
    if c == 43 {
        Some(TokenView::Operator(Operator::Add))
    } else if c == 45 {
        Some(TokenView::Operator(Operator::Sub))
    } else if c == 42 {
        Some(TokenView::Operator(Operator::Mul))
    } else if c == 47 {
        Some(TokenView::Operator(Operator::Div))
    } else if c == 40 {
        Some(TokenView::Parenthesis(Paren::Left))
    } else if c == 41 {
        Some(TokenView::Parenthesis(Paren::Right))
    } else {
        None
    }
}

pub open spec fn error_of(kind: ErrorKind) -> Error {
    Error { kind }
}

/// One pull from a scanner over `s` that stands at `p`: what it yields, and
/// where it stands afterwards. `None` marks the end of the token sequence.
pub open spec fn scan_step(s: Seq<u8>, p: int) -> (Option<Result<TokenView, Error>>, int) {
    let q = skip_space(s, p);
    if q >= s.len() {
        (None, q)
    } else if is_number_byte(s[q]) {
        let e = run_end(s, q);
        let run = s.subrange(q, e);
        if valid_number(run) {
            (Some(Ok(TokenView::Number(run))), e)
        } else {
            (Some(Err(error_of(ErrorKind::InvalidNumber))), e)
        }
    } else {
        match single_token(s[q]) {
            Some(t) => (Some(Ok(t)), q + 1),
            None => (Some(Err(error_of(ErrorKind::UnexpectedCharacter(s[q])))), q + 1),
        }
    }
}

pub open spec fn item_view(r: Option<Result<Token, Error>>) -> Option<Result<TokenView, Error>> {
    match r {
        None => None,
        Some(Ok(t)) => Some(Ok(t@)),
        Some(Err(e)) => Some(Err(e)),
    }
}

pub proof fn lemma_skip_space_bounds(s: Seq<u8>, p: int)
    requires
        0 <= p <= s.len(),
    ensures
        p <= skip_space(s, p) <= s.len(),
        skip_space(s, p) < s.len() ==> !is_space(s[skip_space(s, p)]),
    decreases s.len() - p,
{
    if p < s.len() && is_space(s[p]) {
        lemma_skip_space_bounds(s, p + 1);
    }
}

pub proof fn lemma_run_end_bounds(s: Seq<u8>, p: int)
    requires
        0 <= p <= s.len(),
    ensures
        p <= run_end(s, p) <= s.len(),
        forall|i: int| p <= i < run_end(s, p) ==> is_number_byte(#[trigger] s[i]),
    decreases s.len() - p,
{
    if p < s.len() && is_number_byte(s[p]) {
        lemma_run_end_bounds(s, p + 1);
    }
}

/// A pull never moves the scanner back, never past the end of its input,
/// and moves it forward whenever it yields something.
pub proof fn lemma_scan_step_advances(s: Seq<u8>, p: int)
    requires
        0 <= p <= s.len(),
    ensures
        p <= scan_step(s, p).1 <= s.len(),
        scan_step(s, p).0 is Some ==> p < scan_step(s, p).1,
{
    lemma_skip_space_bounds(s, p);
    let q = skip_space(s, p);
    if q < s.len() && is_number_byte(s[q]) {
        lemma_run_end_bounds(s, q);
        assert(run_end(s, q + 1) == run_end(s, q));
        lemma_run_end_bounds(s, q + 1);
    }
}

/// Scanning is a function of the bytes alone: two scanners over the same
/// bytes that stand at the same place (at the start, say) yield the same
/// next item and move to the same place, so rescanning a source from the
/// start yields the identical token sequence.
pub proof fn lemma_rescan_identical(a: Scanner, b: Scanner)
    requires
        a.wf(),
        b.wf(),
        a.source() == b.source(),
        a.position() == b.position(),
    ensures
        scan_step(a.source(), a.position()) == scan_step(b.source(), b.position()),
{
}

/// A scanner over a byte sequence held in memory.
pub struct Scanner {
    input: Vec<u8>,
    pos: usize,
}

impl Scanner {
    /// The bytes being scanned.
    pub closed spec fn source(&self) -> Seq<u8> {
        self.input@
    }

    /// The position of the first byte not yet consumed.
    pub closed spec fn position(&self) -> int {
        self.pos as int
    }

    pub open spec fn wf(&self) -> bool {
        0 <= self.position() <= self.source().len()
    }

    pub fn new(input: Vec<u8>) -> (r: Scanner)
        ensures
            r.wf(),
            r.source() == input@,
            r.position() == 0,
    {
        Scanner { input, pos: 0 }
    }

    fn advance(&mut self)
        requires
            old(self).pos < old(self).input.len(),
        ensures
            final(self).input == old(self).input,
            final(self).pos == old(self).pos + 1,
    {
        self.pos = self.pos + 1;
    }

    /// Turns a numeric run into a number token, or fails when the run is no
    /// float literal.
    pub fn resolve_number(run: Vec<u8>) -> (r: Result<Token, Error>)
        requires
            forall|i: int| 0 <= i < run@.len() ==> is_number_byte(#[trigger] run@[i]),
        ensures
            r is Ok <==> valid_number(run@),
            r matches Ok(t) ==> t@ == TokenView::Number(run@),
            r matches Err(e) ==> e == error_of(ErrorKind::InvalidNumber),
    {
        let mut points: usize = 0;
        let mut digits: usize = 0;
        let mut i: usize = 0;
        while i < run.len()
            invariant
                i <= run@.len(),
                points == count_points(run@.subrange(0, i as int)),
                digits == count_digits(run@.subrange(0, i as int)),
                points + digits == i,
                forall|j: int| 0 <= j < run@.len() ==> is_number_byte(#[trigger] run@[j]),
            decreases run@.len() - i,
        {
            proof {
                assert(run@.subrange(0, i + 1).drop_last() =~= run@.subrange(0, i as int));
            }
            if run[i] == 46 {
                points = points + 1;
            } else {
                digits = digits + 1;
            }
            i = i + 1;
        }
        proof {
            assert(run@.subrange(0, i as int) =~= run@);
        }
        if points <= 1 && digits >= 1 {
            Ok(Token::Number(run))
        } else {
            Err(Error::new(ErrorKind::InvalidNumber))
        }
    }

    /// Yields the next token, a failure, or `None` once the input is
    /// exhausted.
    pub fn next(&mut self) -> (r: Option<Result<Token, Error>>)
        requires
            old(self).wf(),
        ensures
            final(self).wf(),
            final(self).source() == old(self).source(),
            (item_view(r), final(self).position()) == scan_step(old(self).source(), old(self).position()),
    {
        let ghost s = self.input@;
        let ghost p_start = self.pos as int;
        proof {
            lemma_skip_space_bounds(s, p_start);
        }
        while self.pos < self.input.len() && (self.input[self.pos] == 32 || self.input[self.pos] == 9
            || self.input[self.pos] == 13 || self.input[self.pos] == 10)
            invariant
                self.input@ == s,
                p_start <= self.pos <= s.len(),
                skip_space(s, self.pos as int) == skip_space(s, p_start),
            decreases s.len() - self.pos,
        {
            self.advance();
        }
        if self.pos >= self.input.len() {
            return None;
        }
        let c = self.input[self.pos];
        let ghost q = self.pos as int;
        if (48 <= c && c <= 57) || c == 46 {
            proof {
                lemma_run_end_bounds(s, q);
            }
            let mut run: Vec<u8> = Vec::new();
            while self.pos < self.input.len() && ((48 <= self.input[self.pos] && self.input[self.pos]
                <= 57) || self.input[self.pos] == 46)
                invariant
                    self.input@ == s,
                    0 <= q <= self.pos <= s.len(),
                    run_end(s, self.pos as int) == run_end(s, q),
                    run@ =~= s.subrange(q, self.pos as int),
                decreases s.len() - self.pos,
            {
                let b = self.input[self.pos];
                run.push(b);
                self.advance();
                proof {
                    assert(run@ =~= s.subrange(q, self.pos as int));
                }
            }
            let r = Scanner::resolve_number(run);
            return Some(r);
        }
        self.advance();
        if c == 43 {
            Some(Ok(Token::Operator(Operator::Add)))
        } else if c == 45 {
            Some(Ok(Token::Operator(Operator::Sub)))
        } else if c == 42 {
            Some(Ok(Token::Operator(Operator::Mul)))
        } else if c == 47 {
            Some(Ok(Token::Operator(Operator::Div)))
        } else if c == 40 {
            Some(Ok(Token::Parenthesis(Paren::Left)))
        } else if c == 41 {
            Some(Ok(Token::Parenthesis(Paren::Right)))
        } else {
            Some(Err(Error::new(ErrorKind::UnexpectedCharacter(c))))
        }
    }
}

} // verus!
