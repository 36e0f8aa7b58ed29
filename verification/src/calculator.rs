//! The calculator: a stack of fractions that lines of text work on.
//!
//! The calculator does no arithmetic itself. Where a line needs a sum or a
//! rounded value, the calculator stops and says so; the program around it
//! asks with `request`, does the work, and hands the result to `resume`,
//! until nothing more is asked for. Until then the stack is what it was
//! before the line, and it stays so where the line comes to grief.

use crate::machine::{
    abandoned, advanced, committed, depth_after, first_error, inv, lemma_depth_after_next,
    lemma_parse, lemma_resume, lemma_settle, loaded, quiet, replace_two, request_of, settle,
    tokens_of, waiting, wf, zero_fraction, AnswerView, Machine, PendingView, RequestView, Step,
};
use crate::number::{Fraction, Integer, Rational};
use crate::token::{
    lex_spec, outcome_view, outcomes_view, Message, Token, TokenError, TokenView,
};
use core::ops::Range;
use vstd::prelude::*;
use vstd::string::StringSliceAdditionalSpecFns;

verus! {

/// Work that the calculator leaves to the program around it. Of two
/// operands the left one comes first.
#[derive(Debug)]
pub enum Request {
    /// The sum of two fractions.
    Add(Rational, Rational),
    /// The first fraction less the second.
    Subtract(Rational, Rational),
    /// The product of two fractions.
    Multiply(Rational, Rational),
    /// The first fraction divided by the second, which is not zero.
    Divide(Rational, Rational),
    /// The whole number nearest to a fraction.
    Round(Rational),
    /// The bits that two whole numbers have in common.
    BitAnd(Integer, Integer),
    /// The bits that either of two whole numbers has.
    BitOr(Integer, Integer),
    /// A fraction in lowest terms, with a positive denominator.
    Normalize(Rational),
}

impl View for Request {
    type V = RequestView;

    open spec fn view(&self) -> RequestView {
        match self {
            Request::Add(l, r) => RequestView::Add(l@, r@),
            Request::Subtract(l, r) => RequestView::Subtract(l@, r@),
            Request::Multiply(l, r) => RequestView::Multiply(l@, r@),
            Request::Divide(l, r) => RequestView::Divide(l@, r@),
            Request::Round(v) => RequestView::Round(v@),
            Request::BitAnd(l, r) => RequestView::BitAnd(l@, r@),
            Request::BitOr(l, r) => RequestView::BitOr(l@, r@),
            Request::Normalize(v) => RequestView::Normalize(v@),
        }
    }
}

/// The result of such work.
#[derive(Debug)]
pub enum Answer {
    Rational(Rational),
    Integer(Integer),
}

impl View for Answer {
    type V = AnswerView;

    open spec fn view(&self) -> AnswerView {
        match self {
            Answer::Rational(v) => AnswerView::Rational(v@),
            Answer::Integer(v) => AnswerView::Integer(v@),
        }
    }
}

/// What the calculator waits for.
#[derive(Debug)]
enum Pending {
    Ready,
    Arithmetic,
    RoundLeft,
    RoundRight(Integer),
    Bits(Integer, Integer),
    Normalize(usize),
}

impl View for Pending {
    type V = PendingView;

    closed spec fn view(&self) -> PendingView {
        match self {
            Pending::Ready => PendingView::Ready,
            Pending::Arithmetic => PendingView::Arithmetic,
            Pending::RoundLeft => PendingView::RoundLeft,
            Pending::RoundRight(l) => PendingView::RoundRight(l@),
            Pending::Bits(l, r) => PendingView::Bits(l@, r@),
            Pending::Normalize(at) => PendingView::Normalize(*at as int),
        }
    }
}

/// The fractions that a stack holds, bottom first.
pub open spec fn stack_view(stack: Seq<Rational>) -> Seq<Fraction> {
    Seq::new(stack.len(), |i: int| stack[i]@)
}

/// A row of tokens, each seen as its view.
pub open spec fn program_view(program: Seq<Token>) -> Seq<TokenView> {
    Seq::new(program.len(), |i: int| program[i]@)
}

/// The complaint in what a call returned, if it holds one.
pub open spec fn complaint_of(r: Result<(), TokenError>) -> Option<TokenError> {
    match r {
        Ok(_) => None,
        Err(e) => Some(e),
    }
}

/// A calculator with nothing on its stack and no line at hand.
pub open spec fn initial() -> Machine {
    Machine {
        stack: Seq::empty(),
        work: Seq::empty(),
        program: Seq::empty(),
        next: 0,
        pending: PendingView::Ready,
        line_len: 0,
    }
}

/// The stack of operands and the line that is being carried out.
#[derive(Debug)]
pub struct Calculator {
    stack: Vec<Rational>,
    work: Vec<Rational>,
    program: Vec<Token>,
    next: usize,
    pending: Pending,
    line_len: usize,
}

impl View for Calculator {
    type V = Machine;

    closed spec fn view(&self) -> Machine {
        Machine {
            stack: stack_view(self.stack@),
            work: stack_view(self.work@),
            program: program_view(self.program@),
            next: self.next as int,
            pending: self.pending@,
            line_len: self.line_len as int,
        }
    }
}

/// A copy of a stack, entry by entry.
fn copy_of(stack: &Vec<Rational>) -> (copy: Vec<Rational>)
    ensures
        stack_view(copy@) == stack_view(stack@),
{
    let mut copy: Vec<Rational> = Vec::new();
    let mut at: usize = 0;
    while at < stack.len()
        invariant
            at <= stack@.len(),
            copy@.len() == at,
            forall|i: int| 0 <= i < at ==> (#[trigger] copy@[i])@ == stack@[i]@,
        decreases stack@.len() - at,
    {
        copy.push(stack[at].clone());
        at += 1;
    }
    assert(stack_view(copy@) =~= stack_view(stack@));
    copy
}

impl Calculator {
    /// A calculator with nothing on its stack.
    pub fn new() -> (calculator: Calculator)
        ensures
            calculator@ == initial(),
            wf(calculator@),
    {
        let calculator = Calculator {
            stack: Vec::new(),
            work: Vec::new(),
            program: Vec::new(),
            next: 0,
            pending: Pending::Ready,
            line_len: 0,
        };
        proof {
            assert(calculator@.stack =~= Seq::<Fraction>::empty());
            assert(calculator@.work =~= Seq::<Fraction>::empty());
            assert(calculator@.program =~= Seq::<TokenView>::empty());
            assert(calculator@.program.skip(0) =~= Seq::<TokenView>::empty());
        }
        calculator
    }

    /// The stack, bottom first. While a line waits for an answer it is the
    /// stack that the line found.
    pub fn stack(&self) -> (stack: &Vec<Rational>)
        ensures
            stack_view(stack@) == self@.stack,
    {
        &self.stack
    }

    /// Checks that no token but duplicate would find too few operands on
    /// the stack, without touching the stack.
    fn stack_exhaustion(&self, tokens: &Vec<Token>) -> (r: Result<(), Message>)
        ensures
            r is Ok <==> depth_after(self@.stack.len() as int, program_view(tokens@)) is Some,
            r is Err ==> r == Err::<(), Message>(Message::StackExhaustion),
    {
        let ghost all = program_view(tokens@);
        let ghost start = self.stack@.len() as int;
        let mut depth: u128 = self.stack.len() as u128;
        let mut at: usize = 0;
        assert(all.skip(0) =~= all);
        while at < tokens.len()
            invariant
                at <= tokens@.len(),
                all == program_view(tokens@),
                start == self@.stack.len(),
                depth <= usize::MAX + at,
                depth_after(start, all) == depth_after(depth as int, all.skip(at as int)),
            decreases tokens@.len() - at,
        {
            proof {
                lemma_depth_after_next(depth as int, all, at as int);
            }
            match &tokens[at] {
                Token::Number(_) | Token::Duplicate => {
                    depth = depth + 1;
                },
                Token::Plus
                | Token::Minus
                | Token::Times
                | Token::Divide
                | Token::Exp
                | Token::Or
                | Token::And => {
                    if depth < 2 {
                        return Err(Message::StackExhaustion);
                    }
                    depth = depth - 1;
                },
                Token::Drop => {
                    if depth < 1 {
                        return Err(Message::StackExhaustion);
                    }
                    depth = depth - 1;
                },
                Token::Empty => {
                    depth = 0;
                },
            }
            at += 1;
        }
        Ok(())
    }

    /// Carries out the tokens of the line at hand, from the next one up to
    /// the first that needs outside work. A drop that finds nothing and an
    /// operator that finds fewer than two operands are passed over; a
    /// duplicate that finds nothing gives the line up.
    fn compute(&mut self) -> (r: Result<(), TokenError>)
        requires
            old(self)@.next <= old(self)@.program.len(),
            old(self)@.pending is Ready,
        ensures
            (Step { machine: final(self)@, error: complaint_of(r) }) == settle(old(self)@),
            inv(old(self)@) ==> wf(final(self)@),
    {
        let ghost start = self@;
        proof {
            if inv(start) {
                lemma_settle(start);
            }
        }
        loop
            invariant
                start == old(self)@,
                inv(start) ==> wf(settle(start).machine),
                self.next <= self.program@.len(),
                self@.pending is Ready,
                settle(self@) == settle(start),
            decreases self.program@.len() - self.next,
        {
            let ghost before = self@;
            let depth = self.work.len();
            if self.next >= self.program.len() {
                if depth > 0 {
                    self.pending = Pending::Normalize(0);
                } else {
                    self.stack.clear();
                    proof {
                        assert(self@.stack =~= before.work);
                        assert(self@.work =~= Seq::<Fraction>::empty());
                        assert(self@ == committed(before, before.work));
                    }
                }
                proof {
                    assert(settle(before) == quiet(self@));
                }
                return Ok(());
            }
            match &self.program[self.next] {
                Token::Number(n) => {
                    let value = n.clone();
                    self.work.push(value);
                    self.next = self.next + 1;
                    proof {
                        assert(self@.work =~= before.work.push(n@));
                        assert(self@ == advanced(before, before.work.push(n@)));
                    }
                },
                Token::Duplicate => {
                    if depth == 0 {
                        self.next = self.program.len();
                        proof {
                            assert(self@.work =~= Seq::<Fraction>::empty());
                            assert(self@ == abandoned(before));
                            assert(settle(before).machine == abandoned(before));
                        }
                        return Err(
                            TokenError {
                                message: Message::DroppedStack,
                                span: Range { start: 0, end: self.line_len },
                            },
                        );
                    }
                    let value = self.work[depth - 1].clone();
                    self.work.push(value);
                    self.next = self.next + 1;
                    proof {
                        assert(self@.work =~= before.work.push(before.work.last()));
                        assert(self@ == advanced(before, before.work.push(before.work.last())));
                    }
                },
                Token::Drop => {
                    self.work.pop();
                    self.next = self.next + 1;
                    proof {
                        if depth >= 1 {
                            assert(self@.work =~= before.work.drop_last());
                            assert(self@ == advanced(before, before.work.drop_last()));
                        } else {
                            assert(self@.work =~= before.work);
                            assert(self@ == advanced(before, before.work));
                        }
                    }
                },
                Token::Empty => {
                    self.work.clear();
                    self.next = self.next + 1;
                    proof {
                        assert(self@.work =~= Seq::<Fraction>::empty());
                        assert(self@ == advanced(before, Seq::empty()));
                    }
                },
                Token::Divide | Token::Exp => {
                    if depth < 2 {
                        self.next = self.next + 1;
                        proof {
                            assert(self@ == advanced(before, before.work));
                        }
                    } else if self.work[depth - 1].is_zero() {
                        self.work.pop();
                        self.work.pop();
                        self.work.push(Rational::zero());
                        self.next = self.next + 1;
                        proof {
                            assert(self@.work =~= replace_two(before.work, zero_fraction()));
                            assert(self@ == advanced(
                                before,
                                replace_two(before.work, zero_fraction()),
                            ));
                        }
                    } else {
                        self.pending = Pending::Arithmetic;
                        proof {
                            assert(self@ == waiting(before, PendingView::Arithmetic));
                            assert(settle(before) == quiet(self@));
                        }
                        return Ok(());
                    }
                },
                Token::Plus | Token::Minus | Token::Times => {
                    if depth < 2 {
                        self.next = self.next + 1;
                        proof {
                            assert(self@ == advanced(before, before.work));
                        }
                    } else {
                        self.pending = Pending::Arithmetic;
                        proof {
                            assert(self@ == waiting(before, PendingView::Arithmetic));
                            assert(settle(before) == quiet(self@));
                        }
                        return Ok(());
                    }
                },
                Token::And | Token::Or => {
                    if depth < 2 {
                        self.next = self.next + 1;
                        proof {
                            assert(self@ == advanced(before, before.work));
                        }
                    } else {
                        self.pending = Pending::RoundLeft;
                        proof {
                            assert(self@ == waiting(before, PendingView::RoundLeft));
                            assert(settle(before) == quiet(self@));
                        }
                        return Ok(());
                    }
                },
            }
        }
    }

    /// The outside work that the calculator waits for, or `None` when the
    /// line at hand is done. A divisor that is handed out is not zero.
    pub fn request(&self) -> (request: Option<Request>)
        requires
            wf(self@),
        ensures
            match request {
                Some(r) => request_of(self@) == Some(r@),
                None => request_of(self@) is None,
            },
            request matches Some(Request::Divide(_, divisor)) ==> divisor@.num != 0,
    {
        let depth = self.work.len();
        match &self.pending {
            Pending::Ready => None,
            Pending::Arithmetic => {
                let left = self.work[depth - 2].clone();
                let right = self.work[depth - 1].clone();
                match &self.program[self.next] {
                    Token::Plus => Some(Request::Add(left, right)),
                    Token::Minus => Some(Request::Subtract(left, right)),
                    Token::Times => Some(Request::Multiply(left, right)),
                    _ => Some(Request::Divide(left, right)),
                }
            },
            Pending::RoundLeft => Some(Request::Round(self.work[depth - 2].clone())),
            Pending::RoundRight(_) => Some(Request::Round(self.work[depth - 1].clone())),
            Pending::Bits(left, right) => match &self.program[self.next] {
                Token::And => Some(Request::BitAnd(left.clone(), right.clone())),
                _ => Some(Request::BitOr(left.clone(), right.clone())),
            },
            Pending::Normalize(at) => Some(Request::Normalize(self.work[*at].clone())),
        }
    }

    /// Puts one value in the place of the two top entries and goes on with
    /// the tokens behind the operator at hand.
    fn finish_operator(&mut self, value: Rational) -> (r: Result<(), TokenError>)
        requires
            wf(old(self)@),
            old(self)@.pending is Arithmetic || old(self)@.pending is Bits,
        ensures
            (Step { machine: final(self)@, error: complaint_of(r) }) == settle(
                advanced(old(self)@, replace_two(old(self)@.work, value@)),
            ),
            wf(final(self)@),
    {
        let ghost before = self@;
        assert(self.next < self.program.len());
        self.work.pop();
        self.work.pop();
        self.work.push(value);
        self.next = self.next + 1;
        self.pending = Pending::Ready;
        proof {
            assert(self@.work =~= replace_two(before.work, value@));
            assert(self@ == advanced(before, replace_two(before.work, value@)));
            lemma_depth_after_next(before.work.len() - 1, before.program, before.next);
        }
        self.compute()
    }

    /// Takes the answer to the request at hand and goes on with the line.
    /// An answer of another kind than the one asked for is left aside.
    ///
    /// The stack changes only when the line is done. The result says
    /// whether the line could be carried on; it cannot where a duplicate
    /// finds nothing to copy, and the stack is then what it was before the
    /// line.
    pub fn resume(&mut self, answer: Answer) -> (r: Result<(), TokenError>)
        requires
            wf(old(self)@),
        ensures
            (Step { machine: final(self)@, error: complaint_of(r) }) == crate::machine::resume(
                old(self)@,
                answer@,
            ),
            wf(final(self)@),
            r is Err ==> final(self)@.stack == old(self)@.stack,
            final(self)@.pending is Ready || final(self)@.stack == old(self)@.stack,
    {
        let ghost before = self@;
        proof {
            lemma_resume(before, answer@);
        }
        match answer {
            Answer::Rational(value) => match &self.pending {
                Pending::Arithmetic => self.finish_operator(value),
                Pending::Normalize(at) => {
                    let at = *at;
                    assert(at < self.work.len());
                    self.work.set(at, value);
                    if at + 1 < self.work.len() {
                        self.pending = Pending::Normalize(at + 1);
                        proof {
                            assert(self@.work =~= before.work.update(at as int, value@));
                        }
                    } else {
                        let ghost done = self@.work;
                        core::mem::swap(&mut self.stack, &mut self.work);
                        self.work.clear();
                        self.pending = Pending::Ready;
                        proof {
                            assert(done =~= before.work.update(at as int, value@));
                            assert(self@.work =~= Seq::<Fraction>::empty());
                            assert(self@ == committed(
                                before,
                                before.work.update(at as int, value@),
                            ));
                        }
                    }
                    Ok(())
                },
                _ => Ok(()),
            },
            Answer::Integer(value) => match &self.pending {
                Pending::RoundLeft => {
                    self.pending = Pending::RoundRight(value);
                    Ok(())
                },
                Pending::RoundRight(left) => {
                    let left = left.clone();
                    self.pending = Pending::Bits(left, value);
                    Ok(())
                },
                Pending::Bits(_, _) => self.finish_operator(Rational::from_integer(value)),
                _ => Ok(()),
            },
        }
    }

    /// Reads a line and carries it out, up to the first token that needs
    /// outside work. A line that still waited for an answer is given up.
    ///
    /// The line is refused, and nothing changes, where a fragment is no
    /// token and where a token other than duplicate would find too few
    /// operands. A duplicate that finds nothing to copy ends the line with
    /// a complaint. Whatever the complaint, the stack is what it was.
    pub fn parse(&mut self, word: &str) -> (r: Result<(), TokenError>)
        requires
            wf(old(self)@),
        ensures
            (Step { machine: final(self)@, error: complaint_of(r) }) == crate::machine::parse(
                old(self)@,
                word.spec_bytes(),
            ),
            wf(final(self)@),
            r is Err ==> final(self)@.stack == old(self)@.stack,
            final(self)@.pending is Ready || final(self)@.stack == old(self)@.stack,
    {
        let ghost line = word.spec_bytes();
        let ghost all = lex_spec(line);
        let ghost before = self@;
        let line_len = word.as_bytes().len();
        let outcomes = Token::lex(word);
        let mut tokens: Vec<Token> = Vec::new();
        let mut at: usize = 0;
        proof {
            lemma_parse(before, line);
            assert(all.skip(0) =~= all);
        }
        while at < outcomes.len()
            invariant
                self@ == old(self)@,
                wf(self@),
                line == word.spec_bytes(),
                line_len == line.len(),
                at <= outcomes@.len(),
                all == lex_spec(line),
                outcomes_view(outcomes@) == all,
                first_error(all) == first_error(all.skip(at as int)),
                tokens@.len() == at,
                forall|i: int|
                    0 <= i < at ==> all[i] == Ok::<TokenView, TokenError>(
                        #[trigger] tokens@[i]@,
                    ),
            decreases outcomes@.len() - at,
        {
            proof {
                let rest = all.skip(at as int);
                assert(rest[0] == all[at as int]);
                assert(rest.skip(1) =~= all.skip(at + 1));
                assert(all[at as int] == outcome_view(outcomes@[at as int]));
            }
            match &outcomes[at] {
                Ok(token) => {
                    tokens.push(token.clone());
                },
                Err(e) => {
                    return Err(e.clone());
                },
            }
            at += 1;
        }
        proof {
            assert(all.skip(all.len() as int) =~= Seq::<Result<TokenView, TokenError>>::empty());
            assert(program_view(tokens@) =~= tokens_of(all));
        }
        match self.stack_exhaustion(&tokens) {
            Ok(()) => {},
            Err(message) => {
                return Err(TokenError { message, span: Range { start: 0, end: line_len } });
            },
        }
        self.work = copy_of(&self.stack);
        self.program = tokens;
        self.next = 0;
        self.pending = Pending::Ready;
        self.line_len = line_len;
        proof {
            assert(self@ == loaded(before, tokens_of(all), line.len() as int));
            assert(self@.program.skip(0) =~= self@.program);
        }
        self.compute()
    }
}

impl Default for Calculator {
    fn default() -> (calculator: Calculator)
        ensures
            calculator@ == initial(),
            wf(calculator@),
    {
        Calculator::new()
    }
}

} // verus!
