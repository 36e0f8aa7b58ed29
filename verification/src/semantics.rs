//! What a line means, given the arithmetic that the answers come from.
//!
//! The calculator leaves the arithmetic to the program around it. Whatever
//! that arithmetic is, as long as each answer is what it gives for the
//! request, the calculator ends with the stack that the line stands for.

use crate::laws::run;
use crate::machine::{
    advanced, depth_after, first_error, inv, is_division, lemma_depth_after_next, lemma_resume,
    lemma_settle, lemma_settle_keeps, loaded, parse, replace_two, request_of, resume, settle, tokens_of, wf,
    zero_fraction, AnswerView, Machine, PendingView, RequestView,
};
use crate::number::Fraction;
use crate::token::{lex_spec, TokenView};
use vstd::prelude::*;

verus! {

/// Exact arithmetic on fractions and whole numbers, as the calculator
/// needs it.
pub ghost struct Arithmetic {
    pub add: spec_fn(Fraction, Fraction) -> Fraction,
    pub subtract: spec_fn(Fraction, Fraction) -> Fraction,
    pub multiply: spec_fn(Fraction, Fraction) -> Fraction,
    pub divide: spec_fn(Fraction, Fraction) -> Fraction,
    pub round: spec_fn(Fraction) -> int,
    pub bit_and: spec_fn(int, int) -> int,
    pub bit_or: spec_fn(int, int) -> int,
    pub normalize: spec_fn(Fraction) -> Fraction,
}

/// The answer that an arithmetic gives to a request.
pub open spec fn answer_of(a: Arithmetic, request: RequestView) -> AnswerView {
    match request {
        RequestView::Add(l, r) => AnswerView::Rational((a.add)(l, r)),
        RequestView::Subtract(l, r) => AnswerView::Rational((a.subtract)(l, r)),
        RequestView::Multiply(l, r) => AnswerView::Rational((a.multiply)(l, r)),
        RequestView::Divide(l, r) => AnswerView::Rational((a.divide)(l, r)),
        RequestView::Round(v) => AnswerView::Integer((a.round)(v)),
        RequestView::BitAnd(l, r) => AnswerView::Integer((a.bit_and)(l, r)),
        RequestView::BitOr(l, r) => AnswerView::Integer((a.bit_or)(l, r)),
        RequestView::Normalize(v) => AnswerView::Rational((a.normalize)(v)),
    }
}

/// What a bit operator makes of two whole numbers.
pub open spec fn bits(a: Arithmetic, token: TokenView, left: int, right: int) -> int {
    if token is And {
        (a.bit_and)(left, right)
    } else {
        (a.bit_or)(left, right)
    }
}

/// What an operator makes of its two operands, the left one first.
///
/// Division by zero gives zero over one, and the power operator divides.
/// The bit operators round both operands to the nearest whole number and
/// give a whole number over one.
pub open spec fn apply(a: Arithmetic, token: TokenView, left: Fraction, right: Fraction) -> Fraction {
    match token {
        TokenView::Plus => (a.add)(left, right),
        TokenView::Minus => (a.subtract)(left, right),
        TokenView::Times => (a.multiply)(left, right),
        TokenView::Divide | TokenView::Exp => if right.num == 0 {
            zero_fraction()
        } else {
            (a.divide)(left, right)
        },
        _ => Fraction { num: bits(a, token, (a.round)(left), (a.round)(right)), den: 1 },
    }
}

/// The stack after a row of tokens, or `None` where a duplicate finds the
/// stack empty. Any other token that finds too few operands is passed
/// over.
pub open spec fn evaluate(a: Arithmetic, stack: Seq<Fraction>, tokens: Seq<TokenView>) -> Option<
    Seq<Fraction>,
>
    decreases tokens.len(),
{
    if tokens.len() == 0 {
        Some(stack)
    } else {
        let token = tokens[0];
        let rest = tokens.skip(1);
        let depth = stack.len();
        match token {
            TokenView::Number(n) => evaluate(a, stack.push(n), rest),
            TokenView::Duplicate => if depth >= 1 {
                evaluate(a, stack.push(stack.last()), rest)
            } else {
                None
            },
            TokenView::Drop => if depth >= 1 {
                evaluate(a, stack.drop_last(), rest)
            } else {
                evaluate(a, stack, rest)
            },
            TokenView::Empty => evaluate(a, Seq::empty(), rest),
            _ => if depth >= 2 {
                evaluate(
                    a,
                    replace_two(stack, apply(a, token, stack[depth - 2], stack[depth - 1])),
                    rest,
                )
            } else {
                evaluate(a, stack, rest)
            },
        }
    }
}

/// A stack with each entry from `from` upwards brought to lowest terms.
pub open spec fn normalized_from(a: Arithmetic, stack: Seq<Fraction>, from: int) -> Seq<Fraction> {
    Seq::new(
        stack.len(),
        |i: int|
            if i < from {
                stack[i]
            } else {
                (a.normalize)(stack[i])
            },
    )
}

/// What a row of tokens leaves of a stack: the entries that the line works
/// on after the tokens, each brought to lowest terms, or the stack as it
/// was before the line where a duplicate found nothing to copy.
pub open spec fn result(
    a: Arithmetic,
    before: Seq<Fraction>,
    work: Seq<Fraction>,
    tokens: Seq<TokenView>,
) -> Seq<Fraction> {
    match evaluate(a, work, tokens) {
        Some(end) => normalized_from(a, end, 0),
        None => before,
    }
}

/// What the stack will be when the line at hand is done, seen from a state
/// that waits for an answer or is done.
pub open spec fn outcome(a: Arithmetic, m: Machine) -> Seq<Fraction> {
    let depth = m.work.len() as int;
    let token = m.program[m.next];
    let rest = m.program.skip(m.next + 1);
    match m.pending {
        PendingView::Ready => m.stack,
        PendingView::Normalize(at) => normalized_from(a, m.work, at),
        PendingView::Arithmetic | PendingView::RoundLeft => result(
            a,
            m.stack,
            replace_two(m.work, apply(a, token, m.work[depth - 2], m.work[depth - 1])),
            rest,
        ),
        PendingView::RoundRight(left) => result(
            a,
            m.stack,
            replace_two(
                m.work,
                Fraction { num: bits(a, token, left, (a.round)(m.work[depth - 1])), den: 1 },
            ),
            rest,
        ),
        PendingView::Bits(left, right) => result(
            a,
            m.stack,
            replace_two(m.work, Fraction { num: bits(a, token, left, right), den: 1 }),
            rest,
        ),
    }
}

/// Whether each answer is what the arithmetic gives to the request at
/// hand, as the answers are given one after the other.
pub open spec fn follows(a: Arithmetic, m: Machine, answers: Seq<AnswerView>) -> bool
    decreases answers.len(),
{
    answers.len() == 0 || {
        &&& request_of(m) matches Some(request) ==> answers[0] == answer_of(a, request)
        &&& follows(a, resume(m, answers[0]).machine, answers.skip(1))
    }
}

/// Carrying out tokens up to the first that waits leads to the stack that
/// the tokens stand for.
pub proof fn lemma_settle_outcome(a: Arithmetic, m: Machine)
    requires
        inv(m),
        m.pending is Ready,
    ensures
        outcome(a, settle(m).machine) == result(a, m.stack, m.work, m.program.skip(m.next)),
    decreases m.program.len() - m.next,
{
    let depth = m.work.len() as int;
    let rest = m.program.skip(m.next);
    if m.next < m.program.len() {
        let token = m.program[m.next];
        assert(rest[0] == token);
        assert(rest.skip(1) =~= m.program.skip(m.next + 1));
        lemma_depth_after_next(depth, m.program, m.next);
        if token is Number {
            lemma_settle_outcome(a, advanced(m, m.work.push(token->Number_0)));
        } else if token is Duplicate {
            if depth >= 1 {
                lemma_settle_outcome(a, advanced(m, m.work.push(m.work.last())));
            }
        } else if token is Drop {
            lemma_settle_outcome(a, advanced(m, m.work.drop_last()));
        } else if token is Empty {
            lemma_settle_outcome(a, advanced(m, Seq::empty()));
        } else if is_division(token) && m.work.last().num == 0 {
            lemma_settle_outcome(a, advanced(m, replace_two(m.work, zero_fraction())));
        }
    } else {
        assert(rest =~= Seq::<TokenView>::empty());
        if m.work.len() == 0 {
            assert(normalized_from(a, m.work, 0) =~= m.work);
        }
    }
}

/// An answer that the arithmetic gives to the request at hand does not
/// change what the stack will be.
pub proof fn lemma_resume_outcome(a: Arithmetic, m: Machine, answer: AnswerView)
    requires
        wf(m),
        request_of(m) matches Some(request) ==> answer == answer_of(a, request),
    ensures
        outcome(a, resume(m, answer).machine) == outcome(a, m),
{
    match m.pending {
        PendingView::Arithmetic => {
            let value = answer->Rational_0;
            lemma_depth_after_next(m.work.len() - 1, m.program, m.next);
            lemma_settle_outcome(a, advanced(m, replace_two(m.work, value)));
        },
        PendingView::Bits(left, right) => {
            let value = answer->Integer_0;
            lemma_settle_outcome(
                a,
                advanced(m, replace_two(m.work, Fraction { num: value, den: 1 })),
            );
        },
        PendingView::Normalize(at) => {
            let after = resume(m, answer).machine;
            assert(outcome(a, after) =~= outcome(a, m));
        },
        _ => {},
    }
}

/// Answers that follow the arithmetic do not change what the stack will
/// be.
pub proof fn lemma_run_outcome(a: Arithmetic, m: Machine, answers: Seq<AnswerView>)
    requires
        wf(m),
        follows(a, m, answers),
    ensures
        outcome(a, run(m, answers)) == outcome(a, m),
    decreases answers.len(),
{
    if answers.len() > 0 {
        lemma_resume(m, answers[0]);
        lemma_resume_outcome(a, m, answers[0]);
        lemma_run_outcome(a, resume(m, answers[0]).machine, answers.skip(1));
    }
}

/// Where each answer is what the arithmetic gives to the request at hand,
/// a line that is accepted leaves, when it is done, the stack that its
/// tokens stand for: each number pushed, each operator applied to the two
/// top entries with the left operand below the right one, and at last each
/// entry brought to lowest terms. Where a duplicate finds nothing to copy
/// the stack is what it was. This holds whatever state the calculator was
/// in.
pub proof fn law_line_means_its_tokens(
    a: Arithmetic,
    m: Machine,
    line: Seq<u8>,
    answers: Seq<AnswerView>,
)
    requires
        first_error(lex_spec(line)) is None,
        depth_after(m.stack.len() as int, tokens_of(lex_spec(line))) is Some,
        follows(a, parse(m, line).machine, answers),
        run(parse(m, line).machine, answers).pending is Ready,
    ensures
        run(parse(m, line).machine, answers).stack == result(
            a,
            m.stack,
            m.stack,
            tokens_of(lex_spec(line)),
        ),
{
    let tokens = tokens_of(lex_spec(line));
    let start = loaded(m, tokens, line.len() as int);
    assert(start.program.skip(0) =~= tokens);
    lemma_settle(start);
    lemma_settle_outcome(a, start);
    lemma_run_outcome(a, settle(start).machine, answers);
}

/// A line without tokens brings each entry of the stack to lowest terms and
/// does nothing else. Entries that the arithmetic leaves as they are when it
/// brings them to lowest terms are the same before and after.
pub proof fn law_line_without_tokens(
    a: Arithmetic,
    m: Machine,
    line: Seq<u8>,
    answers: Seq<AnswerView>,
)
    requires
        lex_spec(line).len() == 0,
        follows(a, parse(m, line).machine, answers),
        run(parse(m, line).machine, answers).pending is Ready,
    ensures
        parse(m, line).error is None,
        run(parse(m, line).machine, answers).stack == normalized_from(a, m.stack, 0),
        (forall|i: int|
            0 <= i < m.stack.len() ==> (a.normalize)(#[trigger] m.stack[i]) == m.stack[i])
            ==> run(parse(m, line).machine, answers).stack == m.stack,
{
    let tokens = tokens_of(lex_spec(line));
    assert(tokens =~= Seq::<TokenView>::empty());
    law_line_means_its_tokens(a, m, line, answers);
    lemma_settle(loaded(m, tokens, line.len() as int));
    lemma_settle_keeps(loaded(m, tokens, line.len() as int));
    assert(loaded(m, tokens, line.len() as int).program.skip(0) =~= tokens);
    if forall|i: int|
        0 <= i < m.stack.len() ==> (a.normalize)(#[trigger] m.stack[i]) == m.stack[i] {
        assert(normalized_from(a, m.stack, 0) =~= m.stack);
    }
}

} // verus!
