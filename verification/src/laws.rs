//! What holds of the calculator whatever the line and whatever the answers.

use crate::machine::{
    advanced, committed, depth_after, depth_step, final_depth, first_error, has_duplicate, inv,
    is_binary, is_division, lemma_depth_after_next, lemma_parse, lemma_resume, lemma_settle,
    lemma_settle_keeps, loaded, parse, quiet, replace_two, resume, settle, tokens_of, wf,
    zero_fraction, AnswerView, Machine, PendingView,
};
use crate::number::Fraction;
use crate::token::{
    fragment_end, fragments, fragments_from, lex_spec, operator_of, space_width, token_of,
    TokenError, TokenView,
};
use core::ops::Range;
use vstd::prelude::*;

verus! {

/// The number of numbers in a row of tokens.
pub open spec fn count_numbers(tokens: Seq<TokenView>) -> int
    decreases tokens.len(),
{
    if tokens.len() == 0 {
        0
    } else {
        (if tokens[0] is Number {
            1int
        } else {
            0int
        }) + count_numbers(tokens.skip(1))
    }
}

/// The number of operators with two operands in a row of tokens.
pub open spec fn count_binary(tokens: Seq<TokenView>) -> int
    decreases tokens.len(),
{
    if tokens.len() == 0 {
        0
    } else {
        (if is_binary(tokens[0]) {
            1int
        } else {
            0int
        }) + count_binary(tokens.skip(1))
    }
}

/// Whether a row of tokens holds numbers and operators with two operands
/// only.
pub open spec fn only_numbers_and_binary(tokens: Seq<TokenView>) -> bool {
    forall|i: int|
        0 <= i < tokens.len() ==> (#[trigger] tokens[i]) is Number || is_binary(tokens[i])
}

/// The machine after a row of answers, each given to the state that the
/// one before it left.
pub open spec fn run(m: Machine, answers: Seq<AnswerView>) -> Machine
    decreases answers.len(),
{
    if answers.len() == 0 {
        m
    } else {
        run(resume(m, answers[0]).machine, answers.skip(1))
    }
}

/// Whether one of a row of answers leads to a complaint.
pub open spec fn run_complains(m: Machine, answers: Seq<AnswerView>) -> bool
    decreases answers.len(),
{
    answers.len() > 0 && (resume(m, answers[0]).error is Some || run_complains(
        resume(m, answers[0]).machine,
        answers.skip(1),
    ))
}

/// A line that is refused for one of its fragments or for want of operands
/// changes nothing: the calculator is the same before and after, whatever
/// state it was in.
pub proof fn law_refused_line_changes_nothing(m: Machine, line: Seq<u8>)
    requires
        first_error(lex_spec(line)) is Some || depth_after(
            m.stack.len() as int,
            tokens_of(lex_spec(line)),
        ) is None,
    ensures
        parse(m, line).error is Some,
        parse(m, line).machine == m,
{
}

/// A line that leads to a complaint, of whatever kind, leaves the stack as
/// it was before the line, whatever state the calculator was in.
pub proof fn law_failed_line_keeps_stack(m: Machine, line: Seq<u8>)
    requires
        parse(m, line).error is Some,
    ensures
        parse(m, line).machine.stack == m.stack,
{
    lemma_parse(m, line);
}

/// A line that comes to grief at an answer leaves the stack as it was
/// before the line, whatever the answers before and behind that one.
pub proof fn law_failed_answer_keeps_stack(m: Machine, line: Seq<u8>, answers: Seq<AnswerView>)
    requires
        parse(m, line).error is None,
        run_complains(parse(m, line).machine, answers),
    ensures
        run(parse(m, line).machine, answers).stack == m.stack,
{
    lemma_parse(m, line);
    let start = parse(m, line).machine;
    lemma_settle_keeps(loaded(m, tokens_of(lex_spec(line)), line.len() as int));
    if start.pending is Ready {
        lemma_done_stays(start, answers);
    } else {
        lemma_complaint_restores(start, answers);
    }
}

/// Once the line at hand is done, answers change nothing.
pub proof fn lemma_done_stays(m: Machine, answers: Seq<AnswerView>)
    requires
        m.pending is Ready,
    ensures
        run(m, answers) == m,
        !run_complains(m, answers),
    decreases answers.len(),
{
    if answers.len() > 0 {
        lemma_done_stays(m, answers.skip(1));
    }
}

/// Until the line at hand is done, the stack is what it was; and where an
/// answer leads to a complaint, the stack is what it was, too.
pub proof fn lemma_complaint_restores(m: Machine, answers: Seq<AnswerView>)
    requires
        wf(m),
    ensures
        wf(run(m, answers)),
        !(run(m, answers).pending is Ready) ==> run(m, answers).stack == m.stack,
        run_complains(m, answers) ==> run(m, answers).stack == m.stack,
    decreases answers.len(),
{
    if answers.len() > 0 {
        let after = resume(m, answers[0]).machine;
        lemma_resume(m, answers[0]);
        lemma_complaint_restores(after, answers.skip(1));
        if after.pending is Ready {
            lemma_done_stays(after, answers.skip(1));
        }
    }
}

/// A line that has been accepted can only come to grief on a duplicate: a
/// line without one leads to no complaint once its fragments and its depth
/// have been checked, and every other token finds its operands.
pub proof fn law_only_duplicate_can_fail(m: Machine, line: Seq<u8>, answers: Seq<AnswerView>)
    requires
        first_error(lex_spec(line)) is None,
        depth_after(m.stack.len() as int, tokens_of(lex_spec(line))) is Some,
        !has_duplicate(tokens_of(lex_spec(line))),
    ensures
        parse(m, line).error is None,
        !run_complains(parse(m, line).machine, answers),
{
    let tokens = tokens_of(lex_spec(line));
    let start = loaded(m, tokens, line.len() as int);
    assert(start.program.skip(0) =~= tokens);
    lemma_settle(start);
    lemma_settle_keeps(start);
    lemma_run(settle(start).machine, answers);
}

/// Each number makes the stack one deeper and each operator with two
/// operands one shallower, as long as every operator finds its operands.
pub proof fn lemma_depth_counts(depth: int, tokens: Seq<TokenView>)
    requires
        only_numbers_and_binary(tokens),
        depth_after(depth, tokens) is Some,
    ensures
        depth_after(depth, tokens) == Some(depth + count_numbers(tokens) - count_binary(tokens)),
    decreases tokens.len(),
{
    if tokens.len() > 0 {
        let rest = tokens.skip(1);
        assert(tokens[0] is Number || is_binary(tokens[0]));
        assert forall|i: int| 0 <= i < rest.len() implies (#[trigger] rest[i]) is Number
            || is_binary(rest[i]) by {
            assert(rest[i] == tokens[i + 1]);
        }
        lemma_depth_counts(depth_step(depth, tokens[0])->Some_0, rest);
    }
}

/// Answers keep the machine sound. In a line without a duplicate they lead
/// to no complaint and leave the final depth what it was.
pub proof fn lemma_run(m: Machine, answers: Seq<AnswerView>)
    requires
        wf(m),
        !has_duplicate(m.program),
    ensures
        wf(run(m, answers)),
        run(m, answers).program == m.program,
        final_depth(run(m, answers)) == final_depth(m),
        !run_complains(m, answers),
    decreases answers.len(),
{
    if answers.len() > 0 {
        lemma_resume(m, answers[0]);
        lemma_run(resume(m, answers[0]).machine, answers.skip(1));
    }
}

/// Where a line holds numbers and operators with two operands only, and
/// each operator finds its operands, the stack has as many entries when the
/// line is done as it had before, and one more for each number, and one
/// less for each operator, whatever the answers were and whatever state the
/// calculator was in.
pub proof fn law_depth_conservation(m: Machine, line: Seq<u8>, answers: Seq<AnswerView>)
    requires
        first_error(lex_spec(line)) is None,
        only_numbers_and_binary(tokens_of(lex_spec(line))),
        depth_after(m.stack.len() as int, tokens_of(lex_spec(line))) is Some,
        run(parse(m, line).machine, answers).pending is Ready,
    ensures
        parse(m, line).error is None,
        run(parse(m, line).machine, answers).stack.len() == m.stack.len() + count_numbers(
            tokens_of(lex_spec(line)),
        ) - count_binary(tokens_of(lex_spec(line))),
{
    let tokens = tokens_of(lex_spec(line));
    let start = loaded(m, tokens, line.len() as int);
    assert(start.program.skip(0) =~= tokens);
    assert(!has_duplicate(tokens)) by {
        if has_duplicate(tokens) {
            let i = choose|i: int| 0 <= i < tokens.len() && #[trigger] tokens[i] is Duplicate;
            assert(tokens[i] is Number || is_binary(tokens[i]));
        }
    }
    lemma_settle(start);
    lemma_settle_keeps(start);
    lemma_depth_counts(m.stack.len() as int, tokens);
    lemma_run(settle(start).machine, answers);
}

/// The line `%` empties the stack, whatever it held and whatever state the
/// calculator was in, and needs no outside work.
pub proof fn law_clear_all(m: Machine)
    ensures
        parse(m, seq![0x25u8]).error is None,
        parse(m, seq![0x25u8]).machine.stack == Seq::<Fraction>::empty(),
        parse(m, seq![0x25u8]).machine.pending is Ready,
{
    let line = seq![0x25u8];
    assert(space_width(line, 0) == 0);
    assert(fragment_end(line, 1) == 1);
    assert(fragment_end(line, 0) == 1);
    assert(fragments_from(line, 1) =~= Seq::<Range<usize>>::empty());
    assert(fragments(line) =~= seq![Range { start: 0usize, end: 1usize }]);
    assert(line.subrange(0, 1) =~= line);
    assert(operator_of(line[0]) == Some(TokenView::Empty));
    assert(token_of(line) == Ok::<TokenView, TokenError>(TokenView::Empty));
    let outcomes = lex_spec(line);
    assert(outcomes =~= seq![Ok::<TokenView, TokenError>(TokenView::Empty)]);
    assert(first_error(outcomes.skip(1)) is None);
    assert(first_error(outcomes) is None);
    let tokens = tokens_of(outcomes);
    assert(tokens =~= seq![TokenView::Empty]);
    assert(depth_after(0, tokens.skip(1)) == Some(0int));
    assert(depth_after(m.stack.len() as int, tokens) == Some(0int));
    let start = loaded(m, tokens, 1);
    let cleared = advanced(start, Seq::empty());
    assert(settle(cleared) == quiet(committed(cleared, cleared.work)));
    assert(settle(start) == settle(cleared));
}

/// Whether each answer that brings an entry to lowest terms has the
/// property `p`, as the answers are given one after the other.
pub open spec fn normalizing_answers_have(
    m: Machine,
    answers: Seq<AnswerView>,
    p: spec_fn(Fraction) -> bool,
) -> bool
    decreases answers.len(),
{
    answers.len() == 0 || {
        &&& m.pending is Normalize && answers[0] is Rational ==> p(answers[0]->Rational_0)
        &&& normalizing_answers_have(resume(m, answers[0]).machine, answers.skip(1), p)
    }
}

/// Whether the entries that have been brought to lowest terms for the line
/// at hand have the property `p`: the whole stack once the line is done,
/// and before that the entries below the one that is asked for.
pub open spec fn normalized_so_far(m: Machine, p: spec_fn(Fraction) -> bool) -> bool {
    match m.pending {
        PendingView::Ready => forall|i: int| 0 <= i < m.stack.len() ==> p(#[trigger] m.stack[i]),
        PendingView::Normalize(at) => forall|i: int| 0 <= i < at ==> p(#[trigger] m.work[i]),
        _ => true,
    }
}

/// Carrying out tokens ends, unless the line is given up, with an empty
/// stack, or asking for the bottom entry, or waiting for an operator.
pub proof fn lemma_settle_starts_below(m: Machine, p: spec_fn(Fraction) -> bool)
    requires
        inv(m),
        m.pending is Ready,
    ensures
        settle(m).error is None ==> normalized_so_far(settle(m).machine, p),
    decreases m.program.len() - m.next,
{
    if m.next < m.program.len() {
        let token = m.program[m.next];
        let depth = m.work.len() as int;
        lemma_depth_after_next(depth, m.program, m.next);
        if token is Number {
            lemma_settle_starts_below(advanced(m, m.work.push(token->Number_0)), p);
        } else if token is Duplicate {
            if depth >= 1 {
                lemma_settle_starts_below(advanced(m, m.work.push(m.work.last())), p);
            }
        } else if token is Drop {
            lemma_settle_starts_below(advanced(m, m.work.drop_last()), p);
        } else if token is Empty {
            lemma_settle_starts_below(advanced(m, Seq::empty()), p);
        } else if is_division(token) && m.work.last().num == 0 {
            lemma_settle_starts_below(advanced(m, replace_two(m.work, zero_fraction())), p);
        }
    }
}

/// Answers that lead to no complaint keep what `normalized_so_far` says.
pub proof fn lemma_run_normalized(
    m: Machine,
    answers: Seq<AnswerView>,
    p: spec_fn(Fraction) -> bool,
)
    requires
        wf(m),
        normalized_so_far(m, p),
        normalizing_answers_have(m, answers, p),
        !run_complains(m, answers),
    ensures
        normalized_so_far(run(m, answers), p),
    decreases answers.len(),
{
    if answers.len() > 0 {
        let answer = answers[0];
        let after = resume(m, answer).machine;
        lemma_resume(m, answer);
        match (m.pending, answer) {
            (PendingView::Arithmetic, AnswerView::Rational(value)) => {
                lemma_settle_starts_below(advanced(m, replace_two(m.work, value)), p);
            },
            (PendingView::Bits(_, _), AnswerView::Integer(value)) => {
                lemma_settle_starts_below(
                    advanced(m, replace_two(m.work, Fraction { num: value, den: 1 })),
                    p,
                );
            },
            _ => {},
        }
        lemma_run_normalized(after, answers.skip(1), p);
    }
}

/// When a line is done without a complaint, every entry of the stack is an
/// answer that was given for an entry to be brought to lowest terms: what
/// holds of all such answers holds of every entry.
pub proof fn law_entries_are_normalized(
    m: Machine,
    line: Seq<u8>,
    answers: Seq<AnswerView>,
    p: spec_fn(Fraction) -> bool,
)
    requires
        parse(m, line).error is None,
        !run_complains(parse(m, line).machine, answers),
        normalizing_answers_have(parse(m, line).machine, answers, p),
        run(parse(m, line).machine, answers).pending is Ready,
    ensures
        forall|i: int|
            0 <= i < run(parse(m, line).machine, answers).stack.len() ==> p(
                #[trigger] run(parse(m, line).machine, answers).stack[i],
            ),
{
    let tokens = tokens_of(lex_spec(line));
    let start = loaded(m, tokens, line.len() as int);
    assert(start.program.skip(0) =~= tokens);
    lemma_settle(start);
    lemma_settle_starts_below(start, p);
    lemma_run_normalized(settle(start).machine, answers, p);
}

} // verus!
