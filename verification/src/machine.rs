//! The calculator as a mathematical machine: what a line does to the stack,
//! which outside work it asks for, and what becomes of each answer.
//!
//! A line works on a copy of the stack. The stack itself changes once, when
//! the line is done; a line that comes to grief leaves it as it was.

use crate::number::Fraction;
use crate::token::{complaint, lex_spec, Message, TokenError, TokenView};
use vstd::prelude::*;

verus! {

/// What the calculator waits for.
pub ghost enum PendingView {
    /// Nothing.
    Ready,
    /// The result of the arithmetic operator at hand on the two top
    /// entries.
    Arithmetic,
    /// The entry below the top, rounded.
    RoundLeft,
    /// The top entry, rounded; the entry below it has been rounded to the
    /// number held here.
    RoundRight(int),
    /// The bits of the two rounded entries, combined by the operator at
    /// hand.
    Bits(int, int),
    /// The entry at this depth from the bottom, in lowest terms.
    Normalize(int),
}

/// The state of a calculator: the stack, bottom first; the copy of it that
/// the line at hand works on; the tokens of that line; how many of them are
/// done; what is being waited for; and the length of the line in bytes.
pub ghost struct Machine {
    pub stack: Seq<Fraction>,
    pub work: Seq<Fraction>,
    pub program: Seq<TokenView>,
    pub next: int,
    pub pending: PendingView,
    pub line_len: int,
}

/// What a step of the calculator comes to: the state behind it, and the
/// complaint that it makes, if it makes one.
pub ghost struct Step {
    pub machine: Machine,
    pub error: Option<TokenError>,
}

/// Work that the calculator leaves to the program around it.
pub ghost enum RequestView {
    Add(Fraction, Fraction),
    Subtract(Fraction, Fraction),
    Multiply(Fraction, Fraction),
    Divide(Fraction, Fraction),
    Round(Fraction),
    BitAnd(int, int),
    BitOr(int, int),
    Normalize(Fraction),
}

/// The result of such work.
pub ghost enum AnswerView {
    Rational(Fraction),
    Integer(int),
}

/// Whether a token takes two operands and leaves a fraction computed from
/// both: sum, difference, product or quotient.
pub open spec fn is_arithmetic(token: TokenView) -> bool {
    token is Plus || token is Minus || token is Times || token is Divide || token is Exp
}

/// Whether a token divides. The power operator does: it stands for the
/// same operation as the division operator.
pub open spec fn is_division(token: TokenView) -> bool {
    token is Divide || token is Exp
}

/// Whether a token works on the bits of its two operands.
pub open spec fn is_bitwise(token: TokenView) -> bool {
    token is And || token is Or
}

/// Whether a token takes two operands and leaves one.
pub open spec fn is_binary(token: TokenView) -> bool {
    is_arithmetic(token) || is_bitwise(token)
}

/// The depth of the stack after one token, from the depth before it, or
/// `None` where the token needs more operands than there are.
pub open spec fn depth_step(depth: int, token: TokenView) -> Option<int> {
    if token is Number || token is Duplicate {
        Some(depth + 1)
    } else if is_binary(token) {
        if depth >= 2 {
            Some(depth - 1)
        } else {
            None
        }
    } else if token is Drop {
        if depth >= 1 {
            Some(depth - 1)
        } else {
            None
        }
    } else {
        Some(0)
    }
}

/// The depth of the stack after a row of tokens, from the depth before
/// them, or `None` where some token needs more operands than there are at
/// that point.
pub open spec fn depth_after(depth: int, tokens: Seq<TokenView>) -> Option<int>
    decreases tokens.len(),
{
    if tokens.len() == 0 {
        Some(depth)
    } else {
        match depth_step(depth, tokens[0]) {
            Some(next) => depth_after(next, tokens.skip(1)),
            None => None,
        }
    }
}

/// The stack with its two top entries replaced by one.
pub open spec fn replace_two(stack: Seq<Fraction>, value: Fraction) -> Seq<Fraction> {
    stack.take(stack.len() - 2).push(value)
}

/// Zero over one.
pub open spec fn zero_fraction() -> Fraction {
    Fraction { num: 0, den: 1 }
}

/// The machine after the token at hand, with new entries to work on.
pub open spec fn advanced(m: Machine, work: Seq<Fraction>) -> Machine {
    Machine {
        stack: m.stack,
        work,
        program: m.program,
        next: m.next + 1,
        pending: PendingView::Ready,
        line_len: m.line_len,
    }
}

/// The machine waiting for something, otherwise unchanged.
pub open spec fn waiting(m: Machine, pending: PendingView) -> Machine {
    Machine {
        stack: m.stack,
        work: m.work,
        program: m.program,
        next: m.next,
        pending,
        line_len: m.line_len,
    }
}

/// The machine with the line at hand given up: the stack is what it was
/// before the line.
pub open spec fn abandoned(m: Machine) -> Machine {
    Machine {
        stack: m.stack,
        work: Seq::empty(),
        program: m.program,
        next: m.program.len() as int,
        pending: PendingView::Ready,
        line_len: m.line_len,
    }
}

/// The machine with the line at hand done: what the line worked on is the
/// stack now.
pub open spec fn committed(m: Machine, work: Seq<Fraction>) -> Machine {
    Machine {
        stack: work,
        work: Seq::empty(),
        program: m.program,
        next: m.program.len() as int,
        pending: PendingView::Ready,
        line_len: m.line_len,
    }
}

/// A step that ends in the given state without complaint.
pub open spec fn quiet(machine: Machine) -> Step {
    Step { machine, error: None }
}

/// Carries out the tokens from the one at hand onwards, up to the first
/// that needs outside work, and says what the machine then waits for.
///
/// A number is pushed. Duplicate pushes the top entry once more, drop
/// removes it, and clear removes every entry. Dividing by zero needs no
/// outside work: the two operands give way to zero over one. Every other
/// operator waits. Behind the last token each entry is brought to lowest
/// terms, from the bottom up, which is outside work too; with no entry left
/// the line is done.
///
/// Duplicate with no entry to copy gives the line up, with a complaint
/// about the whole line. Any other token that finds too few operands is
/// passed over.
pub open spec fn settle(m: Machine) -> Step
    decreases m.program.len() - m.next,
{
    if m.next < 0 || m.next >= m.program.len() {
        if m.work.len() > 0 {
            quiet(waiting(m, PendingView::Normalize(0)))
        } else {
            quiet(committed(m, m.work))
        }
    } else {
        let token = m.program[m.next];
        let depth = m.work.len();
        match token {
            TokenView::Number(n) => settle(advanced(m, m.work.push(n))),
            TokenView::Duplicate => if depth >= 1 {
                settle(advanced(m, m.work.push(m.work.last())))
            } else {
                Step {
                    machine: abandoned(m),
                    error: Some(complaint(Message::DroppedStack, 0, m.line_len)),
                }
            },
            TokenView::Drop => if depth >= 1 {
                settle(advanced(m, m.work.drop_last()))
            } else {
                settle(advanced(m, m.work))
            },
            TokenView::Empty => settle(advanced(m, Seq::empty())),
            _ => if depth < 2 {
                settle(advanced(m, m.work))
            } else if is_division(token) && m.work.last().num == 0 {
                settle(advanced(m, replace_two(m.work, zero_fraction())))
            } else if is_bitwise(token) {
                quiet(waiting(m, PendingView::RoundLeft))
            } else {
                quiet(waiting(m, PendingView::Arithmetic))
            },
        }
    }
}

/// The outside work that the machine waits for, if it waits for any. The
/// left operand is the entry below the top, the right one the top entry.
pub open spec fn request_of(m: Machine) -> Option<RequestView> {
    let depth = m.work.len();
    match m.pending {
        PendingView::Ready => None,
        PendingView::Arithmetic => {
            let left = m.work[depth - 2];
            let right = m.work[depth - 1];
            match m.program[m.next] {
                TokenView::Plus => Some(RequestView::Add(left, right)),
                TokenView::Minus => Some(RequestView::Subtract(left, right)),
                TokenView::Times => Some(RequestView::Multiply(left, right)),
                _ => Some(RequestView::Divide(left, right)),
            }
        },
        PendingView::RoundLeft => Some(RequestView::Round(m.work[depth - 2])),
        PendingView::RoundRight(_) => Some(RequestView::Round(m.work[depth - 1])),
        PendingView::Bits(left, right) => match m.program[m.next] {
            TokenView::And => Some(RequestView::BitAnd(left, right)),
            _ => Some(RequestView::BitOr(left, right)),
        },
        PendingView::Normalize(at) => Some(RequestView::Normalize(m.work[at])),
    }
}

/// The machine after an answer has come. An answer of another kind than
/// the one waited for changes nothing.
///
/// The result of an arithmetic operator takes the place of the two
/// operands, and so does the result of a bit operator, over one; the
/// machine then goes on with the tokens behind the operator. A rounded
/// operand is kept until both are there. An entry in lowest terms takes the
/// place of the entry that it was made from, and the next entry up is asked
/// for; behind the top entry the line is done.
pub open spec fn resume(m: Machine, answer: AnswerView) -> Step {
    match (m.pending, answer) {
        (PendingView::Arithmetic, AnswerView::Rational(value)) => settle(
            advanced(m, replace_two(m.work, value)),
        ),
        (PendingView::RoundLeft, AnswerView::Integer(left)) => quiet(
            waiting(m, PendingView::RoundRight(left)),
        ),
        (PendingView::RoundRight(left), AnswerView::Integer(right)) => quiet(
            waiting(m, PendingView::Bits(left, right)),
        ),
        (PendingView::Bits(_, _), AnswerView::Integer(value)) => settle(
            advanced(m, replace_two(m.work, Fraction { num: value, den: 1 })),
        ),
        (PendingView::Normalize(at), AnswerView::Rational(value)) => if at + 1 < m.work.len() {
            quiet(
                Machine {
                    stack: m.stack,
                    work: m.work.update(at, value),
                    program: m.program,
                    next: m.next,
                    pending: PendingView::Normalize(at + 1),
                    line_len: m.line_len,
                },
            )
        } else {
            quiet(committed(m, m.work.update(at, value)))
        },
        _ => quiet(m),
    }
}

/// The first complaint among the outcomes of a line, if there is one.
pub open spec fn first_error(outcomes: Seq<Result<TokenView, TokenError>>) -> Option<TokenError>
    decreases outcomes.len(),
{
    if outcomes.len() == 0 {
        None
    } else {
        match outcomes[0] {
            Err(e) => Some(e),
            Ok(_) => first_error(outcomes.skip(1)),
        }
    }
}

/// The tokens among the outcomes of a line.
pub open spec fn tokens_of(outcomes: Seq<Result<TokenView, TokenError>>) -> Seq<TokenView> {
    Seq::new(outcomes.len(), |i: int| outcomes[i]->Ok_0)
}

/// The machine with a new line at hand, none of it done, and a copy of the
/// stack to work on. A line that still waited for an answer is given up.
pub open spec fn loaded(m: Machine, tokens: Seq<TokenView>, line_len: int) -> Machine {
    Machine {
        stack: m.stack,
        work: m.stack,
        program: tokens,
        next: 0,
        pending: PendingView::Ready,
        line_len,
    }
}

/// A step that changes nothing and complains about the whole line.
pub open spec fn refused(m: Machine, message: Message, line_len: int) -> Step {
    Step { machine: m, error: Some(complaint(message, 0, line_len)) }
}

/// What a line does to the machine.
///
/// The line is refused where one of its fragments is no token, with the
/// first such complaint, and where one of its tokens other than duplicate
/// would find too few operands. A line that is refused changes nothing.
/// Otherwise its tokens are carried out up to the first that needs outside
/// work.
pub open spec fn parse(m: Machine, line: Seq<u8>) -> Step {
    let outcomes = lex_spec(line);
    let line_len = line.len() as int;
    if first_error(outcomes) is Some {
        Step { machine: m, error: first_error(outcomes) }
    } else if depth_after(m.stack.len() as int, tokens_of(outcomes)) is None {
        refused(m, Message::StackExhaustion, line_len)
    } else {
        settle(loaded(m, tokens_of(outcomes), line_len))
    }
}

/// What holds of the machine while a line is carried out: the tokens that
/// are left find the operands that they need.
pub open spec fn inv(m: Machine) -> bool {
    let depth = m.work.len() as int;
    &&& 0 <= m.next <= m.program.len()
    &&& match m.pending {
        PendingView::Ready => depth_after(depth, m.program.skip(m.next)) is Some,
        PendingView::Normalize(at) => m.next == m.program.len() && 0 <= at < depth,
        _ => {
            &&& m.next < m.program.len()
            &&& depth >= 2
            &&& depth_after(depth - 1, m.program.skip(m.next + 1)) is Some
            &&& if m.pending is Arithmetic {
                let token = m.program[m.next];
                is_arithmetic(token) && (is_division(token) ==> m.work.last().num != 0)
            } else {
                is_bitwise(m.program[m.next])
            }
        },
    }
}

/// What holds of the machine between the calls that change it: besides
/// `inv`, it waits for an answer unless the line at hand is done, and then
/// nothing is left to work on.
pub open spec fn wf(m: Machine) -> bool {
    inv(m) && (m.pending is Ready ==> m.next == m.program.len() && m.work.len() == 0)
}

/// The depth that the stack will have when the line at hand is done,
/// whatever the answers are, seen from a state that waits for an answer or
/// is done.
pub open spec fn final_depth(m: Machine) -> Option<int> {
    match m.pending {
        PendingView::Ready => Some(m.stack.len() as int),
        PendingView::Normalize(_) => Some(m.work.len() as int),
        _ => depth_after(m.work.len() - 1, m.program.skip(m.next + 1)),
    }
}

/// Whether a row of tokens holds a duplicate.
pub open spec fn has_duplicate(tokens: Seq<TokenView>) -> bool {
    exists|i: int| 0 <= i < tokens.len() && #[trigger] tokens[i] is Duplicate
}

/// The depth after the tokens from `next` on is the depth after the first
/// of them and then after the rest.
pub proof fn lemma_depth_after_next(depth: int, program: Seq<TokenView>, next: int)
    requires
        0 <= next < program.len(),
    ensures
        depth_after(depth, program.skip(next)) == match depth_step(depth, program[next]) {
            Some(after) => depth_after(after, program.skip(next + 1)),
            None => None,
        },
{
    let rest = program.skip(next);
    assert(rest[0] == program[next]);
    assert(rest.skip(1) =~= program.skip(next + 1));
}

/// Carrying out tokens leaves the stack alone unless it ends the line, and
/// keeps the line and its length.
pub proof fn lemma_settle_keeps(m: Machine)
    ensures
        settle(m).machine.program == m.program,
        settle(m).machine.line_len == m.line_len,
        settle(m).machine.pending is Ready || settle(m).machine.stack == m.stack,
        settle(m).error matches Some(e) ==> e.message == Message::DroppedStack && settle(
            m,
        ).machine == abandoned(m),
        settle(m).error is Some ==> has_duplicate(m.program.skip(m.next)),
    decreases m.program.len() - m.next,
{
    if 0 <= m.next < m.program.len() {
        let token = m.program[m.next];
        let rest = m.program.skip(m.next);
        let depth = m.work.len();
        assert(rest[0] == token);
        let after = if token is Number {
            advanced(m, m.work.push(token->Number_0))
        } else if token is Duplicate {
            advanced(m, m.work.push(m.work.last()))
        } else if token is Drop {
            if depth >= 1 {
                advanced(m, m.work.drop_last())
            } else {
                advanced(m, m.work)
            }
        } else if token is Empty {
            advanced(m, Seq::empty())
        } else if depth < 2 {
            advanced(m, m.work)
        } else {
            advanced(m, replace_two(m.work, zero_fraction()))
        };
        let goes_on = if token is Duplicate {
            depth >= 1
        } else {
            token is Number || token is Drop || token is Empty || depth < 2 || (is_division(token)
                && m.work.last().num == 0)
        };
        if goes_on {
            lemma_settle_keeps(after);
            assert(settle(m) == settle(after));
            assert(abandoned(after) == abandoned(m));
            if settle(m).error is Some {
                let tail = m.program.skip(m.next + 1);
                let i = choose|i: int| 0 <= i < tail.len() && #[trigger] tail[i] is Duplicate;
                assert(rest[i + 1] is Duplicate);
            }
        }
    }
}

/// Carrying out tokens that find their operands ends waiting for an answer
/// or with the line done, and reaches the depth that the tokens lead to
/// unless a duplicate gives the line up.
pub proof fn lemma_settle(m: Machine)
    requires
        inv(m),
        m.pending is Ready,
    ensures
        wf(settle(m).machine),
        settle(m).error is None ==> final_depth(settle(m).machine) == depth_after(
            m.work.len() as int,
            m.program.skip(m.next),
        ),
    decreases m.program.len() - m.next,
{
    let depth = m.work.len() as int;
    if m.next < m.program.len() {
        let token = m.program[m.next];
        lemma_depth_after_next(depth, m.program, m.next);
        let after = if token is Number {
            advanced(m, m.work.push(token->Number_0))
        } else if token is Duplicate {
            advanced(m, m.work.push(m.work.last()))
        } else if token is Drop {
            advanced(m, m.work.drop_last())
        } else if token is Empty {
            advanced(m, Seq::empty())
        } else {
            advanced(m, replace_two(m.work, zero_fraction()))
        };
        if token is Duplicate && depth == 0 {
            assert(settle(m).machine == abandoned(m));
            assert(m.program.skip(m.program.len() as int) =~= Seq::<TokenView>::empty());
        } else if token is Number || token is Duplicate || token is Drop || token is Empty || (
        is_division(token) && m.work.last().num == 0) {
            lemma_settle(after);
            assert(settle(m) == settle(after));
        } else if is_bitwise(token) {
            assert(settle(m) == quiet(waiting(m, PendingView::RoundLeft)));
        } else {
            assert(settle(m) == quiet(waiting(m, PendingView::Arithmetic)));
        }
    } else {
        assert(m.program.skip(m.next) =~= Seq::<TokenView>::empty());
        assert(m.program.skip(m.program.len() as int) =~= Seq::<TokenView>::empty());
    }
}

/// An answer keeps the machine sound and the line at hand. It leaves the
/// stack alone unless it ends the line; it leads to a complaint only where
/// a duplicate is left in the line, and then the stack is what it was
/// before the line; and without a complaint the final depth stays what it
/// was.
pub proof fn lemma_resume(m: Machine, answer: AnswerView)
    requires
        wf(m),
    ensures
        wf(resume(m, answer).machine),
        resume(m, answer).machine.program == m.program,
        resume(m, answer).machine.line_len == m.line_len,
        resume(m, answer).machine.pending is Ready || resume(m, answer).machine.stack == m.stack,
        resume(m, answer).error is None ==> final_depth(resume(m, answer).machine)
            == final_depth(m),
        resume(m, answer).error is Some ==> has_duplicate(m.program) && resume(
            m,
            answer,
        ).machine.stack == m.stack && resume(m, answer).machine.pending is Ready,
{
    match (m.pending, answer) {
        (PendingView::Arithmetic, AnswerView::Rational(value)) => {
            let after = advanced(m, replace_two(m.work, value));
            lemma_settle(after);
            lemma_settle_keeps(after);
            if settle(after).error is Some {
                let rest = m.program.skip(m.next + 1);
                let i = choose|i: int| 0 <= i < rest.len() && #[trigger] rest[i] is Duplicate;
                assert(m.program[m.next + 1 + i] is Duplicate);
            }
        },
        (PendingView::Bits(_, _), AnswerView::Integer(value)) => {
            let after = advanced(m, replace_two(m.work, Fraction { num: value, den: 1 }));
            lemma_settle(after);
            lemma_settle_keeps(after);
            if settle(after).error is Some {
                let rest = m.program.skip(m.next + 1);
                let i = choose|i: int| 0 <= i < rest.len() && #[trigger] rest[i] is Duplicate;
                assert(m.program[m.next + 1 + i] is Duplicate);
            }
        },
        (PendingView::Normalize(at), AnswerView::Rational(value)) => {
            assert(m.program.skip(m.program.len() as int) =~= Seq::<TokenView>::empty());
        },
        _ => {},
    }
}

/// A line that leads to a complaint leaves the stack as it was, whatever
/// the complaint.
pub proof fn lemma_parse(m: Machine, line: Seq<u8>)
    ensures
        parse(m, line).error is Some ==> parse(m, line).machine.stack == m.stack,
        parse(m, line).machine == m || parse(m, line).machine.pending is Ready || parse(
            m,
            line,
        ).machine.stack == m.stack,
        wf(m) || parse(m, line).error is None ==> wf(parse(m, line).machine),
{
    let outcomes = lex_spec(line);
    if first_error(outcomes) is None && depth_after(m.stack.len() as int, tokens_of(outcomes))
        is Some {
        let start = loaded(m, tokens_of(outcomes), line.len() as int);
        assert(start.program.skip(0) =~= start.program);
        lemma_settle(start);
        lemma_settle_keeps(start);
    }
}

} // verus!
