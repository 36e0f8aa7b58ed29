//! Tokens, and how a line of text is split into them.

use crate::number::{parse_numeral, Fraction, Integer, ParseIntError, Rational};
use core::ops::Range;
use vstd::prelude::*;
use vstd::slice::slice_subrange;
use vstd::string::StringSliceAdditionalSpecFns;

verus! {

/// What is wrong with a line.
#[derive(Clone, Copy, Debug, PartialEq, Eq, Structural)]
pub enum Message {
    /// An operator is followed by more characters.
    UnexpectedTrailingCharacters,
    /// A fragment holds no character at all.
    UnexpectedEmptyToken,
    /// A fragment starts with a character that starts no token.
    UnexpectedToken,
    /// A number is not a numeral of its radix.
    Numeral(ParseIntError),
    /// The line would take more operands than the stack holds.
    StackExhaustion,
    /// A duplicate found nothing on the stack.
    DroppedStack,
}

impl Message {
    /// The message as a sequence of characters.
    pub open spec fn text_spec(self) -> Seq<char> {
        match self {
            Message::UnexpectedTrailingCharacters => "Unexpected trailing characters"@,
            Message::UnexpectedEmptyToken => "unexpected empty token"@,
            Message::UnexpectedToken => "unexpected token"@,
            Message::Numeral(e) => e.message_spec(),
            Message::StackExhaustion => {
                "Stack exhaustion would have occured during evaluation; aborting"@
            },
            Message::DroppedStack => "Incomplete expression, dropped stack"@,
        }
    }

    /// The message in words.
    pub fn text(&self) -> (text: &'static str)
        ensures
            text@ == self.text_spec(),
    {
        match self {
            Message::UnexpectedTrailingCharacters => "Unexpected trailing characters",
            Message::UnexpectedEmptyToken => "unexpected empty token",
            Message::UnexpectedToken => "unexpected token",
            Message::Numeral(e) => e.message(),
            Message::StackExhaustion => {
                "Stack exhaustion would have occured during evaluation; aborting"
            },
            Message::DroppedStack => "Incomplete expression, dropped stack",
        }
    }
}

/// A complaint about a line: what is wrong, and the bytes of the line that
/// it is about.
#[derive(Debug, PartialEq, Eq)]
pub struct TokenError {
    pub message: Message,
    pub span: Range<usize>,
}

impl Clone for TokenError {
    fn clone(&self) -> (r: Self)
        ensures
            r == *self,
    {
        TokenError {
            message: self.message,
            span: Range { start: self.span.start, end: self.span.end },
        }
    }
}

/// One word of the calculator's language.
#[derive(Debug)]
pub enum Token {
    Number(Rational),
    Minus,
    Plus,
    Times,
    Divide,
    Exp,
    And,
    Or,
    Duplicate,
    Drop,
    Empty,
}

/// A token with the number that it carries, if it carries one.
pub ghost enum TokenView {
    Number(Fraction),
    Minus,
    Plus,
    Times,
    Divide,
    Exp,
    And,
    Or,
    Duplicate,
    Drop,
    Empty,
}

impl View for Token {
    type V = TokenView;

    open spec fn view(&self) -> TokenView {
        match self {
            Token::Number(n) => TokenView::Number(n@),
            Token::Minus => TokenView::Minus,
            Token::Plus => TokenView::Plus,
            Token::Times => TokenView::Times,
            Token::Divide => TokenView::Divide,
            Token::Exp => TokenView::Exp,
            Token::And => TokenView::And,
            Token::Or => TokenView::Or,
            Token::Duplicate => TokenView::Duplicate,
            Token::Drop => TokenView::Drop,
            Token::Empty => TokenView::Empty,
        }
    }
}

impl Clone for Token {
    fn clone(&self) -> (r: Self)
        ensures
            r@ == self@,
    {
        match self {
            Token::Number(n) => Token::Number(n.clone()),
            Token::Minus => Token::Minus,
            Token::Plus => Token::Plus,
            Token::Times => Token::Times,
            Token::Divide => Token::Divide,
            Token::Exp => Token::Exp,
            Token::And => Token::And,
            Token::Or => Token::Or,
            Token::Duplicate => Token::Duplicate,
            Token::Drop => Token::Drop,
            Token::Empty => Token::Empty,
        }
    }
}

/// The token that a character stands for when it stands alone.
pub open spec fn operator_of(c: u8) -> Option<TokenView> {
    if c == 0x25 {
        Some(TokenView::Empty)
    } else if c == 0x21 {
        Some(TokenView::Drop)
    } else if c == 0x3c {
        Some(TokenView::Duplicate)
    } else if c == 0x5e {
        Some(TokenView::Exp)
    } else if c == 0x2f {
        Some(TokenView::Divide)
    } else if c == 0x2a {
        Some(TokenView::Times)
    } else if c == 0x2b {
        Some(TokenView::Plus)
    } else if c == 0x2d {
        Some(TokenView::Minus)
    } else if c == 0x7c {
        Some(TokenView::Or)
    } else if c == 0x26 {
        Some(TokenView::And)
    } else {
        None
    }
}

/// A complaint about the bytes from `start` up to `end`.
pub open spec fn complaint(message: Message, start: int, end: int) -> TokenError {
    TokenError { message, span: Range { start: start as usize, end: end as usize } }
}

/// The number that a fragment denotes when its digits start behind `prefix`
/// characters and are read in `radix`.
pub open spec fn number_of(text: Seq<u8>, prefix: int, radix: u8) -> Result<
    TokenView,
    TokenError,
> {
    match parse_numeral(text.skip(prefix), radix) {
        Ok(value) => Ok(TokenView::Number(Fraction { num: value, den: 1 })),
        Err(e) => Err(complaint(Message::Numeral(e), prefix, text.len() as int)),
    }
}

/// What a fragment of a line means.
///
/// An operator character is a token when it stands alone. A fragment that
/// starts with a decimal digit is a number: in hexadecimal behind `0x`, in
/// binary behind `0b`, else in decimal. Anything else is no token. The span
/// of a complaint counts from the start of the fragment.
pub open spec fn token_of(text: Seq<u8>) -> Result<TokenView, TokenError> {
    if text.len() == 0 {
        Err(complaint(Message::UnexpectedEmptyToken, 0, 0))
    } else if operator_of(text[0]) is Some {
        if text.len() == 1 {
            Ok(operator_of(text[0])->Some_0)
        } else {
            Err(complaint(Message::UnexpectedTrailingCharacters, 1, text.len() as int))
        }
    } else if text[0] == 0x30 && text.len() > 1 && text[1] == 0x78 {
        number_of(text, 2, 16)
    } else if text[0] == 0x30 && text.len() > 1 && text[1] == 0x62 {
        number_of(text, 2, 2)
    } else if 0x30 <= text[0] <= 0x39 {
        number_of(text, 0, 10)
    } else {
        Err(complaint(Message::UnexpectedToken, 0, text.len() as int))
    }
}

/// What reading a fragment gave, with each token seen as its view.
pub open spec fn outcome_view(r: Result<Token, TokenError>) -> Result<TokenView, TokenError> {
    match r {
        Ok(token) => Ok(token@),
        Err(e) => Err(e),
    }
}

/// Accepts `token` for a fragment of exactly `size` bytes, and complains
/// about every byte beyond them.
fn unexpected_trailing_chars(from: &[u8], token: Token, size: usize) -> (r: Result<
    Token,
    TokenError,
>)
    ensures
        from@.len() == size ==> r == Ok::<Token, TokenError>(token),
        from@.len() != size ==> r == Err::<Token, TokenError>(
            complaint(Message::UnexpectedTrailingCharacters, size as int, from@.len() as int),
        ),
{
    if from.len() == size {
        Ok(token)
    } else {
        Err(
            TokenError {
                message: Message::UnexpectedTrailingCharacters,
                span: Range { start: size, end: from.len() },
            },
        )
    }
}

/// Reads the digits of a fragment behind `prefix` characters in `radix`.
fn number_from(from: &[u8], prefix: usize, radix: u8) -> (r: Result<Token, TokenError>)
    requires
        prefix <= from@.len(),
        2 <= radix <= 36,
    ensures
        outcome_view(r) == number_of(from@, prefix as int, radix),
{
    let digits = slice_subrange(from, prefix, from.len());
    assert(digits@ =~= from@.skip(prefix as int));
    match Integer::from_bytes_radix(digits, radix) {
        Ok(n) => Ok(Token::Number(Rational::from_integer(n))),
        Err(e) => Err(
            TokenError {
                message: Message::Numeral(e),
                span: Range { start: prefix, end: from.len() },
            },
        ),
    }
}

impl Token {
    /// Reads one fragment of a line as a token.
    pub fn from_bytes(from: &[u8]) -> (r: Result<Token, TokenError>)
        ensures
            outcome_view(r) == token_of(from@),
    {
        if from.len() == 0 {
            return Err(
                TokenError {
                    message: Message::UnexpectedEmptyToken,
                    span: Range { start: 0, end: 0 },
                },
            );
        }
        let first = from[0];
        if first == 0x25 {
            unexpected_trailing_chars(from, Token::Empty, 1)
        } else if first == 0x21 {
            unexpected_trailing_chars(from, Token::Drop, 1)
        } else if first == 0x3c {
            unexpected_trailing_chars(from, Token::Duplicate, 1)
        } else if first == 0x5e {
            unexpected_trailing_chars(from, Token::Exp, 1)
        } else if first == 0x2f {
            unexpected_trailing_chars(from, Token::Divide, 1)
        } else if first == 0x2a {
            unexpected_trailing_chars(from, Token::Times, 1)
        } else if first == 0x2b {
            unexpected_trailing_chars(from, Token::Plus, 1)
        } else if first == 0x2d {
            unexpected_trailing_chars(from, Token::Minus, 1)
        } else if first == 0x7c {
            unexpected_trailing_chars(from, Token::Or, 1)
        } else if first == 0x26 {
            unexpected_trailing_chars(from, Token::And, 1)
        } else if first == 0x30 {
            if from.len() > 1 && from[1] == 0x78 {
                number_from(from, 2, 16)
            } else if from.len() > 1 && from[1] == 0x62 {
                number_from(from, 2, 2)
            } else {
                number_from(from, 0, 10)
            }
        } else if 0x30 <= first && first <= 0x39 {
            number_from(from, 0, 10)
        } else {
            Err(
                TokenError {
                    message: Message::UnexpectedToken,
                    span: Range { start: 0, end: from.len() },
                },
            )
        }
    }

}

impl core::str::FromStr for Token {
    type Err = TokenError;

    /// Reads one fragment of a line as a token.
    fn from_str(from: &str) -> (r: Result<Token, TokenError>)
        ensures
            outcome_view(r) == token_of(from.spec_bytes()),
    {
        Token::from_bytes(from.as_bytes())
    }
}

/// Whether three bytes are the UTF-8 encoding of a white-space character
/// from U+1680 upwards.
pub open spec fn is_wide_space(a: u8, b: u8, c: u8) -> bool {
    ||| a == 0xe1 && b == 0x9a && c == 0x80
    ||| a == 0xe2 && b == 0x80 && (0x80 <= c <= 0x8a || c == 0xa8 || c == 0xa9 || c == 0xaf)
    ||| a == 0xe2 && b == 0x81 && c == 0x9f
    ||| a == 0xe3 && b == 0x80 && c == 0x80
}

/// The number of bytes of the white-space character whose UTF-8 encoding
/// starts at `at`, or zero where none starts.
///
/// White space is what Unicode calls so: tab to carriage return and the
/// space in one byte, U+0085 and U+00A0 in two, and in three U+1680,
/// U+2000 to U+200A, U+2028, U+2029, U+202F, U+205F and U+3000.
pub open spec fn space_width(line: Seq<u8>, at: int) -> int {
    if at < 0 || at >= line.len() {
        0
    } else if 0x09 <= line[at] <= 0x0d || line[at] == 0x20 {
        1
    } else if at + 1 < line.len() && line[at] == 0xc2 && (line[at + 1] == 0x85 || line[at + 1]
        == 0xa0) {
        2
    } else if at + 2 < line.len() && is_wide_space(line[at], line[at + 1], line[at + 2]) {
        3
    } else {
        0
    }
}

/// Where the fragment that holds the byte at `from` ends: at the next
/// white space, or at the end of the line.
pub open spec fn fragment_end(line: Seq<u8>, from: int) -> int
    decreases line.len() - from,
{
    if from >= line.len() || space_width(line, from) > 0 {
        from
    } else {
        fragment_end(line, from + 1)
    }
}

/// The fragments of a line from `from` onwards, each as the range of its
/// bytes: the longest runs of bytes in which no white space starts.
pub open spec fn fragments_from(line: Seq<u8>, from: int) -> Seq<Range<usize>>
    decreases line.len() - from,
    via fragments_from_decreases
{
    if from < 0 || from >= line.len() {
        Seq::empty()
    } else if space_width(line, from) > 0 {
        fragments_from(line, from + space_width(line, from))
    } else {
        seq![Range { start: from as usize, end: fragment_end(line, from) as usize }]
            + fragments_from(line, fragment_end(line, from))
    }
}

#[via_fn]
proof fn fragments_from_decreases(line: Seq<u8>, from: int) {
    if 0 <= from < line.len() && space_width(line, from) == 0 {
        lemma_fragment_end(line, from + 1);
    }
}

/// A fragment ends at or behind the place it is asked from, and within the
/// line. No white space starts inside it, and it ends where white space
/// starts or the line ends.
pub proof fn lemma_fragment_end(line: Seq<u8>, from: int)
    requires
        0 <= from <= line.len(),
    ensures
        from <= fragment_end(line, from) <= line.len(),
        forall|i: int| from <= i < fragment_end(line, from) ==> space_width(line, i) == 0,
        fragment_end(line, from) == line.len() || space_width(line, fragment_end(line, from)) > 0,
    decreases line.len() - from,
{
    if from < line.len() && space_width(line, from) == 0 {
        lemma_fragment_end(line, from + 1);
    }
}

/// The fragments of a whole line.
pub open spec fn fragments(line: Seq<u8>) -> Seq<Range<usize>> {
    fragments_from(line, 0)
}

/// The number of bytes of the white-space character that starts at `at`,
/// or zero where none starts.
pub fn space_width_at(line: &[u8], at: usize) -> (width: usize)
    ensures
        width == space_width(line@, at as int),
        at + width <= line@.len() || width == 0,
{
    if at >= line.len() {
        return 0;
    }
    let a = line[at];
    if (0x09 <= a && a <= 0x0d) || a == 0x20 {
        return 1;
    }
    if line.len() - at > 1 {
        let b = line[at + 1];
        if a == 0xc2 && (b == 0x85 || b == 0xa0) {
            return 2;
        }
        if line.len() - at > 2 {
            let c = line[at + 2];
            let wide = (a == 0xe1 && b == 0x9a && c == 0x80) || (a == 0xe2 && b == 0x80 && ((0x80
                <= c && c <= 0x8a) || c == 0xa8 || c == 0xa9 || c == 0xaf)) || (a == 0xe2 && b
                == 0x81 && c == 0x9f) || (a == 0xe3 && b == 0x80 && c == 0x80);
            if wide {
                return 3;
            }
        }
    }
    0
}

/// Splits a line at white space into the ranges of its fragments.
pub fn split_whitespace(line: &[u8]) -> (found: Vec<Range<usize>>)
    ensures
        found@ == fragments(line@),
        forall|i: int|
            0 <= i < found@.len() ==> (#[trigger] found@[i]).start < found@[i].end <= line@.len(),
{
    let mut found: Vec<Range<usize>> = Vec::new();
    let mut at: usize = 0;
    while at < line.len()
        invariant
            at <= line@.len(),
            fragments(line@) == found@ + fragments_from(line@, at as int),
            forall|i: int|
                0 <= i < found@.len() ==> (#[trigger] found@[i]).start < found@[i].end
                    <= line@.len(),
        decreases line@.len() - at,
    {
        let width = space_width_at(line, at);
        if width > 0 {
            at += width;
        } else {
            let start = at;
            at += 1;
            while at < line.len() && space_width_at(line, at) == 0
                invariant
                    start < at <= line@.len(),
                    fragment_end(line@, start as int) == fragment_end(line@, at as int),
                decreases line@.len() - at,
            {
                at += 1;
            }
            proof {
                lemma_fragment_end(line@, start as int);
                assert(fragment_end(line@, at as int) == at);
                assert(found@.push(Range { start, end: at }) + fragments_from(line@, at as int)
                    =~= found@ + (seq![Range { start, end: at }] + fragments_from(
                    line@,
                    at as int,
                )));
            }
            found.push(Range { start, end: at });
        }
    }
    assert(fragments_from(line@, at as int) =~= Seq::<Range<usize>>::empty());
    assert(found@ + Seq::<Range<usize>>::empty() =~= found@);
    found
}

/// Where `sub` starts within `slice`, both given as ranges of bytes of one
/// text: the distance of their starts, if `sub` starts inside `slice` or at
/// its end.
pub fn subslice_offset(slice: &Range<usize>, sub: &Range<usize>) -> (offset: Option<usize>)
    ensures
        offset == if slice.start <= sub.start <= slice.end {
            Some((sub.start - slice.start) as usize)
        } else {
            None
        },
{
    if sub.start < slice.start || sub.start > slice.end {
        None
    } else {
        Some(sub.start - slice.start)
    }
}

/// A complaint about a fragment, moved to where the fragment stands in its
/// line.
pub open spec fn moved(r: Result<TokenView, TokenError>, offset: int) -> Result<
    TokenView,
    TokenError,
> {
    match r {
        Ok(token) => Ok(token),
        Err(e) => Err(complaint(e.message, e.span.start + offset, e.span.end + offset)),
    }
}

/// What the fragment of a line in the given range means, with the span of
/// a complaint counted from the start of the line.
pub open spec fn token_at(line: Seq<u8>, fragment: Range<usize>) -> Result<TokenView, TokenError> {
    moved(
        token_of(line.subrange(fragment.start as int, fragment.end as int)),
        fragment.start as int,
    )
}

/// What a line means: the meaning of each of its fragments, from left to
/// right.
pub open spec fn lex_spec(line: Seq<u8>) -> Seq<Result<TokenView, TokenError>> {
    Seq::new(fragments(line).len(), |i: int| token_at(line, fragments(line)[i]))
}

/// A complaint about a fragment lies within the fragment.
pub proof fn lemma_token_span(text: Seq<u8>)
    requires
        text.len() <= usize::MAX,
    ensures
        token_of(text) matches Err(e) ==> e.span.start <= e.span.end <= text.len(),
{
}

/// What reading a line gave, with each token seen as its view.
pub open spec fn outcomes_view(outcomes: Seq<Result<Token, TokenError>>) -> Seq<
    Result<TokenView, TokenError>,
> {
    Seq::new(outcomes.len(), |i: int| outcome_view(outcomes[i]))
}

impl Token {
    /// Splits a line at white space and reads each fragment as a token.
    /// The span of a complaint counts in bytes from the start of the line.
    pub fn lex(from: &str) -> (outcomes: Vec<Result<Token, TokenError>>)
        ensures
            outcomes_view(outcomes@) == lex_spec(from.spec_bytes()),
    {
        let line = from.as_bytes();
        let whole = Range { start: 0, end: line.len() };
        let found = split_whitespace(line);
        let mut outcomes: Vec<Result<Token, TokenError>> = Vec::new();
        let mut at: usize = 0;
        while at < found.len()
            invariant
                at <= found@.len(),
                whole.start == 0,
                whole.end == line@.len(),
                found@ == fragments(line@),
                forall|i: int|
                    0 <= i < found@.len() ==> (#[trigger] found@[i]).start < found@[i].end
                        <= line@.len(),
                outcomes@.len() == at,
                forall|i: int|
                    0 <= i < at ==> outcome_view(#[trigger] outcomes@[i]) == token_at(
                        line@,
                        found@[i],
                    ),
            decreases found@.len() - at,
        {
            let start = found[at].start;
            let end = found[at].end;
            let fragment = Range { start, end };
            assert(fragment == found@[at as int]);
            let offset = subslice_offset(&whole, &fragment).unwrap();
            let text = slice_subrange(line, start, end);
            proof {
                lemma_token_span(text@);
            }
            let outcome = match Token::from_bytes(text) {
                Ok(token) => Ok(token),
                Err(e) => Err(
                    TokenError {
                        message: e.message,
                        span: Range { start: e.span.start + offset, end: e.span.end + offset },
                    },
                ),
            };
            outcomes.push(outcome);
            at += 1;
        }
        assert(outcomes_view(outcomes@) =~= lex_spec(line@));
        outcomes
    }
}

/// The fragments of a line lie within it, none is empty, and each ends
/// before the next one starts.
pub proof fn lemma_fragments_ordered(line: Seq<u8>, from: int)
    requires
        0 <= from,
        line.len() <= usize::MAX,
    ensures
        forall|i: int|
            0 <= i < fragments_from(line, from).len() ==> from <= (#[trigger] fragments_from(
                line,
                from,
            )[i]).start < fragments_from(line, from)[i].end <= line.len(),
        forall|i: int, j: int|
            0 <= i < j < fragments_from(line, from).len() ==> (#[trigger] fragments_from(
                line,
                from,
            )[i]).end <= (#[trigger] fragments_from(line, from)[j]).start,
    decreases line.len() - from,
{
    if from < line.len() {
        let width = space_width(line, from);
        if width > 0 {
            lemma_fragments_ordered(line, from + width);
            assert(fragments_from(line, from) == fragments_from(line, from + width));
        } else {
            let end = fragment_end(line, from);
            lemma_fragment_end(line, from + 1);
            lemma_fragments_ordered(line, end);
            let rest = fragments_from(line, end);
            let all = fragments_from(line, from);
            assert(all[0] == Range { start: from as usize, end: end as usize });
            assert forall|i: int| 1 <= i < all.len() implies all[i] == rest[i - 1] by {}
            assert forall|i: int| 0 <= i < all.len() implies from <= (#[trigger] all[i]).start
                < all[i].end <= line.len() by {
                if i > 0 {
                    assert(all[i] == rest[i - 1]);
                }
            }
            assert forall|i: int, j: int| 0 <= i < j < all.len() implies (#[trigger] all[i]).end
                <= (#[trigger] all[j]).start by {
                assert(all[j] == rest[j - 1]);
                if i > 0 {
                    assert(all[i] == rest[i - 1]);
                }
            }
        }
    }
}

/// A complaint about a line lies within the fragment that it is about.
pub proof fn lemma_lex_spans(line: Seq<u8>, at: int)
    requires
        line.len() <= usize::MAX,
        0 <= at < fragments(line).len(),
    ensures
        lex_spec(line)[at] matches Err(e) ==> fragments(line)[at].start <= e.span.start
            <= e.span.end <= fragments(line)[at].end,
{
    lemma_fragments_ordered(line, 0);
    let fragment = fragments(line)[at];
    lemma_token_span(line.subrange(fragment.start as int, fragment.end as int));
}

} // verus!
