//! Marks what is wrong in a line, for a terminal that shows colour.

use crate::token::{
    fragments, lemma_fragments_ordered, lemma_lex_spans, lex_spec, outcome_view, outcomes_view,
    Token, TokenError, TokenView,
};
use vstd::prelude::*;
use vstd::slice::slice_subrange;
use vstd::string::StringSliceAdditionalSpecFns;

verus! {

/// The escape sequence that sets the text colour to light red:
/// `ESC [ 3 8 ; 5 ; 9 m`.
pub open spec fn light_red() -> Seq<u8> {
    seq![0x1bu8, 0x5bu8, 0x33u8, 0x38u8, 0x3bu8, 0x35u8, 0x3bu8, 0x39u8, 0x6du8]
}

/// The escape sequence that sets the text colour back: `ESC [ 3 9 m`.
pub open spec fn reset() -> Seq<u8> {
    seq![0x1bu8, 0x5bu8, 0x33u8, 0x39u8, 0x6du8]
}

/// `termion::color::LightRed::fg_str`, as bytes. It returns the constant
/// text that selects colour 9 of the 256-colour palette as the foreground.
#[verifier::external_body]
fn light_red_code() -> (code: &'static [u8])
    ensures
        code@ == light_red(),
{
    termion::color::LightRed.fg_str().as_bytes()
}

/// `termion::color::Reset::fg_str`, as bytes. It returns the constant text
/// that selects the default foreground colour.
#[verifier::external_body]
fn reset_code() -> (code: &'static [u8])
    ensures
        code@ == reset(),
{
    termion::color::Reset.fg_str().as_bytes()
}

/// The line from `last` onwards, with what each complaint among the
/// outcomes is about set in light red.
pub open spec fn colorized_from(
    line: Seq<u8>,
    outcomes: Seq<Result<TokenView, TokenError>>,
    last: int,
) -> Seq<u8>
    decreases outcomes.len(),
{
    if outcomes.len() == 0 {
        line.subrange(last, line.len() as int)
    } else {
        match outcomes[0] {
            Ok(_) => colorized_from(line, outcomes.skip(1), last),
            Err(e) => line.subrange(last, e.span.start as int) + light_red() + line.subrange(
                e.span.start as int,
                e.span.end as int,
            ) + reset() + colorized_from(line, outcomes.skip(1), e.span.end as int),
        }
    }
}

/// A line with every part that is no token set in light red, and nothing
/// else changed.
pub open spec fn colorized(line: Seq<u8>) -> Seq<u8> {
    colorized_from(line, lex_spec(line), 0)
}

/// Sets every part of a line that is no token in light red. The result is
/// the text as bytes.
pub fn colorize(word: &str) -> (res: Vec<u8>)
    ensures
        res@ == colorized(word.spec_bytes()),
{
    let line = word.as_bytes();
    let outcomes = Token::lex(word);
    let ghost all = lex_spec(line@);
    let mut res: Vec<u8> = Vec::new();
    let mut last: usize = 0;
    let mut at: usize = 0;
    let line_len = line.len();
    proof {
        assert(all.skip(0) =~= all);
        lemma_fragments_ordered(line@, 0);
        assert(Seq::<u8>::empty() + colorized_from(line@, all, 0) =~= colorized_from(
            line@,
            all,
            0,
        ));
    }
    while at < outcomes.len()
        invariant
            line@ == word.spec_bytes(),
            all == lex_spec(line@),
            outcomes_view(outcomes@) == all,
            at <= outcomes@.len(),
            line_len == line@.len(),
            last <= line@.len(),
            at < all.len() ==> last <= fragments(line@)[at as int].start,
            colorized(line@) == res@ + colorized_from(line@, all.skip(at as int), last as int),
        decreases outcomes@.len() - at,
    {
        proof {
            let rest = all.skip(at as int);
            assert(rest[0] == all[at as int]);
            assert(rest.skip(1) =~= all.skip(at + 1));
            assert(all[at as int] == outcome_view(outcomes@[at as int]));
            lemma_lex_spans(line@, at as int);
            lemma_fragments_ordered(line@, 0);
        }
        match &outcomes[at] {
            Ok(_) => {},
            Err(e) => {
                let ghost before = res@;
                let start = e.span.start;
                let end = e.span.end;
                res.extend_from_slice(slice_subrange(line, last, start));
                res.extend_from_slice(light_red_code());
                res.extend_from_slice(slice_subrange(line, start, end));
                res.extend_from_slice(reset_code());
                proof {
                    let piece = line@.subrange(last as int, start as int) + light_red()
                        + line@.subrange(start as int, end as int) + reset();
                    assert(res@ =~= before + piece);
                    assert(before + (piece + colorized_from(
                        line@,
                        all.skip(at + 1),
                        end as int,
                    )) =~= (before + piece) + colorized_from(
                        line@,
                        all.skip(at + 1),
                        end as int,
                    ));
                }
                last = end;
            },
        }
        at += 1;
    }
    let ghost before = res@;
    res.extend_from_slice(slice_subrange(line, last, line_len));
    proof {
        assert(all.skip(at as int).len() == 0);
        assert(res@ =~= before + line@.subrange(last as int, line@.len() as int));
    }
    res
}

} // verus!
