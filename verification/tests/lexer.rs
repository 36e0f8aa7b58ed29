use rpn_calc::token::{space_width_at, split_whitespace, subslice_offset};
use rpn_calc::{Integer, Message, ParseIntError, Token, TokenError};
use std::str::FromStr;

fn value_of(i: &Integer) -> i128 {
    let text = String::from_utf8(i.to_hex()).unwrap();
    i128::from_str_radix(&text, 16).unwrap()
}

fn number_in(token: &Result<Token, TokenError>) -> (i128, i128) {
    match token {
        Ok(Token::Number(n)) => (value_of(n.numerator()), value_of(n.denominator())),
        other => panic!("not a number: {:?}", other),
    }
}

fn error_in(token: &Result<Token, TokenError>) -> (Message, std::ops::Range<usize>) {
    match token {
        Err(e) => (e.message, e.span.clone()),
        Ok(t) => panic!("a token was accepted: {:?}", t),
    }
}

#[test]
fn span_of_bad_symbol() {
    let outcomes = Token::lex("3 $ 5");
    assert_eq!(outcomes.len(), 3);
    assert_eq!(number_in(&outcomes[0]), (3, 1));
    assert_eq!(error_in(&outcomes[1]), (Message::UnexpectedToken, 2..3));
    assert_eq!(number_in(&outcomes[2]), (5, 1));
}

#[test]
fn every_operator_is_read() {
    let outcomes = Token::lex("% ! < ^ / * + - | &");
    assert_eq!(outcomes.len(), 10);
    assert!(matches!(outcomes[0], Ok(Token::Empty)));
    assert!(matches!(outcomes[1], Ok(Token::Drop)));
    assert!(matches!(outcomes[2], Ok(Token::Duplicate)));
    assert!(matches!(outcomes[3], Ok(Token::Exp)));
    assert!(matches!(outcomes[4], Ok(Token::Divide)));
    assert!(matches!(outcomes[5], Ok(Token::Times)));
    assert!(matches!(outcomes[6], Ok(Token::Plus)));
    assert!(matches!(outcomes[7], Ok(Token::Minus)));
    assert!(matches!(outcomes[8], Ok(Token::Or)));
    assert!(matches!(outcomes[9], Ok(Token::And)));
}

#[test]
fn numbers_in_three_radices() {
    let outcomes = Token::lex("0xFF 0b101 42 0 007 0xff");
    assert_eq!(outcomes.len(), 6);
    assert_eq!(number_in(&outcomes[0]), (255, 1));
    assert_eq!(number_in(&outcomes[1]), (5, 1));
    assert_eq!(number_in(&outcomes[2]), (42, 1));
    assert_eq!(number_in(&outcomes[3]), (0, 1));
    assert_eq!(number_in(&outcomes[4]), (7, 1));
    assert_eq!(number_in(&outcomes[5]), (255, 1));
}

#[test]
fn sign_behind_a_prefix_is_read() {
    let outcomes = Token::lex("0x-10 0b-0");
    assert_eq!(number_in(&outcomes[0]), (-16, 1));
    assert_eq!(number_in(&outcomes[1]), (0, 1));
}

#[test]
fn trailing_characters_are_marked() {
    let outcomes = Token::lex("1 +5 2");
    assert_eq!(outcomes.len(), 3);
    assert_eq!(error_in(&outcomes[1]), (Message::UnexpectedTrailingCharacters, 3..4));
    let outcomes = Token::lex("--");
    assert_eq!(error_in(&outcomes[0]), (Message::UnexpectedTrailingCharacters, 1..2));
}

#[test]
fn bad_digits_are_marked_behind_the_prefix() {
    let outcomes = Token::lex("1 0xZZ");
    assert_eq!(
        error_in(&outcomes[1]),
        (Message::Numeral(ParseIntError::InvalidDigit), 4..6)
    );
    let outcomes = Token::lex("0b12");
    assert_eq!(
        error_in(&outcomes[0]),
        (Message::Numeral(ParseIntError::InvalidDigit), 2..4)
    );
    let outcomes = Token::lex("  12a");
    assert_eq!(
        error_in(&outcomes[0]),
        (Message::Numeral(ParseIntError::InvalidDigit), 2..5)
    );
}

#[test]
fn prefix_without_digits_is_empty() {
    let outcomes = Token::lex("0x");
    assert_eq!(error_in(&outcomes[0]), (Message::Numeral(ParseIntError::Empty), 2..2));
    let outcomes = Token::lex("7 0b-");
    assert_eq!(error_in(&outcomes[1]), (Message::Numeral(ParseIntError::Empty), 4..5));
}

#[test]
fn unknown_characters_are_marked_whole() {
    let outcomes = Token::lex("abc \u{e9}t\u{e9}");
    assert_eq!(error_in(&outcomes[0]), (Message::UnexpectedToken, 0..3));
    assert_eq!(error_in(&outcomes[1]), (Message::UnexpectedToken, 4..9));
}

#[test]
fn empty_fragment_is_refused() {
    match Token::from_str("") {
        Err(e) => {
            assert_eq!(e.message, Message::UnexpectedEmptyToken);
            assert_eq!(e.span, 0..0);
        }
        Ok(t) => panic!("a token was accepted: {:?}", t),
    }
}

#[test]
fn from_str_counts_from_the_fragment() {
    match Token::from_str("0xg") {
        Err(e) => assert_eq!(e.span, 2..3),
        Ok(t) => panic!("a token was accepted: {:?}", t),
    }
    assert!(matches!(Token::from_str("+"), Ok(Token::Plus)));
    assert!(matches!("!".parse::<Token>(), Ok(Token::Drop)));
    assert!(matches!(Token::from_bytes(b"^"), Ok(Token::Exp)));
}

#[test]
fn blank_lines_hold_no_token() {
    assert_eq!(Token::lex("").len(), 0);
    assert_eq!(Token::lex(" \t\r\n ").len(), 0);
}

#[test]
fn unicode_white_space_splits() {
    let line = "1\u{a0}2\u{2003}3\u{3000}4\u{85}5\u{1680}6\u{205f}7";
    let outcomes = Token::lex(line);
    assert_eq!(outcomes.len(), 7);
    for (i, outcome) in outcomes.iter().enumerate() {
        assert_eq!(number_in(outcome), (i as i128 + 1, 1));
    }
    let expected: Vec<&str> = line.split_whitespace().collect();
    let found = split_whitespace(line.as_bytes());
    assert_eq!(found.len(), expected.len());
    for (range, text) in found.iter().zip(expected.iter()) {
        assert_eq!(&line[range.clone()], *text);
    }
}

#[test]
fn white_space_agrees_with_the_standard_library() {
    for code in 0u32..0x3100 {
        if let Some(c) = char::from_u32(code) {
            let mut buffer = [0u8; 4];
            let text = c.encode_utf8(&mut buffer);
            let width = space_width_at(text.as_bytes(), 0);
            if c.is_whitespace() {
                assert_eq!(width, c.len_utf8(), "U+{:04X}", code);
            } else {
                assert_eq!(width, 0, "U+{:04X}", code);
            }
        }
    }
}

#[test]
fn fragments_are_longest_runs() {
    let found = split_whitespace(b"  ab  c d");
    assert_eq!(found, vec![2..4, 6..7, 8..9]);
    assert_eq!(space_width_at(b"a b", 1), 1);
    assert_eq!(space_width_at(b"a b", 0), 0);
    assert_eq!(space_width_at(b"a b", 3), 0);
}

#[test]
fn offset_of_a_subslice() {
    assert_eq!(subslice_offset(&(10..15), &(12..13)), Some(2));
    assert_eq!(subslice_offset(&(10..15), &(10..15)), Some(0));
    assert_eq!(subslice_offset(&(10..15), &(15..15)), Some(5));
    assert_eq!(subslice_offset(&(10..15), &(9..12)), None);
    assert_eq!(subslice_offset(&(10..15), &(16..17)), None);
}

#[test]
fn messages_in_words() {
    assert_eq!(
        Message::UnexpectedTrailingCharacters.text(),
        "Unexpected trailing characters"
    );
    assert_eq!(Message::UnexpectedEmptyToken.text(), "unexpected empty token");
    assert_eq!(Message::UnexpectedToken.text(), "unexpected token");
    assert_eq!(
        Message::Numeral(ParseIntError::Empty).text(),
        "cannot parse empty string"
    );
    assert_eq!(
        Message::Numeral(ParseIntError::InvalidDigit).text(),
        "invalid digit found in string"
    );
    assert_eq!(
        Message::StackExhaustion.text(),
        "Stack exhaustion would have occured during evaluation; aborting"
    );
    assert_eq!(
        Message::DroppedStack.text(),
        "Incomplete expression, dropped stack"
    );
    assert_eq!(ParseIntError::Empty.message(), "cannot parse empty string");
}
