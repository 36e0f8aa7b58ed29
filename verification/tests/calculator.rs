use rpn_calc::{Answer, Calculator, Integer, Message, Rational, Request, TokenError};

fn value_of(i: &Integer) -> i128 {
    let text = String::from_utf8(i.to_hex()).unwrap();
    i128::from_str_radix(&text, 16).unwrap()
}

fn integer(v: i128) -> Integer {
    Integer::from_bytes_radix(format!("{}", v).as_bytes(), 10).unwrap()
}

fn rational(n: i128, d: i128) -> Rational {
    Rational::from_parts(integer(n), integer(d)).unwrap()
}

fn parts(r: &Rational) -> (i128, i128) {
    (value_of(r.numerator()), value_of(r.denominator()))
}

fn gcd(a: i128, b: i128) -> i128 {
    if b == 0 {
        a.abs()
    } else {
        gcd(b, a % b)
    }
}

fn lowest_terms(n: i128, d: i128) -> (i128, i128) {
    let g = gcd(n, d);
    let (n, d) = (n / g, d / g);
    if d < 0 {
        (-n, -d)
    } else {
        (n, d)
    }
}

fn rounded(n: i128, d: i128) -> i128 {
    if n == 0 {
        return 0;
    }
    let sign = if (n < 0) == (d < 0) { 1 } else { -1 };
    (2 * n + sign * d) / (2 * d)
}

/// Exact arithmetic on small numbers, for the requests of the calculator.
fn perform(request: Request) -> Answer {
    match request {
        Request::Add(l, r) => {
            let ((a, b), (c, d)) = (parts(&l), parts(&r));
            Answer::Rational(rational(a * d + c * b, b * d))
        }
        Request::Subtract(l, r) => {
            let ((a, b), (c, d)) = (parts(&l), parts(&r));
            Answer::Rational(rational(a * d - c * b, b * d))
        }
        Request::Multiply(l, r) => {
            let ((a, b), (c, d)) = (parts(&l), parts(&r));
            Answer::Rational(rational(a * c, b * d))
        }
        Request::Divide(l, r) => {
            let ((a, b), (c, d)) = (parts(&l), parts(&r));
            assert_ne!(c, 0, "a zero divisor was handed out");
            Answer::Rational(rational(a * d, b * c))
        }
        Request::Round(v) => {
            let (n, d) = parts(&v);
            Answer::Integer(integer(rounded(n, d)))
        }
        Request::BitAnd(l, r) => Answer::Integer(integer(value_of(&l) & value_of(&r))),
        Request::BitOr(l, r) => Answer::Integer(integer(value_of(&l) | value_of(&r))),
        Request::Normalize(v) => {
            let (n, d) = parts(&v);
            let (n, d) = lowest_terms(n, d);
            Answer::Rational(rational(n, d))
        }
    }
}

fn evaluate(calculator: &mut Calculator, line: &str) -> Result<(), TokenError> {
    calculator.parse(line)?;
    while let Some(request) = calculator.request() {
        calculator.resume(perform(request))?;
    }
    Ok(())
}

fn stack_of(calculator: &Calculator) -> Vec<(i128, i128)> {
    calculator.stack().iter().map(parts).collect()
}

fn after(lines: &[&str]) -> Calculator {
    let mut calculator = Calculator::new();
    for line in lines {
        evaluate(&mut calculator, line).unwrap();
    }
    calculator
}

#[test]
fn division_by_zero_gives_zero() {
    let calculator = after(&["4 0 /"]);
    assert_eq!(stack_of(&calculator), vec![(0, 1)]);
}

#[test]
fn division_by_zero_needs_no_outside_work_for_the_quotient() {
    let mut calculator = Calculator::new();
    calculator.parse("4 0 /").unwrap();
    match calculator.request() {
        Some(Request::Normalize(v)) => assert_eq!(parts(&v), (0, 1)),
        other => panic!("unexpected request: {:?}", other),
    }
}

#[test]
fn hexadecimal_and() {
    let calculator = after(&["0xFF 0x1 &"]);
    assert_eq!(stack_of(&calculator), vec![(1, 1)]);
}

#[test]
fn binary_or() {
    let calculator = after(&["0b101 0b010 |"]);
    assert_eq!(stack_of(&calculator), vec![(7, 1)]);
}

#[test]
fn duplicate_then_drop() {
    let calculator = after(&["5 < !"]);
    assert_eq!(stack_of(&calculator), vec![(5, 1)]);
    let calculator = after(&["5 <"]);
    assert_eq!(stack_of(&calculator), vec![(5, 1), (5, 1)]);
}

#[test]
fn clear_all_empties_any_stack() {
    let mut calculator = after(&["1 2 3", "4 5 /"]);
    assert_eq!(calculator.stack().len(), 4);
    evaluate(&mut calculator, "%").unwrap();
    assert!(calculator.stack().is_empty());
    evaluate(&mut calculator, "%").unwrap();
    assert!(calculator.stack().is_empty());
    let calculator = after(&["1 2 + % 7"]);
    assert_eq!(stack_of(&calculator), vec![(7, 1)]);
}

#[test]
fn underflow_is_refused() {
    let mut calculator = Calculator::new();
    let e = evaluate(&mut calculator, "+").unwrap_err();
    assert_eq!(e.message, Message::StackExhaustion);
    assert_eq!(e.span, 0..1);
    assert!(calculator.stack().is_empty());
    let e = evaluate(&mut calculator, "5 + +").unwrap_err();
    assert_eq!(e.message, Message::StackExhaustion);
    assert_eq!(e.span, 0..5);
    assert!(calculator.stack().is_empty());
    let e = evaluate(&mut calculator, "1 !  !").unwrap_err();
    assert_eq!(e.message, Message::StackExhaustion);
    assert_eq!(e.span, 0..6);
}

#[test]
fn refused_line_changes_nothing() {
    let mut calculator = after(&["1 2"]);
    let e = evaluate(&mut calculator, "7 8 + $ 9").unwrap_err();
    assert_eq!(e.message, Message::UnexpectedToken);
    assert_eq!(e.span, 6..7);
    assert_eq!(stack_of(&calculator), vec![(1, 1), (2, 1)]);
    let e = evaluate(&mut calculator, "+ + 3 % 4 !  ! !").unwrap_err();
    assert_eq!(e.message, Message::StackExhaustion);
    assert_eq!(stack_of(&calculator), vec![(1, 1), (2, 1)]);
    assert!(calculator.request().is_none());
    evaluate(&mut calculator, "+").unwrap();
    assert_eq!(stack_of(&calculator), vec![(3, 1)]);
}

#[test]
fn first_complaint_of_a_line_is_reported() {
    let mut calculator = Calculator::new();
    let e = evaluate(&mut calculator, "1 +x 0xq").unwrap_err();
    assert_eq!(e.message, Message::UnexpectedTrailingCharacters);
    assert_eq!(e.span, 3..4);
}

#[test]
fn depth_follows_numbers_and_operators() {
    let mut calculator = after(&["9"]);
    evaluate(&mut calculator, "1 2 3 + *").unwrap();
    assert_eq!(calculator.stack().len(), 1 + 3 - 2);
    assert_eq!(stack_of(&calculator), vec![(9, 1), (5, 1)]);
    evaluate(&mut calculator, "4 - 6 & 3 | 2 / 5 ^").unwrap();
    assert_eq!(calculator.stack().len(), 2 + 5 - 5);
}

#[test]
fn arithmetic_takes_the_left_operand_first() {
    assert_eq!(stack_of(&after(&["1 2 +"])), vec![(3, 1)]);
    assert_eq!(stack_of(&after(&["7 2 -"])), vec![(5, 1)]);
    assert_eq!(stack_of(&after(&["2 7 -"])), vec![(-5, 1)]);
    assert_eq!(stack_of(&after(&["3 4 *"])), vec![(12, 1)]);
    assert_eq!(stack_of(&after(&["1 2 /"])), vec![(1, 2)]);
    assert_eq!(stack_of(&after(&["6 4 /"])), vec![(3, 2)]);
    assert_eq!(stack_of(&after(&["1 2 / 1 3 / +"])), vec![(5, 6)]);
}

#[test]
fn power_operator_divides() {
    assert_eq!(stack_of(&after(&["2 3 ^"])), vec![(2, 3)]);
    assert_eq!(stack_of(&after(&["8 2 ^"])), vec![(4, 1)]);
    assert_eq!(stack_of(&after(&["4 0 ^"])), vec![(0, 1)]);
}

#[test]
fn bit_operators_round_first() {
    assert_eq!(stack_of(&after(&["7 2 / 1 &"])), vec![(0, 1)]);
    assert_eq!(stack_of(&after(&["5 2 / 1 &"])), vec![(1, 1)]);
    assert_eq!(stack_of(&after(&["5 2 / 4 |"])), vec![(7, 1)]);
    assert_eq!(stack_of(&after(&["12 10 &"])), vec![(8, 1)]);
    assert_eq!(stack_of(&after(&["12 10 |"])), vec![(14, 1)]);
}

#[test]
fn requests_name_the_operands_in_order() {
    let mut calculator = Calculator::new();
    calculator.parse("10 3 -").unwrap();
    match calculator.request() {
        Some(Request::Subtract(l, r)) => {
            assert_eq!(parts(&l), (10, 1));
            assert_eq!(parts(&r), (3, 1));
        }
        other => panic!("unexpected request: {:?}", other),
    }
    assert!(calculator.stack().is_empty());
    calculator.resume(Answer::Rational(rational(7, 1))).unwrap();
    assert!(calculator.stack().is_empty());
    match calculator.request() {
        Some(Request::Normalize(v)) => assert_eq!(parts(&v), (7, 1)),
        other => panic!("unexpected request: {:?}", other),
    }
    calculator.resume(Answer::Rational(rational(7, 1))).unwrap();
    assert!(calculator.request().is_none());
    assert_eq!(stack_of(&calculator), vec![(7, 1)]);
}

#[test]
fn stack_changes_when_the_line_is_done() {
    let mut calculator = after(&["8 9"]);
    calculator.parse("1 2 +").unwrap();
    assert_eq!(stack_of(&calculator), vec![(8, 1), (9, 1)]);
    calculator.resume(Answer::Rational(rational(3, 1))).unwrap();
    assert_eq!(stack_of(&calculator), vec![(8, 1), (9, 1)]);
    calculator.resume(Answer::Rational(rational(8, 1))).unwrap();
    calculator.resume(Answer::Rational(rational(9, 1))).unwrap();
    assert_eq!(stack_of(&calculator), vec![(8, 1), (9, 1)]);
    calculator.resume(Answer::Rational(rational(3, 1))).unwrap();
    assert_eq!(stack_of(&calculator), vec![(8, 1), (9, 1), (3, 1)]);
    assert!(calculator.request().is_none());
}

#[test]
fn bit_operator_asks_three_times() {
    let mut calculator = Calculator::new();
    calculator.parse("6 3 &").unwrap();
    match calculator.request() {
        Some(Request::Round(v)) => assert_eq!(parts(&v), (6, 1)),
        other => panic!("unexpected request: {:?}", other),
    }
    calculator.resume(Answer::Integer(integer(6))).unwrap();
    match calculator.request() {
        Some(Request::Round(v)) => assert_eq!(parts(&v), (3, 1)),
        other => panic!("unexpected request: {:?}", other),
    }
    calculator.resume(Answer::Integer(integer(3))).unwrap();
    match calculator.request() {
        Some(Request::BitAnd(l, r)) => {
            assert_eq!(value_of(&l), 6);
            assert_eq!(value_of(&r), 3);
        }
        other => panic!("unexpected request: {:?}", other),
    }
    calculator.resume(Answer::Integer(integer(2))).unwrap();
    match calculator.request() {
        Some(Request::Normalize(v)) => assert_eq!(parts(&v), (2, 1)),
        other => panic!("unexpected request: {:?}", other),
    }
    calculator.resume(Answer::Rational(rational(2, 1))).unwrap();
    assert_eq!(stack_of(&calculator), vec![(2, 1)]);
}

#[test]
fn every_entry_is_brought_to_lowest_terms() {
    let mut calculator = Calculator::new();
    calculator.parse("1 2 3").unwrap();
    let mut asked = Vec::new();
    while let Some(request) = calculator.request() {
        match request {
            Request::Normalize(v) => {
                asked.push(parts(&v));
                calculator.resume(Answer::Rational(rational(10 * parts(&v).0, 1))).unwrap();
            }
            other => panic!("unexpected request: {:?}", other),
        }
    }
    assert_eq!(asked, vec![(1, 1), (2, 1), (3, 1)]);
    assert_eq!(stack_of(&calculator), vec![(10, 1), (20, 1), (30, 1)]);
}

#[test]
fn answer_of_the_wrong_kind_is_left_aside() {
    let mut calculator = Calculator::new();
    calculator.parse("1 2 +").unwrap();
    calculator.resume(Answer::Integer(integer(3))).unwrap();
    assert!(matches!(calculator.request(), Some(Request::Add(_, _))));
    calculator.resume(Answer::Rational(rational(3, 1))).unwrap();
    calculator.resume(Answer::Integer(integer(4))).unwrap();
    assert!(matches!(calculator.request(), Some(Request::Normalize(_))));
    calculator.resume(Answer::Rational(rational(3, 1))).unwrap();
    assert!(calculator.request().is_none());
    calculator.resume(Answer::Rational(rational(9, 1))).unwrap();
    calculator.resume(Answer::Integer(integer(9))).unwrap();
    assert_eq!(stack_of(&calculator), vec![(3, 1)]);
    calculator.parse("6 3 &").unwrap();
    calculator.resume(Answer::Rational(rational(1, 1))).unwrap();
    assert!(matches!(calculator.request(), Some(Request::Round(_))));
    assert_eq!(stack_of(&calculator), vec![(3, 1)]);
}

#[test]
fn new_line_takes_the_place_of_one_that_waits() {
    let mut calculator = after(&["7"]);
    calculator.parse("1 2 +").unwrap();
    assert!(matches!(calculator.request(), Some(Request::Add(_, _))));
    evaluate(&mut calculator, "3 4 *").unwrap();
    assert_eq!(stack_of(&calculator), vec![(7, 1), (12, 1)]);
    calculator.parse("1 2 +").unwrap();
    evaluate(&mut calculator, "%").unwrap();
    assert!(calculator.stack().is_empty());
    assert!(calculator.request().is_none());
}

#[test]
fn refused_line_leaves_a_waiting_line_alone() {
    let mut calculator = after(&["7"]);
    calculator.parse("1 2 +").unwrap();
    let e = calculator.parse("3 $").unwrap_err();
    assert_eq!(e.message, Message::UnexpectedToken);
    let e = calculator.parse("! !").unwrap_err();
    assert_eq!(e.message, Message::StackExhaustion);
    assert_eq!(e.span, 0..3);
    match calculator.request() {
        Some(Request::Add(l, r)) => {
            assert_eq!(parts(&l), (1, 1));
            assert_eq!(parts(&r), (2, 1));
        }
        other => panic!("unexpected request: {:?}", other),
    }
    assert_eq!(stack_of(&calculator), vec![(7, 1)]);
}

#[test]
fn duplicate_on_an_empty_stack_ends_the_line() {
    let mut calculator = Calculator::new();
    let e = evaluate(&mut calculator, "<").unwrap_err();
    assert_eq!(e.message, Message::DroppedStack);
    assert_eq!(e.span, 0..1);
    assert!(calculator.stack().is_empty());
    assert!(calculator.request().is_none());
    let mut calculator = after(&["1 2"]);
    let e = evaluate(&mut calculator, "+ ! < 5").unwrap_err();
    assert_eq!(e.message, Message::DroppedStack);
    assert_eq!(e.span, 0..7);
    assert_eq!(stack_of(&calculator), vec![(1, 1), (2, 1)]);
    assert!(calculator.request().is_none());
    evaluate(&mut calculator, "5").unwrap();
    assert_eq!(stack_of(&calculator), vec![(1, 1), (2, 1), (5, 1)]);
}

#[test]
fn failed_line_leaves_the_stack_as_it_was() {
    let mut calculator = after(&["1"]);
    let e = calculator.parse("% <").unwrap_err();
    assert_eq!(e.message, Message::DroppedStack);
    assert_eq!(e.span, 0..3);
    assert_eq!(stack_of(&calculator), vec![(1, 1)]);
    calculator.parse("2 + % <").unwrap();
    assert_eq!(stack_of(&calculator), vec![(1, 1)]);
    let e = calculator.resume(Answer::Rational(rational(3, 1))).unwrap_err();
    assert_eq!(e.message, Message::DroppedStack);
    assert_eq!(e.span, 0..7);
    assert_eq!(stack_of(&calculator), vec![(1, 1)]);
    assert!(calculator.request().is_none());
}

#[test]
fn stack_lasts_from_line_to_line() {
    let mut calculator = Calculator::default();
    evaluate(&mut calculator, "3").unwrap();
    evaluate(&mut calculator, "4").unwrap();
    evaluate(&mut calculator, "").unwrap();
    evaluate(&mut calculator, "*").unwrap();
    assert_eq!(stack_of(&calculator), vec![(12, 1)]);
}

#[test]
fn numbers_beyond_machine_words_pass_through() {
    let mut calculator = Calculator::new();
    calculator.parse("340282366920938463463374607431768211456 <").unwrap();
    while let Some(request) = calculator.request() {
        match request {
            Request::Normalize(v) => calculator.resume(Answer::Rational(v)).unwrap(),
            other => panic!("unexpected request: {:?}", other),
        }
    }
    let stack = calculator.stack();
    assert_eq!(stack.len(), 2);
    assert_eq!(
        String::from_utf8(stack[0].numerator().to_hex()).unwrap(),
        "100000000000000000000000000000000"
    );
    assert_eq!(stack[0].numerator(), stack[1].numerator());
}
