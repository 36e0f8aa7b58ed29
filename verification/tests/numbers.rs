use rpn_calc::number::digit_of;
use rpn_calc::{Integer, ParseIntError, Rational};

fn hex(i: &Integer) -> String {
    String::from_utf8(i.to_hex()).unwrap()
}

fn read(text: &str, radix: u8) -> Integer {
    Integer::from_bytes_radix(text.as_bytes(), radix).unwrap()
}

#[test]
fn digits_of_either_case() {
    assert_eq!(digit_of(b'0'), Some(0));
    assert_eq!(digit_of(b'9'), Some(9));
    assert_eq!(digit_of(b'a'), Some(10));
    assert_eq!(digit_of(b'F'), Some(15));
    assert_eq!(digit_of(b'z'), Some(35));
    assert_eq!(digit_of(b'Z'), Some(35));
    assert_eq!(digit_of(b'/'), None);
    assert_eq!(digit_of(b':'), None);
    assert_eq!(digit_of(b'@'), None);
    assert_eq!(digit_of(b'['), None);
    assert_eq!(digit_of(b'`'), None);
    assert_eq!(digit_of(b'{'), None);
}

#[test]
fn numerals_are_read_in_their_radix() {
    assert_eq!(hex(&read("255", 10)), "ff");
    assert_eq!(hex(&read("ff", 16)), "ff");
    assert_eq!(hex(&read("FF", 16)), "ff");
    assert_eq!(hex(&read("11111111", 2)), "ff");
    assert_eq!(hex(&read("-255", 10)), "-ff");
    assert_eq!(hex(&read("z", 36)), "23");
    assert_eq!(hex(&read("16", 10)), "10");
    assert_eq!(hex(&read("4096", 10)), "1000");
}

#[test]
fn leading_zeros_and_signed_zero() {
    assert_eq!(hex(&read("000", 10)), "0");
    assert_eq!(hex(&read("-0", 10)), "0");
    assert_eq!(hex(&read("0012", 10)), "c");
    assert!(read("-0", 10).is_zero());
    assert!(!read("-0", 10).is_negative());
    assert_eq!(read("-0", 16), Integer::zero());
}

#[test]
fn numbers_beyond_machine_words() {
    assert_eq!(
        hex(&read("18446744073709551616", 10)),
        "10000000000000000"
    );
    assert_eq!(
        hex(&read("340282366920938463463374607431768211456", 10)),
        "100000000000000000000000000000000"
    );
    assert_eq!(
        hex(&read("-123456789012345678901234567890", 10)),
        "-18ee90ff6c373e0ee4e3f0ad2"
    );
}

#[test]
fn text_that_is_no_numeral() {
    assert_eq!(
        Integer::from_bytes_radix(b"", 10),
        Err(ParseIntError::Empty)
    );
    assert_eq!(
        Integer::from_bytes_radix(b"-", 10),
        Err(ParseIntError::Empty)
    );
    assert_eq!(
        Integer::from_bytes_radix(b"12a", 10),
        Err(ParseIntError::InvalidDigit)
    );
    assert_eq!(
        Integer::from_bytes_radix(b"2", 2),
        Err(ParseIntError::InvalidDigit)
    );
    assert_eq!(
        Integer::from_bytes_radix(b"+5", 10),
        Err(ParseIntError::InvalidDigit)
    );
    assert_eq!(
        Integer::from_bytes_radix(b"--5", 10),
        Err(ParseIntError::InvalidDigit)
    );
    assert_eq!(
        Integer::from_bytes_radix(b"00x", 16),
        Err(ParseIntError::InvalidDigit)
    );
}

#[test]
fn writing_out_and_reading_back() {
    for text in ["0", "1", "-1", "ff", "-abcdef0123456789", "10000000000000000000000001"] {
        let number = read(text, 16);
        assert_eq!(hex(&number), text);
        assert_eq!(read(&hex(&number), 16), number);
    }
}

#[test]
fn same_number_same_data() {
    assert_eq!(read("255", 10), read("0xff".trim_start_matches("0x"), 16));
    assert_eq!(read("1", 10), Integer::one());
    assert_ne!(read("1", 10), read("-1", 10));
    assert_eq!(read("255", 10).digits(), &vec![15u8, 15u8]);
    assert_eq!(read("256", 10).digits(), &vec![0u8, 0u8, 1u8]);
    assert!(Integer::zero().digits().is_empty());
}

#[test]
fn signs() {
    assert!(read("-3", 10).is_negative());
    assert!(!read("3", 10).is_negative());
    assert!(!read("-3", 10).is_zero());
    assert!(Integer::zero().is_zero());
    assert!(!Integer::one().is_zero());
}

#[test]
fn fractions_from_parts() {
    let half = Rational::from_parts(read("1", 10), read("2", 10)).unwrap();
    assert_eq!(half.numerator(), &read("1", 10));
    assert_eq!(half.denominator(), &read("2", 10));
    assert!(!half.is_zero());
    assert!(Rational::from_parts(read("1", 10), Integer::zero()).is_none());
    let unreduced = Rational::from_parts(read("0", 10), read("-4", 10)).unwrap();
    assert!(unreduced.is_zero());
    assert_eq!(unreduced.denominator(), &read("-4", 10));
}

#[test]
fn fractions_from_whole_numbers() {
    let five = Rational::from_integer(read("5", 10));
    assert_eq!(five.numerator(), &read("5", 10));
    assert_eq!(five.denominator(), &Integer::one());
    let zero = Rational::zero();
    assert!(zero.is_zero());
    assert_eq!(zero.denominator(), &Integer::one());
    let copy = five.clone();
    assert_eq!(copy.numerator(), five.numerator());
    assert_eq!(copy.denominator(), five.denominator());
}
