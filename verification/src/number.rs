//! Whole numbers and fractions of any size.
//!
//! The calculator reads numbers, keeps them and hands them on, but it does
//! no arithmetic on them beyond what reading a numeral takes. A whole number
//! is kept as a sign and hexadecimal digits, in one canonical form, so that
//! two of them are the same data exactly when they are the same number.

use vstd::prelude::*;
use vstd::std_specs::cmp::PartialEqSpecImpl;

verus! {

/// Why a text is not a numeral.
#[derive(Clone, Copy, Debug, PartialEq, Eq, Structural)]
pub enum ParseIntError {
    /// No character stands where the digits belong.
    Empty,
    /// Some character is not a digit of the radix.
    InvalidDigit,
}

impl ParseIntError {
    /// The description of the failure, as a sequence of characters.
    pub open spec fn message_spec(self) -> Seq<char> {
        match self {
            ParseIntError::Empty => "cannot parse empty string"@,
            ParseIntError::InvalidDigit => "invalid digit found in string"@,
        }
    }

    /// The description of the failure.
    pub fn message(&self) -> (text: &'static str)
        ensures
            text@ == self.message_spec(),
    {
        match self {
            ParseIntError::Empty => "cannot parse empty string",
            ParseIntError::InvalidDigit => "invalid digit found in string",
        }
    }
}

/// The digit that an ASCII character stands for: `0`-`9`, then the letters
/// of either case from ten upwards.
pub open spec fn digit_value(c: u8) -> Option<u8> {
    if 0x30 <= c <= 0x39 {
        Some((c - 0x30) as u8)
    } else if 0x41 <= c <= 0x5a {
        Some((c - 0x41 + 10) as u8)
    } else if 0x61 <= c <= 0x7a {
        Some((c - 0x61 + 10) as u8)
    } else {
        None
    }
}

/// Whether `c` is a digit in the given radix.
pub open spec fn is_digit_of(c: u8, radix: u8) -> bool {
    digit_value(c) matches Some(d) && d < radix
}

/// The number that a row of digits denotes, most significant digit first.
pub open spec fn numeral_value(digits: Seq<u8>, radix: int) -> int
    decreases digits.len(),
{
    if digits.len() == 0 {
        0
    } else {
        numeral_value(digits.drop_last(), radix) * radix + digits.last() as int
    }
}

/// Whether a text opens with a minus sign.
pub open spec fn has_minus(text: Seq<u8>) -> bool {
    text.len() > 0 && text[0] == 0x2d
}

/// The text behind the sign, if there is one.
pub open spec fn unsigned_part(text: Seq<u8>) -> Seq<u8> {
    if has_minus(text) {
        text.skip(1)
    } else {
        text
    }
}

/// The digits that the characters of a text stand for.
pub open spec fn digit_values(text: Seq<u8>) -> Seq<u8> {
    Seq::new(text.len(), |i: int| digit_value(text[i]).unwrap_or(0))
}

/// A magnitude with its sign applied.
pub open spec fn signed(negative: bool, magnitude: int) -> int {
    if negative {
        -magnitude
    } else {
        magnitude
    }
}

/// What a text means as a numeral in the given radix: an optional minus
/// sign, then at least one digit and nothing else.
pub open spec fn parse_numeral(text: Seq<u8>, radix: u8) -> Result<int, ParseIntError> {
    let body = unsigned_part(text);
    if body.len() == 0 {
        Err(ParseIntError::Empty)
    } else if exists|i: int| 0 <= i < body.len() && !is_digit_of(#[trigger] body[i], radix) {
        Err(ParseIntError::InvalidDigit)
    } else {
        Ok(signed(has_minus(text), numeral_value(digit_values(body), radix as int)))
    }
}

/// Reads one character as a digit.
pub fn digit_of(c: u8) -> (d: Option<u8>)
    ensures
        d == digit_value(c),
{
    if 0x30 <= c && c <= 0x39 {
        Some(c - 0x30)
    } else if 0x41 <= c && c <= 0x5a {
        Some(c - 0x41 + 10)
    } else if 0x61 <= c && c <= 0x7a {
        Some(c - 0x61 + 10)
    } else {
        None
    }
}

/// Sixteen to the power of `n`.
pub open spec fn pow16(n: nat) -> int
    decreases n,
{
    if n == 0 {
        1
    } else {
        16 * pow16((n - 1) as nat)
    }
}

/// The number that hexadecimal digits denote, least significant digit
/// first.
pub open spec fn hex_value(digits: Seq<u8>) -> int
    decreases digits.len(),
{
    if digits.len() == 0 {
        0
    } else {
        digits[0] as int + 16 * hex_value(digits.skip(1))
    }
}

/// Hexadecimal digits in canonical form: each below sixteen, and the most
/// significant one, which stands last, not zero.
pub open spec fn is_canonical(digits: Seq<u8>) -> bool {
    &&& forall|i: int| 0 <= i < digits.len() ==> digits[i] < 16
    &&& digits.len() > 0 ==> digits.last() != 0
}

/// One more digit at the significant end adds that digit times its place.
pub proof fn lemma_hex_value_push(digits: Seq<u8>, top: u8)
    ensures
        hex_value(digits.push(top)) == hex_value(digits) + top * pow16(digits.len()),
    decreases digits.len(),
{
    if digits.len() == 0 {
        assert(digits.push(top).skip(1) =~= Seq::<u8>::empty());
        assert(hex_value(digits.push(top).skip(1)) == 0);
    } else {
        let rest = digits.skip(1);
        lemma_hex_value_push(rest, top);
        assert(digits.push(top).skip(1) =~= rest.push(top));
        assert(16 * (top * pow16(rest.len())) == top * pow16(digits.len())) by (nonlinear_arith)
            requires
                pow16(digits.len()) == 16 * pow16(rest.len()),
        ;
    }
}

/// Canonical digits denote zero only when there are none, and never a
/// negative number.
pub proof fn lemma_hex_value_positive(digits: Seq<u8>)
    requires
        is_canonical(digits),
    ensures
        hex_value(digits) >= 0,
        digits.len() > 0 ==> hex_value(digits) > 0,
    decreases digits.len(),
{
    if digits.len() > 1 {
        let rest = digits.skip(1);
        assert(rest.last() == digits.last());
        lemma_hex_value_positive(rest);
    } else if digits.len() == 1 {
        assert(hex_value(digits.skip(1)) == 0);
    }
}

/// Canonical digits are determined by the number that they denote.
pub proof fn lemma_hex_value_injective(a: Seq<u8>, b: Seq<u8>)
    requires
        is_canonical(a),
        is_canonical(b),
        hex_value(a) == hex_value(b),
    ensures
        a == b,
    decreases a.len(),
{
    lemma_hex_value_positive(a);
    lemma_hex_value_positive(b);
    if a.len() > 0 && b.len() > 0 {
        let ra = a.skip(1);
        let rb = b.skip(1);
        assert(is_canonical(ra)) by {
            if ra.len() > 0 {
                assert(ra.last() == a.last());
            }
        }
        assert(is_canonical(rb)) by {
            if rb.len() > 0 {
                assert(rb.last() == b.last());
            }
        }
        assert(a[0] < 16 && b[0] < 16);
        assert(a[0] == b[0] && hex_value(ra) == hex_value(rb)) by (nonlinear_arith)
            requires
                a[0] as int + 16 * hex_value(ra) == b[0] as int + 16 * hex_value(rb),
                0 <= a[0] < 16,
                0 <= b[0] < 16,
        ;
        lemma_hex_value_injective(ra, rb);
        assert(a =~= seq![a[0]] + ra);
        assert(b =~= seq![b[0]] + rb);
    } else {
        assert(a =~= b);
    }
}

/// Multiplies the number that canonical digits denote by `radix` and adds
/// `add`, in place.
fn scale_add(digits: &mut Vec<u8>, radix: u8, add: u8)
    requires
        2 <= radix <= 36,
        add < radix,
        is_canonical(old(digits)@),
    ensures
        is_canonical(final(digits)@),
        hex_value(final(digits)@) == hex_value(old(digits)@) * radix + add,
{
    let ghost before = digits@;
    let len = digits.len();
    let mut carry: u32 = add as u32;
    let mut at: usize = 0;
    assert(digits@.take(0) =~= Seq::<u8>::empty());
    while at < len
        invariant
            2 <= radix <= 36,
            is_canonical(before),
            len == before.len(),
            digits@.len() == len,
            at <= len,
            carry <= 35,
            forall|i: int| at <= i < len ==> digits@[i] == before[i],
            forall|i: int| 0 <= i < len ==> digits@[i] < 16,
            hex_value(digits@.take(at as int)) + carry * pow16(at as nat) == hex_value(
                before.take(at as int),
            ) * radix + add,
            at == len && len > 0 && carry == 0 ==> digits@[len - 1] != 0,
        decreases len - at,
    {
        let ghost low = digits@.take(at as int);
        let ghost place = pow16(at as nat);
        let ghost carry_in = carry;
        let digit = digits[at];
        assert(digit as u32 * radix as u32 <= 540) by (nonlinear_arith)
            requires
                digit < 16,
                radix <= 36,
        ;
        let total: u32 = digit as u32 * radix as u32 + carry;
        let kept: u8 = (total % 16) as u8;
        carry = total / 16;
        digits.set(at, kept);
        proof {
            assert(digits@.take(at as int) =~= low);
            assert(digits@.take(at + 1) =~= low.push(kept));
            assert(before.take(at + 1) =~= before.take(at as int).push(digit));
            lemma_hex_value_push(low, kept);
            lemma_hex_value_push(before.take(at as int), digit);
            assert(pow16((at + 1) as nat) == 16 * place);
            assert(kept * place + carry * (16 * place) == (digit * radix + carry_in) * place)
                by (nonlinear_arith)
                requires
                    total == digit * radix + carry_in,
                    total == 16 * carry + kept,
            ;
            assert((hex_value(before.take(at as int)) + digit * place) * radix == hex_value(
                before.take(at as int),
            ) * radix + (digit * radix) * place) by (nonlinear_arith);
            assert((digit * radix + carry_in) * place == (digit * radix) * place + carry_in
                * place) by (nonlinear_arith);
            if at + 1 == len {
                assert(digit == before.last());
                assert(digit * radix >= 1) by (nonlinear_arith)
                    requires
                        digit >= 1,
                        radix >= 2,
                ;
            }
        }
        at += 1;
    }
    assert(digits@.take(len as int) =~= digits@);
    assert(before.take(len as int) =~= before);
    let ghost target = hex_value(before) * radix + add;
    while carry > 0
        invariant
            carry <= 35,
            forall|i: int| 0 <= i < digits@.len() ==> digits@[i] < 16,
            hex_value(digits@) + carry * pow16(digits@.len()) == target,
            carry == 0 && digits@.len() > 0 ==> digits@.last() != 0,
        decreases carry,
    {
        let ghost low = digits@;
        let ghost place = pow16(low.len());
        let ghost carry_in = carry;
        let kept: u8 = (carry % 16) as u8;
        carry = carry / 16;
        digits.push(kept);
        proof {
            lemma_hex_value_push(low, kept);
            assert(pow16((low.len() + 1) as nat) == 16 * place);
            assert(kept * place + carry * (16 * place) == carry_in * place) by (nonlinear_arith)
                requires
                    carry_in == 16 * carry + kept,
            ;
        }
    }
}

/// The first `count` digits of a numeral, read one after the other.
proof fn lemma_numeral_value_step(digits: Seq<u8>, count: int, radix: int)
    requires
        0 <= count < digits.len(),
    ensures
        numeral_value(digits.take(count + 1), radix) == numeral_value(digits.take(count), radix)
            * radix + digits[count],
{
    assert(digits.take(count + 1).drop_last() =~= digits.take(count));
}

/// Hexadecimal digits read from the significant end denote the same number
/// as a numeral in radix sixteen.
pub proof fn lemma_reverse_value(digits: Seq<u8>)
    ensures
        numeral_value(digits.reverse(), 16) == hex_value(digits),
    decreases digits.len(),
{
    if digits.len() > 0 {
        lemma_reverse_value(digits.skip(1));
        assert(digits.reverse().drop_last() =~= digits.skip(1).reverse());
        assert(digits.reverse().last() == digits[0]);
    }
}

/// The character that stands for a digit below 36: `0`-`9`, then `a`-`z`.
pub open spec fn digit_char(d: u8) -> u8 {
    if d < 10 {
        (0x30 + d) as u8
    } else {
        (0x61 + d - 10) as u8
    }
}

/// How a number is written out in hexadecimal: a minus sign if it is
/// negative, then its digits from the most significant down, or a single
/// `0` where there are none. `digits` holds the least significant first.
pub open spec fn hex_text(negative: bool, digits: Seq<u8>) -> Seq<u8> {
    let sign = if negative {
        seq![0x2du8]
    } else {
        Seq::<u8>::empty()
    };
    let body = if digits.len() == 0 {
        seq![0x30u8]
    } else {
        Seq::new(digits.len(), |i: int| digit_char(digits[digits.len() - 1 - i]))
    };
    sign + body
}

/// Reading back what was written out gives the number that was written.
pub proof fn lemma_hex_text_round_trip(negative: bool, digits: Seq<u8>)
    requires
        forall|i: int| 0 <= i < digits.len() ==> digits[i] < 16,
    ensures
        parse_numeral(hex_text(negative, digits), 16) == Ok::<int, ParseIntError>(
            signed(negative, hex_value(digits)),
        ),
{
    let text = hex_text(negative, digits);
    let body = unsigned_part(text);
    if digits.len() == 0 {
        assert(body =~= seq![0x30u8]);
        assert(digit_values(body) =~= seq![0u8]);
        assert(numeral_value(seq![0u8].drop_last(), 16) == 0);
        assert(numeral_value(seq![0u8], 16) == 0);
    } else {
        assert(digits[digits.len() - 1] < 16);
        assert(body =~= Seq::new(
            digits.len(),
            |i: int| digit_char(digits[digits.len() - 1 - i]),
        ));
        assert forall|i: int| 0 <= i < body.len() implies is_digit_of(#[trigger] body[i], 16)
            && digit_value(body[i]) == Some(digits[digits.len() - 1 - i]) by {
            assert(digits[digits.len() - 1 - i] < 16);
        }
        assert(digit_values(body) =~= digits.reverse());
        lemma_reverse_value(digits);
    }
}

/// A whole number of any size.
///
/// It is kept as a sign and the hexadecimal digits of its magnitude, least
/// significant first and without a zero at the significant end. Zero has no
/// digits and no sign.
#[derive(Debug, Eq)]
pub struct Integer {
    negative: bool,
    digits: Vec<u8>,
}

impl View for Integer {
    type V = int;

    /// The number itself.
    open spec fn view(&self) -> int {
        signed(self.spec_negative(), hex_value(self.spec_digits()))
    }
}

impl Integer {
    #[verifier::type_invariant]
    spec fn well_formed(self) -> bool {
        &&& is_canonical(self.digits@)
        &&& self.digits@.len() == 0 ==> !self.negative
    }

    /// The hexadecimal digits of the magnitude, least significant first.
    pub closed spec fn spec_digits(&self) -> Seq<u8> {
        self.digits@
    }

    /// Whether the number carries a minus sign.
    pub closed spec fn spec_negative(&self) -> bool {
        self.negative
    }

    /// Reads a numeral in the given radix: an optional minus sign, then
    /// digits. Letters of either case count from ten upwards.
    pub fn from_bytes_radix(src: &[u8], radix: u8) -> (r: Result<Integer, ParseIntError>)
        requires
            2 <= radix <= 36,
        ensures
            match parse_numeral(src@, radix) {
                Ok(value) => r is Ok && r->Ok_0@ == value,
                Err(e) => r == Err::<Integer, ParseIntError>(e),
            },
    {
        let negative = src.len() > 0 && src[0] == 0x2d;
        let first: usize = if negative {
            1
        } else {
            0
        };
        let ghost body = unsigned_part(src@);
        let ghost values = digit_values(body);
        assert(body =~= src@.skip(first as int));
        if first == src.len() {
            return Err(ParseIntError::Empty);
        }
        let mut digits: Vec<u8> = Vec::new();
        let mut at: usize = first;
        assert(values.take(0) =~= Seq::<u8>::empty());
        while at < src.len()
            invariant
                2 <= radix <= 36,
                first <= at <= src.len(),
                first < src.len(),
                body == src@.skip(first as int),
                body == unsigned_part(src@),
                values == digit_values(body),
                negative == has_minus(src@),
                forall|i: int| first <= i < at ==> is_digit_of(src@[i], radix),
                is_canonical(digits@),
                hex_value(digits@) == numeral_value(values.take(at - first), radix as int),
            decreases src.len() - at,
        {
            assert(body[at - first] == src@[at as int]);
            match digit_of(src[at]) {
                Some(d) => {
                    if d >= radix {
                        assert(!is_digit_of(body[at - first], radix));
                        return Err(ParseIntError::InvalidDigit);
                    }
                    proof {
                        lemma_numeral_value_step(values, at - first, radix as int);
                    }
                    scale_add(&mut digits, radix, d);
                },
                None => {
                    assert(!is_digit_of(body[at - first], radix));
                    return Err(ParseIntError::InvalidDigit);
                },
            }
            at += 1;
        }
        proof {
            assert forall|i: int| 0 <= i < body.len() implies is_digit_of(
                #[trigger] body[i],
                radix,
            ) by {
                assert(body[i] == src@[first + i]);
            }
            assert(values.take(src@.len() - first) =~= values);
            lemma_hex_value_positive(digits@);
        }
        let negative = negative && digits.len() > 0;
        Ok(Integer { negative, digits })
    }

    /// The hexadecimal digits of the magnitude, least significant first:
    /// each below sixteen, the last not zero. Zero has none.
    pub fn digits(&self) -> (r: &Vec<u8>)
        ensures
            r@ == self.spec_digits(),
            is_canonical(r@),
            r@.len() == 0 <==> self@ == 0,
    {
        proof {
            use_type_invariant(self);
            lemma_hex_value_positive(self.digits@);
        }
        &self.digits
    }

    /// Whether the number is below zero.
    pub fn is_negative(&self) -> (r: bool)
        ensures
            r == self.spec_negative(),
            r == (self@ < 0),
    {
        proof {
            use_type_invariant(self);
            lemma_hex_value_positive(self.digits@);
        }
        self.negative
    }

    /// Whether the number is zero.
    pub fn is_zero(&self) -> (r: bool)
        ensures
            r == (self@ == 0),
    {
        self.digits().len() == 0
    }

    /// The number zero.
    pub fn zero() -> (r: Integer)
        ensures
            r@ == 0,
    {
        Integer { negative: false, digits: Vec::new() }
    }

    /// The number one.
    pub fn one() -> (r: Integer)
        ensures
            r@ == 1,
    {
        let mut digits: Vec<u8> = Vec::new();
        digits.push(1);
        proof {
            assert(hex_value(digits@.skip(1)) == 0);
        }
        Integer { negative: false, digits }
    }

    /// Writes the number out in hexadecimal, with lower-case letters for
    /// the digits from ten upwards.
    pub fn to_hex(&self) -> (text: Vec<u8>)
        ensures
            text@ == hex_text(self.spec_negative(), self.spec_digits()),
            parse_numeral(text@, 16) == Ok::<int, ParseIntError>(self@),
    {
        proof {
            use_type_invariant(self);
            lemma_hex_text_round_trip(self.negative, self.digits@);
        }
        let mut text: Vec<u8> = Vec::new();
        if self.negative {
            text.push(0x2d);
        }
        let ghost sign = text@;
        let len = self.digits.len();
        if len == 0 {
            text.push(0x30);
            assert(text@ =~= hex_text(self.negative, self.digits@));
            return text;
        }
        let mut at: usize = 0;
        while at < len
            invariant
                len == self.digits@.len(),
                at <= len,
                forall|i: int| 0 <= i < len ==> self.digits@[i] < 16,
                text@.len() == sign.len() + at,
                text@.subrange(0, sign.len() as int) == sign,
                forall|j: int|
                    sign.len() <= j < sign.len() + at ==> #[trigger] text@[j] == digit_char(
                        self.digits@[len - 1 - (j - sign.len())],
                    ),
            decreases len - at,
        {
            let d = self.digits[len - 1 - at];
            let c: u8 = if d < 10 {
                0x30 + d
            } else {
                0x61 + (d - 10)
            };
            text.push(c);
            assert(text@.subrange(0, sign.len() as int) =~= sign);
            at += 1;
        }
        assert(text@ =~= hex_text(self.negative, self.digits@));
        text
    }
}

impl PartialEq for Integer {
    /// Whether two whole numbers are the same number. As each number has
    /// one form only, this is to ask whether they are the same data.
    fn eq(&self, other: &Integer) -> (r: bool) {
        proof {
            use_type_invariant(self);
            use_type_invariant(other);
            lemma_hex_value_positive(self.digits@);
            lemma_hex_value_positive(other.digits@);
            if hex_value(self.digits@) == hex_value(other.digits@) {
                lemma_hex_value_injective(self.digits@, other.digits@);
            }
        }
        let same_digits = self.digits == other.digits;
        assert(same_digits == (self.digits@ =~= other.digits@));
        self.negative == other.negative && same_digits
    }
}

impl PartialEqSpecImpl for Integer {
    open spec fn obeys_eq_spec() -> bool {
        true
    }

    open spec fn eq_spec(&self, other: &Integer) -> bool {
        self@ == other@
    }
}

impl Clone for Integer {
    fn clone(&self) -> (r: Self)
        ensures
            r@ == self@,
            r.spec_digits() == self.spec_digits(),
            r.spec_negative() == self.spec_negative(),
    {
        proof {
            use_type_invariant(self);
        }
        let digits = self.digits.clone();
        assert(digits@ =~= self.digits@);
        Integer { negative: self.negative, digits }
    }
}

/// A fraction of two whole numbers.
pub ghost struct Fraction {
    pub num: int,
    pub den: int,
}

/// An exact fraction: a numerator over a denominator that is not zero. It
/// need not be in lowest terms.
#[derive(Debug)]
pub struct Rational {
    num: Integer,
    den: Integer,
}

impl View for Rational {
    type V = Fraction;

    closed spec fn view(&self) -> Fraction {
        Fraction { num: self.num@, den: self.den@ }
    }
}

impl Rational {
    #[verifier::type_invariant]
    spec fn well_formed(self) -> bool {
        self.den@ != 0
    }

    /// A numerator over a denominator; there is none over zero.
    pub fn from_parts(num: Integer, den: Integer) -> (r: Option<Rational>)
        ensures
            den@ == 0 ==> r is None,
            den@ != 0 ==> r is Some && r->Some_0@ == (Fraction { num: num@, den: den@ }),
    {
        if den.is_zero() {
            None
        } else {
            Some(Rational { num, den })
        }
    }

    /// A whole number as a fraction over one.
    pub fn from_integer(n: Integer) -> (r: Rational)
        ensures
            r@ == (Fraction { num: n@, den: 1 }),
    {
        Rational { num: n, den: Integer::one() }
    }

    /// Zero over one.
    pub fn zero() -> (r: Rational)
        ensures
            r@ == (Fraction { num: 0, den: 1 }),
    {
        Rational { num: Integer::zero(), den: Integer::one() }
    }

    /// Whether the fraction is zero, that is, whether its numerator is.
    pub fn is_zero(&self) -> (r: bool)
        ensures
            r == (self@.num == 0),
    {
        self.num.is_zero()
    }

    /// The numerator.
    pub fn numerator(&self) -> (n: &Integer)
        ensures
            n@ == self@.num,
    {
        &self.num
    }

    /// The denominator, which is not zero.
    pub fn denominator(&self) -> (d: &Integer)
        ensures
            d@ == self@.den,
            d@ != 0,
    {
        proof {
            use_type_invariant(self);
        }
        &self.den
    }
}

impl Clone for Rational {
    fn clone(&self) -> (r: Self)
        ensures
            r@ == self@,
    {
        proof {
            use_type_invariant(self);
        }
        Rational { num: self.num.clone(), den: self.den.clone() }
    }
}

} // verus!
