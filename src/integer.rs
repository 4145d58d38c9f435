//! Arbitrary-precision integers held as a sign and base 2^32 digits, with the
//! arithmetic itself done by `num::BigInt`.
use vstd::prelude::*;
use vstd::arithmetic::power2::pow2;
use num::bigint::{BigInt, Sign};
use num::ToPrimitive;
use core::cmp::Ordering;
use core::str::FromStr;

verus! {

/// An integer of any size: a sign and its magnitude in base 2^32 digits,
/// least significant first.
#[derive(Clone, Debug)]
pub struct Integer {
    negative: bool,
    digits: Vec<u32>,
}

/// The value of little-endian base 2^32 digits.
pub open spec fn digits_value(d: Seq<u32>) -> nat
    decreases d.len(),
{
    if d.len() == 0 {
        0
    } else {
        d[0] as nat + 0x1_0000_0000 * digits_value(d.drop_first())
    }
}

impl View for Integer {
    type V = int;

    closed spec fn view(&self) -> int {
        if self.negative {
            -(digits_value(self.digits@) as int)
        } else {
            digits_value(self.digits@) as int
        }
    }
}

/// Division rounding toward zero.
pub open spec fn trunc_div(a: int, b: int) -> int
    recommends
        b != 0,
{
    let q = (if a < 0 { -a } else { a }) / (if b < 0 { -b } else { b });
    if (a < 0) != (b < 0) {
        -q
    } else {
        q
    }
}

/// The remainder that goes with `trunc_div`: it has the sign of `a`.
pub open spec fn trunc_rem(a: int, b: int) -> int
    recommends
        b != 0,
{
    a - b * trunc_div(a, b)
}

/// How many bits an integer needs beside its sign bit in two's complement:
/// `x` for `x >= 0`, and `-x - 1` below zero.
pub open spec fn magnitude_bits(x: int) -> nat {
    if x >= 0 {
        x as nat
    } else {
        (-x - 1) as nat
    }
}

/// Whether an integer is all zeros or all ones in two's complement.
pub open spec fn is_sign_only(x: int) -> bool {
    x == 0 || x == -1
}

/// Bitwise and of two integers in two's complement of unbounded width: the
/// lowest bits combined, then the rest, taken by halving toward negative infinity.
pub open spec fn bit_and_of(a: int, b: int) -> int
    decreases magnitude_bits(a) + magnitude_bits(b),
{
    if is_sign_only(a) && is_sign_only(b) {
        if a == -1 && b == -1 {
            -1
        } else {
            0
        }
    } else {
        2 * bit_and_of(a / 2, b / 2) + (a % 2) * (b % 2)
    }
}

/// Bitwise or of two integers in two's complement of unbounded width.
pub open spec fn bit_or_of(a: int, b: int) -> int
    decreases magnitude_bits(a) + magnitude_bits(b),
{
    if is_sign_only(a) && is_sign_only(b) {
        if a == -1 || b == -1 {
            -1
        } else {
            0
        }
    } else {
        2 * bit_or_of(a / 2, b / 2) + (a % 2) + (b % 2) - (a % 2) * (b % 2)
    }
}

/// Bitwise exclusive or of two integers in two's complement of unbounded width.
pub open spec fn bit_xor_of(a: int, b: int) -> int
    decreases magnitude_bits(a) + magnitude_bits(b),
{
    if is_sign_only(a) && is_sign_only(b) {
        if (a == -1) != (b == -1) {
            -1
        } else {
            0
        }
    } else {
        2 * bit_xor_of(a / 2, b / 2) + ((a % 2) + (b % 2)) % 2
    }
}

/// The character of a decimal digit.
pub open spec fn digit_char(d: nat) -> char
    recommends
        d < 10,
{
    seq!['0', '1', '2', '3', '4', '5', '6', '7', '8', '9'][d as int]
}

/// The decimal digits of a natural number, without leading zeros.
pub open spec fn nat_decimal(n: nat) -> Seq<char>
    decreases n,
{
    if n < 10 {
        seq![digit_char(n)]
    } else {
        nat_decimal(n / 10).push(digit_char(n % 10))
    }
}

/// The decimal text of an integer: a minus sign for negative values, then its digits.
pub open spec fn decimal_text(v: int) -> Seq<char> {
    if v < 0 {
        seq!['-'] + nat_decimal((-v) as nat)
    } else {
        nat_decimal(v as nat)
    }
}

pub open spec fn is_decimal_digit(c: char) -> bool {
    '0' <= c && c <= '9'
}

/// The value of a run of decimal digits in which `_` separators are ignored.
pub open spec fn digit_run_value(s: Seq<char>) -> nat
    decreases s.len(),
{
    if s.len() == 0 {
        0
    } else if s.last() == '_' {
        digit_run_value(s.drop_last())
    } else {
        digit_run_value(s.drop_last()) * 10 + ((s.last() as u32) - 48) as nat
    }
}

/// Digits and `_` separators, not empty and not starting with a separator.
pub open spec fn is_digit_run(s: Seq<char>) -> bool {
    &&& s.len() > 0
    &&& s[0] != '_'
    &&& forall|i: int| 0 <= i < s.len() ==> is_decimal_digit(#[trigger] s[i]) || s[i] == '_'
}

/// The integer that a decimal literal denotes: an optional `-`, or an optional
/// `+`, then a run of digits; `None` for any other text.
pub open spec fn parse_decimal_spec(s: Seq<char>) -> Option<int> {
    let negative = s.len() > 0 && s[0] == '-';
    let t = if negative { s.drop_first() } else { s };
    let u = if t.len() > 0 && t[0] == '+' { t.drop_first() } else { t };
    if (negative && t.len() > 0 && t[0] == '+') || !is_digit_run(u) {
        None
    } else if negative {
        Some(-(digit_run_value(u) as int))
    } else {
        Some(digit_run_value(u) as int)
    }
}


proof fn lemma_digit_char(d: nat)
    requires
        d < 10,
    ensures
        is_decimal_digit(digit_char(d)),
        ((digit_char(d) as u32) - 48) as nat == d,
{
    let ds = seq!['0', '1', '2', '3', '4', '5', '6', '7', '8', '9'];
    assert(ds[0] == '0' && ds[1] == '1' && ds[2] == '2' && ds[3] == '3' && ds[4] == '4');
    assert(ds[5] == '5' && ds[6] == '6' && ds[7] == '7' && ds[8] == '8' && ds[9] == '9');
}

proof fn lemma_nat_decimal(n: nat)
    ensures
        nat_decimal(n).len() > 0,
        forall|i: int| 0 <= i < nat_decimal(n).len() ==> is_decimal_digit(#[trigger] nat_decimal(n)[i]),
        digit_run_value(nat_decimal(n)) == n,
    decreases n,
{
    if n < 10 {
        lemma_digit_char(n);
        let s = nat_decimal(n);
        assert(s.drop_last() =~= Seq::<char>::empty());
        assert(s.last() != '_');
        assert(digit_run_value(Seq::<char>::empty()) == 0);
    } else {
        lemma_nat_decimal(n / 10);
        lemma_digit_char(n % 10);
        let s = nat_decimal(n);
        assert(s.drop_last() =~= nat_decimal(n / 10));
        assert(s.last() != '_');
        assert((n / 10) * 10 + n % 10 == n) by (nonlinear_arith);
        assert forall|i: int| 0 <= i < s.len() implies is_decimal_digit(#[trigger] s[i]) by {
            if i < s.len() - 1 {
                assert(s[i] == nat_decimal(n / 10)[i]);
            }
        }
    }
}

/// The decimal text of an integer is not empty and holds digits and `-` only.
pub proof fn lemma_decimal_text_chars(v: int)
    ensures
        decimal_text(v).len() > 0,
        forall|i: int|
            0 <= i < decimal_text(v).len() ==> is_decimal_digit(#[trigger] decimal_text(v)[i])
                || decimal_text(v)[i] == '-',
{
    let n: nat = if v < 0 { (-v) as nat } else { v as nat };
    lemma_nat_decimal(n);
    if v < 0 {
        let s = decimal_text(v);
        assert forall|i: int| 0 <= i < s.len() implies is_decimal_digit(#[trigger] s[i]) || s[i] == '-' by {
            if i > 0 {
                assert(s[i] == nat_decimal(n)[i - 1]);
            }
        }
    }
}

/// Reading the decimal text of any integer as a literal gives that integer back.
pub proof fn lemma_decimal_round_trip(v: int)
    ensures
        parse_decimal_spec(decimal_text(v)) == Some(v),
{
    let n: nat = if v < 0 { (-v) as nat } else { v as nat };
    lemma_nat_decimal(n);
    let d = nat_decimal(n);
    assert(d[0] != '-' && d[0] != '+' && d[0] != '_');
    if v < 0 {
        let s = decimal_text(v);
        assert(s[0] == '-');
        assert(s.drop_first() =~= d);
    }
}

/// Relies on `BigInt::from_slice` and `BigInt::to_u32_digits` (values kept) and
/// on `Add for BigInt`.
#[verifier::external_body]
fn big_add(a: &Integer, b: &Integer) -> (r: Integer)
    ensures
        r@ == a@ + b@,
{
    let x = BigInt::from_slice(if a.negative { Sign::Minus } else { Sign::Plus }, &a.digits);
    let y = BigInt::from_slice(if b.negative { Sign::Minus } else { Sign::Plus }, &b.digits);
    let (s, d) = (x + y).to_u32_digits();
    Integer { negative: s == Sign::Minus, digits: d }
}

/// Relies on `BigInt::from_slice` and `BigInt::to_u32_digits` (values kept) and
/// on `Sub for BigInt`.
#[verifier::external_body]
fn big_sub(a: &Integer, b: &Integer) -> (r: Integer)
    ensures
        r@ == a@ - b@,
{
    let x = BigInt::from_slice(if a.negative { Sign::Minus } else { Sign::Plus }, &a.digits);
    let y = BigInt::from_slice(if b.negative { Sign::Minus } else { Sign::Plus }, &b.digits);
    let (s, d) = (x - y).to_u32_digits();
    Integer { negative: s == Sign::Minus, digits: d }
}

/// Relies on `BigInt::from_slice` and `BigInt::to_u32_digits` (values kept) and
/// on `Mul for BigInt`.
#[verifier::external_body]
fn big_mul(a: &Integer, b: &Integer) -> (r: Integer)
    ensures
        r@ == a@ * b@,
{
    let x = BigInt::from_slice(if a.negative { Sign::Minus } else { Sign::Plus }, &a.digits);
    let y = BigInt::from_slice(if b.negative { Sign::Minus } else { Sign::Plus }, &b.digits);
    let (s, d) = (x * y).to_u32_digits();
    Integer { negative: s == Sign::Minus, digits: d }
}

/// Relies on `BigInt::from_slice` and `BigInt::to_u32_digits` (values kept) and
/// on `Div for BigInt`, which rounds toward zero and panics on a zero divisor.
#[verifier::external_body]
fn big_div(a: &Integer, b: &Integer) -> (r: Integer)
    requires
        b@ != 0,
    ensures
        r@ == trunc_div(a@, b@),
{
    let x = BigInt::from_slice(if a.negative { Sign::Minus } else { Sign::Plus }, &a.digits);
    let y = BigInt::from_slice(if b.negative { Sign::Minus } else { Sign::Plus }, &b.digits);
    let (s, d) = (x / y).to_u32_digits();
    Integer { negative: s == Sign::Minus, digits: d }
}

/// Relies on `BigInt::from_slice` and `BigInt::to_u32_digits` (values kept) and
/// on `Rem for BigInt`, whose result has the sign of the dividend and which panics on a zero divisor.
#[verifier::external_body]
fn big_rem(a: &Integer, b: &Integer) -> (r: Integer)
    requires
        b@ != 0,
    ensures
        r@ == trunc_rem(a@, b@),
{
    let x = BigInt::from_slice(if a.negative { Sign::Minus } else { Sign::Plus }, &a.digits);
    let y = BigInt::from_slice(if b.negative { Sign::Minus } else { Sign::Plus }, &b.digits);
    let (s, d) = (x % y).to_u32_digits();
    Integer { negative: s == Sign::Minus, digits: d }
}

/// Relies on `BigInt::from_slice` and `BigInt::to_u32_digits` (values kept) and
/// on `BitAnd for BigInt` (two's complement).
#[verifier::external_body]
fn big_and(a: &Integer, b: &Integer) -> (r: Integer)
    ensures
        r@ == bit_and_of(a@, b@),
{
    let x = BigInt::from_slice(if a.negative { Sign::Minus } else { Sign::Plus }, &a.digits);
    let y = BigInt::from_slice(if b.negative { Sign::Minus } else { Sign::Plus }, &b.digits);
    let (s, d) = (x & y).to_u32_digits();
    Integer { negative: s == Sign::Minus, digits: d }
}

/// Relies on `BigInt::from_slice` and `BigInt::to_u32_digits` (values kept) and
/// on `BitOr for BigInt` (two's complement).
#[verifier::external_body]
fn big_or(a: &Integer, b: &Integer) -> (r: Integer)
    ensures
        r@ == bit_or_of(a@, b@),
{
    let x = BigInt::from_slice(if a.negative { Sign::Minus } else { Sign::Plus }, &a.digits);
    let y = BigInt::from_slice(if b.negative { Sign::Minus } else { Sign::Plus }, &b.digits);
    let (s, d) = (x | y).to_u32_digits();
    Integer { negative: s == Sign::Minus, digits: d }
}

/// Relies on `BigInt::from_slice` and `BigInt::to_u32_digits` (values kept) and
/// on `BitXor for BigInt` (two's complement).
#[verifier::external_body]
fn big_xor(a: &Integer, b: &Integer) -> (r: Integer)
    ensures
        r@ == bit_xor_of(a@, b@),
{
    let x = BigInt::from_slice(if a.negative { Sign::Minus } else { Sign::Plus }, &a.digits);
    let y = BigInt::from_slice(if b.negative { Sign::Minus } else { Sign::Plus }, &b.digits);
    let (s, d) = (x ^ y).to_u32_digits();
    Integer { negative: s == Sign::Minus, digits: d }
}

/// Relies on `BigInt::from_slice`, `BigInt::to_u32_digits` and `Shl<u32> for BigInt`:
/// multiplication by a power of two.
#[verifier::external_body]
fn big_shl(a: &Integer, n: u32) -> (r: Integer)
    ensures
        r@ == a@ * pow2(n as nat),
{
    let x = BigInt::from_slice(if a.negative { Sign::Minus } else { Sign::Plus }, &a.digits);
    let (s, d) = (x << n).to_u32_digits();
    Integer { negative: s == Sign::Minus, digits: d }
}

/// Relies on `BigInt::from_slice`, `BigInt::to_u32_digits` and `Shr<i128> for BigInt`:
/// division by a power of two rounding toward negative infinity; it panics on a
/// negative amount.
#[verifier::external_body]
fn big_shr(a: &Integer, n: i128) -> (r: Integer)
    requires
        n >= 0,
    ensures
        r@ == a@ / (pow2(n as nat) as int),
{
    let x = BigInt::from_slice(if a.negative { Sign::Minus } else { Sign::Plus }, &a.digits);
    let (s, d) = (x >> n).to_u32_digits();
    Integer { negative: s == Sign::Minus, digits: d }
}

/// Relies on `BigInt::from_slice` and `Ord for BigInt`: the numeric order.
#[verifier::external_body]
fn big_cmp(a: &Integer, b: &Integer) -> (r: Ordering)
    ensures
        r == (if a@ < b@ {
            Ordering::Less
        } else if a@ == b@ {
            Ordering::Equal
        } else {
            Ordering::Greater
        }),
{
    let x = BigInt::from_slice(if a.negative { Sign::Minus } else { Sign::Plus }, &a.digits);
    let y = BigInt::from_slice(if b.negative { Sign::Minus } else { Sign::Plus }, &b.digits);
    x.cmp(&y)
}

/// Relies on `BigInt::from_slice` and `ToPrimitive::to_u8 for BigInt`: the value
/// when it fits in a byte.
#[verifier::external_body]
fn big_to_u8(a: &Integer) -> (r: Option<u8>)
    ensures
        r == (if 0 <= a@ <= 255 { Some(a@ as u8) } else { None::<u8> }),
{
    let x = BigInt::from_slice(if a.negative { Sign::Minus } else { Sign::Plus }, &a.digits);
    x.to_u8()
}

/// Relies on `BigInt::from_slice` and `ToPrimitive::to_i128 for BigInt`: the value
/// when it fits in an `i128`.
#[verifier::external_body]
fn big_to_i128(a: &Integer) -> (r: Option<i128>)
    ensures
        r == (if i128::MIN <= a@ <= i128::MAX { Some(a@ as i128) } else { None::<i128> }),
{
    let x = BigInt::from_slice(if a.negative { Sign::Minus } else { Sign::Plus }, &a.digits);
    x.to_i128()
}

/// Relies on `BigInt::from_slice` and `Display for BigInt`: a `-` for negative
/// values, then the decimal digits without leading zeros.
#[verifier::external_body]
fn big_decimal(a: &Integer) -> (r: Vec<char>)
    ensures
        r@ == decimal_text(a@),
{
    let x = BigInt::from_slice(if a.negative { Sign::Minus } else { Sign::Plus }, &a.digits);
    x.to_string().chars().collect()
}

/// Relies on `FromStr for BigInt` (base 10) and `BigInt::to_u32_digits`.
#[verifier::external_body]
fn big_parse(s: &str) -> (r: Option<Integer>)
    ensures
        r matches Some(v) ==> parse_decimal_spec(s@) == Some(v@),
        r is None ==> parse_decimal_spec(s@) is None,
{
    match BigInt::from_str(s) {
        Ok(x) => {
            let (s, d) = x.to_u32_digits();
            Some(Integer { negative: s == Sign::Minus, digits: d })
        },
        Err(_) => None,
    }
}

impl Integer {
    /// Zero.
    pub fn zero() -> (r: Integer)
        ensures
            r@ == 0,
    {
        Integer { negative: false, digits: Vec::new() }
    }

    /// The value of a byte.
    pub fn from_u8(b: u8) -> (r: Integer)
        ensures
            r@ == b as int,
    {
        let r = Integer { negative: false, digits: vec![b as u32] };
        proof {
            reveal_with_fuel(digits_value, 2);
        }
        r
    }

    /// Another integer with the same value.
    pub fn duplicate(&self) -> (r: Integer)
        ensures
            r@ == self@,
    {
        Integer { negative: self.negative, digits: self.digits.clone() }
    }

    /// The value `v`.
    pub fn from_i8(v: i8) -> (r: Integer)
        ensures
            r@ == v as int,
    {
        let m: u32 = if v < 0 { (-(v as i32)) as u32 } else { v as u32 };
        let r = Integer { negative: v < 0, digits: vec![m] };
        proof {
            reveal_with_fuel(digits_value, 2);
        }
        r
    }

    /// Reads a decimal literal: an optional sign, then digits, which `_` may separate.
    pub fn parse_decimal(s: &str) -> (r: Option<Integer>)
        ensures
            r matches Some(v) ==> parse_decimal_spec(s@) == Some(v@),
            r is None ==> parse_decimal_spec(s@) is None,
    {
        big_parse(s)
    }

    /// The decimal text of the value.
    pub fn to_decimal(&self) -> (r: Vec<char>)
        ensures
            r@ == decimal_text(self@),
    {
        big_decimal(self)
    }

    pub fn add(&self, other: &Integer) -> (r: Integer)
        ensures
            r@ == self@ + other@,
    {
        big_add(self, other)
    }

    pub fn sub(&self, other: &Integer) -> (r: Integer)
        ensures
            r@ == self@ - other@,
    {
        big_sub(self, other)
    }

    pub fn mul(&self, other: &Integer) -> (r: Integer)
        ensures
            r@ == self@ * other@,
    {
        big_mul(self, other)
    }

    /// Division rounding toward zero.
    pub fn div(&self, other: &Integer) -> (r: Integer)
        requires
            other@ != 0,
        ensures
            r@ == trunc_div(self@, other@),
    {
        big_div(self, other)
    }

    /// The remainder of `div`.
    pub fn rem(&self, other: &Integer) -> (r: Integer)
        requires
            other@ != 0,
        ensures
            r@ == trunc_rem(self@, other@),
    {
        big_rem(self, other)
    }

    pub fn bit_and(&self, other: &Integer) -> (r: Integer)
        ensures
            r@ == bit_and_of(self@, other@),
    {
        big_and(self, other)
    }

    pub fn bit_or(&self, other: &Integer) -> (r: Integer)
        ensures
            r@ == bit_or_of(self@, other@),
    {
        big_or(self, other)
    }

    pub fn bit_xor(&self, other: &Integer) -> (r: Integer)
        ensures
            r@ == bit_xor_of(self@, other@),
    {
        big_xor(self, other)
    }

    /// Multiplication by `2^n`.
    pub fn shift_left(&self, n: u32) -> (r: Integer)
        ensures
            r@ == self@ * pow2(n as nat),
    {
        big_shl(self, n)
    }

    /// Division by `2^n`, rounding toward negative infinity.
    pub fn shift_right(&self, n: i128) -> (r: Integer)
        requires
            n >= 0,
        ensures
            r@ == self@ / (pow2(n as nat) as int),
    {
        big_shr(self, n)
    }

    /// The numeric order of two integers.
    pub fn compare(&self, other: &Integer) -> (r: Ordering)
        ensures
            r == (if self@ < other@ {
                Ordering::Less
            } else if self@ == other@ {
                Ordering::Equal
            } else {
                Ordering::Greater
            }),
    {
        big_cmp(self, other)
    }

    /// The value as a byte, when it is one.
    pub fn to_u8(&self) -> (r: Option<u8>)
        ensures
            r == (if 0 <= self@ <= 255 { Some(self@ as u8) } else { None::<u8> }),
    {
        big_to_u8(self)
    }

    /// The value as an `i128`, when it fits.
    pub fn to_i128(&self) -> (r: Option<i128>)
        ensures
            r == (if i128::MIN <= self@ <= i128::MAX { Some(self@ as i128) } else { None::<i128> }),
    {
        big_to_i128(self)
    }
}

} // verus!
