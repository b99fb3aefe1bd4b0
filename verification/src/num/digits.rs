//! Wide integers as plain values: a sign and base-2^32 digits, least
//! significant first, with the arithmetic that `num_bigint` performs on them.

use num_bigint::{BigInt, Sign};
use num_integer::Integer;
use vstd::prelude::*;
use vstd::string::StringExecFns;

verus! {

/// 2^32, the digit base.
pub open spec fn base() -> nat {
    4294967296
}

/// The natural number that little-endian base-2^32 digits spell.
pub open spec fn digits_value(s: Seq<u32>) -> nat
    decreases s.len(),
{
    if s.len() == 0 {
        0
    } else {
        s[0] as nat + base() * digits_value(s.skip(1))
    }
}

/// The integer that a sign flag and a magnitude spell.
pub open spec fn signed_value(neg: bool, s: Seq<u32>) -> int {
    if neg {
        -(digits_value(s) as int)
    } else {
        digits_value(s) as int
    }
}

/// The normal form `num_bigint` hands out: no high zero digit, and zero is
/// never negative.
pub open spec fn canonical(neg: bool, s: Seq<u32>) -> bool {
    &&& (s.len() == 0 || s.last() != 0)
    &&& (neg ==> s.len() > 0)
}

/// Whether an integer fits in an `i64`.
pub open spec fn fits_i64(v: int) -> bool {
    i64::MIN <= v <= i64::MAX
}

/// Truncating division: the quotient rounds toward zero.
pub open spec fn tdiv(a: int, b: int) -> int {
    let q: int = (vstd::math::abs(a) / vstd::math::abs(b)) as int;
    if (a < 0) != (b < 0) {
        -q
    } else {
        q
    }
}

/// The remainder of truncating division: it takes the sign of the dividend.
pub open spec fn trem(a: int, b: int) -> int {
    a - b * tdiv(a, b)
}

/// The number of bits in the binary form of `x` (0 for 0).
pub open spec fn bit_length(x: nat) -> nat
    decreases x,
{
    if x == 0 {
        0
    } else {
        1 + bit_length(x / 2)
    }
}

/// A non-empty canonical magnitude is at least one digit's worth per digit
/// beyond the first.
pub proof fn lemma_digits_lower(s: Seq<u32>)
    requires
        s.len() > 0,
        s.last() != 0,
    ensures
        digits_value(s) >= 1,
        s.len() >= 2 ==> digits_value(s) >= base(),
        s.len() >= 3 ==> digits_value(s) >= base() * base(),
    decreases s.len(),
{
    if s.len() > 1 {
        let t = s.skip(1);
        assert(t.last() == s.last());
        lemma_digits_lower(t);
    }
}

/// The value of a magnitude of at most two digits.
pub proof fn lemma_digits_two(s: Seq<u32>)
    requires
        s.len() <= 2,
    ensures
        s.len() == 0 ==> digits_value(s) == 0,
        s.len() == 1 ==> digits_value(s) == s[0],
        s.len() == 2 ==> digits_value(s) == s[0] + base() * s[1],
{
    if s.len() >= 1 {
        let t = s.skip(1);
        if s.len() == 1 {
            assert(t.len() == 0);
            assert(digits_value(t) == 0);
        }
        if s.len() == 2 {
            assert(t.skip(1).len() == 0);
            assert(digits_value(t.skip(1)) == 0);
            assert(digits_value(t) == t[0] + base() * digits_value(t.skip(1)));
        }
    }
}

/// The canonical digits of an `i64`.
pub fn small_digits(n: i64) -> (r: (bool, Vec<u32>))
    ensures
        canonical(r.0, r.1@),
        signed_value(r.0, r.1@) == n,
        r.1@.len() <= 2,
{
    let neg = n < 0;
    let u: u64 = if n >= 0 {
        n as u64
    } else if n == i64::MIN {
        0x8000_0000_0000_0000u64
    } else {
        (-n) as u64
    };
    assert(u == vstd::math::abs(n as int));
    let lo: u32 = (u & 0xffff_ffffu64) as u32;
    let hi: u32 = (u >> 32u64) as u32;
    assert(u == lo + hi * 4294967296) by (bit_vector)
        requires
            lo == (u & 0xffff_ffffu64) as u32,
            hi == (u >> 32u64) as u32,
    ;
    let mut v: Vec<u32> = Vec::new();
    if hi != 0 {
        v.push(lo);
        v.push(hi);
    } else if lo != 0 {
        v.push(lo);
    }
    proof {
        lemma_digits_two(v@);
    }
    (neg, v)
}

/// `(neg, mag)` as an `i64`, when it fits.
pub fn digits_to_i64(neg: bool, mag: &Vec<u32>) -> (r: Option<i64>)
    requires
        canonical(neg, mag@),
    ensures
        r is Some <==> fits_i64(signed_value(neg, mag@)),
        r matches Some(v) ==> v == signed_value(neg, mag@),
{
    if mag.len() > 2 {
        proof {
            lemma_digits_lower(mag@);
        }
        return None;
    }
    proof {
        lemma_digits_two(mag@);
    }
    let lo: u64 = if mag.len() >= 1 {
        mag[0] as u64
    } else {
        0
    };
    let hi: u64 = if mag.len() == 2 {
        mag[1] as u64
    } else {
        0
    };
    let u: u64 = hi * 4294967296u64 + lo;
    assert(u == digits_value(mag@));
    if !neg {
        if u <= 0x7fff_ffff_ffff_ffffu64 {
            Some(u as i64)
        } else {
            None
        }
    } else if u == 0x8000_0000_0000_0000u64 {
        Some(i64::MIN)
    } else if u < 0x8000_0000_0000_0000u64 {
        Some(-(u as i64))
    } else {
        None
    }
}

/// Sum, by `num_bigint`'s `BigInt + BigInt`, which is exact; the result comes
/// back in `to_u32_digits` form, which is canonical.
#[verifier::external_body]
pub(crate) fn big_add(an: bool, a: &[u32], bn: bool, b: &[u32]) -> (r: (bool, Vec<u32>))
    ensures
        canonical(r.0, r.1@),
        signed_value(r.0, r.1@) == signed_value(an, a@) + signed_value(bn, b@),
{
    let x = BigInt::from_slice(if an { Sign::Minus } else { Sign::Plus }, a);
    let y = BigInt::from_slice(if bn { Sign::Minus } else { Sign::Plus }, b);
    let (s, d) = (x + y).to_u32_digits();
    (s == Sign::Minus, d)
}

/// Difference, by `num_bigint`'s `BigInt - BigInt`, which is exact.
#[verifier::external_body]
pub(crate) fn big_sub(an: bool, a: &[u32], bn: bool, b: &[u32]) -> (r: (bool, Vec<u32>))
    ensures
        canonical(r.0, r.1@),
        signed_value(r.0, r.1@) == signed_value(an, a@) - signed_value(bn, b@),
{
    let x = BigInt::from_slice(if an { Sign::Minus } else { Sign::Plus }, a);
    let y = BigInt::from_slice(if bn { Sign::Minus } else { Sign::Plus }, b);
    let (s, d) = (x - y).to_u32_digits();
    (s == Sign::Minus, d)
}

/// Product, by `num_bigint`'s `BigInt * BigInt`, which is exact.
#[verifier::external_body]
pub(crate) fn big_mul(an: bool, a: &[u32], bn: bool, b: &[u32]) -> (r: (bool, Vec<u32>))
    ensures
        canonical(r.0, r.1@),
        signed_value(r.0, r.1@) == signed_value(an, a@) * signed_value(bn, b@),
{
    let x = BigInt::from_slice(if an { Sign::Minus } else { Sign::Plus }, a);
    let y = BigInt::from_slice(if bn { Sign::Minus } else { Sign::Plus }, b);
    let (s, d) = (x * y).to_u32_digits();
    (s == Sign::Minus, d)
}

/// Quotient and remainder by `num_integer::Integer::div_rem` on `BigInt`,
/// which truncates toward zero (the remainder takes the dividend's sign) and
/// panics on a zero divisor, which `requires` leaves out.
#[verifier::external_body]
pub(crate) fn big_div_rem(an: bool, a: &[u32], bn: bool, b: &[u32]) -> (r: ((bool, Vec<u32>), (bool, Vec<u32>)))
    requires
        signed_value(bn, b@) != 0,
    ensures
        canonical(r.0.0, r.0.1@),
        canonical(r.1.0, r.1.1@),
        signed_value(r.0.0, r.0.1@) == tdiv(signed_value(an, a@), signed_value(bn, b@)),
        signed_value(r.1.0, r.1.1@) == trem(signed_value(an, a@), signed_value(bn, b@)),
{
    let x = BigInt::from_slice(if an { Sign::Minus } else { Sign::Plus }, a);
    let y = BigInt::from_slice(if bn { Sign::Minus } else { Sign::Plus }, b);
    let (q, m) = x.div_rem(&y);
    let ((qs, qd), (ms, md)) = (q.to_u32_digits(), m.to_u32_digits());
    ((qs == Sign::Minus, qd), (ms == Sign::Minus, md))
}

/// Power, by `num_traits::Pow<u32>` on `BigInt`, which is exact.
#[verifier::external_body]
pub(crate) fn big_pow(an: bool, a: &[u32], e: u32) -> (r: (bool, Vec<u32>))
    ensures
        canonical(r.0, r.1@),
        signed_value(r.0, r.1@) == vstd::arithmetic::power::pow(signed_value(an, a@), e as nat),
{
    let x = BigInt::from_slice(if an { Sign::Minus } else { Sign::Plus }, a);
    let (s, d) = num_traits::Pow::pow(x, e).to_u32_digits();
    (s == Sign::Minus, d)
}

/// Comparison, by `num_bigint`'s `Ord for BigInt`, which orders by value:
/// `-1`, `0` or `1` as the first is less, equal or greater.
#[verifier::external_body]
pub(crate) fn big_compare(an: bool, a: &[u32], bn: bool, b: &[u32]) -> (r: i32)
    ensures
        r == (if signed_value(an, a@) < signed_value(bn, b@) {
            -1i32
        } else if signed_value(an, a@) == signed_value(bn, b@) {
            0i32
        } else {
            1i32
        }),
{
    let x = BigInt::from_slice(if an { Sign::Minus } else { Sign::Plus }, a);
    let y = BigInt::from_slice(if bn { Sign::Minus } else { Sign::Plus }, b);
    match Ord::cmp(&x, &y) {
        core::cmp::Ordering::Less => -1,
        core::cmp::Ordering::Equal => 0,
        core::cmp::Ordering::Greater => 1,
    }
}

/// Equality, by `num_bigint`'s `PartialEq for BigInt`, which compares values.
#[verifier::external_body]
pub(crate) fn big_eq(an: bool, a: &[u32], bn: bool, b: &[u32]) -> (r: bool)
    ensures
        r == (signed_value(an, a@) == signed_value(bn, b@)),
{
    let x = BigInt::from_slice(if an { Sign::Minus } else { Sign::Plus }, a);
    let y = BigInt::from_slice(if bn { Sign::Minus } else { Sign::Plus }, b);
    x == y
}

/// Bit count of the magnitude, by `BigInt::bits`.
#[verifier::external_body]
pub(crate) fn big_bits(an: bool, a: &[u32]) -> (r: u64)
    ensures
        r == bit_length(vstd::math::abs(signed_value(an, a@)) as nat),
{
    BigInt::from_slice(if an { Sign::Minus } else { Sign::Plus }, a).bits()
}


/// The character of a decimal digit.
pub open spec fn digit_char(d: int) -> char {
    (d + 48) as char
}

/// The decimal digits of a natural number, most significant first, with no
/// leading zero.
pub open spec fn decimal_digits(m: nat) -> Seq<char>
    decreases m,
{
    if m < 10 {
        seq![digit_char(m as int)]
    } else {
        decimal_digits(m / 10).push(digit_char((m % 10) as int))
    }
}

/// The decimal form of an integer: a minus sign for a negative one, then
/// the digits of its magnitude.
pub open spec fn decimal(n: int) -> Seq<char> {
    if n < 0 {
        seq!['-'] + decimal_digits((-n) as nat)
    } else {
        decimal_digits(n as nat)
    }
}

/// One decimal digit as text.
fn digit_str(d: u64) -> (s: &'static str)
    requires
        d < 10,
    ensures
        s@ == seq![digit_char(d as int)],
{
    proof {
        reveal_strlit("0");
        reveal_strlit("1");
        reveal_strlit("2");
        reveal_strlit("3");
        reveal_strlit("4");
        reveal_strlit("5");
        reveal_strlit("6");
        reveal_strlit("7");
        reveal_strlit("8");
        reveal_strlit("9");
    }
    let s = match d {
        0 => "0",
        1 => "1",
        2 => "2",
        3 => "3",
        4 => "4",
        5 => "5",
        6 => "6",
        7 => "7",
        8 => "8",
        _ => "9",
    };
    assert(s@ =~= seq![digit_char(d as int)]);
    s
}

/// The decimal digits of `m`.
pub fn u64_decimal(m: u64) -> (s: String)
    ensures
        s@ == decimal_digits(m as nat),
    decreases m,
{
    if m < 10 {
        String::from_str(digit_str(m))
    } else {
        let mut s = u64_decimal(m / 10);
        s.append(digit_str(m % 10));
        s
    }
}

/// The decimal form of `n`.
pub fn i64_decimal(n: i64) -> (s: String)
    ensures
        s@ == decimal(n as int),
{
    if n < 0 {
        let m: u64 = if n == i64::MIN {
            9223372036854775808u64
        } else {
            (-n) as u64
        };
        proof {
            reveal_strlit("-");
        }
        let mut s = String::from_str("-");
        let t = u64_decimal(m);
        s.append(t.as_str());
        s
    } else {
        u64_decimal(n as u64)
    }
}

/// The decimal form of a wide integer, by `num_bigint`'s `Display for
/// BigInt`: a minus sign for a negative value, then the digits of the
/// magnitude with no leading zero.
#[verifier::external_body]
pub(crate) fn big_decimal(an: bool, a: &[u32]) -> (r: String)
    ensures
        r@ == decimal(signed_value(an, a@)),
{
    BigInt::from_slice(if an { Sign::Minus } else { Sign::Plus }, a).to_string()
}

} // verus!
