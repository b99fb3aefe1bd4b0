//! Arbitrary-precision integers with an inline fast path.
//!
//! Nearly every value that flows through the exact-arithmetic core is small,
//! so an [`Int`] stays an `i64` for as long as it can and widens only on
//! overflow. The two representations are observationally identical: division
//! truncates toward zero and the remainder takes the sign of the dividend,
//! whichever is in use.

use core::cmp::Ordering;
use vstd::prelude::*;

use super::divisibility::{
    gcd, lemma_gcd_divides, lemma_gcd_odd_parts, lemma_gcd_odd_pow2, lemma_gcd_sub, lemma_gcd_sym,
};
use vstd::arithmetic::power2::{lemma_pow2_pos, pow2};
use vstd::bits::{lemma_u64_shl_is_mul, lemma_u64_shr_is_div};
use vstd::std_specs::bits::{axiom_u64_trailing_zeros, u64_trailing_zeros};
use super::digits::{
    big_add, big_bits, big_compare, big_decimal, big_div_rem, big_eq, big_mul, big_pow, big_sub,
    bit_length, canonical, decimal, digits_to_i64, fits_i64, i64_decimal, signed_value,
    small_digits, tdiv, trem,
};

verus! {

/// A value too wide for an `i64`: a sign and base-2^32 digits.
pub struct Wide {
    neg: bool,
    mag: Vec<u32>,
}

impl Wide {
    /// The integer this value spells.
    pub closed spec fn value(&self) -> int {
        signed_value(self.neg, self.mag@)
    }

    #[verifier::type_invariant]
    spec fn inv(&self) -> bool {
        &&& canonical(self.neg, self.mag@)
        &&& !fits_i64(signed_value(self.neg, self.mag@))
    }
}

impl Clone for Wide {
    fn clone(&self) -> (r: Self)
        ensures
            r.value() == self.value(),
    {
        proof {
            use_type_invariant(self);
        }
        let mag = self.mag.clone();
        assert(mag@ =~= self.mag@);
        Wide { neg: self.neg, mag }
    }
}

/// An integer that is either inline or wide.
pub enum Int {
    Small(i64),
    Big(Wide),
}

impl View for Int {
    type V = int;

    open spec fn view(&self) -> int {
        match self {
            Int::Small(n) => *n as int,
            Int::Big(w) => w.value(),
        }
    }
}

impl Clone for Int {
    fn clone(&self) -> (r: Self)
        ensures
            r@ == self@,
    {
        match self {
            Int::Small(n) => Int::Small(*n),
            Int::Big(w) => Int::Big(w.clone()),
        }
    }
}

/// The three-way comparison of two integers.
pub open spec fn ordering_of(a: int, b: int) -> Ordering {
    if a < b {
        Ordering::Less
    } else if a == b {
        Ordering::Equal
    } else {
        Ordering::Greater
    }
}

/// The sign of an integer as `-1`, `0` or `1`.
pub open spec fn sign_of(a: int) -> int {
    if a > 0 {
        1
    } else if a < 0 {
        -1
    } else {
        0
    }
}

#[inline]
fn wrap_small(n: i64) -> (r: Int)
    ensures
        r@ == n,
{
    Int::Small(n)
}

/// Demote a wide value back to the inline representation when it fits.
fn shrink(neg: bool, mag: Vec<u32>) -> (r: Int)
    requires
        canonical(neg, mag@),
    ensures
        r@ == signed_value(neg, mag@),
{
    match digits_to_i64(neg, &mag) {
        Some(v) => Int::Small(v),
        None => Int::Big(Wide { neg, mag }),
    }
}

impl Int {
    /// The integer `n`.
    #[inline]
    pub fn from_i64(n: i64) -> (r: Int)
        ensures
            r@ == n,
    {
        wrap_small(n)
    }

    /// The integer spelled by a sign and base-2^32 digits, least significant
    /// first; high zero digits are allowed.
    pub fn from_digits(neg: bool, mag: &Vec<u32>) -> (r: Int)
        ensures
            r@ == signed_value(neg, mag@),
    {
        let mut v: Vec<u32> = mag.clone();
        assert(v@ =~= mag@);
        // Trailing zero digits add nothing.
        let zero = Int::from_i64(0);
        let mut acc = zero;
        let mut i: usize = v.len();
        let base = Int::from_i64(4294967296);
        while i > 0
            invariant
                i <= v.len(),
                v@ == mag@,
                base@ == 4294967296,
                acc@ == super::digits::digits_value(v@.skip(i as int)),
            decreases i,
        {
            i = i - 1;
            proof {
                assert(v@.skip(i as int).skip(1) =~= v@.skip(i as int + 1));
                assert(super::digits::digits_value(v@.skip(i as int)) == v@[i as int]
                    + super::digits::base() * super::digits::digits_value(v@.skip(i as int + 1)));
            }
            let d = Int::from_i64(v[i] as i64);
            acc = acc.mul(&base).add(&d);
        }
        assert(v@.skip(0) =~= v@);
        if neg {
            acc.neg()
        } else {
            acc
        }
    }

    /// The sign and canonical base-2^32 digits of this value.
    pub fn to_digits(&self) -> (r: (bool, Vec<u32>))
        ensures
            canonical(r.0, r.1@),
            signed_value(r.0, r.1@) == self@,
    {
        match self {
            Int::Small(n) => small_digits(*n),
            Int::Big(w) => {
                proof {
                    use_type_invariant(w);
                }
                let mag = w.mag.clone();
                assert(mag@ =~= w.mag@);
                (w.neg, mag)
            },
        }
    }

    /// The decimal form.
    pub fn to_string(&self) -> (r: String)
        ensures
            r@ == decimal(self@),
    {
        match self {
            Int::Small(n) => i64_decimal(*n),
            Int::Big(w) => big_decimal(w.neg, w.mag.as_slice()),
        }
    }

    /// The value as an `i64`, when it fits.
    #[inline]
    pub fn to_i64(&self) -> (r: Option<i64>)
        ensures
            r is Some <==> fits_i64(self@),
            r matches Some(v) ==> v == self@,
    {
        match self {
            Int::Small(n) => Some(*n),
            Int::Big(w) => {
                proof {
                    use_type_invariant(w);
                }
                None
            },
        }
    }

    #[inline]
    pub fn is_zero(&self) -> (r: bool)
        ensures
            r == (self@ == 0),
    {
        match self {
            Int::Small(n) => *n == 0,
            Int::Big(w) => {
                proof {
                    use_type_invariant(w);
                }
                false
            },
        }
    }

    #[inline]
    pub fn is_one(&self) -> (r: bool)
        ensures
            r == (self@ == 1),
    {
        match self {
            Int::Small(n) => *n == 1,
            Int::Big(w) => {
                proof {
                    use_type_invariant(w);
                }
                false
            },
        }
    }

    /// `-1`, `0` or `1` as the value is negative, zero or positive.
    #[inline]
    pub fn sign(&self) -> (r: i32)
        ensures
            r == sign_of(self@),
    {
        match self {
            Int::Small(n) => {
                if *n > 0 {
                    1
                } else if *n < 0 {
                    -1
                } else {
                    0
                }
            },
            Int::Big(w) => {
                proof {
                    use_type_invariant(w);
                }
                if w.neg {
                    -1
                } else {
                    1
                }
            },
        }
    }

    /// The absolute value.
    #[inline]
    pub fn abs(&self) -> (r: Int)
        ensures
            r@ == vstd::math::abs(self@),
    {
        match self {
            Int::Small(n) => {
                if *n == i64::MIN {
                    let (_, mag) = small_digits(*n);
                    shrink(false, mag)
                } else if *n < 0 {
                    wrap_small(-*n)
                } else {
                    wrap_small(*n)
                }
            },
            Int::Big(w) => {
                proof {
                    use_type_invariant(w);
                }
                let mag = w.mag.clone();
                assert(mag@ =~= w.mag@);
                shrink(false, mag)
            },
        }
    }

    /// The negation.
    #[inline]
    pub fn neg(&self) -> (r: Int)
        ensures
            r@ == -self@,
    {
        match self {
            Int::Small(n) => {
                if *n == i64::MIN {
                    let (_, mag) = small_digits(*n);
                    shrink(false, mag)
                } else {
                    wrap_small(-*n)
                }
            },
            Int::Big(w) => {
                proof {
                    use_type_invariant(w);
                }
                let mag = w.mag.clone();
                assert(mag@ =~= w.mag@);
                shrink(!w.neg, mag)
            },
        }
    }

    #[inline]
    pub fn add(&self, y: &Int) -> (r: Int)
        ensures
            r@ == self@ + y@,
    {
        if let Int::Small(a) = self {
            if let Int::Small(b) = y {
                if let Some(v) = a.checked_add(*b) {
                    return wrap_small(v);
                }
            }
        }
        let (an, am) = self.to_digits();
        let (bn, bm) = y.to_digits();
        let (rn, rm) = big_add(an, am.as_slice(), bn, bm.as_slice());
        shrink(rn, rm)
    }

    #[inline]
    pub fn sub(&self, y: &Int) -> (r: Int)
        ensures
            r@ == self@ - y@,
    {
        if let Int::Small(a) = self {
            if let Int::Small(b) = y {
                if let Some(v) = a.checked_sub(*b) {
                    return wrap_small(v);
                }
            }
        }
        let (an, am) = self.to_digits();
        let (bn, bm) = y.to_digits();
        let (rn, rm) = big_sub(an, am.as_slice(), bn, bm.as_slice());
        shrink(rn, rm)
    }

    #[inline]
    pub fn mul(&self, y: &Int) -> (r: Int)
        ensures
            r@ == self@ * y@,
    {
        if let Int::Small(a) = self {
            if let Int::Small(b) = y {
                if let Some(v) = a.checked_mul(*b) {
                    return wrap_small(v);
                }
            }
        }
        let (an, am) = self.to_digits();
        let (bn, bm) = y.to_digits();
        let (rn, rm) = big_mul(an, am.as_slice(), bn, bm.as_slice());
        shrink(rn, rm)
    }

    /// Truncating division: the quotient rounds toward zero.
    #[inline]
    pub fn div(&self, y: &Int) -> (r: Int)
        requires
            y@ != 0,
        ensures
            r@ == tdiv(self@, y@),
    {
        if let Int::Small(a) = self {
            if let Int::Small(b) = y {
                if let Some(v) = a.checked_div(*b) {
                    return wrap_small(v);
                }
            }
        }
        let (an, am) = self.to_digits();
        let (bn, bm) = y.to_digits();
        let ((qn, qm), _) = big_div_rem(an, am.as_slice(), bn, bm.as_slice());
        shrink(qn, qm)
    }

    /// Remainder taking the sign of the dividend.
    #[inline]
    pub fn rem(&self, y: &Int) -> (r: Int)
        requires
            y@ != 0,
        ensures
            r@ == trem(self@, y@),
    {
        if let Int::Small(a) = self {
            if let Int::Small(b) = y {
                if let Some(v) = a.checked_rem(*b) {
                    proof {
                        lemma_small_rem(*a as int, *b as int);
                    }
                    return wrap_small(v);
                }
            }
        }
        let (an, am) = self.to_digits();
        let (bn, bm) = y.to_digits();
        let (_, (rn, rm)) = big_div_rem(an, am.as_slice(), bn, bm.as_slice());
        shrink(rn, rm)
    }

    /// Quotient and remainder of truncating division.
    #[inline]
    pub fn div_rem(&self, y: &Int) -> (r: (Int, Int))
        requires
            y@ != 0,
        ensures
            r.0@ == tdiv(self@, y@),
            r.1@ == trem(self@, y@),
    {
        if let Int::Small(a) = self {
            if let Int::Small(b) = y {
                if let Some(q) = a.checked_div(*b) {
                    if let Some(m) = a.checked_rem(*b) {
                        proof {
                            lemma_small_rem(*a as int, *b as int);
                        }
                        return (wrap_small(q), wrap_small(m));
                    }
                }
            }
        }
        let (an, am) = self.to_digits();
        let (bn, bm) = y.to_digits();
        let ((qn, qm), (rn, rm)) = big_div_rem(an, am.as_slice(), bn, bm.as_slice());
        (shrink(qn, qm), shrink(rn, rm))
    }

    /// `x ** n`.
    pub fn pow(&self, n: u32) -> (r: Int)
        ensures
            r@ == vstd::arithmetic::power::pow(self@, n as nat),
    {
        if let Int::Small(a) = self {
            if let Some(v) = checked_pow_i64(*a, n) {
                return wrap_small(v);
            }
        }
        let (an, am) = self.to_digits();
        let (rn, rm) = big_pow(an, am.as_slice(), n);
        shrink(rn, rm)
    }

    /// Three-way comparison by value.
    #[inline]
    pub fn cmp(&self, other: &Int) -> (r: Ordering)
        ensures
            r == ordering_of(self@, other@),
    {
        if let Int::Small(a) = self {
            if let Int::Small(b) = other {
                return if *a < *b {
                    Ordering::Less
                } else if *a == *b {
                    Ordering::Equal
                } else {
                    Ordering::Greater
                };
            }
        }
        let (an, am) = self.to_digits();
        let (bn, bm) = other.to_digits();
        let c = big_compare(an, am.as_slice(), bn, bm.as_slice());
        if c < 0 {
            Ordering::Less
        } else if c == 0 {
            Ordering::Equal
        } else {
            Ordering::Greater
        }
    }

    /// Equality by value.
    #[inline]
    pub fn eq(&self, other: &Int) -> (r: bool)
        ensures
            r == (self@ == other@),
    {
        if let Int::Small(a) = self {
            if let Int::Small(b) = other {
                return *a == *b;
            }
        }
        let (an, am) = self.to_digits();
        let (bn, bm) = other.to_digits();
        big_eq(an, am.as_slice(), bn, bm.as_slice())
    }

    /// Greatest common divisor of the absolute values (Euclid's algorithm;
    /// Stein's binary algorithm when both fit a word).
    pub fn gcd(&self, other: &Int) -> (r: Int)
        ensures
            r@ == gcd(vstd::math::abs(self@), vstd::math::abs(other@)),
    {
        if let Int::Small(a) = self {
            if let Int::Small(b) = other {
                if let Some(g) = small_gcd(*a, *b) {
                    return wrap_small(g);
                }
            }
        }
        let mut x = self.abs();
        let mut y = other.abs();
        match x.cmp(&y) {
            Ordering::Less => {
                proof {
                    lemma_gcd_sym(vstd::math::abs(x@), vstd::math::abs(y@));
                }
                core::mem::swap(&mut x, &mut y);
            },
            _ => {},
        }
        while !y.is_zero()
            invariant
                x@ >= 0,
                y@ >= 0,
                gcd(vstd::math::abs(x@), vstd::math::abs(y@)) == gcd(
                    vstd::math::abs(self@),
                    vstd::math::abs(other@),
                ),
            decreases y@,
        {
            let r = x.rem(&y);
            proof {
                lemma_trem_abs(x@, y@);
                vstd::arithmetic::div_mod::lemma_mod_bound(x@, y@);
            }
            x = y;
            y = r;
        }
        x
    }

    /// Returns `(r, s, t)` with `r == a*s + b*t` and `|r| == gcd(|a|, |b|)`.
    pub fn extended_gcd(a: &Int, b: &Int) -> (res: (Int, Int, Int))
        ensures
            (res.0@, res.1@, res.2@) == xgcd(a@, b@, 1, 0, 0, 1),
            res.0@ == a@ * res.1@ + b@ * res.2@,
            vstd::math::abs(res.0@) == gcd(vstd::math::abs(a@), vstd::math::abs(b@)),
    {
        let mut r0 = a.clone();
        let mut r1 = b.clone();
        let mut s0 = Int::from_i64(1);
        let mut s1 = Int::from_i64(0);
        let mut t0 = Int::from_i64(0);
        let mut t1 = Int::from_i64(1);
        while !r1.is_zero()
            invariant
                r0@ == a@ * s0@ + b@ * t0@,
                r1@ == a@ * s1@ + b@ * t1@,
                gcd(vstd::math::abs(r0@), vstd::math::abs(r1@)) == gcd(
                    vstd::math::abs(a@),
                    vstd::math::abs(b@),
                ),
                xgcd(r0@, r1@, s0@, s1@, t0@, t1@) == xgcd(a@, b@, 1, 0, 0, 1),
            decreases vstd::math::abs(r1@),
        {
            let (q, r2) = r0.div_rem(&r1);
            proof {
                lemma_trem_abs(r0@, r1@);
                vstd::arithmetic::div_mod::lemma_mod_bound(
                    vstd::math::abs(r0@) as int,
                    vstd::math::abs(r1@) as int,
                );
            }
            let s2 = s0.sub(&q.mul(&s1));
            let t2 = t0.sub(&q.mul(&t1));
            proof {
                lemma_bezout_step(a@, b@, s0@, t0@, s1@, t1@, q@);
            }
            r0 = r1;
            r1 = r2;
            s0 = s1;
            s1 = s2;
            t0 = t1;
            t1 = t2;
        }
        (r0, s0, t0)
    }

    /// An upper bound on the square root by Newton's iteration: for `n >= 2`
    /// the least `s` with `n < s*s`; `n` itself for `n <= 1`.
    pub fn sqrt_upper(&self) -> (r: Int)
        ensures
            self@ <= 1 ==> r@ == self@,
            self@ >= 2 ==> (r@ - 1) * (r@ - 1) <= self@ < r@ * r@,
    {
        let ghost n = self@;
        let ghost t: int = if n >= 2 {
            root_witness(n as nat) as int
        } else {
            1
        };
        let one = Int::from_i64(1);
        let two = Int::from_i64(2);
        let mut s_prev = Int::from_i64(-1);
        let mut s = self.clone();
        proof {
            if n >= 2 {
                assert(t <= n) by (nonlinear_arith)
                    requires
                        (t - 1) * (t - 1) <= n,
                        t >= 2,
                        n >= 2,
                ;
            }
        }
        while s.sign() > 0 && !s.eq(&s_prev)
            invariant
                n == self@,
                one@ == 1,
                two@ == 2,
                n >= 2 ==> t >= 2 && (t - 1) * (t - 1) <= n < t * t,
                n >= 2 ==> s@ >= t,
                n >= 2 ==> (s_prev@ == -1 || s@ == newton_step(n, s_prev@)),
                n >= 2 ==> (s_prev@ == -1 ==> s@ == n),
                n == 1 ==> s@ == 1,
                n <= 0 ==> s@ == n,
            decreases s@ + (if s@ == s_prev@ {
                0int
            } else {
                1int
            }),
        {
            let ghost old_s = s@;
            s_prev = s.clone();
            let num = s.mul(&s).add(self).sub(&one);
            let den = two.mul(&s);
            proof {
                assert(num@ >= 0) by (nonlinear_arith)
                    requires
                        num@ == old_s * old_s + n - 1,
                        old_s >= 1,
                        n >= 1,
                ;
                assert(tdiv(num@, den@) == num@ / den@);
            }
            s = num.div(&den).add(&one);
            proof {
                assert(s@ == newton_step(n, old_s));
                if n >= 2 {
                    lemma_newton_step(n, t, old_s);
                } else {
                    assert(num@ == 1 && den@ == 2);
                    assert(1int / 2int == 0);
                    assert(s@ == 1);
                }
            }
        }
        proof {
            if n >= 2 {
                if s@ != t {
                    lemma_newton_step(n, t, s@);
                }
            }
        }
        s
    }

    /// `n!`, with `n! == 1` for `n <= 1`.
    pub fn factorial(n: &Int) -> (r: Int)
        ensures
            r@ == factorial(n@),
    {
        let one = Int::from_i64(1);
        let mut nfac = one.clone();
        let mut i = Int::from_i64(2);
        while !i.greater_than(n)
            invariant
                one@ == 1,
                2 <= i@,
                n@ >= 1 ==> i@ <= n@ + 1,
                n@ < 2 ==> i@ == 2,
                nfac@ == factorial(i@ - 1),
            decreases n@ + 1 - i@,
        {
            let ghost f0 = nfac@;
            nfac = nfac.mul(&i);
            proof {
                assert(factorial(i@) == i@ * factorial(i@ - 1));
                vstd::arithmetic::mul::lemma_mul_is_commutative(f0, i@);
                assert(nfac@ == factorial(i@));
            }
            i = i.add(&one);
        }
        proof {
            assert(factorial(1) == 1);
            if n@ <= 0 {
                assert(factorial(n@) == 1);
            }
        }
        nfac
    }

    /// The binomial coefficient `n! / (k! (n-k)!)`.
    pub fn comb(n: &Int, k: &Int) -> (r: Int)
        ensures
            r@ == tdiv(factorial(n@), factorial(k@) * factorial(n@ - k@)),
    {
        let nf = Int::factorial(n);
        let kf = Int::factorial(k);
        let nkf = Int::factorial(&n.sub(k));
        proof {
            lemma_factorial_pos(k@);
            lemma_factorial_pos(n@ - k@);
            assert(kf@ * nkf@ >= 1) by (nonlinear_arith)
                requires
                    kf@ >= 1,
                    nkf@ >= 1,
            ;
        }
        nf.div(&kf.mul(&nkf))
    }

    /// `self < other`.
    pub fn less_than(&self, other: &Int) -> (r: bool)
        ensures
            r == (self@ < other@),
    {
        match self.cmp(other) {
            Ordering::Less => true,
            _ => false,
        }
    }

    /// `self > other`.
    pub fn greater_than(&self, other: &Int) -> (r: bool)
        ensures
            r == (self@ > other@),
    {
        match self.cmp(other) {
            Ordering::Greater => true,
            _ => false,
        }
    }

    /// Number of bits in `|self|`.
    pub fn bits(&self) -> (r: u64)
        ensures
            r == bit_length(vstd::math::abs(self@) as nat),
    {
        match self {
            Int::Small(n) => {
                let u: u64 = if *n >= 0 {
                    *n as u64
                } else if *n == i64::MIN {
                    0x8000_0000_0000_0000u64
                } else {
                    (-*n) as u64
                };
                let lz = u.leading_zeros();
                proof {
                    lemma_leading_zeros_bits(u);
                }
                64 - lz as u64
            },
            Int::Big(w) => {
                let (an, am) = self.to_digits();
                big_bits(an, am.as_slice())
            },
        }
    }
}


/// The odd part of a non-zero word and the power of two beside it.
proof fn lemma_odd_part(x: u64)
    requires
        x != 0,
    ensures
        u64_trailing_zeros(x) < 64,
        (x >> (u64_trailing_zeros(x) as u64)) % 2 == 1,
        x as nat == (x >> (u64_trailing_zeros(x) as u64)) as nat * pow2(u64_trailing_zeros(x) as nat),
        (x >> (u64_trailing_zeros(x) as u64)) <= x,
{
    axiom_u64_trailing_zeros(x);
    let t = u64_trailing_zeros(x) as u64;
    assert(t < 64);
    assert((x >> t) & 1u64 == 1u64 ==> (x >> t) % 2 == 1) by (bit_vector);
    assert(t < 64 && x << ((64 - t) as u64) == 0 ==> (x >> t) << t == x) by (bit_vector);
    assert((x >> t) <= x) by (bit_vector);
    lemma_u64_shr_is_div(x, t);
    lemma_pow2_pos(t as nat);
    vstd::arithmetic::div_mod::lemma_fundamental_div_mod(x as int, pow2(t as nat) as int);
    let q = (x >> t) as nat;
    assert(q * pow2(t as nat) <= x) by (nonlinear_arith)
        requires
            q == x as nat / pow2(t as nat),
            x == pow2(t as nat) * (x as nat / pow2(t as nat)) + x as nat % pow2(t as nat),
            x as nat % pow2(t as nat) >= 0,
    ;
    lemma_u64_shl_is_mul(x >> t, t);
}

/// The trailing zeros of `a | b` are the fewer of those of `a` and `b`.
proof fn lemma_trailing_zeros_or(a: u64, b: u64)
    requires
        a != 0,
        b != 0,
    ensures
        u64_trailing_zeros(a | b) == (if u64_trailing_zeros(a) <= u64_trailing_zeros(b) {
            u64_trailing_zeros(a)
        } else {
            u64_trailing_zeros(b)
        }),
{
    axiom_u64_trailing_zeros(a);
    axiom_u64_trailing_zeros(b);
    axiom_u64_trailing_zeros(a | b);
    assert(a != 0 ==> a | b != 0) by (bit_vector);
    let s = u64_trailing_zeros(a | b) as u64;
    let ta = u64_trailing_zeros(a) as u64;
    let tb = u64_trailing_zeros(b) as u64;
    assert((a >> ta) & 1u64 == 1u64 ==> ((a | b) >> ta) & 1u64 == 1u64) by (bit_vector);
    assert((b >> tb) & 1u64 == 1u64 ==> ((a | b) >> tb) & 1u64 == 1u64) by (bit_vector);
    if ta < s {
        assert(((a | b) >> ta) & 1u64 == 0u64);
    }
    if tb < s {
        assert(((a | b) >> tb) & 1u64 == 0u64);
    }
    assert(((a | b) >> s) & 1u64 == 1u64 ==> (a >> s) & 1u64 == 1u64 || (b >> s) & 1u64 == 1u64)
        by (bit_vector);
    if (a >> s) & 1u64 == 1u64 {
        if s < ta {
            assert((a >> s) & 1u64 == 0u64);
        }
    } else {
        if s < tb {
            assert((b >> s) & 1u64 == 0u64);
        }
    }
}

/// Stein's binary GCD on two non-negative values.
fn binary_gcd(a: u64, b: u64) -> (r: u64)
    ensures
        r == gcd(a as nat, b as nat),
{
    let ghost a0 = a;
    let ghost b0 = b;
    let mut a = a;
    let mut b = b;
    if a == 0 {
        proof {
            lemma_gcd_sym(0, b as nat);
        }
        return b;
    }
    if b == 0 {
        return a;
    }
    let shift = (a | b).trailing_zeros();
    let ta = a.trailing_zeros();
    proof {
        lemma_odd_part(a);
        lemma_odd_part(b);
        lemma_trailing_zeros_or(a, b);
        let tb = u64_trailing_zeros(b);
        let ao = (a >> (ta as u64)) as nat;
        let bo = (b >> (tb as u64)) as nat;
        lemma_gcd_odd_parts(ao, ta as nat, bo, tb as nat, shift as nat);
        lemma_gcd_divides(a as nat, b as nat);
    }
    a = a >> (ta as u64);
    loop
        invariant_except_break
            b > 0,
        invariant
            a % 2 == 1,
            shift < 64,
            a0 > 0,
            gcd(a0 as nat, b0 as nat) <= a0,
            pow2(shift as nat) * gcd(a as nat, b as nat) == gcd(a0 as nat, b0 as nat),
        ensures
            b == 0,
        decreases a + b,
    {
        let tb = b.trailing_zeros();
        proof {
            lemma_odd_part(b);
            lemma_gcd_odd_pow2(a as nat, (b >> (tb as u64)) as nat, tb as nat);
        }
        b = b >> (tb as u64);
        if a > b {
            proof {
                lemma_gcd_sym(a as nat, b as nat);
            }
            core::mem::swap(&mut a, &mut b);
        }
        proof {
            lemma_gcd_sub(a as nat, b as nat);
        }
        b = b - a;
        if b == 0 {
            break;
        }
    }
    proof {
        lemma_pow2_pos(shift as nat);
        assert(a * pow2(shift as nat) <= u64::MAX) by (nonlinear_arith)
            requires
                pow2(shift as nat) * a == gcd(a0 as nat, b0 as nat),
                gcd(a0 as nat, b0 as nat) <= a0,
        ;
        lemma_u64_shl_is_mul(a, shift as u64);
        assert(gcd(a as nat, 0) == a);
        vstd::arithmetic::mul::lemma_mul_is_commutative(a as int, pow2(shift as nat) as int);
    }
    a << (shift as u64)
}

/// `|trem(a, b)| == |a| % |b|`, and the remainder takes the sign of `a`.
pub proof fn lemma_trem_abs(a: int, b: int)
    requires
        b != 0,
    ensures
        vstd::math::abs(trem(a, b)) == vstd::math::abs(a) % vstd::math::abs(b),
        a >= 0 ==> trem(a, b) >= 0,
        a <= 0 ==> trem(a, b) <= 0,
{
    lemma_small_rem(a, b);
    vstd::arithmetic::div_mod::lemma_mod_bound(vstd::math::abs(a) as int, vstd::math::abs(b) as int);
}

/// The gcd of the magnitudes of two `i64`s, when neither is `i64::MIN`.
fn small_gcd(a: i64, b: i64) -> (r: Option<i64>)
    ensures
        r matches Some(g) ==> g == gcd(vstd::math::abs(a as int), vstd::math::abs(b as int)),
{
    if a == i64::MIN || b == i64::MIN {
        return None;
    }
    let x: u64 = if a < 0 {
        (-a) as u64
    } else {
        a as u64
    };
    let y: u64 = if b < 0 {
        (-b) as u64
    } else {
        b as u64
    };
    let g = binary_gcd(x, y);
    proof {
        lemma_gcd_divides(x as nat, y as nat);
    }
    Some(g as i64)
}

/// `n!`, taking `n! == 1` for `n <= 1`.
pub open spec fn factorial(n: int) -> int
    decreases n,
{
    if n <= 1 {
        1
    } else {
        n * factorial(n - 1)
    }
}

/// Factorials are positive.
pub proof fn lemma_factorial_pos(n: int)
    ensures
        factorial(n) >= 1,
    decreases n,
{
    if n > 1 {
        lemma_factorial_pos(n - 1);
        assert(n * factorial(n - 1) >= 1) by (nonlinear_arith)
            requires
                n > 1,
                factorial(n - 1) >= 1,
        ;
    }
}

/// One Newton step of the upper square root.
pub open spec fn newton_step(n: int, s: int) -> int {
    (s * s + n - 1) / (2 * s) + 1
}

/// Some `t >= 1` with `(t - 1)^2 <= n < t^2`.
proof fn root_witness(n: nat) -> (t: nat)
    ensures
        t >= 1,
        (t - 1) * (t - 1) <= n < t * t,
        n >= 2 ==> t >= 2,
    decreases n,
{
    if n == 0 {
        1
    } else {
        let t0 = root_witness((n - 1) as nat);
        if n < t0 * t0 {
            assert(n >= 2 ==> t0 >= 2) by (nonlinear_arith)
                requires
                    n < t0 * t0,
                    t0 >= 1,
            ;
            t0
        } else {
            assert(n < (t0 + 1) * (t0 + 1)) by (nonlinear_arith)
                requires
                    n == t0 * t0,
                    t0 >= 1,
            ;
            assert((t0 + 1 - 1) * (t0 + 1 - 1) <= n) by (nonlinear_arith)
                requires
                    n == t0 * t0,
            ;
            t0 + 1
        }
    }
}

/// From any `s >= t`, a Newton step stays at or above `t`, never rises, and
/// stands still only at `t`.
proof fn lemma_newton_step(n: int, t: int, s: int)
    requires
        n >= 2,
        t >= 2,
        (t - 1) * (t - 1) <= n < t * t,
        s >= t,
    ensures
        t <= newton_step(n, s) <= s,
        newton_step(n, s) == s ==> s == t,
{
    let x = s * s + n - 1;
    let d = 2 * s;
    assert(x >= d * (t - 1)) by (nonlinear_arith)
        requires
            x == s * s + n - 1,
            d == 2 * s,
            (t - 1) * (t - 1) <= n,
            s >= t,
    ;
    assert(x < d * s) by (nonlinear_arith)
        requires
            x == s * s + n - 1,
            d == 2 * s,
            n < t * t,
            s >= t,
            t >= 0,
    ;
    vstd::arithmetic::div_mod::lemma_fundamental_div_mod(x, d);
    vstd::arithmetic::div_mod::lemma_mod_bound(x, d);
    let q = x / d;
    assert(q >= t - 1) by (nonlinear_arith)
        requires
            x == d * q + x % d,
            0 <= x % d < d,
            x >= d * (t - 1),
            d > 0,
    ;
    assert(q <= s - 1) by (nonlinear_arith)
        requires
            x == d * q + x % d,
            0 <= x % d,
            x < d * s,
            d > 0,
    ;
    if s > t {
        assert(x < d * (s - 1)) by (nonlinear_arith)
            requires
                x == s * s + n - 1,
                d == 2 * s,
                n < t * t,
                s >= t + 1,
                t >= 0,
        ;
        assert(q <= s - 2) by (nonlinear_arith)
            requires
                x == d * q + x % d,
                0 <= x % d,
                x < d * (s - 1),
                d > 0,
        ;
    }
}

/// The extended Euclidean algorithm on truncating division, from the state
/// `(r0, r1, s0, s1, t0, t1)`: the final `(r, s, t)`.
pub open spec fn xgcd(r0: int, r1: int, s0: int, s1: int, t0: int, t1: int) -> (int, int, int)
    decreases vstd::math::abs(r1),
{
    if r1 == 0 {
        (r0, s0, t0)
    } else {
        proof {
            lemma_trem_abs(r0, r1);
            vstd::arithmetic::div_mod::lemma_mod_bound(
                vstd::math::abs(r0) as int,
                vstd::math::abs(r1) as int,
            );
        }
        let q = tdiv(r0, r1);
        xgcd(r1, trem(r0, r1), s1, s0 - q * s1, t1, t0 - q * t1)
    }
}

/// One step of the extended Euclidean algorithm keeps Bezout's identity.
proof fn lemma_bezout_step(a: int, b: int, s0: int, t0: int, s1: int, t1: int, q: int)
    ensures
        (a * s0 + b * t0) - (a * s1 + b * t1) * q == a * (s0 - q * s1) + b * (t0 - q * t1),
{
    vstd::arithmetic::mul::lemma_mul_is_distributive_add_other_way(q, a * s1, b * t1);
    vstd::arithmetic::mul::lemma_mul_is_distributive_sub(a, s0, q * s1);
    vstd::arithmetic::mul::lemma_mul_is_distributive_sub(b, t0, q * t1);
    vstd::arithmetic::mul::lemma_mul_is_associative(a, s1, q);
    vstd::arithmetic::mul::lemma_mul_is_associative(b, t1, q);
    vstd::arithmetic::mul::lemma_mul_is_commutative(s1, q);
    vstd::arithmetic::mul::lemma_mul_is_commutative(t1, q);
    vstd::arithmetic::mul::lemma_mul_is_associative(a, q, s1);
    vstd::arithmetic::mul::lemma_mul_is_associative(b, q, t1);
}

/// `checked_rem` on `i64` computes the truncating remainder.
proof fn lemma_small_rem(a: int, b: int)
    requires
        b != 0,
    ensures
        trem(a, b) == (if a == 0 {
            0
        } else if a > 0 && b > 0 {
            a % b
        } else if a < 0 && b < 0 {
            ((a * -1) % (b * -1)) * -1
        } else if a < 0 {
            ((a * -1) % b) * -1
        } else {
            a % (b * -1)
        }),
{
    let x: int = vstd::math::abs(a) as int;
    let y: int = vstd::math::abs(b) as int;
    let q = x / y;
    vstd::arithmetic::div_mod::lemma_fundamental_div_mod(x, y);
    assert(x == y * q + x % y);
    if (a < 0) == (b < 0) {
        assert(tdiv(a, b) == q);
        if a < 0 {
            assert(b * q == -(y * q)) by (nonlinear_arith)
                requires
                    b == -y,
            ;
        }
    } else {
        assert(tdiv(a, b) == -q);
        if a < 0 {
            assert(b * -q == -(y * q)) by (nonlinear_arith)
                requires
                    b == y,
            ;
        } else {
            assert(b * -q == y * q) by (nonlinear_arith)
                requires
                    b == -y,
            ;
        }
    }
}

/// `64 - leading_zeros` is the bit length.
proof fn lemma_leading_zeros_bits(u: u64)
    ensures
        64 - vstd::std_specs::bits::u64_leading_zeros(u) == bit_length(u as nat),
    decreases u,
{
    reveal(vstd::std_specs::bits::u64_leading_zeros);
    if u != 0 {
        lemma_leading_zeros_bits(u / 2);
    }
}

/// `a^n` when it can be computed without overflowing an `i64`.
fn checked_pow_i64(a: i64, n: u32) -> (r: Option<i64>)
    ensures
        r matches Some(v) ==> v == vstd::arithmetic::power::pow(a as int, n as nat),
{
    let mut acc: i64 = 1;
    let mut i: u32 = 0;
    proof {
        reveal(vstd::arithmetic::power::pow);
    }
    while i < n
        invariant
            i <= n,
            acc == vstd::arithmetic::power::pow(a as int, i as nat),
        decreases n - i,
    {
        match acc.checked_mul(a) {
            Some(v) => {
                proof {
                    reveal(vstd::arithmetic::power::pow);
                    assert(vstd::arithmetic::power::pow(a as int, (i + 1) as nat) == a * vstd::arithmetic::power::pow(a as int, i as nat));
                }
                acc = v;
            },
            None => {
                return None;
            },
        }
        i = i + 1;
    }
    Some(acc)
}

} // verus!
