//! Exact rational arithmetic.
//!
//! The in-place operations carry a `reduce` flag, because an unreduced
//! fraction prints differently (`"2/4"`) and those strings are used as keys,
//! which makes reduction status observable.

use core::cmp::Ordering;

use vstd::prelude::*;
use vstd::string::StringExecFns;

use super::digits::{decimal, tdiv, trem};
use super::divisibility::{divides, gcd, lemma_gcd_divides, lemma_gcd_scale};
use super::integers::{lemma_trem_abs, ordering_of, sign_of, Int};
use super::ring::{Elem, Outcome, RingOps};
use crate::error::{Error, ErrorKind};

verus! {

/// A fraction `n / d`; every fraction the library builds has `d > 0`.
pub struct Fraction {
    pub n: Int,
    pub d: Int,
}

impl View for Fraction {
    type V = (int, int);

    open spec fn view(&self) -> (int, int) {
        (self.n@, self.d@)
    }
}

/// The value of a pair as a rational, compared by cross-multiplication.
pub open spec fn same_value(a: (int, int), b: (int, int)) -> bool {
    a.0 * b.1 == b.0 * a.1
}

/// Dividing out the common factor, with the shortcuts `reduce` takes.
pub open spec fn reduce_spec(n: int, d: int) -> (int, int) {
    if d == 1 {
        (n, d)
    } else if n == 0 {
        (0, 1)
    } else {
        let g = gcd(vstd::math::abs(n), vstd::math::abs(d)) as int;
        if g == 1 {
            (n, d)
        } else {
            (tdiv(n, g), tdiv(d, g))
        }
    }
}

/// Exact division by a divisor.
proof fn lemma_exact_div(x: int, g: int)
    requires
        g > 0,
        vstd::math::abs(x) % (g as nat) == 0,
    ensures
        tdiv(x, g) * g == x,
        x > 0 ==> tdiv(x, g) > 0,
        x < 0 ==> tdiv(x, g) < 0,
{
    lemma_trem_abs(x, g);
    assert(x == g * tdiv(x, g) + trem(x, g));
    assert(tdiv(x, g) * g == g * tdiv(x, g)) by {
        vstd::arithmetic::mul::lemma_mul_is_commutative(tdiv(x, g), g);
    }
    if x > 0 && tdiv(x, g) <= 0 {
        assert(g * tdiv(x, g) <= 0) by (nonlinear_arith)
            requires
                g > 0,
                tdiv(x, g) <= 0,
        ;
    }
    if x < 0 && tdiv(x, g) >= 0 {
        assert(g * tdiv(x, g) >= 0) by (nonlinear_arith)
            requires
                g > 0,
                tdiv(x, g) >= 0,
        ;
    }
}

/// Reduction keeps the value, keeps the denominator positive, and leaves
/// the fraction in lowest terms.
#[verifier::spinoff_prover]
pub proof fn lemma_reduce(n: int, d: int)
    requires
        d > 0,
    ensures
        reduce_spec(n, d).1 > 0,
        same_value(reduce_spec(n, d), (n, d)),
        gcd(vstd::math::abs(reduce_spec(n, d).0), vstd::math::abs(reduce_spec(n, d).1)) == 1,
{
    let r = reduce_spec(n, d);
    if d == 1 {
        assert(gcd(vstd::math::abs(n), 1) == gcd(1, vstd::math::abs(n) % 1));
        assert(vstd::math::abs(n) % 1 == 0);
        assert(gcd(1, 0) == 1);
        assert(same_value(r, (n, d)));
    } else if n == 0 {
        assert(gcd(0, 1) == gcd(1, 0));
        assert(r == (0int, 1int));
        assert(0 * d == 0 * 1) by (nonlinear_arith);
        assert(same_value(r, (n, d)));
    } else {
        let a = vstd::math::abs(n);
        let b = vstd::math::abs(d);
        let g = gcd(a, b);
        lemma_gcd_divides(a, b);
        if g != 1 {
            lemma_exact_div(n, g as int);
            lemma_exact_div(d, g as int);
            let n1 = tdiv(n, g as int);
            let d1 = tdiv(d, g as int);
            assert(n1 * d == n * d1) by (nonlinear_arith)
                requires
                    n1 * g == n,
                    d1 * g == d,
            ;
            let a1 = vstd::math::abs(n1);
            let b1 = vstd::math::abs(d1);
            assert(a == g * a1 && b == g * b1) by (nonlinear_arith)
                requires
                    n1 * g == n,
                    d1 * g == d,
                    a1 == vstd::math::abs(n1),
                    b1 == vstd::math::abs(d1),
                    a == vstd::math::abs(n),
                    b == vstd::math::abs(d),
                    g > 0,
            ;
            lemma_gcd_scale(a1, b1, g);
            assert(g * gcd(a1, b1) == g * 1);
            assert(gcd(a1, b1) == 1) by (nonlinear_arith)
                requires
                    g * gcd(a1, b1) == g * 1,
                    g > 0,
            ;
            assert(r == (n1, d1));
            assert(same_value(r, (n, d)));
        } else {
            assert(same_value(r, (n, d)));
        }
    }
}

/// `new Fraction(n, d, reduce)`: a zero denominator is rejected, a negative
/// one moves its sign to the numerator.
pub open spec fn fraction_new_spec(n: int, d: int, reduce: bool) -> Outcome<(int, int)> {
    if d == 0 {
        Outcome::<(int, int)>::Err(ErrorKind::Range)
    } else {
        let (n1, d1) = if d < 0 {
            (-n, -d)
        } else {
            (n, d)
        };
        Outcome::<(int, int)>::Ok(
            if reduce {
                reduce_spec(n1, d1)
            } else {
                (n1, d1)
            },
        )
    }
}

/// The sum of two fractions before any reduction.
pub open spec fn raw_add(a: (int, int), b: (int, int)) -> (int, int) {
    (a.0 * b.1 + a.1 * b.0, a.1 * b.1)
}

/// The product of two fractions before any reduction.
pub open spec fn raw_mul(a: (int, int), b: (int, int)) -> (int, int) {
    (a.0 * b.0, a.1 * b.1)
}

/// Either the pair or its reduction, as the flag asks.
pub open spec fn maybe_reduce(v: (int, int), reduce: bool) -> (int, int) {
    if reduce {
        reduce_spec(v.0, v.1)
    } else {
        v
    }
}

proof fn lemma_pos_product(a: int, b: int)
    requires
        a > 0,
        b > 0,
    ensures
        a * b > 0,
{
    assert(a * b > 0) by (nonlinear_arith)
        requires
            a > 0,
            b > 0,
    ;
}

impl Fraction {
    /// `new Fraction(n, d, reduce)`.
    pub fn new(n: Int, d: Int, reduce: bool) -> (r: core::result::Result<Fraction, Error>)
        ensures
            super::ring::matches_outcome(r, fraction_new_spec(n@, d@, reduce)),
            r matches Ok(f) ==> f@.1 > 0,
            r matches Err(e) ==> e.spec_message() == "Division by zero"@,
    {
        let s = d.sign();
        let (n, d) = if s == -1 {
            (n.neg(), d.neg())
        } else if s == 0 {
            return Err(Error::Range("Division by zero".to_owned()));
        } else {
            (n, d)
        };
        let mut f = Fraction { n, d };
        if reduce {
            f.reduce();
        }
        Ok(f)
    }

    /// `fraction(n, d)`: the reducing constructor, for a non-zero `d`.
    pub fn of(n: i64, d: i64) -> (r: Fraction)
        requires
            d != 0,
        ensures
            fraction_new_spec(n as int, d as int, true) == Outcome::<(int, int)>::Ok(r@),
            r@.1 > 0,
    {
        match Fraction::new(Int::from_i64(n), Int::from_i64(d), true) {
            Ok(f) => f,
            Err(_) => {
                proof {
                    assert(false);
                }
                Fraction::from_int(0)
            },
        }
    }

    /// `fraction(n)`: the whole number `n`.
    pub fn from_int(n: i64) -> (r: Fraction)
        ensures
            r@ == (n as int, 1int),
    {
        Fraction { n: Int::from_i64(n), d: Int::from_i64(1) }
    }

    pub fn zero() -> (r: Fraction)
        ensures
            r@ == (0int, 1int),
    {
        Fraction::from_int(0)
    }

    pub fn one() -> (r: Fraction)
        ensures
            r@ == (1int, 1int),
    {
        Fraction::from_int(1)
    }

    /// Divide out the common factor, leaving the value unchanged.
    pub fn reduce(&mut self)
        requires
            old(self)@.1 > 0,
        ensures
            final(self)@ == reduce_spec(old(self)@.0, old(self)@.1),
            final(self)@.1 > 0,
    {
        proof {
            lemma_reduce(self.n@, self.d@);
        }
        if self.d.is_one() {
            return;
        }
        if self.n.is_zero() {
            self.d = Int::from_i64(1);
            return;
        }
        let g = self.n.gcd(&self.d);
        if g.is_one() {
            return;
        }
        proof {
            lemma_gcd_divides(vstd::math::abs(self.n@), vstd::math::abs(self.d@));
        }
        self.n = self.n.div(&g);
        self.d = self.d.div(&g);
    }

    pub fn is_zero(&self) -> (r: bool)
        ensures
            r == (self@.0 == 0),
    {
        self.n.is_zero()
    }

    pub fn ineg(&mut self)
        ensures
            final(self)@ == (-old(self)@.0, old(self)@.1),
    {
        self.n = self.n.neg();
    }

    /// `iadd(y, reduce)`
    pub fn iadd_r(&mut self, y: &Fraction, reduce: bool)
        requires
            old(self)@.1 > 0,
            y@.1 > 0,
        ensures
            final(self)@ == maybe_reduce(raw_add(old(self)@, y@), reduce),
            final(self)@.1 > 0,
    {
        proof {
            lemma_pos_product(self.d@, y.d@);
        }
        self.n = self.n.mul(&y.d).add(&self.d.mul(&y.n));
        self.d = self.d.mul(&y.d);
        if reduce {
            self.reduce();
        }
    }

    /// `imul(y, reduce)`
    pub fn imul_r(&mut self, y: &Fraction, reduce: bool)
        requires
            old(self)@.1 > 0,
            y@.1 > 0,
        ensures
            final(self)@ == maybe_reduce(raw_mul(old(self)@, y@), reduce),
            final(self)@.1 > 0,
    {
        proof {
            lemma_pos_product(self.d@, y.d@);
        }
        self.n = self.n.mul(&y.n);
        self.d = self.d.mul(&y.d);
        if reduce {
            self.reduce();
        }
    }

    /// Invert in place; zero has no inverse.
    pub fn iinv(&mut self) -> (r: core::result::Result<(), Error>)
        requires
            old(self)@.1 > 0,
        ensures
            super::ring::matches_update(r, *final(self), fraction_inv_spec(old(self)@)),
            r is Ok ==> final(self)@.1 > 0,
            r matches Err(e) ==> e.spec_message() == "Division by zero"@,
    {
        let s = self.n.sign();
        if s == 1 {
            core::mem::swap(&mut self.n, &mut self.d);
        } else if s == -1 {
            let n = self.n.clone();
            let d = self.d.clone();
            self.n = d.neg();
            self.d = n.neg();
        } else {
            return Err(Error::Range("Division by zero".to_owned()));
        }
        Ok(())
    }

    /// `-1`, `0` or `1` with the sign of the value.
    pub fn sign(&self) -> (r: i32)
        ensures
            r == sign_of(self@.0),
    {
        self.n.sign()
    }

    /// `compare(y)`: the sign of `self - y`.
    pub fn compare(&self, y: &Fraction) -> (r: i32)
        ensures
            r == sign_of(self@.0 * y@.1 - y@.0 * self@.1),
    {
        self.n.mul(&y.d).sub(&y.n.mul(&self.d)).sign()
    }

    pub fn iabs(&mut self)
        ensures
            final(self)@ == (vstd::math::abs(old(self)@.0) as int, old(self)@.1),
    {
        self.n = self.n.abs();
    }

    pub fn abs(&self) -> (r: Fraction)
        ensures
            r@ == (vstd::math::abs(self@.0) as int, self@.1),
    {
        Fraction { n: self.n.abs(), d: self.d.clone() }
    }
}

/// The inverse of a fraction, which keeps it unreduced.
pub open spec fn fraction_inv_spec(a: (int, int)) -> Outcome<(int, int)> {
    if a.0 > 0 {
        Outcome::<(int, int)>::Ok((a.1, a.0))
    } else if a.0 < 0 {
        Outcome::<(int, int)>::Ok((-a.1, -a.0))
    } else {
        Outcome::<(int, int)>::Err(ErrorKind::Range)
    }
}

/// Field division: dividing by one still reduces.
pub open spec fn fraction_div_spec(a: (int, int), b: (int, int)) -> Outcome<(int, int)> {
    if b.0 == 1 && b.1 == 1 {
        Outcome::<(int, int)>::Ok(reduce_spec(a.0, a.1))
    } else if b.0 > 0 {
        Outcome::<(int, int)>::Ok(reduce_spec(a.0 * b.1, a.1 * b.0))
    } else if b.0 < 0 {
        Outcome::<(int, int)>::Ok(reduce_spec(a.0 * -b.1, a.1 * -b.0))
    } else {
        Outcome::<(int, int)>::Err(ErrorKind::Range)
    }
}

impl Elem for Fraction {
    open spec fn wf_spec(v: (int, int)) -> bool {
        v.1 > 0
    }

    open spec fn is_poly_spec() -> bool {
        false
    }

    open spec fn text_spec(v: (int, int)) -> Seq<char> {
        fraction_text(v)
    }

    fn is_poly() -> (r: bool) {
        false
    }

    fn text(&self) -> (r: String) {
        self.to_string()
    }

    open spec fn is_zero_spec(v: (int, int)) -> bool {
        v.0 == 0
    }

    open spec fn equals_spec(a: (int, int), b: (int, int)) -> bool {
        same_value(a, b)
    }

    open spec fn add_spec(a: (int, int), b: (int, int)) -> Outcome<(int, int)> {
        Outcome::<(int, int)>::Ok(reduce_spec(raw_add(a, b).0, raw_add(a, b).1))
    }

    open spec fn sub_spec(a: (int, int), b: (int, int)) -> Outcome<(int, int)> {
        Outcome::<(int, int)>::Ok(reduce_spec(a.0 * b.1 - a.1 * b.0, a.1 * b.1))
    }

    open spec fn neg_spec(a: (int, int)) -> (int, int) {
        (-a.0, a.1)
    }

    open spec fn mul_spec(a: (int, int), b: (int, int)) -> Outcome<(int, int)> {
        Outcome::<(int, int)>::Ok(reduce_spec(raw_mul(a, b).0, raw_mul(a, b).1))
    }

    open spec fn div_spec(a: (int, int), b: (int, int)) -> Outcome<(int, int)> {
        fraction_div_spec(a, b)
    }

    open spec fn inv_spec(a: (int, int)) -> Outcome<(int, int)> {
        fraction_inv_spec(a)
    }

    fn copy(&self) -> (r: Fraction) {
        Fraction { n: self.n.clone(), d: self.d.clone() }
    }

    #[inline]
    fn is_zero(&self) -> (r: bool) {
        self.n.is_zero()
    }

    fn equals(&self, y: &Fraction) -> (r: bool) {
        // Denominators are positive, so both shortcuts give exactly the
        // answer the cross-multiplication gives.
        if self.n.is_zero() || y.n.is_zero() {
            proof {
                assert(self@.0 * y@.1 == 0 <==> self@.0 == 0) by (nonlinear_arith)
                    requires
                        y@.1 > 0,
                ;
                assert(y@.0 * self@.1 == 0 <==> y@.0 == 0) by (nonlinear_arith)
                    requires
                        self@.1 > 0,
                ;
            }
            return self.n.is_zero() && y.n.is_zero();
        }
        if self.d.eq(&y.d) {
            proof {
                assert(self@.0 * y@.1 == y@.0 * self@.1 <==> self@.0 == y@.0) by (nonlinear_arith)
                    requires
                        y@.1 == self@.1,
                        self@.1 > 0,
                ;
            }
            return self.n.eq(&y.n);
        }
        proof {
            vstd::arithmetic::mul::lemma_mul_is_commutative(self@.1, y@.0);
        }
        self.n.mul(&y.d).eq(&self.d.mul(&y.n))
    }

    fn iadd(&mut self, y: &Fraction) -> (r: core::result::Result<(), Error>) {
        self.iadd_r(y, true);
        Ok(())
    }

    fn add(&self, y: &Fraction) -> (r: core::result::Result<Fraction, Error>) {
        let mut c = self.copy();
        c.iadd_r(y, true);
        Ok(c)
    }

    fn isub(&mut self, y: &Fraction) -> (r: core::result::Result<(), Error>) {
        proof {
            lemma_pos_product(self.d@, y.d@);
        }
        self.n = self.n.mul(&y.d).sub(&self.d.mul(&y.n));
        self.d = self.d.mul(&y.d);
        self.reduce();
        Ok(())
    }

    fn sub(&self, y: &Fraction) -> (r: core::result::Result<Fraction, Error>) {
        let mut c = self.copy();
        c.isub(y)?;
        Ok(c)
    }

    fn neg(&self) -> (r: Fraction) {
        let mut c = self.copy();
        c.ineg();
        c
    }

    fn imul(&mut self, y: &Fraction) -> (r: core::result::Result<(), Error>) {
        self.imul_r(y, true);
        Ok(())
    }

    fn mul(&self, y: &Fraction) -> (r: core::result::Result<Fraction, Error>) {
        let mut c = self.copy();
        c.imul_r(y, true);
        Ok(c)
    }

    fn inv(&self) -> (r: core::result::Result<Fraction, Error>) {
        let mut c = self.copy();
        c.iinv()?;
        Ok(c)
    }

    fn idiv(&mut self, y: &Fraction) -> (r: core::result::Result<(), Error>) {
        // Dividing by one still reduces, but skips the two multiplications.
        if y.n.is_one() && y.d.is_one() {
            self.reduce();
            return Ok(());
        }
        let s = y.n.sign();
        if s == 1 {
            proof {
                lemma_pos_product(self.d@, y.n@);
            }
            self.n = self.n.mul(&y.d);
            self.d = self.d.mul(&y.n);
        } else if s == -1 {
            proof {
                lemma_pos_product(self.d@, -y.n@);
            }
            self.n = self.n.mul(&y.d.neg());
            self.d = self.d.mul(&y.n.neg());
        } else {
            return Err(Error::Range("Division by zero".to_owned()));
        }
        self.reduce();
        Ok(())
    }

    fn div(&self, y: &Fraction) -> (r: core::result::Result<Fraction, Error>) {
        let mut c = self.copy();
        c.idiv(y)?;
        Ok(c)
    }
}

/// `QQ`: the field of rationals.
#[derive(Clone, Copy, Debug, Default)]
pub struct QQ;

impl View for QQ {
    type V = ();

    open spec fn view(&self) -> () {
        ()
    }
}

impl RingOps<Fraction> for QQ {
    open spec fn ring_wf(r: ()) -> bool {
        true
    }

    open spec fn zero_spec(r: ()) -> (int, int) {
        (0, 1)
    }

    open spec fn one_spec(r: ()) -> (int, int) {
        (1, 1)
    }

    open spec fn from_int_spec(r: (), n: int) -> (int, int) {
        (n, 1)
    }

    fn copy_ring(&self) -> (r: QQ) {
        QQ
    }

    fn zero(&self) -> (r: Fraction) {
        Fraction::from_int(0)
    }

    fn one(&self) -> (r: Fraction) {
        Fraction::from_int(1)
    }

    fn from_int(&self, n: i64) -> (r: Fraction) {
        Fraction::from_int(n)
    }
}


/// The text of a fraction: the numerator alone for a whole number, else
/// numerator, slash, denominator.
pub open spec fn fraction_text(v: (int, int)) -> Seq<char> {
    if v.1 == 1 {
        decimal(v.0)
    } else {
        decimal(v.0) + seq!['/'] + decimal(v.1)
    }
}

/// The first `d`, doubling from `d`, with `p * d > q`: the scale at which a
/// difference of `p / q` spans more than one step.
pub open spec fn middle_scale(p: int, q: int, d: int) -> int
    decreases (if q + 1 - d > 0 {
        q + 1 - d
    } else {
        0
    }),
{
    if p >= 1 && d >= 1 && p * d <= q {
        proof {
            assert(d <= p * d) by (nonlinear_arith)
                requires
                    p >= 1,
                    d >= 1,
            ;
        }
        middle_scale(p, q, 2 * d)
    } else {
        d
    }
}

/// `middle(x, y)`: for distinct values, round the midpoint scaled by the
/// first power of two `d` with `|y - x| > 1/d` to a whole number, half away
/// from zero, and put it over `d`; for equal values, `x`.
pub open spec fn middle_spec(x: (int, int), y: (int, int)) -> (int, int) {
    if same_value(x, y) {
        x
    } else {
        let diff = reduce_spec(y.0 * x.1 - x.0 * y.1, x.1 * y.1);
        let d = middle_scale(vstd::math::abs(diff.0) as int, diff.1, 1);
        let m1 = reduce_spec(raw_add(x, y).0, raw_add(x, y).1);
        let hd = reduce_spec(d, 2);
        let m2 = reduce_spec(raw_mul(m1, hd).0, raw_mul(m1, hd).1);
        let hs = reduce_spec(sign_of(m2.0), 2);
        let m3 = reduce_spec(raw_add(m2, hs).0, raw_add(m2, hs).1);
        reduce_spec(tdiv(m3.0, m3.1), d)
    }
}

/// Doubling from `d` ends at a scale at which `p / q` spans more than one step.
proof fn lemma_middle_scale(p: int, q: int, d: int)
    requires
        p >= 1,
        d >= 1,
    ensures
        middle_scale(p, q, d) >= 1,
        p * middle_scale(p, q, d) > q,
    decreases (if q + 1 - d > 0 {
        q + 1 - d
    } else {
        0
    }),
{
    if p * d <= q {
        assert(d <= p * d) by (nonlinear_arith)
            requires
                p >= 1,
                d >= 1,
        ;
        lemma_middle_scale(p, q, 2 * d);
    }
}

/// Rounding `P / Q` half away from zero lands within a half of it.
proof fn lemma_round_half(pp: int, qq: int, u: int, w: int)
    requires
        qq > 0,
        w > 0,
        u * (2 * qq) == (2 * pp + sign_of(pp) * qq) * w,
    ensures
        -qq <= 2 * tdiv(u, w) * qq - 2 * pp <= qq,
{
    let n = tdiv(u, w);
    if pp > 0 {
        assert(u > 0) by (nonlinear_arith)
            requires
                u * (2 * qq) == (2 * pp + qq) * w,
                qq > 0,
                w > 0,
                pp > 0,
        ;
        assert(n == u / w);
        vstd::arithmetic::div_mod::lemma_fundamental_div_mod(u, w);
        vstd::arithmetic::div_mod::lemma_mod_bound(u, w);
        assert(-qq <= 2 * n * qq - 2 * pp <= qq) by (nonlinear_arith)
            requires
                u * (2 * qq) == (2 * pp + qq) * w,
                u == w * n + u % w,
                0 <= u % w < w,
                qq > 0,
                w > 0,
        ;
    } else if pp < 0 {
        assert(u < 0) by (nonlinear_arith)
            requires
                u * (2 * qq) == (2 * pp - qq) * w,
                qq > 0,
                w > 0,
                pp < 0,
        ;
        let t = (-u) / w;
        assert(n == -t);
        vstd::arithmetic::div_mod::lemma_fundamental_div_mod(-u, w);
        vstd::arithmetic::div_mod::lemma_mod_bound(-u, w);
        assert(-qq <= 2 * n * qq - 2 * pp <= qq) by (nonlinear_arith)
            requires
                u * (2 * qq) == (2 * pp - qq) * w,
                -u == w * t + (-u) % w,
                0 <= (-u) % w < w,
                n == -t,
                qq > 0,
                w > 0,
        ;
    } else {
        assert(sign_of(pp) == 0);
        assert(u == 0) by (nonlinear_arith)
            requires
                u * (2 * qq) == (2 * pp + sign_of(pp) * qq) * w,
                pp == 0,
                sign_of(pp) == 0,
                qq > 0,
        ;
        assert(n == 0);
    }
}

/// The midpoint `(A + C) / 2B` scaled by `d`, rounded to `n`, over `d`,
/// lies strictly between `A / B` and `C / B` once `|C - A| d > B`.
proof fn lemma_middle_bounds(aa: int, cc: int, bb: int, d: int, n: int)
    requires
        bb > 0,
        d >= 1,
        -bb <= 2 * n * bb - (aa + cc) * d <= bb,
        vstd::math::abs(cc - aa) * d > bb,
    ensures
        aa < cc ==> aa * d < n * bb && n * bb < cc * d,
        cc < aa ==> cc * d < n * bb && n * bb < aa * d,
{
    if aa < cc {
        assert(aa * d < n * bb && n * bb < cc * d) by (nonlinear_arith)
            requires
                -bb <= 2 * n * bb - (aa + cc) * d <= bb,
                (cc - aa) * d > bb,
        ;
    } else if cc < aa {
        assert(cc * d < n * bb && n * bb < aa * d) by (nonlinear_arith)
            requires
                -bb <= 2 * n * bb - (aa + cc) * d <= bb,
                (aa - cc) * d > bb,
        ;
    }
}

/// `middle` of two different values lies strictly between them.
#[verifier::rlimit(40)]
pub proof fn lemma_middle_between(x: (int, int), y: (int, int))
    requires
        x.1 > 0,
        y.1 > 0,
        !same_value(x, y),
    ensures
        middle_spec(x, y).1 > 0,
        x.0 * y.1 < y.0 * x.1 ==> x.0 * middle_spec(x, y).1 < middle_spec(x, y).0 * x.1
            && middle_spec(x, y).0 * y.1 < y.0 * middle_spec(x, y).1,
        y.0 * x.1 < x.0 * y.1 ==> y.0 * middle_spec(x, y).1 < middle_spec(x, y).0 * y.1
            && middle_spec(x, y).0 * x.1 < x.0 * middle_spec(x, y).1,
{
    let (a, b) = x;
    let (c, e) = y;
    let aa = a * e;
    let cc = c * b;
    let bb = b * e;
    assert(bb > 0) by (nonlinear_arith)
        requires
            b > 0,
            e > 0,
            bb == b * e,
    ;
    assert(aa != cc) by (nonlinear_arith)
        requires
            !(a * e == c * b),
            aa == a * e,
            cc == c * b,
    ;
    // the gap
    let diff = reduce_spec(c * b - a * e, b * e);
    lemma_reduce(c * b - a * e, b * e);
    let p = vstd::math::abs(diff.0) as int;
    let q = diff.1;
    assert(diff.0 * bb == (cc - aa) * q);
    assert(p >= 1) by (nonlinear_arith)
        requires
            diff.0 * bb == (cc - aa) * q,
            cc - aa != 0,
            q > 0,
            p == vstd::math::abs(diff.0),
    ;
    let d = middle_scale(p, q, 1);
    lemma_middle_scale(p, q, 1);
    assert(vstd::math::abs(cc - aa) * d > bb) by (nonlinear_arith)
        requires
            diff.0 * bb == (cc - aa) * q,
            p == vstd::math::abs(diff.0),
            p * d > q,
            q > 0,
            bb > 0,
            d >= 1,
    ;
    // the scaled midpoint
    let m1 = reduce_spec(raw_add(x, y).0, raw_add(x, y).1);
    lemma_reduce(raw_add(x, y).0, raw_add(x, y).1);
    assert(m1.0 * bb == (aa + cc) * m1.1) by (nonlinear_arith)
        requires
            m1.0 * (b * e) == (a * e + b * c) * m1.1,
            aa == a * e,
            cc == c * b,
            bb == b * e,
    ;
    let hd = reduce_spec(d, 2);
    lemma_reduce(d, 2);
    let mm = raw_mul(m1, hd);
    assert(mm.1 > 0) by (nonlinear_arith)
        requires
            m1.1 > 0,
            hd.1 > 0,
            mm.1 == m1.1 * hd.1,
    ;
    let m2 = reduce_spec(mm.0, mm.1);
    lemma_reduce(mm.0, mm.1);
    let pp = m2.0;
    let qq = m2.1;
    assert(pp * (2 * bb) == (aa + cc) * d * qq) by (nonlinear_arith)
        requires
            pp * (m1.1 * hd.1) == (m1.0 * hd.0) * qq,
            m1.0 * bb == (aa + cc) * m1.1,
            hd.0 * 2 == d * hd.1,
            m1.1 > 0,
            hd.1 > 0,
    ;
    // rounded half away from zero
    let hs = reduce_spec(sign_of(pp), 2);
    lemma_reduce(sign_of(pp), 2);
    let m3r = raw_add(m2, hs);
    assert(m3r.1 > 0) by (nonlinear_arith)
        requires
            qq > 0,
            hs.1 > 0,
            m3r.1 == qq * hs.1,
    ;
    let m3 = reduce_spec(m3r.0, m3r.1);
    lemma_reduce(m3r.0, m3r.1);
    assert(m3.0 * (2 * qq) == (2 * pp + sign_of(pp) * qq) * m3.1) by (nonlinear_arith)
        requires
            m3.0 * (qq * hs.1) == (pp * hs.1 + qq * hs.0) * m3.1,
            hs.0 * 2 == sign_of(pp) * hs.1,
            hs.1 > 0,
            qq > 0,
    ;
    let n = tdiv(m3.0, m3.1);
    lemma_round_half(pp, qq, m3.0, m3.1);
    assert(-bb <= 2 * n * bb - (aa + cc) * d <= bb) by (nonlinear_arith)
        requires
            -qq <= 2 * n * qq - 2 * pp <= qq,
            pp * (2 * bb) == (aa + cc) * d * qq,
            qq > 0,
            bb > 0,
    ;
    lemma_middle_bounds(aa, cc, bb, d, n);
    // back to the reduced result
    let r = reduce_spec(n, d);
    lemma_reduce(n, d);
    assert(r == middle_spec(x, y));
    if aa < cc {
        assert(a * r.1 < r.0 * b && r.0 * e < c * r.1) by (nonlinear_arith)
            requires
                aa * d < n * bb,
                n * bb < cc * d,
                aa == a * e,
                cc == c * b,
                bb == b * e,
                r.0 * d == n * r.1,
                r.1 > 0,
                d >= 1,
                b > 0,
                e > 0,
        ;
    } else {
        assert(c * r.1 < r.0 * e && r.0 * b < a * r.1) by (nonlinear_arith)
            requires
                cc * d < n * bb,
                n * bb < aa * d,
                aa == a * e,
                cc == c * b,
                bb == b * e,
                r.0 * d == n * r.1,
                r.1 > 0,
                d >= 1,
                b > 0,
                e > 0,
        ;
    }
}

/// `1 / d` is already in lowest terms.
proof fn lemma_reduce_unit(d: int)
    requires
        d >= 1,
    ensures
        reduce_spec(1, d) == (1int, d),
{
    if d != 1 {
        assert(1int % d == 1) by {
            vstd::arithmetic::div_mod::lemma_small_mod(1, d as nat);
        }
        assert(gcd(1, d as nat) == gcd(d as nat, 1));
        assert((d as nat) % 1 == 0);
        assert(gcd(d as nat, 1) == gcd(1, 0));
    }
}

impl Fraction {
    /// The text of the fraction, as `to_string` writes it.
    pub fn to_string(&self) -> (r: String)
        ensures
            r@ == fraction_text(self@),
    {
        if self.d.is_one() {
            self.n.to_string()
        } else {
            let mut s = self.n.to_string();
            proof {
                reveal_strlit("/");
            }
            s.append("/");
            let t = self.d.to_string();
            s.append(t.as_str());
            s
        }
    }

    /// `compare(y)` as an ordering.
    pub fn cmp_ord(&self, y: &Fraction) -> (r: Ordering)
        ensures
            r == ordering_of(self@.0 * y@.1, y@.0 * self@.1),
    {
        let c = self.compare(y);
        if c == -1 {
            Ordering::Less
        } else if c == 1 {
            Ordering::Greater
        } else {
            Ordering::Equal
        }
    }

    /// `middle(y)`: a fraction between `self` and `y` whose denominator is
    /// a power of two.
    pub fn middle(&self, y: &Fraction) -> (r: Fraction)
        requires
            self@.1 > 0,
            y@.1 > 0,
        ensures
            r@ == middle_spec(self@, y@),
            r@.1 > 0,
    {
        let x = self;
        if x.equals(y) {
            return x.copy();
        }
        let ghost diff = reduce_spec(y@.0 * x@.1 - x@.0 * y@.1, x@.1 * y@.1);
        let ghost p = vstd::math::abs(diff.0) as int;
        let ghost q = diff.1;
        proof {
            lemma_pos_product(x@.1, y@.1);
            lemma_reduce(y@.0 * x@.1 - x@.0 * y@.1, x@.1 * y@.1);
            let num = y@.0 * x@.1 - x@.0 * y@.1;
            assert(num != 0);
            assert(diff.0 * (x@.1 * y@.1) == num * diff.1);
            assert(diff.0 != 0) by {
                if diff.0 == 0 {
                    assert(num * diff.1 == 0);
                    assert(num == 0) by (nonlinear_arith)
                        requires
                            num * diff.1 == 0,
                            diff.1 > 0,
                    ;
                }
            }
        }
        let two = Int::from_i64(2);
        let mut d = Int::from_i64(1);
        loop
            invariant
                x@.1 > 0,
                y@.1 > 0,
                two@ == 2,
                d@ >= 1,
                p >= 1,
                q >= 1,
                diff == reduce_spec(y@.0 * x@.1 - x@.0 * y@.1, x@.1 * y@.1),
                p == vstd::math::abs(diff.0),
                q == diff.1,
                middle_scale(p, q, d@) == middle_scale(p, q, 1),
            ensures
                d@ >= 1,
                d@ == middle_scale(p, q, 1),
                two@ == 2,
            decreases (if q + 1 - d@ > 0 {
                q + 1 - d@
            } else {
                0
            }),
        {
            let bound = match Fraction::new(Int::from_i64(1), d.clone(), true) {
                Ok(b) => b,
                Err(_) => {
                    proof {
                        assert(false);
                    }
                    return x.copy();
                },
            };
            proof {
                lemma_reduce_unit(d@);
            }
            let mut delta = y.copy();
            let _ = Elem::isub(&mut delta, x);
            let c = delta.abs().compare(&bound);
            if c <= 0 {
                proof {
                    assert(p * d@ <= q);
                    assert(d@ <= p * d@) by (nonlinear_arith)
                        requires
                            p >= 1,
                            d@ >= 1,
                    ;
                }
                d = d.mul(&two);
            } else {
                proof {
                    assert(p * d@ > q);
                }
                break;
            }
        }
        let mut m = x.copy();
        m.iadd_r(y, true);
        let half_d = match Fraction::new(d.clone(), two.clone(), true) {
            Ok(h) => h,
            Err(_) => {
                proof {
                    assert(false);
                }
                return x.copy();
            },
        };
        m.imul_r(&half_d, true);
        let half_sign = match Fraction::new(Int::from_i64(m.sign() as i64), two.clone(), true) {
            Ok(h) => h,
            Err(_) => {
                proof {
                    assert(false);
                }
                return x.copy();
            },
        };
        m.iadd_r(&half_sign, true);
        proof {
            lemma_pos_product(1, m@.1);
        }
        let n = m.n.div(&m.d);
        match Fraction::new(n, d, true) {
            Ok(f) => f,
            Err(_) => {
                proof {
                    assert(false);
                }
                x.copy()
            },
        }
    }
}

} // verus!
