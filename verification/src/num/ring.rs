//! Ring traits and the concrete `Integer` / `IntegerMod` rings.
//!
//! Each element type describes its arithmetic by spec functions on its view,
//! and every operation is proved to compute exactly that, including which
//! inputs it rejects and with which kind of error.

use core::cmp::Ordering;

use vstd::prelude::*;

use super::digits::{decimal, tdiv, trem};
use super::integers::{lemma_trem_abs, xgcd, Int};
use crate::error::{Error, ErrorKind};

verus! {

/// The outcome of an operation on views: the value, or the kind of error.
pub type Outcome<V> = core::result::Result<V, ErrorKind>;

/// Whether an executable result is the one a spec outcome describes.
pub open spec fn matches_outcome<T: View>(r: core::result::Result<T, Error>, o: Outcome<T::V>) -> bool {
    match r {
        Ok(x) => o == Outcome::<T::V>::Ok(x@),
        Err(e) => o == Outcome::<T::V>::Err(e.spec_error_kind()),
    }
}

/// The outcome of `f` on a successful value; an error passes through.
pub open spec fn obind<A, B>(o: Outcome<A>, f: spec_fn(A) -> Outcome<B>) -> Outcome<B> {
    match o {
        Outcome::<A>::Ok(a) => f(a),
        Outcome::<A>::Err(e) => Outcome::<B>::Err(e),
    }
}

/// Whether an in-place result is the one a spec outcome describes.
pub open spec fn matches_update<T: View>(
    r: core::result::Result<(), Error>,
    after: T,
    o: Outcome<T::V>,
) -> bool {
    match r {
        Ok(_) => o == Outcome::<T::V>::Ok(after@),
        Err(e) => o == Outcome::<T::V>::Err(e.spec_error_kind()),
    }
}

/// A ring element whose arithmetic is described on its view.
///
/// Both the in-place and the returning form of each operation are present.
pub trait Elem: Sized + View {
    /// Whether a view is a well-formed element.
    spec fn wf_spec(v: Self::V) -> bool;

    /// Whether a view is the additive identity.
    spec fn is_zero_spec(v: Self::V) -> bool;

    /// Equality as `equals` decides it.
    spec fn equals_spec(a: Self::V, b: Self::V) -> bool;

    spec fn add_spec(a: Self::V, b: Self::V) -> Outcome<Self::V>;

    spec fn sub_spec(a: Self::V, b: Self::V) -> Outcome<Self::V>;

    spec fn neg_spec(a: Self::V) -> Self::V;

    spec fn mul_spec(a: Self::V, b: Self::V) -> Outcome<Self::V>;

    /// Field division, which may fail in a ring that is not a field.
    spec fn div_spec(a: Self::V, b: Self::V) -> Outcome<Self::V>;

    spec fn inv_spec(a: Self::V) -> Outcome<Self::V>;

    /// Whether the elements are polynomials, which a polynomial's text puts
    /// in parentheses where they stand as its coefficients.
    spec fn is_poly_spec() -> bool;

    /// The text `to_string` writes for an element.
    spec fn text_spec(v: Self::V) -> Seq<char>;

    fn is_poly() -> (r: bool)
        ensures
            r == Self::is_poly_spec(),
    ;

    /// The text of the element.
    fn text(&self) -> (r: String)
        requires
            Self::wf_spec(self@),
        ensures
            r@ == Self::text_spec(self@),
    ;

    /// A copy with the same view.
    fn copy(&self) -> (r: Self)
        requires
            Self::wf_spec(self@),
        ensures
            r@ == self@,
    ;

    fn equals(&self, y: &Self) -> (r: bool)
        requires
            Self::wf_spec(self@),
            Self::wf_spec(y@),
        ensures
            r == Self::equals_spec(self@, y@),
    ;

    fn is_zero(&self) -> (r: bool)
        requires
            Self::wf_spec(self@),
        ensures
            r == Self::is_zero_spec(self@),
    ;

    fn iadd(&mut self, y: &Self) -> (r: core::result::Result<(), Error>)
        requires
            Self::wf_spec(old(self)@),
            Self::wf_spec(y@),
        ensures
            matches_update(r, *final(self), Self::add_spec(old(self)@, y@)),
            r is Ok ==> Self::wf_spec(final(self)@),
    ;

    fn add(&self, y: &Self) -> (r: core::result::Result<Self, Error>)
        requires
            Self::wf_spec(self@),
            Self::wf_spec(y@),
        ensures
            matches_outcome(r, Self::add_spec(self@, y@)),
            r matches Ok(z) ==> Self::wf_spec(z@),
    ;

    fn isub(&mut self, y: &Self) -> (r: core::result::Result<(), Error>)
        requires
            Self::wf_spec(old(self)@),
            Self::wf_spec(y@),
        ensures
            matches_update(r, *final(self), Self::sub_spec(old(self)@, y@)),
            r is Ok ==> Self::wf_spec(final(self)@),
    ;

    fn sub(&self, y: &Self) -> (r: core::result::Result<Self, Error>)
        requires
            Self::wf_spec(self@),
            Self::wf_spec(y@),
        ensures
            matches_outcome(r, Self::sub_spec(self@, y@)),
            r matches Ok(z) ==> Self::wf_spec(z@),
    ;

    fn neg(&self) -> (r: Self)
        requires
            Self::wf_spec(self@),
        ensures
            r@ == Self::neg_spec(self@),
            Self::wf_spec(r@),
    ;

    fn imul(&mut self, y: &Self) -> (r: core::result::Result<(), Error>)
        requires
            Self::wf_spec(old(self)@),
            Self::wf_spec(y@),
        ensures
            matches_update(r, *final(self), Self::mul_spec(old(self)@, y@)),
            r is Ok ==> Self::wf_spec(final(self)@),
    ;

    fn mul(&self, y: &Self) -> (r: core::result::Result<Self, Error>)
        requires
            Self::wf_spec(self@),
            Self::wf_spec(y@),
        ensures
            matches_outcome(r, Self::mul_spec(self@, y@)),
            r matches Ok(z) ==> Self::wf_spec(z@),
    ;

    fn idiv(&mut self, y: &Self) -> (r: core::result::Result<(), Error>)
        requires
            Self::wf_spec(old(self)@),
            Self::wf_spec(y@),
        ensures
            matches_update(r, *final(self), Self::div_spec(old(self)@, y@)),
            r is Ok ==> Self::wf_spec(final(self)@),
    ;

    fn div(&self, y: &Self) -> (r: core::result::Result<Self, Error>)
        requires
            Self::wf_spec(self@),
            Self::wf_spec(y@),
        ensures
            matches_outcome(r, Self::div_spec(self@, y@)),
            r matches Ok(z) ==> Self::wf_spec(z@),
    ;

    fn inv(&self) -> (r: core::result::Result<Self, Error>)
        requires
            Self::wf_spec(self@),
        ensures
            matches_outcome(r, Self::inv_spec(self@)),
            r matches Ok(z) ==> Self::wf_spec(z@),
    ;
}

/// A ring object that hands out its distinguished elements.
pub trait RingOps<E: Elem>: Sized + View {
    /// Whether a view is a well-formed ring.
    spec fn ring_wf(r: Self::V) -> bool;

    spec fn zero_spec(r: Self::V) -> E::V;

    spec fn one_spec(r: Self::V) -> E::V;

    spec fn from_int_spec(r: Self::V, n: int) -> E::V;

    /// A copy with the same view.
    fn copy_ring(&self) -> (r: Self)
        requires
            Self::ring_wf(self@),
        ensures
            r@ == self@,
    ;

    fn zero(&self) -> (r: E)
        requires
            Self::ring_wf(self@),
        ensures
            r@ == Self::zero_spec(self@),
            E::wf_spec(r@),
    ;

    fn one(&self) -> (r: E)
        requires
            Self::ring_wf(self@),
        ensures
            r@ == Self::one_spec(self@),
            E::wf_spec(r@),
    ;

    fn from_int(&self, n: i64) -> (r: E)
        requires
            Self::ring_wf(self@),
        ensures
            r@ == Self::from_int_spec(self@, n as int),
            E::wf_spec(r@),
    ;
}

/// A ring with division with remainder, whose remainders shrink.
pub trait Euclidean: Elem {
    /// The Euclidean size, which every nonzero remainder has smaller than
    /// its divisor.
    spec fn euclid_spec(v: Self::V) -> int;

    /// Division with remainder, as `divmod` computes it.
    spec fn divmod_spec(a: Self::V, b: Self::V) -> Outcome<(Self::V, Self::V)>;

    proof fn lemma_euclid_bound(v: Self::V)
        requires
            Self::wf_spec(v),
        ensures
            Self::euclid_spec(v) >= -1,
    ;

    fn euclidean(&self) -> (r: Int)
        requires
            Self::wf_spec(self@),
        ensures
            r@ == Self::euclid_spec(self@),
    ;

    fn divmod(&self, y: &Self) -> (r: core::result::Result<(Self, Self), Error>)
        requires
            Self::wf_spec(self@),
            Self::wf_spec(y@),
        ensures
            match r {
                Ok(t) => {
                    &&& Self::divmod_spec(self@, y@) == Outcome::<(Self::V, Self::V)>::Ok((t.0@, t.1@))
                    &&& Self::wf_spec(t.0@)
                    &&& Self::wf_spec(t.1@)
                    &&& Self::euclid_spec(t.1@) < Self::euclid_spec(y@)
                },
                Err(e) => Self::divmod_spec(self@, y@) == Outcome::<(Self::V, Self::V)>::Err(
                    e.spec_error_kind(),
                ),
            },
    ;

    /// The quotient of `divmod`.
    fn floordiv(&self, y: &Self) -> (r: core::result::Result<Self, Error>)
        requires
            Self::wf_spec(self@),
            Self::wf_spec(y@),
        ensures
            match r {
                Ok(q) => Self::divmod_spec(self@, y@) is Ok && q@ == Self::divmod_spec(
                    self@,
                    y@,
                )->Ok_0.0 && Self::wf_spec(q@),
                Err(e) => Self::divmod_spec(self@, y@) == Outcome::<(Self::V, Self::V)>::Err(
                    e.spec_error_kind(),
                ),
            },
    {
        let (q, _) = self.divmod(y)?;
        Ok(q)
    }

    /// The remainder of `divmod`.
    fn modulo(&self, y: &Self) -> (r: core::result::Result<Self, Error>)
        requires
            Self::wf_spec(self@),
            Self::wf_spec(y@),
        ensures
            match r {
                Ok(m) => Self::divmod_spec(self@, y@) is Ok && m@ == Self::divmod_spec(
                    self@,
                    y@,
                )->Ok_0.1 && Self::wf_spec(m@) && Self::euclid_spec(m@) < Self::euclid_spec(y@),
                Err(e) => Self::divmod_spec(self@, y@) == Outcome::<(Self::V, Self::V)>::Err(
                    e.spec_error_kind(),
                ),
            },
    {
        let (_, m) = self.divmod(y)?;
        Ok(m)
    }
}

/// Floored division by a positive divisor; a non-positive divisor is
/// rejected.
pub open spec fn integer_divmod_spec(a: int, b: int) -> Outcome<(int, int)> {
    if b > 0 {
        Outcome::<(int, int)>::Ok((a / b, a % b))
    } else {
        Outcome::<(int, int)>::Err(ErrorKind::Division)
    }
}

impl Euclidean for Integer {
    open spec fn euclid_spec(v: int) -> int {
        vstd::math::abs(v) as int
    }

    open spec fn divmod_spec(a: int, b: int) -> Outcome<(int, int)> {
        integer_divmod_spec(a, b)
    }

    proof fn lemma_euclid_bound(v: int) {
    }

    /// The Euclidean size: the absolute value.
    fn euclidean(&self) -> (r: Int) {
        self.n.abs()
    }

    /// Floored division by a positive divisor; a non-positive divisor is
    /// rejected.
    fn divmod(&self, y: &Integer) -> (r: core::result::Result<(Integer, Integer), Error>) {
        if y.n.sign() <= 0 {
            return Err(Error::Division("Division by zero".to_owned()));
        }
        let (mut q, mut r) = self.n.div_rem(&y.n);
        proof {
            lemma_floor_from_trunc(self@, y@);
            vstd::arithmetic::div_mod::lemma_mod_bound(self@, y@);
        }
        if r.sign() < 0 {
            q = q.sub(&Int::from_i64(1));
            r = r.add(&y.n);
        }
        assert(q@ == self@ / y@);
        assert(r@ == self@ % y@);
        assert(0 <= r@ < y@);
        let res = (Integer { n: q }, Integer { n: r });
        assert(Self::divmod_spec(self@, y@) == Outcome::<(int, int)>::Ok((res.0@, res.1@)));
        assert(Self::euclid_spec(res.1@) < Self::euclid_spec(y@));
        Ok(res)
    }
}

/* -------------------------------------------------------------------------- */
/*  Integer / ZZ                                                              */
/* -------------------------------------------------------------------------- */

/// An element of the ring of integers.
pub struct Integer {
    pub n: Int,
}

impl View for Integer {
    type V = int;

    open spec fn view(&self) -> int {
        self.n@
    }
}

/// Exact division in the integers.
pub open spec fn integer_div_spec(a: int, b: int) -> Outcome<int> {
    if b == 0 {
        Outcome::<int>::Err(ErrorKind::Range)
    } else if trem(a, b) == 0 {
        Outcome::<int>::Ok(tdiv(a, b))
    } else {
        Outcome::<int>::Err(ErrorKind::Division)
    }
}

impl Integer {
    pub fn new(n: Int) -> (r: Integer)
        ensures
            r@ == n@,
    {
        Integer { n }
    }

    pub fn from_i64(n: i64) -> (r: Integer)
        ensures
            r@ == n,
    {
        Integer { n: Int::from_i64(n) }
    }

    /// `-1`, `0` or `1` as the value is negative, zero or positive.
    pub fn sign(&self) -> (r: i32)
        ensures
            r == super::integers::sign_of(self@),
    {
        self.n.sign()
    }

    pub fn abs(&self) -> (r: Integer)
        ensures
            r@ == vstd::math::abs(self@),
    {
        Integer { n: self.n.abs() }
    }

    /// `-1`, `0` or `1` as `self` is less than, equal to or greater than `y`.
    pub fn compare(&self, y: &Integer) -> (r: i32)
        ensures
            r == super::integers::sign_of(self@ - y@),
    {
        self.n.sub(&y.n).sign()
    }

}

/// Floored division from truncating division, for a positive divisor.
proof fn lemma_floor_from_trunc(a: int, b: int)
    requires
        b > 0,
    ensures
        trem(a, b) < 0 ==> tdiv(a, b) - 1 == a / b && trem(a, b) + b == a % b,
        trem(a, b) >= 0 ==> tdiv(a, b) == a / b && trem(a, b) == a % b,
{
    lemma_trem_abs(a, b);
    vstd::arithmetic::div_mod::lemma_mod_bound(vstd::math::abs(a) as int, b);
    let q = tdiv(a, b);
    let m = trem(a, b);
    assert(a == b * q + m);
    if m < 0 {
        assert(a == (q - 1) * b + (m + b)) by (nonlinear_arith)
            requires
                a == b * q + m,
        ;
        vstd::arithmetic::div_mod::lemma_fundamental_div_mod_converse(a, b, q - 1, m + b);
    } else {
        assert(a == q * b + m) by (nonlinear_arith)
            requires
                a == b * q + m,
        ;
        vstd::arithmetic::div_mod::lemma_fundamental_div_mod_converse(a, b, q, m);
    }
}

impl Elem for Integer {
    open spec fn wf_spec(v: int) -> bool {
        true
    }

    open spec fn is_poly_spec() -> bool {
        false
    }

    open spec fn text_spec(v: int) -> Seq<char> {
        decimal(v)
    }

    fn is_poly() -> (r: bool) {
        false
    }

    fn text(&self) -> (r: String) {
        self.n.to_string()
    }

    open spec fn is_zero_spec(v: int) -> bool {
        v == 0
    }

    open spec fn equals_spec(a: int, b: int) -> bool {
        a == b
    }

    open spec fn add_spec(a: int, b: int) -> Outcome<int> {
        Outcome::<int>::Ok(a + b)
    }

    open spec fn sub_spec(a: int, b: int) -> Outcome<int> {
        Outcome::<int>::Ok(a - b)
    }

    open spec fn neg_spec(a: int) -> int {
        -a
    }

    open spec fn mul_spec(a: int, b: int) -> Outcome<int> {
        Outcome::<int>::Ok(a * b)
    }

    open spec fn div_spec(a: int, b: int) -> Outcome<int> {
        integer_div_spec(a, b)
    }

    /// Only the units `1` and `-1` have inverses.
    open spec fn inv_spec(a: int) -> Outcome<int> {
        if a == 1 || a == -1 {
            Outcome::<int>::Ok(a)
        } else {
            Outcome::<int>::Err(ErrorKind::Division)
        }
    }

    fn copy(&self) -> (r: Integer) {
        Integer { n: self.n.clone() }
    }

    #[inline]
    fn is_zero(&self) -> (r: bool) {
        self.n.is_zero()
    }

    fn equals(&self, y: &Integer) -> (r: bool) {
        self.n.eq(&y.n)
    }

    fn iadd(&mut self, y: &Integer) -> (r: core::result::Result<(), Error>) {
        self.n = self.n.add(&y.n);
        Ok(())
    }

    fn add(&self, y: &Integer) -> (r: core::result::Result<Integer, Error>) {
        Ok(Integer { n: self.n.add(&y.n) })
    }

    fn isub(&mut self, y: &Integer) -> (r: core::result::Result<(), Error>) {
        self.n = self.n.sub(&y.n);
        Ok(())
    }

    fn sub(&self, y: &Integer) -> (r: core::result::Result<Integer, Error>) {
        Ok(Integer { n: self.n.sub(&y.n) })
    }

    fn neg(&self) -> (r: Integer) {
        Integer { n: self.n.neg() }
    }

    fn imul(&mut self, y: &Integer) -> (r: core::result::Result<(), Error>) {
        self.n = self.n.mul(&y.n);
        Ok(())
    }

    fn mul(&self, y: &Integer) -> (r: core::result::Result<Integer, Error>) {
        Ok(Integer { n: self.n.mul(&y.n) })
    }

    fn inv(&self) -> (r: core::result::Result<Integer, Error>) {
        if self.n.eq(&Int::from_i64(1)) || self.n.eq(&Int::from_i64(-1)) {
            Ok(self.copy())
        } else {
            Err(Error::Division("Multiplicative inverse does not exist".to_owned()))
        }
    }

    fn idiv(&mut self, y: &Integer) -> (r: core::result::Result<(), Error>) {
        if y.n.is_zero() {
            // The range check comes before the divisibility test, so a zero
            // divisor is reported as a range error rather than a division one.
            return Err(Error::Range("Division by zero".to_owned()));
        }
        if self.n.rem(&y.n).is_zero() {
            self.n = self.n.div(&y.n);
            Ok(())
        } else {
            Err(Error::Division("Not divisible".to_owned()))
        }
    }

    fn div(&self, y: &Integer) -> (r: core::result::Result<Integer, Error>) {
        let mut c = self.copy();
        match c.idiv(y) {
            Ok(()) => Ok(c),
            Err(e) => Err(e),
        }
    }
}

/// The ring of integers.
#[derive(Clone, Copy, Debug, Default)]
pub struct ZZ;

impl View for ZZ {
    type V = ();

    open spec fn view(&self) -> () {
        ()
    }
}

impl RingOps<Integer> for ZZ {
    open spec fn ring_wf(r: ()) -> bool {
        true
    }

    open spec fn zero_spec(r: ()) -> int {
        0
    }

    open spec fn one_spec(r: ()) -> int {
        1
    }

    open spec fn from_int_spec(r: (), n: int) -> int {
        n
    }

    fn copy_ring(&self) -> (r: ZZ) {
        ZZ
    }

    fn zero(&self) -> (r: Integer) {
        Integer::from_i64(0)
    }

    fn one(&self) -> (r: Integer) {
        Integer::from_i64(1)
    }

    fn from_int(&self, n: i64) -> (r: Integer) {
        Integer::from_i64(n)
    }
}


/* -------------------------------------------------------------------------- */
/*  IntegerMod / Z/mZ                                                         */
/* -------------------------------------------------------------------------- */

/// `((n % m) + m) % m` with truncating remainders.
pub open spec fn reduce_mod(n: int, m: int) -> int {
    trem(trem(n, m) + m, m)
}

/// The residues `reduce_mod` produces: `[0, m)` for positive `m` and
/// `(m, 0]` for negative `m`.
pub open spec fn residue_in_range(n: int, m: int) -> bool {
    &&& m > 0 ==> 0 <= n < m
    &&& m < 0 ==> m < n <= 0
    &&& m != 0
}

/// A truncating remainder of something smaller than the divisor is itself.
pub proof fn lemma_trem_small(a: int, b: int)
    requires
        b != 0,
        vstd::math::abs(a) < vstd::math::abs(b),
    ensures
        trem(a, b) == a,
{
    lemma_trem_abs(a, b);
    vstd::arithmetic::div_mod::lemma_small_mod(vstd::math::abs(a), vstd::math::abs(b));
}

/// `reduce_mod` lands in the residue range.
pub proof fn lemma_reduce_range(n: int, m: int)
    requires
        m != 0,
    ensures
        residue_in_range(reduce_mod(n, m), m),
{
    let t = trem(n, m);
    lemma_trem_abs(n, m);
    vstd::arithmetic::div_mod::lemma_mod_bound(vstd::math::abs(n) as int, vstd::math::abs(m) as int);
    lemma_trem_abs(t + m, m);
    vstd::arithmetic::div_mod::lemma_mod_bound(
        vstd::math::abs(t + m) as int,
        vstd::math::abs(m) as int,
    );
}

/// A residue in range is left alone by `reduce_mod`.
pub proof fn lemma_reduce_fixed(r: int, m: int)
    requires
        residue_in_range(r, m),
    ensures
        reduce_mod(r, m) == r,
{
    lemma_trem_small(r, m);
    lemma_trem_abs(r + m, m);
    if m > 0 {
        vstd::arithmetic::div_mod::lemma_fundamental_div_mod_converse(r + m, m, 1, r);
    } else {
        vstd::arithmetic::div_mod::lemma_fundamental_div_mod_converse(-(r + m), -m, 1, -r);
    }
}

/// An element of `Z/mZ`: a residue `n` and its modulus `m`.
pub struct IntegerMod {
    pub n: Int,
    pub m: Int,
}

impl View for IntegerMod {
    type V = (int, int);

    open spec fn view(&self) -> (int, int) {
        (self.n@, self.m@)
    }
}

/// The outcome of a binary operation on residues: both moduli must agree.
pub open spec fn mod_op_spec(a: (int, int), b: (int, int), v: int) -> Outcome<(int, int)> {
    if a.1 != b.1 {
        Outcome::<(int, int)>::Err(ErrorKind::Type)
    } else {
        Outcome::<(int, int)>::Ok((reduce_mod(v, a.1), a.1))
    }
}

impl IntegerMod {
    /// The residue of `n` modulo `m`.
    pub fn new(n: Int, m: Int) -> (r: IntegerMod)
        requires
            m@ != 0,
        ensures
            r@ == (reduce_mod(n@, m@), m@),
            residue_in_range(r@.0, r@.1),
    {
        let mut x = IntegerMod { n, m };
        x.reduce();
        x
    }

    fn reduce(&mut self)
        requires
            old(self).m@ != 0,
        ensures
            final(self)@ == (reduce_mod(old(self).n@, old(self).m@), old(self).m@),
            residue_in_range(final(self)@.0, final(self)@.1),
    {
        proof {
            lemma_reduce_range(self.n@, self.m@);
        }
        // ((n % m) + m) % m
        self.n = self.n.rem(&self.m).add(&self.m).rem(&self.m);
    }

    fn check(&self, y: &IntegerMod) -> (r: core::result::Result<(), Error>)
        ensures
            r is Ok <==> self.m@ == y.m@,
            r matches Err(e) ==> e.spec_error_kind() == ErrorKind::Type,
    {
        if self.m.eq(&y.m) {
            Ok(())
        } else {
            Err(Error::Type("Numbers have different moduli".to_owned()))
        }
    }
}

impl Elem for IntegerMod {
    open spec fn wf_spec(v: (int, int)) -> bool {
        residue_in_range(v.0, v.1)
    }

    open spec fn is_poly_spec() -> bool {
        false
    }

    /// The residue alone.
    open spec fn text_spec(v: (int, int)) -> Seq<char> {
        decimal(v.0)
    }

    fn is_poly() -> (r: bool) {
        false
    }

    fn text(&self) -> (r: String) {
        self.n.to_string()
    }

    open spec fn is_zero_spec(v: (int, int)) -> bool {
        v.0 == 0
    }

    /// Equal residues with equal moduli; a mismatch is simply unequal.
    open spec fn equals_spec(a: (int, int), b: (int, int)) -> bool {
        a.1 == b.1 && a.0 == b.0
    }

    open spec fn add_spec(a: (int, int), b: (int, int)) -> Outcome<(int, int)> {
        mod_op_spec(a, b, a.0 + b.0)
    }

    open spec fn sub_spec(a: (int, int), b: (int, int)) -> Outcome<(int, int)> {
        mod_op_spec(a, b, a.0 - b.0)
    }

    open spec fn neg_spec(a: (int, int)) -> (int, int) {
        (reduce_mod(-a.0, a.1), a.1)
    }

    open spec fn mul_spec(a: (int, int), b: (int, int)) -> Outcome<(int, int)> {
        mod_op_spec(a, b, a.0 * b.0)
    }

    /// Division through the extended gcd of the divisor and the modulus.
    open spec fn div_spec(a: (int, int), b: (int, int)) -> Outcome<(int, int)> {
        let g = xgcd(b.0, a.1, 1, 0, 0, 1);
        if a.1 != b.1 {
            Outcome::<(int, int)>::Err(ErrorKind::Type)
        } else if g.0 == 0 || trem(a.0, g.0) != 0 {
            Outcome::<(int, int)>::Err(ErrorKind::Division)
        } else {
            Outcome::<(int, int)>::Ok((reduce_mod(g.1 * tdiv(a.0, g.0), a.1), a.1))
        }
    }

    /// The inverse exists exactly when the extended gcd comes out as one.
    open spec fn inv_spec(a: (int, int)) -> Outcome<(int, int)> {
        let g = xgcd(a.0, a.1, 1, 0, 0, 1);
        if g.0 == 1 {
            Outcome::<(int, int)>::Ok((reduce_mod(g.1, a.1), a.1))
        } else {
            Outcome::<(int, int)>::Err(ErrorKind::Division)
        }
    }

    fn copy(&self) -> (r: IntegerMod) {
        IntegerMod { n: self.n.clone(), m: self.m.clone() }
    }

    #[inline]
    fn is_zero(&self) -> (r: bool) {
        self.n.is_zero()
    }

    fn equals(&self, y: &IntegerMod) -> (r: bool) {
        self.m.eq(&y.m) && self.n.eq(&y.n)
    }

    fn iadd(&mut self, y: &IntegerMod) -> (r: core::result::Result<(), Error>) {
        self.check(y)?;
        self.n = self.n.add(&y.n);
        self.reduce();
        Ok(())
    }

    fn add(&self, y: &IntegerMod) -> (r: core::result::Result<IntegerMod, Error>) {
        let mut c = self.copy();
        match c.iadd(y) {
            Ok(()) => Ok(c),
            Err(e) => Err(e),
        }
    }

    fn isub(&mut self, y: &IntegerMod) -> (r: core::result::Result<(), Error>) {
        self.check(y)?;
        self.n = self.n.sub(&y.n);
        self.reduce();
        Ok(())
    }

    fn sub(&self, y: &IntegerMod) -> (r: core::result::Result<IntegerMod, Error>) {
        let mut c = self.copy();
        match c.isub(y) {
            Ok(()) => Ok(c),
            Err(e) => Err(e),
        }
    }

    fn neg(&self) -> (r: IntegerMod) {
        IntegerMod::new(self.n.neg(), self.m.clone())
    }

    fn imul(&mut self, y: &IntegerMod) -> (r: core::result::Result<(), Error>) {
        self.check(y)?;
        self.n = self.n.mul(&y.n);
        self.reduce();
        Ok(())
    }

    fn mul(&self, y: &IntegerMod) -> (r: core::result::Result<IntegerMod, Error>) {
        let mut c = self.copy();
        match c.imul(y) {
            Ok(()) => Ok(c),
            Err(e) => Err(e),
        }
    }

    fn idiv(&mut self, y: &IntegerMod) -> (r: core::result::Result<(), Error>) {
        self.check(y)?;
        let (r, s, _t) = Int::extended_gcd(&y.n, &self.m);
        if r.is_zero() {
            return Err(Error::Division("Not divisible".to_owned()));
        }
        if self.n.rem(&r).is_zero() {
            self.n = s.mul(&self.n.div(&r));
            self.reduce();
            Ok(())
        } else {
            Err(Error::Division("Not divisible".to_owned()))
        }
    }

    fn div(&self, y: &IntegerMod) -> (r: core::result::Result<IntegerMod, Error>) {
        let mut c = self.copy();
        match c.idiv(y) {
            Ok(()) => Ok(c),
            Err(e) => Err(e),
        }
    }

    fn inv(&self) -> (r: core::result::Result<IntegerMod, Error>) {
        let (r, s, _t) = Int::extended_gcd(&self.n, &self.m);
        if r.is_one() {
            Ok(IntegerMod::new(s, self.m.clone()))
        } else {
            Err(Error::Division("Multiplicative inverse does not exist".to_owned()))
        }
    }
}

/// The ring `Z/mZ`.
pub struct IntegersMod {
    pub m: Int,
}

impl View for IntegersMod {
    type V = int;

    open spec fn view(&self) -> int {
        self.m@
    }
}

impl IntegersMod {
    pub fn new(m: Int) -> (r: IntegersMod)
        ensures
            r@ == m@,
    {
        IntegersMod { m }
    }
}

impl RingOps<IntegerMod> for IntegersMod {
    open spec fn ring_wf(r: int) -> bool {
        r != 0
    }

    open spec fn zero_spec(r: int) -> (int, int) {
        (reduce_mod(0, r), r)
    }

    open spec fn one_spec(r: int) -> (int, int) {
        (reduce_mod(1, r), r)
    }

    open spec fn from_int_spec(r: int, n: int) -> (int, int) {
        (reduce_mod(n, r), r)
    }

    fn copy_ring(&self) -> (r: IntegersMod) {
        IntegersMod { m: self.m.clone() }
    }

    fn zero(&self) -> (r: IntegerMod) {
        IntegerMod::new(Int::from_i64(0), self.m.clone())
    }

    fn one(&self) -> (r: IntegerMod) {
        IntegerMod::new(Int::from_i64(1), self.m.clone())
    }

    fn from_int(&self, n: i64) -> (r: IntegerMod) {
        IntegerMod::new(Int::from_i64(n), self.m.clone())
    }
}


/* -------------------------------------------------------------------------- */
/*  Generic ring algorithms                                                   */
/* -------------------------------------------------------------------------- */

/// Repeated squaring from `y` and `z` with `m` steps of the exponent left:
/// an odd exponent multiplies `y` by `z`, an even one squares `z`.
pub open spec fn power_loop<E: Elem>(y: E::V, z: E::V, m: nat) -> Outcome<E::V>
    decreases m,
{
    if m == 0 {
        Outcome::<E::V>::Ok(y)
    } else if m % 2 == 1 {
        match E::mul_spec(y, z) {
            Outcome::<E::V>::Ok(y1) => power_loop::<E>(y1, z, (m - 1) as nat),
            Outcome::<E::V>::Err(e) => Outcome::<E::V>::Err(e),
        }
    } else {
        match E::mul_spec(z, z) {
            Outcome::<E::V>::Ok(z1) => power_loop::<E>(y, z1, m / 2),
            Outcome::<E::V>::Err(e) => Outcome::<E::V>::Err(e),
        }
    }
}

/// `g^n` by repeated squaring; a negative exponent is out of range.
pub open spec fn power_spec<E: Elem, R: RingOps<E>>(k: R::V, g: E::V, n: int) -> Outcome<E::V> {
    if n < 0 {
        Outcome::<E::V>::Err(ErrorKind::Range)
    } else {
        power_loop::<E>(R::one_spec(k), g, n as nat)
    }
}

/// For a nonnegative dividend, truncating division by two is floored.
proof fn lemma_halve(m: int)
    requires
        m >= 0,
    ensures
        tdiv(m, 2) == m / 2,
        trem(m, 2) == m % 2,
{
}

/// `power`: repeated squaring (Cohen, Algorithm 1.2.1).
pub fn power<E: Elem, R: RingOps<E>>(k: &R, g: &E, n: &Int) -> (r: core::result::Result<E, Error>)
    requires
        R::ring_wf(k@),
        E::wf_spec(g@),
    ensures
        matches_outcome(r, power_spec::<E, R>(k@, g@, n@)),
        r matches Ok(v) ==> E::wf_spec(v@),
{
    if n.sign() < 0 {
        return Err(Error::Range("".to_owned()));
    }
    let two = Int::from_i64(2);
    let one = Int::from_i64(1);
    let mut y = k.one();
    let mut z = g.copy();
    let mut m = n.clone();
    while m.sign() > 0
        invariant
            m@ >= 0,
            n@ >= 0,
            two@ == 2,
            one@ == 1,
            E::wf_spec(y@),
            E::wf_spec(z@),
            power_loop::<E>(y@, z@, m@ as nat) == power_spec::<E, R>(k@, g@, n@),
        decreases m@,
    {
        proof {
            lemma_halve(m@);
        }
        if m.rem(&two).is_one() {
            y = y.mul(&z)?;
            m = m.sub(&one);
        } else {
            z = z.mul(&z)?;
            m = m.div(&two);
        }
    }
    Ok(y)
}

/// Repeated squaring with every product reduced modulo `q`.
pub open spec fn power_mod_loop<E: Euclidean>(y: E::V, z: E::V, m: nat, q: E::V) -> Outcome<E::V>
    decreases m,
{
    if m == 0 {
        Outcome::<E::V>::Ok(y)
    } else if m % 2 == 1 {
        match E::mul_spec(y, z) {
            Outcome::<E::V>::Ok(t) => match E::divmod_spec(t, q) {
                Outcome::<(E::V, E::V)>::Ok(qr) => power_mod_loop::<E>(qr.1, z, (m - 1) as nat, q),
                Outcome::<(E::V, E::V)>::Err(e) => Outcome::<E::V>::Err(e),
            },
            Outcome::<E::V>::Err(e) => Outcome::<E::V>::Err(e),
        }
    } else {
        match E::mul_spec(z, z) {
            Outcome::<E::V>::Ok(t) => match E::divmod_spec(t, q) {
                Outcome::<(E::V, E::V)>::Ok(qr) => power_mod_loop::<E>(y, qr.1, m / 2, q),
                Outcome::<(E::V, E::V)>::Err(e) => Outcome::<E::V>::Err(e),
            },
            Outcome::<E::V>::Err(e) => Outcome::<E::V>::Err(e),
        }
    }
}

/// `power_mod(k, g, n, q)`: `g^n` reduced modulo `q`; an exponent below one
/// gives one, unreduced.
pub open spec fn power_mod_spec<E: Euclidean, R: RingOps<E>>(k: R::V, g: E::V, n: int, q: E::V) -> Outcome<
    E::V,
> {
    power_mod_loop::<E>(
        R::one_spec(k),
        g,
        if n > 0 {
            n as nat
        } else {
            0
        },
        q,
    )
}

/// `power_mod`
pub fn power_mod<E: Euclidean, R: RingOps<E>>(k: &R, g: &E, n: &Int, q: &E) -> (r: core::result::Result<
    E,
    Error,
>)
    requires
        R::ring_wf(k@),
        E::wf_spec(g@),
        E::wf_spec(q@),
    ensures
        matches_outcome(r, power_mod_spec::<E, R>(k@, g@, n@, q@)),
        r matches Ok(v) ==> E::wf_spec(v@),
{
    let two = Int::from_i64(2);
    let one = Int::from_i64(1);
    let mut y = k.one();
    let mut z = g.copy();
    let mut m = n.clone();
    while m.sign() > 0
        invariant
            two@ == 2,
            one@ == 1,
            E::wf_spec(y@),
            E::wf_spec(z@),
            E::wf_spec(q@),
            power_mod_loop::<E>(
                y@,
                z@,
                if m@ > 0 {
                    m@ as nat
                } else {
                    0
                },
                q@,
            ) == power_mod_spec::<E, R>(k@, g@, n@, q@),
        decreases if m@ > 0 {
            m@
        } else {
            0
        },
    {
        proof {
            lemma_halve(m@);
        }
        if m.rem(&two).is_one() {
            y = y.mul(&z)?.modulo(q)?;
            m = m.sub(&one);
        } else {
            z = z.mul(&z)?.modulo(q)?;
            m = m.div(&two);
        }
    }
    Ok(y)
}

/// The product of the first `j` elements, from `acc`.
pub open spec fn product_loop<E: Elem>(acc: E::V, s: Seq<E::V>, j: nat) -> Outcome<E::V>
    decreases j,
{
    if j == 0 {
        Outcome::<E::V>::Ok(acc)
    } else {
        match product_loop::<E>(acc, s, (j - 1) as nat) {
            Outcome::<E::V>::Ok(p) => E::mul_spec(p, s[j - 1]),
            Outcome::<E::V>::Err(e) => Outcome::<E::V>::Err(e),
        }
    }
}

proof fn lemma_product_err<E: Elem>(acc: E::V, s: Seq<E::V>, j: nat, j2: nat)
    requires
        j <= j2,
        product_loop::<E>(acc, s, j) is Err,
    ensures
        product_loop::<E>(acc, s, j2) == product_loop::<E>(acc, s, j),
    decreases j2,
{
    if j2 > j {
        lemma_product_err::<E>(acc, s, j, (j2 - 1) as nat);
    }
}

/// `product`: the product of `xs`, from one, left to right.
pub fn product<E: Elem, R: RingOps<E>>(k: &R, xs: &[E]) -> (r: core::result::Result<E, Error>)
    requires
        R::ring_wf(k@),
        forall|i: int| 0 <= i < xs@.len() ==> #[trigger] E::wf_spec(xs@[i]@),
    ensures
        matches_outcome(
            r,
            product_loop::<E>(R::one_spec(k@), xs@.map_values(|x: E| x@), xs@.len()),
        ),
        r matches Ok(v) ==> E::wf_spec(v@),
{
    let ghost s = xs@.map_values(|x: E| x@);
    let mut prod = k.one();
    let mut i: usize = 0;
    while i < xs.len()
        invariant
            i <= xs.len(),
            s == xs@.map_values(|x: E| x@),
            forall|j: int| 0 <= j < xs@.len() ==> #[trigger] E::wf_spec(xs@[j]@),
            E::wf_spec(prod@),
            product_loop::<E>(R::one_spec(k@), s, i as nat) == Outcome::<E::V>::Ok(prod@),
        decreases xs.len() - i,
    {
        proof {
            assert(s[i as int] == xs@[i as int]@);
        }
        prod = match prod.mul(&xs[i]) {
            Ok(p) => p,
            Err(e) => {
                proof {
                    lemma_product_err::<E>(R::one_spec(k@), s, (i + 1) as nat, xs@.len());
                }
                return Err(e);
            },
        };
        i = i + 1;
    }
    Ok(prod)
}

/// Euclid's remainder sequence from `(x, y)`, with `fuel` steps allowed;
/// remainders shrink, so the fuel `gcd_spec` gives always suffices.
pub open spec fn gcd_loop<E: Euclidean>(x: E::V, y: E::V, zero: E::V, fuel: nat) -> Outcome<E::V>
    decreases fuel,
{
    if fuel == 0 {
        Outcome::<E::V>::Err(ErrorKind::Other)
    } else if E::equals_spec(y, zero) {
        Outcome::<E::V>::Ok(x)
    } else {
        match E::divmod_spec(x, y) {
            Outcome::<(E::V, E::V)>::Ok(qr) => gcd_loop::<E>(y, qr.1, zero, (fuel - 1) as nat),
            Outcome::<(E::V, E::V)>::Err(e) => Outcome::<E::V>::Err(e),
        }
    }
}

/// `gcd` over a Euclidean domain: the larger argument first, then Euclid's
/// algorithm.
pub open spec fn gcd_spec<E: Euclidean, R: RingOps<E>>(k: R::V, x: E::V, y: E::V) -> Outcome<E::V> {
    let (a, b) = if E::euclid_spec(x) < E::euclid_spec(y) {
        (y, x)
    } else {
        (x, y)
    };
    gcd_loop::<E>(a, b, R::zero_spec(k), (E::euclid_spec(b) + 2) as nat)
}

/// Whether `x` is smaller than `y` in the Euclidean size.
fn euclid_less<E: Euclidean>(x: &E, y: &E) -> (r: bool)
    requires
        E::wf_spec(x@),
        E::wf_spec(y@),
    ensures
        r == (E::euclid_spec(x@) < E::euclid_spec(y@)),
{
    match x.euclidean().cmp(&y.euclidean()) {
        Ordering::Less => true,
        _ => false,
    }
}

/// `gcd` over a Euclidean domain.
pub fn gcd<E: Euclidean, R: RingOps<E>>(k: &R, x: &E, y: &E) -> (r: core::result::Result<E, Error>)
    requires
        R::ring_wf(k@),
        E::wf_spec(x@),
        E::wf_spec(y@),
    ensures
        matches_outcome(r, gcd_spec::<E, R>(k@, x@, y@)),
        r matches Ok(v) ==> E::wf_spec(v@),
{
    let (mut a, mut b) = if euclid_less(x, y) {
        (y.copy(), x.copy())
    } else {
        (x.copy(), y.copy())
    };
    let zero = k.zero();
    let ghost mut fuel: nat = (E::euclid_spec(b@) + 2) as nat;
    proof {
        E::lemma_euclid_bound(b@);
    }
    while !b.equals(&zero)
        invariant
            E::wf_spec(a@),
            E::wf_spec(b@),
            E::wf_spec(zero@),
            zero@ == R::zero_spec(k@),
            fuel >= E::euclid_spec(b@) + 2,
            gcd_loop::<E>(a@, b@, zero@, fuel) == gcd_spec::<E, R>(k@, x@, y@),
        decreases E::euclid_spec(b@) + 2,
    {
        proof {
            E::lemma_euclid_bound(b@);
        }
        let (_, r) = a.divmod(&b)?;
        proof {
            E::lemma_euclid_bound(r@);
            fuel = (fuel - 1) as nat;
        }
        a = b;
        b = r;
    }
    proof {
        E::lemma_euclid_bound(b@);
    }
    Ok(a)
}


/// The extended Euclidean remainder sequence: remainders `r`, and the
/// cofactors `s` and `t` with `r = s * x + t * y` at every step.
pub open spec fn egcd_loop<E: Euclidean>(
    r0: E::V,
    r1: E::V,
    s0: E::V,
    s1: E::V,
    t0: E::V,
    t1: E::V,
    zero: E::V,
    fuel: nat,
) -> Outcome<(E::V, E::V, E::V)>
    decreases fuel,
{
    if fuel == 0 {
        Outcome::<(E::V, E::V, E::V)>::Err(ErrorKind::Other)
    } else if E::equals_spec(r1, zero) {
        Outcome::<(E::V, E::V, E::V)>::Ok((r0, s0, t0))
    } else {
        match E::divmod_spec(r0, r1) {
            Outcome::<(E::V, E::V)>::Err(e) => Outcome::<(E::V, E::V, E::V)>::Err(e),
            Outcome::<(E::V, E::V)>::Ok(qr) => match E::mul_spec(qr.0, s1) {
                Outcome::<E::V>::Err(e) => Outcome::<(E::V, E::V, E::V)>::Err(e),
                Outcome::<E::V>::Ok(qs) => match E::sub_spec(s0, qs) {
                    Outcome::<E::V>::Err(e) => Outcome::<(E::V, E::V, E::V)>::Err(e),
                    Outcome::<E::V>::Ok(s2) => match E::mul_spec(qr.0, t1) {
                        Outcome::<E::V>::Err(e) => Outcome::<(E::V, E::V, E::V)>::Err(e),
                        Outcome::<E::V>::Ok(qt) => match E::sub_spec(t0, qt) {
                            Outcome::<E::V>::Err(e) => Outcome::<(E::V, E::V, E::V)>::Err(e),
                            Outcome::<E::V>::Ok(t2) => egcd_loop::<E>(
                                r1,
                                qr.1,
                                s1,
                                s2,
                                t1,
                                t2,
                                zero,
                                (fuel - 1) as nat,
                            ),
                        },
                    },
                },
            },
        }
    }
}

/// The cofactors swapped back when the arguments were swapped.
pub open spec fn egcd_finish<E: Euclidean>(o: Outcome<(E::V, E::V, E::V)>, swap: bool) -> Outcome<
    (E::V, E::V, E::V),
> {
    match o {
        Outcome::<(E::V, E::V, E::V)>::Ok(t) => Outcome::<(E::V, E::V, E::V)>::Ok(
            if swap {
                (t.0, t.2, t.1)
            } else {
                t
            },
        ),
        Outcome::<(E::V, E::V, E::V)>::Err(e) => Outcome::<(E::V, E::V, E::V)>::Err(e),
    }
}

/// `extended_gcd(k, x, y)`: `(r, s, t)` with `r = x*s + y*t`, the larger
/// argument taken first and the cofactors swapped back.
pub open spec fn extended_gcd_spec<E: Euclidean, R: RingOps<E>>(k: R::V, x: E::V, y: E::V) -> Outcome<
    (E::V, E::V, E::V),
> {
    let swap = E::euclid_spec(x) < E::euclid_spec(y);
    let (a, b) = if swap {
        (y, x)
    } else {
        (x, y)
    };
    egcd_finish::<E>(
        egcd_loop::<E>(
            a,
            b,
            R::one_spec(k),
            R::zero_spec(k),
            R::zero_spec(k),
            R::one_spec(k),
            R::zero_spec(k),
            (E::euclid_spec(b) + 2) as nat,
        ),
        swap,
    )
}

/// `extended_gcd`: returns `(r, s, t)` with `r = x*s + y*t`.
pub fn extended_gcd<E: Euclidean, R: RingOps<E>>(k: &R, x: &E, y: &E) -> (r: core::result::Result<
    (E, E, E),
    Error,
>)
    requires
        R::ring_wf(k@),
        E::wf_spec(x@),
        E::wf_spec(y@),
    ensures
        match r {
            Ok(t) => extended_gcd_spec::<E, R>(k@, x@, y@) == Outcome::<(E::V, E::V, E::V)>::Ok(
                (t.0@, t.1@, t.2@),
            ),
            Err(e) => extended_gcd_spec::<E, R>(k@, x@, y@) == Outcome::<(E::V, E::V, E::V)>::Err(
                e.spec_error_kind(),
            ),
        },
        r matches Ok(t) ==> E::wf_spec(t.0@) && E::wf_spec(t.1@) && E::wf_spec(t.2@),
{
    let swap = euclid_less(x, y);
    let (a, b) = if swap {
        (y.copy(), x.copy())
    } else {
        (x.copy(), y.copy())
    };
    let ghost b0 = b@;
    let mut r0 = a;
    let mut r1 = b;
    let mut s0 = k.one();
    let mut s1 = k.zero();
    let mut t0 = k.zero();
    let mut t1 = k.one();
    let zero = k.zero();
    let ghost mut fuel: nat = (E::euclid_spec(r1@) + 2) as nat;
    proof {
        E::lemma_euclid_bound(r1@);
    }
    let ghost target = egcd_loop::<E>(r0@, r1@, s0@, s1@, t0@, t1@, zero@, fuel);
    while !r1.equals(&zero)
        invariant
            E::wf_spec(r0@),
            E::wf_spec(r1@),
            E::wf_spec(s0@),
            E::wf_spec(s1@),
            E::wf_spec(t0@),
            E::wf_spec(t1@),
            E::wf_spec(zero@),
            fuel >= E::euclid_spec(r1@) + 2,
            egcd_loop::<E>(r0@, r1@, s0@, s1@, t0@, t1@, zero@, fuel) == target,
            egcd_finish::<E>(target, swap) == extended_gcd_spec::<E, R>(k@, x@, y@),
        decreases E::euclid_spec(r1@) + 2,
    {
        proof {
            E::lemma_euclid_bound(r1@);
        }
        let (q, r2) = r0.divmod(&r1)?;
        proof {
            E::lemma_euclid_bound(r2@);
        }
        let qs = q.mul(&s1)?;
        let s2 = s0.sub(&qs)?;
        let qt = q.mul(&t1)?;
        let t2 = t0.sub(&qt)?;
        proof {
            fuel = (fuel - 1) as nat;
        }
        r0 = r1;
        r1 = r2;
        s0 = s1;
        s1 = s2;
        t0 = t1;
        t1 = t2;
    }
    proof {
        E::lemma_euclid_bound(r1@);
    }
    if swap {
        Ok((r0, t0, s0))
    } else {
        Ok((r0, s0, t0))
    }
}

} // verus!
