//! Algebraic number fields ℚ(θ).
//!
//! A field is θ, a root of a rational polynomial, held between two rational
//! bounds that isolate it, with the powers of θ reduced modulo the
//! polynomial. A number of the field is a rational polynomial in θ of lower
//! degree. Deciding the sign of a number narrows the bounds, a halving at a
//! time, until interval arithmetic over them settles it.
//!
//! A field here is a value: each number carries its own copy, and a
//! narrowing made while deciding a sign is made on a copy. The answers do not
//! depend on how far the bounds were narrowed before, so sharing the
//! narrowing would only save work.

use vstd::prelude::*;
use vstd::string::StringExecFns;

use crate::error::{Error, ErrorKind};
use crate::num::fraction::{fraction_text, middle_spec, raw_add, raw_mul, reduce_spec, Fraction, QQ};
use crate::num::integers::sign_of;
use crate::num::polynomial::{
    count_roots, count_roots_spec, divmod_spec, eval_spec, max_len, poly_mul_spec, poly_of, polynomial,
    poly_text, polynomial_i64, qq_x, views, PolyQ, QQx,
};
use crate::num::ring::{extended_gcd, extended_gcd_spec, Elem, Outcome, RingOps};

verus! {

/// A rational polynomial as its view: the ring, the coefficients lowest
/// first, the degree.
pub type PolyQV = ((), Seq<(int, int)>, int);

/// The constant polynomial one.
pub open spec fn one_v() -> PolyQV {
    poly_of::<Fraction, QQ>((), seq![(1int, 1int)])
}

/// The polynomial `x`.
pub open spec fn x_v() -> PolyQV {
    poly_of::<Fraction, QQ>((), seq![(0int, 1int), (1int, 1int)])
}

/// The views of a list of polynomials.
pub open spec fn pviews(v: Seq<PolyQ>) -> Seq<PolyQV> {
    v.map_values(|q: PolyQ| q@)
}

/// The views of a list of fractions.
pub open spec fn fviews(v: Seq<Fraction>) -> Seq<(int, int)> {
    v.map_values(|q: Fraction| q@)
}

/// The powers `x^0 ..= x^n`, each the one before times `x`, reduced modulo
/// `p` from `x^deg p` on.
pub open spec fn field_powers(p: PolyQV, n: nat) -> Outcome<Seq<PolyQV>>
    decreases n,
{
    if n == 0 {
        Outcome::Ok(seq![one_v()])
    } else {
        match field_powers(p, (n - 1) as nat) {
            Outcome::Err(k) => Outcome::Err(k),
            Outcome::Ok(ps) => match poly_mul_spec::<Fraction, QQ>(ps.last(), x_v()) {
                Outcome::Err(k) => Outcome::Err(k),
                Outcome::Ok(q) => if n < p.2 {
                    Outcome::Ok(ps.push(q))
                } else {
                    match divmod_spec::<Fraction, QQ>(q, p) {
                        Outcome::Err(k) => Outcome::Err(k),
                        Outcome::Ok(dm) => Outcome::Ok(ps.push(dm.1)),
                    }
                },
            },
        }
    }
}

/// The powers a field of polynomial `p` keeps: up to `x^(2 deg p)`, or just
/// one for the zero polynomial.
pub open spec fn powers_spec(p: PolyQV) -> Outcome<Seq<PolyQV>> {
    if p.2 < 1 {
        Outcome::Ok(seq![one_v()])
    } else {
        field_powers(p, (2 * p.2) as nat)
    }
}

/// A product of fractions, reduced.
pub open spec fn fmul(a: (int, int), b: (int, int)) -> (int, int) {
    reduce_spec(raw_mul(a, b).0, raw_mul(a, b).1)
}

/// Whether `a` is less than `b` (positive denominators).
pub open spec fn fless(a: (int, int), b: (int, int)) -> bool {
    a.0 * b.1 < b.0 * a.1
}

/// The first of the least: what a stable sort puts first.
pub open spec fn min2(a: (int, int), b: (int, int)) -> (int, int) {
    if fless(b, a) {
        b
    } else {
        a
    }
}

/// The last of the greatest: what a stable sort puts last.
pub open spec fn max2(a: (int, int), b: (int, int)) -> (int, int) {
    if fless(b, a) {
        a
    } else {
        b
    }
}

/// Bounds on `θ^0 ..= θ^n` for `θ` in `[lower, upper]`: each the least and
/// the greatest of the four products of the bounds before with the ends.
pub open spec fn bounds_spec(lower: (int, int), upper: (int, int), n: nat) -> (Seq<(int, int)>, Seq<(int, int)>)
    decreases n,
{
    if n == 0 {
        (seq![(1int, 1int)], seq![(1int, 1int)])
    } else {
        let prev = bounds_spec(lower, upper, (n - 1) as nat);
        let a = fmul(prev.0.last(), lower);
        let b = fmul(prev.0.last(), upper);
        let c = fmul(prev.1.last(), lower);
        let d = fmul(prev.1.last(), upper);
        (prev.0.push(min2(min2(min2(a, b), c), d)), prev.1.push(max2(max2(max2(a, b), c), d)))
    }
}

/// How many powers a field bounds: up to its degree, none below zero.
pub open spec fn bound_count(degree: int) -> nat {
    if degree < 0 {
        0
    } else {
        degree as nat
    }
}

/// The mathematical form of a field.
pub struct FieldV {
    pub degree: int,
    pub poly: PolyQV,
    pub powers: Seq<PolyQV>,
    pub lower: (int, int),
    pub upper: (int, int),
    pub powers_lower: Seq<(int, int)>,
    pub powers_upper: Seq<(int, int)>,
}

/// ℚ(θ) where θ is a root of a polynomial with rational coefficients,
/// isolated between `lower` and `upper`.
pub struct AlgebraicNumberField {
    pub degree: isize,
    /// Minimal polynomial of θ.
    pub poly: PolyQ,
    /// Powers of θ up to `2*degree`, reduced mod `poly`.
    pub powers: Vec<PolyQ>,
    /// The isolating interval, and bounds on the powers of θ over it.
    pub lower: Fraction,
    pub upper: Fraction,
    pub powers_lower: Vec<Fraction>,
    pub powers_upper: Vec<Fraction>,
}

impl View for AlgebraicNumberField {
    type V = FieldV;

    open spec fn view(&self) -> FieldV {
        FieldV {
            degree: self.degree as int,
            poly: self.poly@,
            powers: pviews(self.powers@),
            lower: self.lower@,
            upper: self.upper@,
            powers_lower: fviews(self.powers_lower@),
            powers_upper: fviews(self.powers_upper@),
        }
    }
}

/// Whether each polynomial of a list is well formed.
pub open spec fn all_polys_wf(ps: Seq<PolyQV>) -> bool {
    forall|i: int| 0 <= i < ps.len() ==> #[trigger] PolyQ::wf_view(ps[i])
}

/// Whether each fraction of a list has a positive denominator.
pub open spec fn all_fracs_wf(fs: Seq<(int, int)>) -> bool {
    forall|i: int| 0 <= i < fs.len() ==> #[trigger] fs[i].1 > 0
}

/// A field as `new` builds it and `refine` keeps it: its powers as
/// `powers_spec` gives them, and its power bounds as `bounds_spec` gives
/// them over its interval.
pub closed spec fn field_wf(f: FieldV) -> bool {
    &&& PolyQ::wf_view(f.poly)
    &&& f.degree == f.poly.2
    &&& f.degree != 0
    &&& f.degree < 0x4000_0000
    &&& powers_spec(f.poly) == Outcome::Ok(f.powers)
    &&& all_polys_wf(f.powers)
    &&& f.lower.1 > 0
    &&& f.upper.1 > 0
    &&& bounds_spec(f.lower, f.upper, bound_count(f.degree)) == (f.powers_lower, f.powers_upper)
    &&& f.powers_lower.len() == bound_count(f.degree) + 1
    &&& f.powers_upper.len() == bound_count(f.degree) + 1
    &&& all_fracs_wf(f.powers_lower)
    &&& all_fracs_wf(f.powers_upper)
}

/// Once computing the powers fails, it fails the same way from then on.
proof fn lemma_powers_err(p: PolyQV, j: nat, j2: nat)
    requires
        j <= j2,
        field_powers(p, j) is Err,
    ensures
        field_powers(p, j2) == field_powers(p, j),
    decreases j2 - j,
{
    if j < j2 {
        lemma_powers_err(p, j, (j2 - 1) as nat);
    }
}

/// The polynomial with one coefficient, or two.
fn small_poly(c0: i64, c1: Option<i64>) -> (r: PolyQ)
    ensures
        r@ == match c1 {
            Some(b) => poly_of::<Fraction, QQ>((), seq![(c0 as int, 1int), (b as int, 1int)]),
            None => poly_of::<Fraction, QQ>((), seq![(c0 as int, 1int)]),
        },
        PolyQ::wf_view(r@),
{
    let mut cs: Vec<Fraction> = Vec::new();
    cs.push(Fraction::from_int(c0));
    match c1 {
        Some(b) => {
            cs.push(Fraction::from_int(b));
            proof {
                assert(views::<Fraction>(cs@) =~= seq![(c0 as int, 1int), (b as int, 1int)]);
            }
        },
        None => {
            proof {
                assert(views::<Fraction>(cs@) =~= seq![(c0 as int, 1int)]);
            }
        },
    }
    polynomial(cs)
}

/// The powers of a field's polynomial.
fn compute_powers(poly: &PolyQ) -> (r: core::result::Result<Vec<PolyQ>, Error>)
    requires
        PolyQ::wf_view(poly@),
        poly@.2 != 0,
        poly@.2 < 0x4000_0000,
    ensures
        match r {
            Ok(ps) => powers_spec(poly@) == Outcome::Ok(pviews(ps@)) && all_polys_wf(pviews(ps@)),
            Err(e) => powers_spec(poly@) == Outcome::<Seq<PolyQV>>::Err(e.spec_error_kind()),
        },
{
    let one = small_poly(1, None);
    let x = small_poly(0, Some(1));
    let mut powers: Vec<PolyQ> = Vec::new();
    powers.push(one);
    proof {
        assert(pviews(powers@) =~= seq![one_v()]);
    }
    if poly.degree < 1 {
        return Ok(powers);
    }
    let n: isize = 2 * poly.degree;
    let mut i: isize = 1;
    while i <= n
        invariant
            1 <= i <= n + 1,
            n == 2 * poly@.2,
            1 <= poly@.2 < 0x4000_0000,
            PolyQ::wf_view(poly@),
            x@ == x_v(),
            PolyQ::wf_view(x@),
            powers@.len() == i,
            field_powers(poly@, (i - 1) as nat) == Outcome::Ok(pviews(powers@)),
            all_polys_wf(pviews(powers@)),
        decreases n + 1 - i,
    {
        proof {
            assert(pviews(powers@).last() == powers@[powers@.len() - 1]@);
        }
        let q = match Elem::mul(&powers[powers.len() - 1], &x) {
            Ok(q) => q,
            Err(e) => {
                proof {
                    lemma_powers_err(poly@, i as nat, n as nat);
                }
                return Err(e);
            },
        };
        let next = if i < poly.degree {
            q
        } else {
            match q.into_modulo(poly) {
                Ok(m) => m,
                Err(e) => {
                    proof {
                        lemma_powers_err(poly@, i as nat, n as nat);
                    }
                    return Err(e);
                },
            }
        };
        let ghost before = pviews(powers@);
        powers.push(next);
        proof {
            assert(pviews(powers@) =~= before.push(next@));
        }
        i = i + 1;
    }
    Ok(powers)
}

/// A product of two fractions, reduced.
fn frac_mul(a: &Fraction, b: &Fraction) -> (r: Fraction)
    requires
        a@.1 > 0,
        b@.1 > 0,
    ensures
        r@ == fmul(a@, b@),
        r@.1 > 0,
{
    match Elem::mul(a, b) {
        Ok(c) => c,
        Err(_) => {
            proof {
                assert(false);
            }
            Fraction::from_int(0)
        },
    }
}

/// Bounds on the powers of θ up to `θ^degree`, over `[lower, upper]`.
fn interval_powers(lower: &Fraction, upper: &Fraction, degree: isize) -> (r: (Vec<Fraction>, Vec<Fraction>))
    requires
        lower@.1 > 0,
        upper@.1 > 0,
        degree < 0x4000_0000,
    ensures
        bounds_spec(lower@, upper@, bound_count(degree as int)) == (fviews(r.0@), fviews(r.1@)),
        all_fracs_wf(fviews(r.0@)),
        all_fracs_wf(fviews(r.1@)),
{
    let mut pl: Vec<Fraction> = Vec::new();
    let mut pu: Vec<Fraction> = Vec::new();
    pl.push(Fraction::from_int(1));
    pu.push(Fraction::from_int(1));
    proof {
        assert(fviews(pl@) =~= seq![(1int, 1int)]);
        assert(fviews(pu@) =~= seq![(1int, 1int)]);
    }
    let top: isize = if degree < 0 {
        0
    } else {
        degree
    };
    let mut i: isize = 1;
    while i <= top
        invariant
            1 <= i,
            i <= top + 1,
            top == bound_count(degree as int),
            top < 0x4000_0000,
            lower@.1 > 0,
            upper@.1 > 0,
            pl@.len() == i,
            pu@.len() == i,
            bounds_spec(lower@, upper@, (i - 1) as nat) == (fviews(pl@), fviews(pu@)),
            all_fracs_wf(fviews(pl@)),
            all_fracs_wf(fviews(pu@)),
        decreases top + 1 - i,
    {
        let k = pl.len() - 1;
        proof {
            assert(fviews(pl@).last() == pl@[k as int]@);
            assert(fviews(pu@).last() == pu@[k as int]@);
            assert(fviews(pl@)[k as int].1 > 0);
            assert(fviews(pu@)[k as int].1 > 0);
        }
        let a = frac_mul(&pl[k], lower);
        let b = frac_mul(&pl[k], upper);
        let c = frac_mul(&pu[k], lower);
        let d = frac_mul(&pu[k], upper);
        let lo1 = if b.compare(&a) < 0 { b.copy() } else { a.copy() };
        let lo2 = if c.compare(&lo1) < 0 { c.copy() } else { lo1 };
        let lo = if d.compare(&lo2) < 0 { d.copy() } else { lo2 };
        let hi1 = if b.compare(&a) < 0 { a } else { b };
        let hi2 = if c.compare(&hi1) < 0 { hi1 } else { c };
        let hi = if d.compare(&hi2) < 0 { hi2 } else { d };
        let ghost bl = fviews(pl@);
        let ghost bu = fviews(pu@);
        pl.push(lo);
        pu.push(hi);
        proof {
            assert(fviews(pl@) =~= bl.push(lo@));
            assert(fviews(pu@) =~= bu.push(hi@));
        }
        i = i + 1;
    }
    (pl, pu)
}

/// `AlgebraicNumberField::new(poly, lower, upper)`: the powers, then a check
/// that the interval holds exactly one root of the polynomial.
pub open spec fn field_new_spec(p: PolyQV, lower: (int, int), upper: (int, int)) -> Outcome<FieldV> {
    match powers_spec(p) {
        Outcome::Err(k) => Outcome::Err(k),
        Outcome::Ok(ps) => match count_roots_spec(p, lower, upper) {
            Outcome::Err(k) => Outcome::Err(k),
            Outcome::Ok(c) => if c != 1 {
                Outcome::Err(ErrorKind::Other)
            } else {
                let b = bounds_spec(lower, upper, bound_count(p.2));
                Outcome::Ok(
                    FieldV {
                        degree: p.2,
                        poly: p,
                        powers: ps,
                        lower,
                        upper,
                        powers_lower: b.0,
                        powers_upper: b.1,
                    },
                )
            },
        },
    }
}

/// `refine()`: halve the isolating interval at the midpoint, keeping the
/// half where the polynomial changes sign (or the point where it vanishes),
/// and bound the powers again.
pub open spec fn refine_spec(f: FieldV) -> Outcome<FieldV> {
    let mid = middle_spec(f.lower, f.upper);
    match eval_spec::<Fraction, QQ>(f.poly, f.lower) {
        Outcome::Err(k) => Outcome::Err(k),
        Outcome::Ok(vl) => match eval_spec::<Fraction, QQ>(f.poly, mid) {
            Outcome::Err(k) => Outcome::Err(k),
            Outcome::Ok(vm) => match eval_spec::<Fraction, QQ>(f.poly, f.upper) {
                Outcome::Err(k) => Outcome::Err(k),
                Outcome::Ok(vu) => {
                    let sl = sign_of(vl.0);
                    let sm = sign_of(vm.0);
                    let su = sign_of(vu.0);
                    let ends = if sl == 0 {
                        (f.lower, f.lower)
                    } else if su == 0 {
                        (f.upper, f.upper)
                    } else if sm == 0 {
                        (mid, mid)
                    } else if sm == sl {
                        (mid, f.upper)
                    } else {
                        (f.lower, mid)
                    };
                    let b = bounds_spec(ends.0, ends.1, bound_count(f.degree));
                    Outcome::Ok(
                        FieldV {
                            lower: ends.0,
                            upper: ends.1,
                            powers_lower: b.0,
                            powers_upper: b.1,
                            ..f
                        },
                    )
                },
            },
        },
    }
}

impl AlgebraicNumberField {
    /// The field of the root of `poly` in `[lower, upper]`; refused unless
    /// the interval holds exactly one root.
    pub fn new(poly: PolyQ, lower: Fraction, upper: Fraction) -> (r: core::result::Result<
        AlgebraicNumberField,
        Error,
    >)
        requires
            PolyQ::wf_view(poly@),
            poly@.2 != 0,
            poly@.2 < 0x4000_0000,
            lower@.1 > 0,
            upper@.1 > 0,
        ensures
            match r {
                Ok(f) => field_new_spec(poly@, lower@, upper@) == Outcome::Ok(f@) && field_wf(f@),
                Err(e) => field_new_spec(poly@, lower@, upper@) == Outcome::<FieldV>::Err(
                    e.spec_error_kind(),
                ),
            },
    {
        let powers = compute_powers(&poly)?;
        let c = count_roots(&poly, &lower, &upper)?;
        if c != 1 {
            return Err(Error::Other("Interval must contain exactly one root".to_owned()));
        }
        let (powers_lower, powers_upper) = interval_powers(&lower, &upper, poly.degree);
        proof {
            lemma_bounds_len(lower@, upper@, bound_count(poly@.2));
        }
        Ok(
            AlgebraicNumberField {
                degree: poly.degree,
                poly,
                powers,
                lower,
                upper,
                powers_lower,
                powers_upper,
            },
        )
    }

    /// The degree of the field.
    pub fn degree(&self) -> (r: isize)
        ensures
            r == self@.degree,
    {
        self.degree
    }

    /// The minimal polynomial of θ.
    pub fn poly(&self) -> (r: &PolyQ)
        ensures
            r@ == self@.poly,
    {
        &self.poly
    }

    /// The isolating interval.
    pub fn bounds(&self) -> (r: (Fraction, Fraction))
        requires
            field_wf(self@),
        ensures
            r.0@ == self@.lower,
            r.1@ == self@.upper,
            r.0@.1 > 0,
            r.1@.1 > 0,
    {
        (self.lower.copy(), self.upper.copy())
    }

    /// Bound the powers of θ again over the current interval.
    pub fn precompute_interval_powers(&mut self)
        requires
            old(self)@.lower.1 > 0,
            old(self)@.upper.1 > 0,
            old(self)@.degree < 0x4000_0000,
        ensures
            final(self)@ == (FieldV {
                powers_lower: bounds_spec(old(self)@.lower, old(self)@.upper, bound_count(old(self)@.degree)).0,
                powers_upper: bounds_spec(old(self)@.lower, old(self)@.upper, bound_count(old(self)@.degree)).1,
                ..old(self)@
            }),
            all_fracs_wf(final(self)@.powers_lower),
            all_fracs_wf(final(self)@.powers_upper),
    {
        let (pl, pu) = interval_powers(&self.lower, &self.upper, self.degree);
        self.powers_lower = pl;
        self.powers_upper = pu;
    }

    /// Halve the isolating interval around θ.
    pub fn refine(&mut self) -> (r: core::result::Result<(), Error>)
        requires
            field_wf(old(self)@),
        ensures
            match r {
                Ok(_) => refine_spec(old(self)@) == Outcome::Ok(final(self)@) && field_wf(final(self)@),
                Err(e) => refine_spec(old(self)@) == Outcome::<FieldV>::Err(e.spec_error_kind())
                    && final(self)@ == old(self)@,
            },
    {
        let mid = self.lower.middle(&self.upper);
        let sl = self.poly.eval(&self.lower)?.sign();
        let sm = self.poly.eval(&mid)?.sign();
        let su = self.poly.eval(&self.upper)?.sign();
        if sl == 0 {
            self.upper = self.lower.copy();
        } else if su == 0 {
            self.lower = self.upper.copy();
        } else if sm == 0 {
            self.lower = mid.copy();
            self.upper = mid;
        } else if sm == sl {
            self.lower = mid;
        } else {
            self.upper = mid;
        }
        self.precompute_interval_powers();
        proof {
            lemma_bounds_len(self@.lower, self@.upper, bound_count(self@.degree));
        }
        Ok(())
    }

    /// A copy of the field.
    pub fn copy(&self) -> (r: AlgebraicNumberField)
        requires
            field_wf(self@),
        ensures
            r@ == self@,
    {
        AlgebraicNumberField {
            degree: self.degree,
            poly: self.poly.copy_poly(),
            powers: copy_polys(&self.powers),
            lower: self.lower.copy(),
            upper: self.upper.copy(),
            powers_lower: copy_fracs(&self.powers_lower),
            powers_upper: copy_fracs(&self.powers_upper),
        }
    }
}

/// A copy of a list of polynomials.
fn copy_polys(v: &Vec<PolyQ>) -> (r: Vec<PolyQ>)
    requires
        all_polys_wf(pviews(v@)),
    ensures
        pviews(r@) == pviews(v@),
{
    let mut out: Vec<PolyQ> = Vec::new();
    let mut i: usize = 0;
    while i < v.len()
        invariant
            i <= v@.len(),
            all_polys_wf(pviews(v@)),
            pviews(out@) == pviews(v@).take(i as int),
        decreases v@.len() - i,
    {
        proof {
            assert(pviews(v@)[i as int] == v@[i as int]@);
        }
        let c = v[i].copy_poly();
        let ghost before = pviews(out@);
        out.push(c);
        proof {
            assert(pviews(out@) =~= before.push(c@));
            assert(pviews(v@).take(i + 1) =~= pviews(v@).take(i as int).push(c@));
        }
        i = i + 1;
    }
    proof {
        assert(pviews(v@).take(v@.len() as int) =~= pviews(v@));
    }
    out
}

/// A copy of a list of fractions.
fn copy_fracs(v: &Vec<Fraction>) -> (r: Vec<Fraction>)
    requires
        all_fracs_wf(fviews(v@)),
    ensures
        fviews(r@) == fviews(v@),
{
    let mut out: Vec<Fraction> = Vec::new();
    let mut i: usize = 0;
    while i < v.len()
        invariant
            i <= v@.len(),
            all_fracs_wf(fviews(v@)),
            fviews(out@) == fviews(v@).take(i as int),
        decreases v@.len() - i,
    {
        proof {
            assert(fviews(v@)[i as int] == v@[i as int]@);
        }
        let c = v[i].copy();
        let ghost before = fviews(out@);
        out.push(c);
        proof {
            assert(fviews(out@) =~= before.push(c@));
            assert(fviews(v@).take(i + 1) =~= fviews(v@).take(i as int).push(c@));
        }
        i = i + 1;
    }
    proof {
        assert(fviews(v@).take(v@.len() as int) =~= fviews(v@));
    }
    out
}

/* ------------------------------------------------------------------------ */
/*  Numbers                                                                  */
/* ------------------------------------------------------------------------ */

/// A number of a field: a rational polynomial in θ.
pub struct AlgebraicNumber {
    pub field: AlgebraicNumberField,
    pub poly: PolyQ,
}

impl View for AlgebraicNumber {
    type V = (FieldV, PolyQV);

    open spec fn view(&self) -> (FieldV, PolyQV) {
        (self.field@, self.poly@)
    }
}

/// A number of a well-formed field whose polynomial has no more terms than
/// the field bounds powers of θ.
pub open spec fn number_wf(a: (FieldV, PolyQV)) -> bool {
    &&& field_wf(a.0)
    &&& PolyQ::wf_view(a.1)
    &&& a.1.1.len() <= a.0.powers_lower.len()
}

/// `AlgebraicNumber::new(field, poly)`: the remainder of `poly` modulo the
/// field's polynomial.
pub open spec fn number_new_spec(f: FieldV, p: PolyQV) -> Outcome<(FieldV, PolyQV)> {
    match divmod_spec::<Fraction, QQ>(p, f.poly) {
        Outcome::Err(k) => Outcome::Err(k),
        Outcome::Ok(dm) => Outcome::Ok((f, dm.1)),
    }
}

/// Whether two rational polynomials are equal, coefficient by coefficient.
pub open spec fn poly_equals(a: PolyQV, b: PolyQV) -> bool {
    <PolyQ as Elem>::equals_spec(a, b)
}

/// `equals`: the same polynomial, and an overlap of the two intervals that
/// holds exactly one of its roots.
pub open spec fn field_equals_spec(a: FieldV, b: FieldV) -> Outcome<bool> {
    if !poly_equals(a.poly, b.poly) {
        Outcome::Ok(false)
    } else {
        let lower = if fless(b.lower, a.lower) {
            a.lower
        } else {
            b.lower
        };
        let upper = if fless(a.upper, b.upper) {
            a.upper
        } else {
            b.upper
        };
        if fless(upper, lower) {
            Outcome::Ok(false)
        } else {
            match count_roots_spec(a.poly, lower, upper) {
                Outcome::Err(k) => Outcome::Err(k),
                Outcome::Ok(c) => Outcome::Ok(c == 1),
            }
        }
    }
}

/// `check_same_field(a, b)`: the field an operation on the two happens in:
/// theirs when they are equal, else the other's when one is ℚ itself.
pub closed spec fn same_field_spec(a: FieldV, b: FieldV) -> Outcome<FieldV> {
    match field_equals_spec(a, b) {
        Outcome::Err(k) => Outcome::Err(k),
        Outcome::Ok(same) => if same {
            Outcome::Ok(a)
        } else if a.degree == 1 {
            Outcome::Ok(b)
        } else if b.degree == 1 {
            Outcome::Ok(a)
        } else {
            Outcome::Err(ErrorKind::Range)
        },
    }
}

/// A binary operation on numbers: in the common field, the polynomials
/// combined by `op`, then reduced.
pub open spec fn number_op_spec(a: (FieldV, PolyQV), b: (FieldV, PolyQV), o: Outcome<PolyQV>) -> Outcome<
    (FieldV, PolyQV),
> {
    match same_field_spec(a.0, b.0) {
        Outcome::Err(k) => Outcome::Err(k),
        Outcome::Ok(f) => match o {
            Outcome::Err(k) => Outcome::Err(k),
            Outcome::Ok(p) => number_new_spec(f, p),
        },
    }
}

/// The interval sums over the first `n` coefficients: each coefficient times
/// the bound on its power that keeps the sum low, and the one that keeps it
/// high.
pub open spec fn interval_acc(f: FieldV, p: PolyQV, n: nat) -> ((int, int), (int, int))
    decreases n,
{
    if n == 0 {
        ((0int, 1int), (0int, 1int))
    } else {
        let prev = interval_acc(f, p, (n - 1) as nat);
        let i = n - 1;
        let c = p.1[i];
        if c.0 > 0 {
            (raw_add(prev.0, fmul(c, f.powers_lower[i])), raw_add(prev.1, fmul(c, f.powers_upper[i])))
        } else if c.0 < 0 {
            (raw_add(prev.0, fmul(c, f.powers_upper[i])), raw_add(prev.1, fmul(c, f.powers_lower[i])))
        } else {
            prev
        }
    }
}

/// `interval()`: bounds on a number from the field's bounds on θ, reduced.
pub open spec fn interval_spec(f: FieldV, p: PolyQV) -> ((int, int), (int, int)) {
    let acc = interval_acc(f, p, p.1.len());
    (reduce_spec(acc.0.0, acc.0.1), reduce_spec(acc.1.0, acc.1.1))
}

/// How many times deciding a sign may halve the interval before it gives up.
pub const SIGN_FUEL: u32 = 4096;

/// Narrow the field until both ends of the number's interval have one sign,
/// which is its sign; at most `fuel` halvings.
pub open spec fn sign_search(f: FieldV, p: PolyQV, fuel: nat) -> Outcome<int>
    decreases fuel,
{
    let iv = interval_spec(f, p);
    if sign_of(iv.0.0) == sign_of(iv.1.0) {
        Outcome::Ok(sign_of(iv.0.0))
    } else if fuel == 0 {
        Outcome::Err(ErrorKind::Other)
    } else {
        match refine_spec(f) {
            Outcome::Err(k) => Outcome::Err(k),
            Outcome::Ok(g) => sign_search(g, p, (fuel - 1) as nat),
        }
    }
}

/// `sign()`: zero for the zero polynomial, else the sign the search settles.
pub open spec fn number_sign_spec(a: (FieldV, PolyQV)) -> Outcome<int> {
    if a.1.2 == -1 {
        Outcome::Ok(0)
    } else {
        sign_search(a.0, a.1, SIGN_FUEL as nat)
    }
}

/// A sum of two fractions, unreduced.
fn frac_add_raw(a: &mut Fraction, b: &Fraction)
    requires
        old(a)@.1 > 0,
        b@.1 > 0,
    ensures
        final(a)@ == raw_add(old(a)@, b@),
        final(a)@.1 > 0,
{
    a.iadd_r(b, false);
}

/// Bounds on the number `p` of field `f`.
fn interval_in(f: &AlgebraicNumberField, p: &PolyQ) -> (r: (Fraction, Fraction))
    requires
        number_wf((f@, p@)),
    ensures
        (r.0@, r.1@) == interval_spec(f@, p@),
        r.0@.1 > 0,
        r.1@.1 > 0,
{
    let mut l = Fraction::from_int(0);
    let mut u = Fraction::from_int(0);
    let n = p.coeffs.len();
    let mut i: usize = 0;
    while i < n
        invariant
            i <= n == p@.1.len(),
            number_wf((f@, p@)),
            (l@, u@) == interval_acc(f@, p@, i as nat),
            l@.1 > 0,
            u@.1 > 0,
        decreases n - i,
    {
        proof {
            assert(p@.1[i as int] == p.coeffs@[i as int]@);
            assert(f@.powers_lower[i as int] == f.powers_lower@[i as int]@);
            assert(f@.powers_upper[i as int] == f.powers_upper@[i as int]@);
            assert(f@.powers_lower[i as int].1 > 0);
            assert(f@.powers_upper[i as int].1 > 0);
            assert(Fraction::wf_spec(p@.1[i as int]));
        }
        let c = &p.coeffs[i];
        let s = c.sign();
        if s > 0 {
            let a = frac_mul(c, &f.powers_lower[i]);
            let b = frac_mul(c, &f.powers_upper[i]);
            frac_add_raw(&mut l, &a);
            frac_add_raw(&mut u, &b);
        } else if s < 0 {
            let a = frac_mul(c, &f.powers_upper[i]);
            let b = frac_mul(c, &f.powers_lower[i]);
            frac_add_raw(&mut l, &a);
            frac_add_raw(&mut u, &b);
        }
        i = i + 1;
    }
    l.reduce();
    u.reduce();
    (l, u)
}

impl AlgebraicNumberField {
    /// `equals(other)`: the same polynomial, with a root in common between
    /// the two intervals.
    pub fn equals(&self, other: &AlgebraicNumberField) -> (r: core::result::Result<bool, Error>)
        requires
            field_wf(self@),
            field_wf(other@),
        ensures
            match r {
                Ok(b) => field_equals_spec(self@, other@) == Outcome::Ok(b),
                Err(e) => field_equals_spec(self@, other@) == Outcome::<bool>::Err(e.spec_error_kind()),
            },
    {
        if !self.poly.equals(&other.poly) {
            return Ok(false);
        }
        let lower = if self.lower.compare(&other.lower) > 0 {
            self.lower.copy()
        } else {
            other.lower.copy()
        };
        let upper = if self.upper.compare(&other.upper) < 0 {
            self.upper.copy()
        } else {
            other.upper.copy()
        };
        if lower.compare(&upper) > 0 {
            return Ok(false);
        }
        let c = count_roots(&self.poly, &lower, &upper)?;
        Ok(c == 1)
    }

    /// The number with the given coefficients, reduced into the field.
    pub fn from_vector(&self, coeffs: Vec<Fraction>) -> (r: core::result::Result<AlgebraicNumber, Error>)
        requires
            field_wf(self@),
            forall|i: int| 0 <= i < coeffs@.len() ==> #[trigger] coeffs@[i]@.1 > 0,
            coeffs@.len() <= max_len(),
        ensures
            match r {
                Ok(a) => number_new_spec(self@, poly_of::<Fraction, QQ>((), views::<Fraction>(coeffs@)))
                    == Outcome::Ok(a@) && number_wf(a@),
                Err(e) => number_new_spec(self@, poly_of::<Fraction, QQ>((), views::<Fraction>(coeffs@)))
                    == Outcome::<(FieldV, PolyQV)>::Err(e.spec_error_kind()),
            },
    {
        AlgebraicNumber::new(self.copy(), polynomial(coeffs))
    }
}

impl AlgebraicNumber {
    /// The number `poly` of `field`, reduced modulo the field's polynomial.
    pub fn new(field: AlgebraicNumberField, poly: PolyQ) -> (r: core::result::Result<AlgebraicNumber, Error>)
        requires
            field_wf(field@),
            PolyQ::wf_view(poly@),
        ensures
            match r {
                Ok(a) => number_new_spec(field@, poly@) == Outcome::Ok(a@) && number_wf(a@),
                Err(e) => number_new_spec(field@, poly@) == Outcome::<(FieldV, PolyQV)>::Err(
                    e.spec_error_kind(),
                ),
            },
    {
        proof {
            crate::num::polynomial::lemma_divmod_degree::<Fraction, QQ>(poly@, field@.poly);
            crate::num::polynomial::lemma_trim::<Fraction>(field@.poly.1);
        }
        let ghost fv = field@;
        let poly = poly.into_modulo(&field.poly)?;
        proof {
            assert(fv.powers_lower.len() == bound_count(fv.degree) + 1) by {
                lemma_bounds_len(fv.lower, fv.upper, bound_count(fv.degree));
            }
        }
        Ok(AlgebraicNumber { field, poly })
    }

    /// Whether the number is zero.
    pub fn is_zero(&self) -> (r: bool)
        ensures
            r == (self@.1.2 == -1),
    {
        self.poly.degree == -1
    }

    /// A copy of the number.
    pub fn copy(&self) -> (r: AlgebraicNumber)
        requires
            number_wf(self@),
        ensures
            r@ == self@,
    {
        AlgebraicNumber { field: self.field.copy(), poly: self.poly.copy_poly() }
    }

    /// `check_same_field`: the field an operation on `a` and `b` happens in.
    pub fn check_same_field(a: &AlgebraicNumber, b: &AlgebraicNumber) -> (r: core::result::Result<
        AlgebraicNumberField,
        Error,
    >)
        requires
            number_wf(a@),
            number_wf(b@),
        ensures
            match r {
                Ok(f) => same_field_spec(a@.0, b@.0) == Outcome::Ok(f@) && field_wf(f@),
                Err(e) => same_field_spec(a@.0, b@.0) == Outcome::<FieldV>::Err(e.spec_error_kind()),
            },
    {
        if a.field.equals(&b.field)? {
            return Ok(a.field.copy());
        }
        if a.field.degree() == 1 {
            return Ok(b.field.copy());
        }
        if b.field.degree() == 1 {
            return Ok(a.field.copy());
        }
        Err(Error::Range("AlgebraicNumbers must have same field".to_owned()))
    }

    /// Interval arithmetic evaluation of the number from the field's
    /// current bounds on θ.
    pub fn interval(&self) -> (r: core::result::Result<(Fraction, Fraction), Error>)
        requires
            number_wf(self@),
        ensures
            r matches Ok(iv) && (iv.0@, iv.1@) == interval_spec(self@.0, self@.1),
    {
        Ok(interval_in(&self.field, &self.poly))
    }

    /// The sign of the number, narrowing a copy of the field until the
    /// interval settles it.
    pub fn sign(&self) -> (r: core::result::Result<i32, Error>)
        requires
            number_wf(self@),
        ensures
            match r {
                Ok(s) => number_sign_spec(self@) == Outcome::Ok(s as int),
                Err(e) => number_sign_spec(self@) == Outcome::<int>::Err(e.spec_error_kind()),
            },
    {
        if self.poly.degree == -1 {
            return Ok(0);
        }
        let mut f = self.field.copy();
        let mut fuel: u32 = SIGN_FUEL;
        loop
            invariant
                number_wf((f@, self@.1)),
                f@.degree == self@.0.degree,
                self@.1.2 != -1,
                sign_search(f@, self@.1, fuel as nat) == number_sign_spec(self@),
            decreases fuel,
        {
            let (l, u) = interval_in(&f, &self.poly);
            let sl = l.sign();
            if sl == u.sign() {
                return Ok(sl);
            }
            if fuel == 0 {
                return Err(Error::Other("the sign could not be decided".to_owned()));
            }
            f.refine()?;
            proof {
                lemma_bounds_len(f@.lower, f@.upper, bound_count(f@.degree));
                lemma_bounds_len(self@.0.lower, self@.0.upper, bound_count(self@.0.degree));
            }
            fuel = fuel - 1;
        }
    }
}

/// The bounds cover the powers `0 ..= n`.
proof fn lemma_bounds_len(lower: (int, int), upper: (int, int), n: nat)
    ensures
        bounds_spec(lower, upper, n).0.len() == n + 1,
        bounds_spec(lower, upper, n).1.len() == n + 1,
    decreases n,
{
    if n > 0 {
        lemma_bounds_len(lower, upper, (n - 1) as nat);
    }
}

/// `inv()`: through the extended gcd with the field's polynomial, `t / r`
/// where `r = poly*s + self*t`; a common factor (`r` not constant) means
/// the number is zero in the field.
pub open spec fn number_inv_spec(a: (FieldV, PolyQV)) -> Outcome<(FieldV, PolyQV)> {
    match extended_gcd_spec::<PolyQ, QQx>((), a.0.poly, a.1) {
        Outcome::Err(k) => Outcome::Err(k),
        Outcome::Ok(rst) => if rst.0.2 > 0 {
            Outcome::Err(ErrorKind::Range)
        } else {
            match <PolyQ as Elem>::div_spec(rst.2, rst.0) {
                Outcome::Err(k) => Outcome::Err(k),
                Outcome::Ok(q) => number_new_spec(a.0, q),
            }
        },
    }
}

/// `div(a, b)`: `a` times the inverse of `b`.
pub open spec fn number_div_spec(a: (FieldV, PolyQV), b: (FieldV, PolyQV)) -> Outcome<(FieldV, PolyQV)> {
    match number_inv_spec(b) {
        Outcome::Err(k) => Outcome::Err(k),
        Outcome::Ok(ib) => number_op_spec(a, ib, poly_mul_spec::<Fraction, QQ>(a.1, ib.1)),
    }
}

/// `compare(a, b)`: the sign of `a - b`.
pub open spec fn number_compare_spec(a: (FieldV, PolyQV), b: (FieldV, PolyQV)) -> Outcome<int> {
    match number_op_spec(a, b, <PolyQ as Elem>::sub_spec(a.1, b.1)) {
        Outcome::Err(k) => Outcome::Err(k),
        Outcome::Ok(d) => number_sign_spec(d),
    }
}

/// The negation: each coefficient negated.
pub open spec fn number_neg_spec(a: (FieldV, PolyQV)) -> (FieldV, PolyQV) {
    (a.0, <PolyQ as Elem>::neg_spec(a.1))
}

/// Whether `r` is what the outcome `o` gives, a well-formed number, or its
/// error.
pub open spec fn number_result(r: core::result::Result<AlgebraicNumber, Error>, o: Outcome<(FieldV, PolyQV)>) -> bool {
    match r {
        Ok(x) => o == Outcome::Ok(x@) && number_wf(x@),
        Err(e) => o == Outcome::<(FieldV, PolyQV)>::Err(e.spec_error_kind()),
    }
}

impl AlgebraicNumber {
    /// The negation.
    pub fn neg(&self) -> (r: AlgebraicNumber)
        requires
            number_wf(self@),
        ensures
            r@ == number_neg_spec(self@),
            number_wf(r@),
    {
        let p = Elem::neg(&self.poly);
        proof {
            crate::num::polynomial::lemma_trim::<Fraction>(
                crate::num::polynomial::neg_all::<Fraction>(self@.1.1),
            );
        }
        AlgebraicNumber { field: self.field.copy(), poly: p }
    }

    /// The sum, in the common field.
    pub fn add(&self, b: &AlgebraicNumber) -> (r: core::result::Result<AlgebraicNumber, Error>)
        requires
            number_wf(self@),
            number_wf(b@),
        ensures
            number_result(r, number_op_spec(self@, b@, <PolyQ as Elem>::add_spec(self@.1, b@.1))),
    {
        let k = AlgebraicNumber::check_same_field(self, b)?;
        let p = Elem::add(&self.poly, &b.poly)?;
        AlgebraicNumber::new(k, p)
    }

    /// The difference, in the common field.
    pub fn sub(&self, b: &AlgebraicNumber) -> (r: core::result::Result<AlgebraicNumber, Error>)
        requires
            number_wf(self@),
            number_wf(b@),
        ensures
            number_result(r, number_op_spec(self@, b@, <PolyQ as Elem>::sub_spec(self@.1, b@.1))),
    {
        let k = AlgebraicNumber::check_same_field(self, b)?;
        let p = Elem::sub(&self.poly, &b.poly)?;
        AlgebraicNumber::new(k, p)
    }

    /// The product, in the common field: the product of the polynomials,
    /// reduced modulo the field's.
    pub fn mul(&self, b: &AlgebraicNumber) -> (r: core::result::Result<AlgebraicNumber, Error>)
        requires
            number_wf(self@),
            number_wf(b@),
        ensures
            number_result(r, number_op_spec(self@, b@, poly_mul_spec::<Fraction, QQ>(self@.1, b@.1))),
    {
        let k = AlgebraicNumber::check_same_field(self, b)?;
        let p = Elem::mul(&self.poly, &b.poly)?;
        AlgebraicNumber::new(k, p)
    }

    /// The inverse; zero has none.
    pub fn inv(&self) -> (r: core::result::Result<AlgebraicNumber, Error>)
        requires
            number_wf(self@),
        ensures
            number_result(r, number_inv_spec(self@)),
    {
        let (r, _s, t) = extended_gcd(&qq_x(), &self.field.poly, &self.poly)?;
        if r.degree > 0 {
            return Err(Error::Range("Division by zero".to_owned()));
        }
        let q = Elem::div(&t, &r)?;
        AlgebraicNumber::new(self.field.copy(), q)
    }

    /// The quotient, in the common field.
    pub fn div(&self, b: &AlgebraicNumber) -> (r: core::result::Result<AlgebraicNumber, Error>)
        requires
            number_wf(self@),
            number_wf(b@),
        ensures
            number_result(r, number_div_spec(self@, b@)),
    {
        let ib = b.inv()?;
        self.mul(&ib)
    }

    /// `compare(b)`: the sign of `self - b`.
    pub fn compare(&self, b: &AlgebraicNumber) -> (r: core::result::Result<i32, Error>)
        requires
            number_wf(self@),
            number_wf(b@),
        ensures
            match r {
                Ok(s) => number_compare_spec(self@, b@) == Outcome::Ok(s as int),
                Err(e) => number_compare_spec(self@, b@) == Outcome::<int>::Err(e.spec_error_kind()),
            },
    {
        let d = self.sub(b)?;
        d.sign()
    }

    /// The absolute value.
    pub fn abs(&self) -> (r: core::result::Result<AlgebraicNumber, Error>)
        requires
            number_wf(self@),
        ensures
            number_result(
                r,
                match number_sign_spec(self@) {
                    Outcome::Err(k) => Outcome::Err(k),
                    Outcome::Ok(s) => Outcome::Ok(
                        if s < 0 {
                            number_neg_spec(self@)
                        } else {
                            self@
                        },
                    ),
                },
            ),
    {
        if self.sign()? < 0 {
            Ok(self.neg())
        } else {
            Ok(self.copy())
        }
    }
}

/// The text of a field: its polynomial and its current interval.
pub open spec fn field_text(f: FieldV) -> Seq<char> {
    "Q(root of "@ + poly_text::<Fraction, QQ>(f.poly) + " in ["@ + fraction_text(f.lower) + ","@
        + fraction_text(f.upper) + "])"@
}

/// The text of a number: its polynomial in θ, and its field.
pub open spec fn number_text(a: (FieldV, PolyQV)) -> Seq<char> {
    poly_text::<Fraction, QQ>(a.1) + " in "@ + field_text(a.0)
}

impl AlgebraicNumberField {
    /// The number with these integer coefficients.
    pub fn from_vector_i64(&self, coeffs: &[i64]) -> (r: core::result::Result<AlgebraicNumber, Error>)
        requires
            field_wf(self@),
            coeffs@.len() <= max_len(),
        ensures
            number_result(
                r,
                number_new_spec(self@, poly_of::<Fraction, QQ>((), coeffs@.map_values(|c: i64| (c as int, 1int)))),
            ),
    {
        AlgebraicNumber::new(self.copy(), polynomial_i64(coeffs))
    }

    /// The number zero of the field.
    pub fn zero(&self) -> (r: core::result::Result<AlgebraicNumber, Error>)
        requires
            field_wf(self@),
        ensures
            number_result(r, number_new_spec(self@, poly_of::<Fraction, QQ>((), seq![]))),
    {
        let p = polynomial(Vec::new());
        proof {
            assert(views::<Fraction>(Seq::<Fraction>::empty()) =~= Seq::<(int, int)>::empty());
        }
        AlgebraicNumber::new(self.copy(), p)
    }

    /// The number one of the field.
    pub fn one(&self) -> (r: core::result::Result<AlgebraicNumber, Error>)
        requires
            field_wf(self@),
        ensures
            number_result(r, number_new_spec(self@, one_v())),
    {
        AlgebraicNumber::new(self.copy(), small_poly(1, None))
    }

    /// The integer `n` in the field.
    pub fn from_int(&self, n: i64) -> (r: core::result::Result<AlgebraicNumber, Error>)
        requires
            field_wf(self@),
        ensures
            number_result(r, number_new_spec(self@, poly_of::<Fraction, QQ>((), seq![(n as int, 1int)]))),
    {
        AlgebraicNumber::new(self.copy(), small_poly(n, None))
    }

    /// `Q(root of <poly> in [<lower>,<upper>])`.
    pub fn to_string(&self) -> (r: String)
        requires
            field_wf(self@),
        ensures
            r@ == field_text(self@),
    {
        let mut s = String::from_str("Q(root of ");
        let p = self.poly.to_string();
        s.append(p.as_str());
        s.append(" in [");
        let l = self.lower.to_string();
        s.append(l.as_str());
        s.append(",");
        let u = self.upper.to_string();
        s.append(u.as_str());
        s.append("])");
        s
    }
}

impl AlgebraicNumber {
    /// `<poly> in <field>`.
    pub fn to_string(&self) -> (r: String)
        requires
            number_wf(self@),
        ensures
            r@ == number_text(self@),
    {
        let mut s = self.poly.to_string();
        s.append(" in ");
        let f = self.field.to_string();
        s.append(f.as_str());
        s
    }
}

/// `algebraicNumberField(poly, lower, upper)`.
pub fn algebraic_number_field(poly: PolyQ, lower: Fraction, upper: Fraction) -> (r: core::result::Result<
    AlgebraicNumberField,
    Error,
>)
    requires
        PolyQ::wf_view(poly@),
        poly@.2 != 0,
        poly@.2 < 0x4000_0000,
        lower@.1 > 0,
        upper@.1 > 0,
    ensures
        match r {
            Ok(f) => field_new_spec(poly@, lower@, upper@) == Outcome::Ok(f@) && field_wf(f@),
            Err(e) => field_new_spec(poly@, lower@, upper@) == Outcome::<FieldV>::Err(e.spec_error_kind()),
        },
{
    AlgebraicNumberField::new(poly, lower, upper)
}

/// `QQ_nothing`: ℚ presented as the degree-one field ℚ(1), the root of
/// `x - 1` in `[1, 1]`.
pub fn qq_nothing() -> (r: core::result::Result<AlgebraicNumberField, Error>)
    ensures
        match r {
            Ok(f) => field_new_spec(
                poly_of::<Fraction, QQ>((), seq![(-1int, 1int), (1int, 1int)]),
                (1, 1),
                (1, 1),
            ) == Outcome::Ok(f@) && field_wf(f@),
            Err(e) => field_new_spec(
                poly_of::<Fraction, QQ>((), seq![(-1int, 1int), (1int, 1int)]),
                (1, 1),
                (1, 1),
            ) == Outcome::<FieldV>::Err(e.spec_error_kind()),
        },
{
    let p = small_poly(-1, Some(1));
    proof {
        crate::num::polynomial::lemma_trim::<Fraction>(seq![(-1int, 1int), (1int, 1int)]);
        assert(seq![(-1int, 1int), (1int, 1int)].last() == (1int, 1int));
    }
    AlgebraicNumberField::new(p, Fraction::from_int(1), Fraction::from_int(1))
}

/// `equals`: equal polynomials in a common field; numbers with no common
/// field are unequal.
pub open spec fn number_equals_spec(a: (FieldV, PolyQV), b: (FieldV, PolyQV)) -> bool {
    match same_field_spec(a.0, b.0) {
        Outcome::Ok(_) => poly_equals(a.1, b.1),
        Outcome::Err(_) => false,
    }
}

impl AlgebraicNumber {
    /// Whether the two numbers are equal: the same polynomial in θ, in a
    /// field they share.
    pub fn equals(&self, b: &AlgebraicNumber) -> (r: bool)
        requires
            number_wf(self@),
            number_wf(b@),
        ensures
            r == number_equals_spec(self@, b@),
    {
        match AlgebraicNumber::check_same_field(self, b) {
            Ok(_) => self.poly.equals(&b.poly),
            Err(_) => false,
        }
    }
}

/// The numbers of a field are a ring: each operation as the number's own
/// method does it, the in-place forms included.
impl Elem for AlgebraicNumber {
    open spec fn wf_spec(v: (FieldV, PolyQV)) -> bool {
        number_wf(v)
    }

    open spec fn is_zero_spec(v: (FieldV, PolyQV)) -> bool {
        v.1.2 == -1
    }

    open spec fn equals_spec(a: (FieldV, PolyQV), b: (FieldV, PolyQV)) -> bool {
        number_equals_spec(a, b)
    }

    open spec fn add_spec(a: (FieldV, PolyQV), b: (FieldV, PolyQV)) -> Outcome<(FieldV, PolyQV)> {
        number_op_spec(a, b, <PolyQ as Elem>::add_spec(a.1, b.1))
    }

    open spec fn sub_spec(a: (FieldV, PolyQV), b: (FieldV, PolyQV)) -> Outcome<(FieldV, PolyQV)> {
        number_op_spec(a, b, <PolyQ as Elem>::sub_spec(a.1, b.1))
    }

    open spec fn neg_spec(a: (FieldV, PolyQV)) -> (FieldV, PolyQV) {
        number_neg_spec(a)
    }

    open spec fn mul_spec(a: (FieldV, PolyQV), b: (FieldV, PolyQV)) -> Outcome<(FieldV, PolyQV)> {
        number_op_spec(a, b, poly_mul_spec::<Fraction, QQ>(a.1, b.1))
    }

    open spec fn div_spec(a: (FieldV, PolyQV), b: (FieldV, PolyQV)) -> Outcome<(FieldV, PolyQV)> {
        number_div_spec(a, b)
    }

    open spec fn inv_spec(a: (FieldV, PolyQV)) -> Outcome<(FieldV, PolyQV)> {
        number_inv_spec(a)
    }

    open spec fn is_poly_spec() -> bool {
        false
    }

    open spec fn text_spec(v: (FieldV, PolyQV)) -> Seq<char> {
        number_text(v)
    }

    fn is_poly() -> (r: bool) {
        false
    }

    fn text(&self) -> (r: String) {
        AlgebraicNumber::to_string(self)
    }

    fn copy(&self) -> (r: Self) {
        AlgebraicNumber::copy(self)
    }

    fn equals(&self, y: &Self) -> (r: bool) {
        AlgebraicNumber::equals(self, y)
    }

    fn is_zero(&self) -> (r: bool) {
        AlgebraicNumber::is_zero(self)
    }

    fn iadd(&mut self, y: &Self) -> (r: core::result::Result<(), Error>) {
        let z = AlgebraicNumber::add(self, y)?;
        *self = z;
        Ok(())
    }

    fn add(&self, y: &Self) -> (r: core::result::Result<Self, Error>) {
        AlgebraicNumber::add(self, y)
    }

    fn isub(&mut self, y: &Self) -> (r: core::result::Result<(), Error>) {
        let z = AlgebraicNumber::sub(self, y)?;
        *self = z;
        Ok(())
    }

    fn sub(&self, y: &Self) -> (r: core::result::Result<Self, Error>) {
        AlgebraicNumber::sub(self, y)
    }

    fn neg(&self) -> (r: Self) {
        AlgebraicNumber::neg(self)
    }

    fn imul(&mut self, y: &Self) -> (r: core::result::Result<(), Error>) {
        let z = AlgebraicNumber::mul(self, y)?;
        *self = z;
        Ok(())
    }

    fn mul(&self, y: &Self) -> (r: core::result::Result<Self, Error>) {
        AlgebraicNumber::mul(self, y)
    }

    fn idiv(&mut self, y: &Self) -> (r: core::result::Result<(), Error>) {
        let z = AlgebraicNumber::div(self, y)?;
        *self = z;
        Ok(())
    }

    fn div(&self, y: &Self) -> (r: core::result::Result<Self, Error>) {
        AlgebraicNumber::div(self, y)
    }

    fn inv(&self) -> (r: core::result::Result<Self, Error>) {
        AlgebraicNumber::inv(self)
    }
}

/// A well-formed field has a well-formed polynomial of its degree.
pub proof fn lemma_field_poly(f: FieldV)
    requires
        field_wf(f),
    ensures
        PolyQ::wf_view(f.poly),
        f.degree == f.poly.2,
{
}

/// The constant `n` of a field, already reduced: a constant has a smaller
/// degree than the field's polynomial.
pub open spec fn field_const(f: FieldV, n: int) -> (FieldV, PolyQV) {
    (f, poly_of::<Fraction, QQ>((), seq![(n, 1int)]))
}

/// A field whose numbers form a ring: built as `new` builds fields, of
/// degree at least one.
pub open spec fn ring_field(f: FieldV) -> bool {
    field_wf(f) && f.degree >= 1
}

impl AlgebraicNumberField {
    /// The constant `n` of the field.
    fn constant(&self, n: i64) -> (r: AlgebraicNumber)
        requires
            ring_field(self@),
        ensures
            r@ == field_const(self@, n as int),
            number_wf(r@),
    {
        let c = [n];
        let p = polynomial_i64(&c);
        proof {
            assert(c@.map_values(|c: i64| (c as int, 1int)) =~= seq![(n as int, 1int)]);
            crate::num::polynomial::lemma_trim::<Fraction>(seq![(n as int, 1int)]);
        }
        AlgebraicNumber { field: self.copy(), poly: p }
    }
}

impl RingOps<AlgebraicNumber> for AlgebraicNumberField {
    open spec fn ring_wf(r: FieldV) -> bool {
        ring_field(r)
    }

    open spec fn zero_spec(r: FieldV) -> (FieldV, PolyQV) {
        field_const(r, 0)
    }

    open spec fn one_spec(r: FieldV) -> (FieldV, PolyQV) {
        field_const(r, 1)
    }

    open spec fn from_int_spec(r: FieldV, n: int) -> (FieldV, PolyQV) {
        field_const(r, n)
    }

    fn copy_ring(&self) -> (r: Self) {
        self.copy()
    }

    fn zero(&self) -> (r: AlgebraicNumber) {
        self.constant(0)
    }

    fn one(&self) -> (r: AlgebraicNumber) {
        self.constant(1)
    }

    fn from_int(&self, n: i64) -> (r: AlgebraicNumber) {
        self.constant(n)
    }
}

} // verus!
