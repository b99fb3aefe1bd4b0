//! Exact 3-D geometry: vectors, planes and quaternions over an algebraic
//! number field.
//!
//! Every operation is the same sequence of field operations as its
//! definition, and fails with the first of them that fails (numbers from
//! fields that do not meet, or a division by zero).

use vstd::prelude::*;

use crate::error::Error;
use crate::exact::{
    number_div_spec, number_equals_spec, number_inv_spec, number_neg_spec, number_new_spec, number_op_spec,
    number_result, number_sign_spec, number_wf, qq_nothing, AlgebraicNumber, FieldV, PolyQV,
};
use crate::num::fraction::{Fraction, QQ};
use crate::num::polynomial::{poly_mul_spec, PolyQ};
use crate::num::ring::{Elem, Outcome};

verus! {

/// The mathematical form of a number: its field and its polynomial in θ.
pub type NumV = (FieldV, PolyQV);

/// The sum of two numbers.
#[verifier::opaque]
pub open spec fn n_add(a: NumV, b: NumV) -> Outcome<NumV> {
    number_op_spec(a, b, <PolyQ as Elem>::add_spec(a.1, b.1))
}

/// The difference of two numbers.
#[verifier::opaque]
pub open spec fn n_sub(a: NumV, b: NumV) -> Outcome<NumV> {
    number_op_spec(a, b, <PolyQ as Elem>::sub_spec(a.1, b.1))
}

/// The product of two numbers.
#[verifier::opaque]
pub open spec fn n_mul(a: NumV, b: NumV) -> Outcome<NumV> {
    number_op_spec(a, b, poly_mul_spec::<Fraction, QQ>(a.1, b.1))
}

/// The quotient of two numbers.
#[verifier::opaque]
pub open spec fn n_div(a: NumV, b: NumV) -> Outcome<NumV> {
    number_div_spec(a, b)
}

/// The sum or, when `sub` holds, the difference.
pub open spec fn n_addsub(a: NumV, b: NumV, sub: bool) -> Outcome<NumV> {
    if sub {
        n_sub(a, b)
    } else {
        n_add(a, b)
    }
}

/// The absolute value.
pub open spec fn n_abs(a: NumV) -> Outcome<NumV> {
    match number_sign_spec(a) {
        Outcome::Err(k) => Outcome::Err(k),
        Outcome::Ok(s) => Outcome::Ok(
            if s < 0 {
                number_neg_spec(a)
            } else {
                a
            },
        ),
    }
}

/// Three outcomes in order: the first failure, or all three values.
pub open spec fn triple(ox: Outcome<NumV>, oy: Outcome<NumV>, oz: Outcome<NumV>) -> Outcome<(NumV, NumV, NumV)> {
    match ox {
        Outcome::Err(k) => Outcome::Err(k),
        Outcome::Ok(x) => match oy {
            Outcome::Err(k) => Outcome::Err(k),
            Outcome::Ok(y) => match oz {
                Outcome::Err(k) => Outcome::Err(k),
                Outcome::Ok(z) => Outcome::Ok((x, y, z)),
            },
        },
    }
}

/// `a1*b1 ± a2*b2 ± a3*b3 ± a4*b4`, left to right, each sign chosen by its
/// flag, in the order the products and sums are taken.
pub open spec fn quad_term(
    a1: NumV,
    b1: NumV,
    a2: NumV,
    b2: NumV,
    a3: NumV,
    b3: NumV,
    a4: NumV,
    b4: NumV,
    s1: bool,
    s2: bool,
    s3: bool,
) -> Outcome<NumV> {
    match n_mul(a1, b1) {
        Outcome::Err(k) => Outcome::Err(k),
        Outcome::Ok(m1) => match n_mul(a2, b2) {
            Outcome::Err(k) => Outcome::Err(k),
            Outcome::Ok(m2) => match n_addsub(m1, m2, s1) {
                Outcome::Err(k) => Outcome::Err(k),
                Outcome::Ok(r1) => match n_mul(a3, b3) {
                    Outcome::Err(k) => Outcome::Err(k),
                    Outcome::Ok(m3) => match n_addsub(r1, m3, s2) {
                        Outcome::Err(k) => Outcome::Err(k),
                        Outcome::Ok(r2) => match n_mul(a4, b4) {
                            Outcome::Err(k) => Outcome::Err(k),
                            Outcome::Ok(m4) => n_addsub(r2, m4, s3),
                        },
                    },
                },
            },
        },
    }
}

/// `a*b - c*d`.
pub open spec fn muls_sub(a: NumV, b: NumV, c: NumV, d: NumV) -> Outcome<NumV> {
    match n_mul(a, b) {
        Outcome::Err(k) => Outcome::Err(k),
        Outcome::Ok(p) => match n_mul(c, d) {
            Outcome::Err(k) => Outcome::Err(k),
            Outcome::Ok(q) => n_sub(p, q),
        },
    }
}

/// The sum of two numbers.
fn nadd(a: &AlgebraicNumber, b: &AlgebraicNumber) -> (r: core::result::Result<AlgebraicNumber, Error>)
    requires
        number_wf(a@),
        number_wf(b@),
    ensures
        number_result(r, n_add(a@, b@)),
{
    proof {
        reveal(n_add);
    }
    a.add(b)
}

/// The difference of two numbers.
fn nsub(a: &AlgebraicNumber, b: &AlgebraicNumber) -> (r: core::result::Result<AlgebraicNumber, Error>)
    requires
        number_wf(a@),
        number_wf(b@),
    ensures
        number_result(r, n_sub(a@, b@)),
{
    proof {
        reveal(n_sub);
    }
    a.sub(b)
}

/// The product of two numbers.
fn nmul(a: &AlgebraicNumber, b: &AlgebraicNumber) -> (r: core::result::Result<AlgebraicNumber, Error>)
    requires
        number_wf(a@),
        number_wf(b@),
    ensures
        number_result(r, n_mul(a@, b@)),
{
    proof {
        reveal(n_mul);
    }
    a.mul(b)
}

/// The quotient of two numbers.
fn ndiv(a: &AlgebraicNumber, b: &AlgebraicNumber) -> (r: core::result::Result<AlgebraicNumber, Error>)
    requires
        number_wf(a@),
        number_wf(b@),
    ensures
        number_result(r, n_div(a@, b@)),
{
    proof {
        reveal(n_div);
    }
    a.div(b)
}

fn addsub(a: &AlgebraicNumber, b: &AlgebraicNumber, sub: bool) -> (r: core::result::Result<AlgebraicNumber, Error>)
    requires
        number_wf(a@),
        number_wf(b@),
    ensures
        number_result(r, n_addsub(a@, b@, sub)),
{
    if sub {
        nsub(a, b)
    } else {
        nadd(a, b)
    }
}

fn quad(
    a1: &AlgebraicNumber,
    b1: &AlgebraicNumber,
    a2: &AlgebraicNumber,
    b2: &AlgebraicNumber,
    a3: &AlgebraicNumber,
    b3: &AlgebraicNumber,
    a4: &AlgebraicNumber,
    b4: &AlgebraicNumber,
    s1: bool,
    s2: bool,
    s3: bool,
) -> (r: core::result::Result<AlgebraicNumber, Error>)
    requires
        number_wf(a1@),
        number_wf(b1@),
        number_wf(a2@),
        number_wf(b2@),
        number_wf(a3@),
        number_wf(b3@),
        number_wf(a4@),
        number_wf(b4@),
    ensures
        number_result(r, quad_term(a1@, b1@, a2@, b2@, a3@, b3@, a4@, b4@, s1, s2, s3)),
{
    let m1 = nmul(a1, b1)?;
    let m2 = nmul(a2, b2)?;
    let r1 = addsub(&m1, &m2, s1)?;
    let m3 = nmul(a3, b3)?;
    let r2 = addsub(&r1, &m3, s2)?;
    let m4 = nmul(a4, b4)?;
    addsub(&r2, &m4, s3)
}

fn mul_sub(a: &AlgebraicNumber, b: &AlgebraicNumber, c: &AlgebraicNumber, d: &AlgebraicNumber) -> (r:
    core::result::Result<AlgebraicNumber, Error>)
    requires
        number_wf(a@),
        number_wf(b@),
        number_wf(c@),
        number_wf(d@),
    ensures
        number_result(r, muls_sub(a@, b@, c@, d@)),
{
    let p = nmul(a, b)?;
    let q = nmul(c, d)?;
    nsub(&p, &q)
}

/* ------------------------------------------------------------------------ */
/*  Vectors                                                                  */
/* ------------------------------------------------------------------------ */

/// A vector of three numbers.
pub struct ExactVector3 {
    pub x: AlgebraicNumber,
    pub y: AlgebraicNumber,
    pub z: AlgebraicNumber,
}

/// The mathematical form of a vector.
pub type VecV = (NumV, NumV, NumV);

impl View for ExactVector3 {
    type V = VecV;

    open spec fn view(&self) -> VecV {
        (self.x@, self.y@, self.z@)
    }
}

/// Each component a well-formed number.
pub open spec fn vec_wf(v: VecV) -> bool {
    number_wf(v.0) && number_wf(v.1) && number_wf(v.2)
}

/// Whether `r` is the outcome `o` gives, a well-formed vector, or its error.
pub open spec fn vec_result(r: core::result::Result<ExactVector3, Error>, o: Outcome<VecV>) -> bool {
    match r {
        Ok(v) => o == Outcome::Ok(v@) && vec_wf(v@),
        Err(e) => o == Outcome::<VecV>::Err(e.spec_error_kind()),
    }
}

/// The dot product: the three products, summed left to right.
#[verifier::opaque]
pub open spec fn vdot(a: VecV, b: VecV) -> Outcome<NumV> {
    match n_mul(a.0, b.0) {
        Outcome::Err(k) => Outcome::Err(k),
        Outcome::Ok(p) => match n_mul(a.1, b.1) {
            Outcome::Err(k) => Outcome::Err(k),
            Outcome::Ok(q) => match n_mul(a.2, b.2) {
                Outcome::Err(k) => Outcome::Err(k),
                Outcome::Ok(r) => match n_add(p, q) {
                    Outcome::Err(k) => Outcome::Err(k),
                    Outcome::Ok(pq) => n_add(pq, r),
                },
            },
        },
    }
}

/// The cross product.
#[verifier::opaque]
pub open spec fn vcross(a: VecV, b: VecV) -> Outcome<VecV> {
    triple(muls_sub(a.1, b.2, a.2, b.1), muls_sub(a.2, b.0, a.0, b.2), muls_sub(a.0, b.1, a.1, b.0))
}

/// Componentwise sum.
#[verifier::opaque]
pub open spec fn vadd(a: VecV, b: VecV) -> Outcome<VecV> {
    triple(n_add(a.0, b.0), n_add(a.1, b.1), n_add(a.2, b.2))
}

/// Componentwise difference.
#[verifier::opaque]
pub open spec fn vsub(a: VecV, b: VecV) -> Outcome<VecV> {
    triple(n_sub(a.0, b.0), n_sub(a.1, b.1), n_sub(a.2, b.2))
}

/// Each component times `s`.
#[verifier::opaque]
pub open spec fn vscale(a: VecV, s: NumV) -> Outcome<VecV> {
    triple(n_mul(a.0, s), n_mul(a.1, s), n_mul(a.2, s))
}

/// Each component negated.
pub open spec fn vneg(a: VecV) -> VecV {
    (number_neg_spec(a.0), number_neg_spec(a.1), number_neg_spec(a.2))
}

/// The sign of the first nonzero component.
pub open spec fn vpseudo_sign(a: VecV) -> Outcome<int> {
    match number_sign_spec(a.0) {
        Outcome::Err(k) => Outcome::Err(k),
        Outcome::Ok(s) => if s != 0 {
            Outcome::Ok(s)
        } else {
            match number_sign_spec(a.1) {
                Outcome::Err(k) => Outcome::Err(k),
                Outcome::Ok(t) => if t != 0 {
                    Outcome::Ok(t)
                } else {
                    number_sign_spec(a.2)
                },
            }
        },
    }
}

impl ExactVector3 {
    pub fn new(x: AlgebraicNumber, y: AlgebraicNumber, z: AlgebraicNumber) -> (r: ExactVector3)
        ensures
            r@ == (x@, y@, z@),
    {
        ExactVector3 { x, y, z }
    }

    /// A copy of the vector.
    pub fn copy(&self) -> (r: ExactVector3)
        requires
            vec_wf(self@),
        ensures
            r@ == self@,
    {
        ExactVector3 { x: self.x.copy(), y: self.y.copy(), z: self.z.copy() }
    }

    /// Sign of the first non-zero component, used to canonicalize planes.
    pub fn pseudo_sign(&self) -> (r: core::result::Result<i32, Error>)
        requires
            vec_wf(self@),
        ensures
            match r {
                Ok(s) => vpseudo_sign(self@) == Outcome::Ok(s as int),
                Err(e) => vpseudo_sign(self@) == Outcome::<int>::Err(e.spec_error_kind()),
            },
    {
        let sx = self.x.sign()?;
        if sx != 0 {
            return Ok(sx);
        }
        let sy = self.y.sign()?;
        if sy != 0 {
            return Ok(sy);
        }
        self.z.sign()
    }

    /// Whether the two vectors are equal, component by component.
    pub fn equals(&self, other: &ExactVector3) -> (r: bool)
        requires
            vec_wf(self@),
            vec_wf(other@),
        ensures
            r == (number_equals_spec(self@.0, other@.0) && number_equals_spec(self@.1, other@.1)
                && number_equals_spec(self@.2, other@.2)),
    {
        self.x.equals(&other.x) && self.y.equals(&other.y) && self.z.equals(&other.z)
    }

    pub fn add(&self, o: &ExactVector3) -> (r: core::result::Result<ExactVector3, Error>)
        requires
            vec_wf(self@),
            vec_wf(o@),
        ensures
            vec_result(r, vadd(self@, o@)),
    {
        proof {
            reveal(vadd);
        }
        let x = nadd(&self.x, &o.x)?;
        let y = nadd(&self.y, &o.y)?;
        let z = nadd(&self.z, &o.z)?;
        Ok(ExactVector3 { x, y, z })
    }

    pub fn sub(&self, o: &ExactVector3) -> (r: core::result::Result<ExactVector3, Error>)
        requires
            vec_wf(self@),
            vec_wf(o@),
        ensures
            vec_result(r, vsub(self@, o@)),
    {
        proof {
            reveal(vsub);
        }
        let x = nsub(&self.x, &o.x)?;
        let y = nsub(&self.y, &o.y)?;
        let z = nsub(&self.z, &o.z)?;
        Ok(ExactVector3 { x, y, z })
    }

    pub fn neg(&self) -> (r: ExactVector3)
        requires
            vec_wf(self@),
        ensures
            r@ == vneg(self@),
            vec_wf(r@),
    {
        ExactVector3 { x: self.x.neg(), y: self.y.neg(), z: self.z.neg() }
    }

    pub fn scale(&self, o: &AlgebraicNumber) -> (r: core::result::Result<ExactVector3, Error>)
        requires
            vec_wf(self@),
            number_wf(o@),
        ensures
            vec_result(r, vscale(self@, o@)),
    {
        proof {
            reveal(vscale);
        }
        let x = nmul(&self.x, o)?;
        let y = nmul(&self.y, o)?;
        let z = nmul(&self.z, o)?;
        Ok(ExactVector3 { x, y, z })
    }

    pub fn dot(&self, o: &ExactVector3) -> (r: core::result::Result<AlgebraicNumber, Error>)
        requires
            vec_wf(self@),
            vec_wf(o@),
        ensures
            number_result(r, vdot(self@, o@)),
    {
        proof {
            reveal(vdot);
        }
        let a = nmul(&self.x, &o.x)?;
        let b = nmul(&self.y, &o.y)?;
        let c = nmul(&self.z, &o.z)?;
        let ab = nadd(&a, &b)?;
        nadd(&ab, &c)
    }

    pub fn cross(&self, o: &ExactVector3) -> (r: core::result::Result<ExactVector3, Error>)
        requires
            vec_wf(self@),
            vec_wf(o@),
        ensures
            vec_result(r, vcross(self@, o@)),
    {
        proof {
            reveal(vcross);
        }
        let x = mul_sub(&self.y, &o.z, &self.z, &o.y)?;
        let y = mul_sub(&self.z, &o.x, &self.x, &o.z)?;
        let z = mul_sub(&self.x, &o.y, &self.y, &o.x)?;
        Ok(ExactVector3 { x, y, z })
    }
}

/* ------------------------------------------------------------------------ */
/*  Planes                                                                   */
/* ------------------------------------------------------------------------ */

/// A plane `normal · p + constant = 0`, whose normal need not be
/// normalized: that would need a square root, which the field may not hold.
pub struct ExactPlane {
    pub normal: ExactVector3,
    pub constant: AlgebraicNumber,
}

/// The mathematical form of a plane.
pub type PlaneV = (VecV, NumV);

impl View for ExactPlane {
    type V = PlaneV;

    open spec fn view(&self) -> PlaneV {
        (self.normal@, self.constant@)
    }
}

pub open spec fn plane_wf(p: PlaneV) -> bool {
    vec_wf(p.0) && number_wf(p.1)
}

/// The plane facing the other way.
pub open spec fn plane_neg(p: PlaneV) -> PlaneV {
    (vneg(p.0), number_neg_spec(p.1))
}

/// `side(v)`: the sign of `normal · v + constant`.
pub open spec fn plane_side(p: PlaneV, v: VecV) -> Outcome<int> {
    match vdot(p.0, v) {
        Outcome::Err(k) => Outcome::Err(k),
        Outcome::Ok(d) => match n_add(d, p.1) {
            Outcome::Err(k) => Outcome::Err(k),
            Outcome::Ok(s) => number_sign_spec(s),
        },
    }
}

/// The parameter of the point where the plane meets the line from `a`, `(n·a + d) / n·ab`, for
/// `ab = b - a`.
#[verifier::opaque]
pub open spec fn plane_param(p: PlaneV, a: VecV, ab: VecV) -> Outcome<NumV> {
    match vdot(p.0, a) {
        Outcome::Err(k) => Outcome::Err(k),
        Outcome::Ok(na) => match n_add(na, p.1) {
            Outcome::Err(k) => Outcome::Err(k),
            Outcome::Ok(num) => match vdot(p.0, ab) {
                Outcome::Err(k) => Outcome::Err(k),
                Outcome::Ok(den) => n_div(num, den),
            },
        },
    }
}

/// `intersect_line(a, b)`: `a - (b - a) t` with `t` the parameter above.
pub open spec fn plane_intersect(p: PlaneV, a: VecV, b: VecV) -> Outcome<VecV> {
    match vsub(b, a) {
        Outcome::Err(k) => Outcome::Err(k),
        Outcome::Ok(ab) => match plane_param(p, a, ab) {
            Outcome::Err(k) => Outcome::Err(k),
            Outcome::Ok(t) => match vscale(ab, t) {
                Outcome::Err(k) => Outcome::Err(k),
                Outcome::Ok(abt) => vsub(a, abt),
            },
        },
    }
}

/// `canonicalize()`: the plane or its negation, whichever has the first
/// nonzero component of its normal positive.
pub open spec fn plane_canonical(p: PlaneV) -> Outcome<PlaneV> {
    match vpseudo_sign(p.0) {
        Outcome::Err(k) => Outcome::Err(k),
        Outcome::Ok(s) => Outcome::Ok(
            if s < 0 {
                plane_neg(p)
            } else {
                p
            },
        ),
    }
}

impl ExactPlane {
    pub fn new(normal: ExactVector3, constant: AlgebraicNumber) -> (r: ExactPlane)
        ensures
            r@ == (normal@, constant@),
    {
        ExactPlane { normal, constant }
    }

    /// A copy of the plane.
    pub fn copy(&self) -> (r: ExactPlane)
        requires
            plane_wf(self@),
        ensures
            r@ == self@,
    {
        ExactPlane { normal: self.normal.copy(), constant: self.constant.copy() }
    }

    pub fn neg(&self) -> (r: ExactPlane)
        requires
            plane_wf(self@),
        ensures
            r@ == plane_neg(self@),
            plane_wf(r@),
    {
        ExactPlane { normal: self.normal.neg(), constant: self.constant.neg() }
    }

    /// Which side of the plane `v` lies on: +1 front, -1 back, 0 on it.
    pub fn side(&self, v: &ExactVector3) -> (r: core::result::Result<i32, Error>)
        requires
            plane_wf(self@),
            vec_wf(v@),
        ensures
            match r {
                Ok(s) => plane_side(self@, v@) == Outcome::Ok(s as int),
                Err(e) => plane_side(self@, v@) == Outcome::<int>::Err(e.spec_error_kind()),
            },
    {
        let d = self.normal.dot(v)?;
        let s = nadd(&d, &self.constant)?;
        s.sign()
    }

    /// `(n·a + d) / n·ab`.
    fn line_param(&self, a: &ExactVector3, ab: &ExactVector3) -> (r: core::result::Result<AlgebraicNumber, Error>)
        requires
            plane_wf(self@),
            vec_wf(a@),
            vec_wf(ab@),
        ensures
            number_result(r, plane_param(self@, a@, ab@)),
    {
        proof {
            reveal(plane_param);
        }
        let na = self.normal.dot(a)?;
        let num = nadd(&na, &self.constant)?;
        let den = self.normal.dot(ab)?;
        ndiv(&num, &den)
    }

    /// Intersection of the plane with the line through `a` and `b`.
    pub fn intersect_line(&self, a: &ExactVector3, b: &ExactVector3) -> (r: core::result::Result<
        ExactVector3,
        Error,
    >)
        requires
            plane_wf(self@),
            vec_wf(a@),
            vec_wf(b@),
        ensures
            vec_result(r, plane_intersect(self@, a@, b@)),
    {
        let ab = b.sub(a)?;
        let t = self.line_param(a, &ab)?;
        let abt = ab.scale(&t)?;
        a.sub(&abt)
    }

    /// The "absolute value" of a plane, so it compares equal to its negation.
    pub fn canonicalize(&self) -> (r: core::result::Result<ExactPlane, Error>)
        requires
            plane_wf(self@),
        ensures
            match r {
                Ok(p) => plane_canonical(self@) == Outcome::Ok(p@) && plane_wf(p@),
                Err(e) => plane_canonical(self@) == Outcome::<PlaneV>::Err(e.spec_error_kind()),
            },
    {
        if self.normal.pseudo_sign()? < 0 {
            Ok(self.neg())
        } else {
            Ok(self.copy())
        }
    }
}

/* ------------------------------------------------------------------------ */
/*  Quaternions                                                              */
/* ------------------------------------------------------------------------ */

/// A quaternion `xi + yj + zk + w` of numbers.
pub struct ExactQuaternion {
    pub x: AlgebraicNumber,
    pub y: AlgebraicNumber,
    pub z: AlgebraicNumber,
    pub w: AlgebraicNumber,
}

/// The mathematical form of a quaternion.
pub type QuatV = (NumV, NumV, NumV, NumV);

impl View for ExactQuaternion {
    type V = QuatV;

    open spec fn view(&self) -> QuatV {
        (self.x@, self.y@, self.z@, self.w@)
    }
}

pub open spec fn quat_wf(q: QuatV) -> bool {
    number_wf(q.0) && number_wf(q.1) && number_wf(q.2) && number_wf(q.3)
}

/// Whether `r` is the outcome `o` gives, a well-formed quaternion, or its
/// error.
pub open spec fn quat_result(r: core::result::Result<ExactQuaternion, Error>, o: Outcome<QuatV>) -> bool {
    match r {
        Ok(q) => o == Outcome::Ok(q@) && quat_wf(q@),
        Err(e) => o == Outcome::<QuatV>::Err(e.spec_error_kind()),
    }
}

/// Four outcomes in order: the first failure, or all four values.
pub open spec fn quadruple(ox: Outcome<NumV>, oy: Outcome<NumV>, oz: Outcome<NumV>, ow: Outcome<NumV>) -> Outcome<
    QuatV,
> {
    match triple(ox, oy, oz) {
        Outcome::Err(k) => Outcome::Err(k),
        Outcome::Ok(t) => match ow {
            Outcome::Err(k) => Outcome::Err(k),
            Outcome::Ok(w) => Outcome::Ok((t.0, t.1, t.2, w)),
        },
    }
}

/// The rationals as a field, as `qq_nothing` builds them.
pub open spec fn qq_spec() -> Outcome<FieldV> {
    crate::exact::field_new_spec(
        crate::num::polynomial::poly_of::<Fraction, QQ>((), seq![(-1int, 1int), (1int, 1int)]),
        (1, 1),
        (1, 1),
    )
}

/// The integer `n` as a rational number.
pub open spec fn qq_int(n: int) -> Outcome<NumV> {
    match qq_spec() {
        Outcome::Err(k) => Outcome::Err(k),
        Outcome::Ok(f) => number_new_spec(f, crate::num::polynomial::poly_of::<Fraction, QQ>((), seq![(n, 1int)])),
    }
}

/// The integer `n` as a rational number.
fn qq_int_exec(n: i64) -> (r: core::result::Result<AlgebraicNumber, Error>)
    ensures
        number_result(r, qq_int(n as int)),
{
    let q = qq_nothing()?;
    q.from_int(n)
}

/// `identity()`: zero vector part, `w = 1`.
pub open spec fn quat_identity() -> Outcome<QuatV> {
    match qq_int(0) {
        Outcome::Err(k) => Outcome::Err(k),
        Outcome::Ok(z) => match qq_int(1) {
            Outcome::Err(k) => Outcome::Err(k),
            Outcome::Ok(o) => Outcome::Ok((z, z, z, o)),
        },
    }
}

/// The Hamilton product.
#[verifier::opaque]
pub open spec fn qmul(a: QuatV, b: QuatV) -> Outcome<QuatV> {
    quadruple(
        quad_term(a.3, b.0, a.0, b.3, a.1, b.2, a.2, b.1, false, false, true),
        quad_term(a.3, b.1, a.0, b.2, a.1, b.3, a.2, b.0, true, false, false),
        quad_term(a.3, b.2, a.0, b.1, a.1, b.0, a.2, b.3, false, true, false),
        quad_term(a.3, b.3, a.0, b.0, a.1, b.1, a.2, b.2, true, true, true),
    )
}

/// Each component times `s`.
#[verifier::opaque]
pub open spec fn qscale(a: QuatV, s: NumV) -> Outcome<QuatV> {
    quadruple(n_mul(a.0, s), n_mul(a.1, s), n_mul(a.2, s), n_mul(a.3, s))
}

/// The conjugate: the vector part negated.
pub open spec fn qconj(a: QuatV) -> QuatV {
    (number_neg_spec(a.0), number_neg_spec(a.1), number_neg_spec(a.2), a.3)
}

/// `w² + ((x² + y²) + z²)`, the squares taken first.
#[verifier::opaque]
pub open spec fn qnorm2(a: QuatV) -> Outcome<NumV> {
    match n_mul(a.0, a.0) {
        Outcome::Err(k) => Outcome::Err(k),
        Outcome::Ok(xx) => match n_mul(a.1, a.1) {
            Outcome::Err(k) => Outcome::Err(k),
            Outcome::Ok(yy) => match n_mul(a.2, a.2) {
                Outcome::Err(k) => Outcome::Err(k),
                Outcome::Ok(zz) => match n_mul(a.3, a.3) {
                    Outcome::Err(k) => Outcome::Err(k),
                    Outcome::Ok(ww) => match n_add(xx, yy) {
                        Outcome::Err(k) => Outcome::Err(k),
                        Outcome::Ok(s1) => match n_add(s1, zz) {
                            Outcome::Err(k) => Outcome::Err(k),
                            Outcome::Ok(s2) => n_add(ww, s2),
                        },
                    },
                },
            },
        },
    }
}

/// The inverse: the conjugate over the squared norm.
#[verifier::opaque]
pub open spec fn qinv(a: QuatV) -> Outcome<QuatV> {
    match qnorm2(a) {
        Outcome::Err(k) => Outcome::Err(k),
        Outcome::Ok(n) => match number_inv_spec(n) {
            Outcome::Err(k) => Outcome::Err(k),
            Outcome::Ok(ni) => qscale(qconj(a), ni),
        },
    }
}

/// `apply(v)`: the vector part of `q (v, 0) q⁻¹`.
pub open spec fn qapply(q: QuatV, v: VecV) -> Outcome<VecV> {
    match qq_int(0) {
        Outcome::Err(k) => Outcome::Err(k),
        Outcome::Ok(zero) => match qmul(q, (v.0, v.1, v.2, zero)) {
            Outcome::Err(k) => Outcome::Err(k),
            Outcome::Ok(qv) => match qinv(q) {
                Outcome::Err(k) => Outcome::Err(k),
                Outcome::Ok(qi) => match qmul(qv, qi) {
                    Outcome::Err(k) => Outcome::Err(k),
                    Outcome::Ok(r) => Outcome::Ok((r.0, r.1, r.2)),
                },
            },
        },
    }
}

/// `pseudo_angle()`: `1 - w|w| / norm²`, which grows with the angle.
pub open spec fn qpseudo_angle(a: QuatV) -> Outcome<NumV> {
    match qq_int(1) {
        Outcome::Err(k) => Outcome::Err(k),
        Outcome::Ok(one) => match n_abs(a.3) {
            Outcome::Err(k) => Outcome::Err(k),
            Outcome::Ok(aw) => match n_mul(a.3, aw) {
                Outcome::Err(k) => Outcome::Err(k),
                Outcome::Ok(ww) => match qnorm2(a) {
                    Outcome::Err(k) => Outcome::Err(k),
                    Outcome::Ok(n) => match n_div(ww, n) {
                        Outcome::Err(k) => Outcome::Err(k),
                        Outcome::Ok(t) => n_sub(one, t),
                    },
                },
            },
        },
    }
}

/// The L1 norm `((|w| + |x|) + |y|) + |z|`.
#[verifier::opaque]
pub open spec fn qnorm1(a: QuatV) -> Outcome<NumV> {
    match n_abs(a.3) {
        Outcome::Err(k) => Outcome::Err(k),
        Outcome::Ok(aw) => match n_abs(a.0) {
            Outcome::Err(k) => Outcome::Err(k),
            Outcome::Ok(ax) => match n_add(aw, ax) {
                Outcome::Err(k) => Outcome::Err(k),
                Outcome::Ok(s1) => match n_abs(a.1) {
                    Outcome::Err(k) => Outcome::Err(k),
                    Outcome::Ok(ay) => match n_add(s1, ay) {
                        Outcome::Err(k) => Outcome::Err(k),
                        Outcome::Ok(s2) => match n_abs(a.2) {
                            Outcome::Err(k) => Outcome::Err(k),
                            Outcome::Ok(az) => n_add(s2, az),
                        },
                    },
                },
            },
        },
    }
}

/// `pseudo_normalize()`: scaled by the inverse of the L1 norm, negated
/// when `w` is negative.
pub open spec fn qpseudo_normalize(a: QuatV) -> Outcome<QuatV> {
    match qnorm1(a) {
        Outcome::Err(k) => Outcome::Err(k),
        Outcome::Ok(n) => match number_sign_spec(a.3) {
            Outcome::Err(k) => Outcome::Err(k),
            Outcome::Ok(s) => {
                let m = if s < 0 {
                    number_neg_spec(n)
                } else {
                    n
                };
                match number_inv_spec(m) {
                    Outcome::Err(k) => Outcome::Err(k),
                    Outcome::Ok(mi) => qscale(a, mi),
                }
            },
        },
    }
}

/// `from_axis_points(k, x, y)`: the rotation about `k` taking `x` to `y`,
/// as `(k, w)` with `w = k·(x×y) / (x·x - x·y)`; when `k·(x×y)` is zero,
/// the identity if `x·y > 0`, else the half turn `(k, 0)`.
pub open spec fn qfrom_axis_points(k: VecV, x: VecV, y: VecV) -> Outcome<QuatV> {
    match vcross(x, y) {
        Outcome::Err(e) => Outcome::Err(e),
        Outcome::Ok(c) => match vdot(k, c) {
            Outcome::Err(e) => Outcome::Err(e),
            Outcome::Ok(kxy) => match vdot(k, x) {
                Outcome::Err(e) => Outcome::Err(e),
                Outcome::Ok(_kx) => match vdot(x, y) {
                    Outcome::Err(e) => Outcome::Err(e),
                    Outcome::Ok(xy) => if kxy.1.2 == -1 {
                        match number_sign_spec(xy) {
                            Outcome::Err(e) => Outcome::Err(e),
                            Outcome::Ok(s) => if s > 0 {
                                quat_identity()
                            } else {
                                match qq_int(0) {
                                    Outcome::Err(e) => Outcome::Err(e),
                                    Outcome::Ok(z) => Outcome::Ok((k.0, k.1, k.2, z)),
                                }
                            },
                        }
                    } else {
                        match vdot(x, x) {
                            Outcome::Err(e) => Outcome::Err(e),
                            Outcome::Ok(xx) => match n_sub(xx, xy) {
                                Outcome::Err(e) => Outcome::Err(e),
                                Outcome::Ok(d) => match n_div(kxy, d) {
                                    Outcome::Err(e) => Outcome::Err(e),
                                    Outcome::Ok(w) => Outcome::Ok((k.0, k.1, k.2, w)),
                                },
                            },
                        }
                    },
                },
            },
        },
    }
}

impl ExactQuaternion {
    pub fn new(x: AlgebraicNumber, y: AlgebraicNumber, z: AlgebraicNumber, w: AlgebraicNumber) -> (r:
        ExactQuaternion)
        ensures
            r@ == (x@, y@, z@, w@),
    {
        ExactQuaternion { x, y, z, w }
    }

    /// A copy of the quaternion.
    pub fn copy(&self) -> (r: ExactQuaternion)
        requires
            quat_wf(self@),
        ensures
            r@ == self@,
    {
        ExactQuaternion { x: self.x.copy(), y: self.y.copy(), z: self.z.copy(), w: self.w.copy() }
    }

    /// The rotation by nothing, over the rationals.
    pub fn identity() -> (r: core::result::Result<ExactQuaternion, Error>)
        ensures
            quat_result(r, quat_identity()),
    {
        let zero = qq_int_exec(0)?;
        let one = qq_int_exec(1)?;
        Ok(ExactQuaternion { x: zero.copy(), y: zero.copy(), z: zero, w: one })
    }

    /// Given an axis `k` (not necessarily normalized) and `x`, `y` with
    /// `‖x‖ = ‖y‖` and `k·x = k·y`, the rotation about `k` taking `x` to `y`.
    pub fn from_axis_points(k: &ExactVector3, x: &ExactVector3, y: &ExactVector3) -> (r:
        core::result::Result<ExactQuaternion, Error>)
        requires
            vec_wf(k@),
            vec_wf(x@),
            vec_wf(y@),
        ensures
            quat_result(r, qfrom_axis_points(k@, x@, y@)),
    {
        let c = x.cross(y)?;
        let kxy = k.dot(&c)?;
        let _kx = k.dot(x)?;
        let xy = x.dot(y)?;
        if kxy.is_zero() {
            if xy.sign()? > 0 {
                ExactQuaternion::identity()
            } else {
                let z = qq_int_exec(0)?;
                Ok(ExactQuaternion { x: k.x.copy(), y: k.y.copy(), z: k.z.copy(), w: z })
            }
        } else {
            let xx = x.dot(x)?;
            let d = nsub(&xx, &xy)?;
            let w = ndiv(&kxy, &d)?;
            Ok(ExactQuaternion { x: k.x.copy(), y: k.y.copy(), z: k.z.copy(), w })
        }
    }

    /// Whether the two are equal, component by component.
    pub fn equals(&self, o: &ExactQuaternion) -> (r: bool)
        requires
            quat_wf(self@),
            quat_wf(o@),
        ensures
            r == (number_equals_spec(self@.0, o@.0) && number_equals_spec(self@.1, o@.1)
                && number_equals_spec(self@.2, o@.2) && number_equals_spec(self@.3, o@.3)),
    {
        self.x.equals(&o.x) && self.y.equals(&o.y) && self.z.equals(&o.z) && self.w.equals(&o.w)
    }

    pub fn norm_squared(&self) -> (r: core::result::Result<AlgebraicNumber, Error>)
        requires
            quat_wf(self@),
        ensures
            number_result(r, qnorm2(self@)),
    {
        proof {
            reveal(qnorm2);
        }
        let xx = nmul(&self.x, &self.x)?;
        let yy = nmul(&self.y, &self.y)?;
        let zz = nmul(&self.z, &self.z)?;
        let ww = nmul(&self.w, &self.w)?;
        let s1 = nadd(&xx, &yy)?;
        let s2 = nadd(&s1, &zz)?;
        nadd(&ww, &s2)
    }

    /// A monotone but cheap stand-in for the rotation angle, used for sorting.
    pub fn pseudo_angle(&self) -> (r: core::result::Result<AlgebraicNumber, Error>)
        requires
            quat_wf(self@),
        ensures
            number_result(r, qpseudo_angle(self@)),
    {
        let one = qq_int_exec(1)?;
        let aw = self.w.abs()?;
        let ww = nmul(&self.w, &aw)?;
        let n = self.norm_squared()?;
        let t = ndiv(&ww, &n)?;
        nsub(&one, &t)
    }

    /// The Hamilton product.
    pub fn mul(&self, b: &ExactQuaternion) -> (r: core::result::Result<ExactQuaternion, Error>)
        requires
            quat_wf(self@),
            quat_wf(b@),
        ensures
            quat_result(r, qmul(self@, b@)),
    {
        proof {
            reveal(qmul);
        }
        let a = self;
        let x = quad(&a.w, &b.x, &a.x, &b.w, &a.y, &b.z, &a.z, &b.y, false, false, true)?;
        let y = quad(&a.w, &b.y, &a.x, &b.z, &a.y, &b.w, &a.z, &b.x, true, false, false)?;
        let z = quad(&a.w, &b.z, &a.x, &b.y, &a.y, &b.x, &a.z, &b.w, false, true, false)?;
        let w = quad(&a.w, &b.w, &a.x, &b.x, &a.y, &b.y, &a.z, &b.z, true, true, true)?;
        Ok(ExactQuaternion { x, y, z, w })
    }

    pub fn scale(&self, b: &AlgebraicNumber) -> (r: core::result::Result<ExactQuaternion, Error>)
        requires
            quat_wf(self@),
            number_wf(b@),
        ensures
            quat_result(r, qscale(self@, b@)),
    {
        proof {
            reveal(qscale);
        }
        let x = nmul(&self.x, b)?;
        let y = nmul(&self.y, b)?;
        let z = nmul(&self.z, b)?;
        let w = nmul(&self.w, b)?;
        Ok(ExactQuaternion { x, y, z, w })
    }

    pub fn conj(&self) -> (r: ExactQuaternion)
        requires
            quat_wf(self@),
        ensures
            r@ == qconj(self@),
            quat_wf(r@),
    {
        ExactQuaternion { x: self.x.neg(), y: self.y.neg(), z: self.z.neg(), w: self.w.copy() }
    }

    pub fn inv(&self) -> (r: core::result::Result<ExactQuaternion, Error>)
        requires
            quat_wf(self@),
        ensures
            quat_result(r, qinv(self@)),
    {
        proof {
            reveal(qinv);
        }
        let c = self.conj();
        let n = self.norm_squared()?;
        let ni = n.inv()?;
        c.scale(&ni)
    }

    /// Rotate a vector: the vector part of `q (v, 0) q⁻¹`.
    pub fn apply(&self, v: &ExactVector3) -> (r: core::result::Result<ExactVector3, Error>)
        requires
            quat_wf(self@),
            vec_wf(v@),
        ensures
            vec_result(r, qapply(self@, v@)),
    {
        let zero = qq_int_exec(0)?;
        let vq = ExactQuaternion { x: v.x.copy(), y: v.y.copy(), z: v.z.copy(), w: zero };
        let qv = self.mul(&vq)?;
        let qi = self.inv()?;
        let vr = qv.mul(&qi)?;
        Ok(ExactVector3 { x: vr.x, y: vr.y, z: vr.z })
    }

    /// `((|w| + |x|) + |y|) + |z|`.
    fn norm1(&self) -> (r: core::result::Result<AlgebraicNumber, Error>)
        requires
            quat_wf(self@),
        ensures
            number_result(r, qnorm1(self@)),
    {
        proof {
            reveal(qnorm1);
        }
        let aw = self.w.abs()?;
        let ax = self.x.abs()?;
        let s1 = nadd(&aw, &ax)?;
        let ay = self.y.abs()?;
        let s2 = nadd(&s1, &ay)?;
        let az = self.z.abs()?;
        nadd(&s2, &az)
    }

    /// Scale so that the L1 norm is 1 and `w >= 0`, keeping coefficients
    /// small without needing a square root.
    pub fn pseudo_normalize(&self) -> (r: core::result::Result<ExactQuaternion, Error>)
        requires
            quat_wf(self@),
        ensures
            quat_result(r, qpseudo_normalize(self@)),
    {
        let mut n = self.norm1()?;
        if self.w.sign()? < 0 {
            n = n.neg();
        }
        let ni = n.inv()?;
        self.scale(&ni)
    }
}

} // verus!
