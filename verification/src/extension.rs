//! The common field of two number fields: ℚ(α, β) as ℚ(θ) for a primitive
//! element θ = kα + β, with α and β written in it.
//!
//! The minimal polynomial of θ is the factor of `Res_x(A(x), B(z - kx))`
//! that has θ as a root, found by counting roots over the isolating
//! intervals of α and β, narrowed until exactly one factor has one.

use vstd::prelude::*;

use crate::error::{Error, ErrorKind};
use crate::num::fraction::{Fraction, QQ};
use crate::num::polynomial::{
    deriv_loop, finish, gcd, horner, max_len, poly_gcd_spec, poly_of, polynomial, qq_x, resultant,
    resultant_spec, views, PolyQ, Polynomial, Polynomials, QQx,
};
use crate::num::ring::{Elem, Outcome, RingOps};
use crate::exact::{
    field_new_spec, number_neg_spec, number_new_spec, number_wf, refine_spec, ring_field, AlgebraicNumber,
    AlgebraicNumberField, FieldV, PolyQV,
};
use crate::num::polynomial::monic_spec;
use crate::num::factoring::{factor, factor_spec, q_views, BitStream};
use crate::num::fraction::fraction_new_spec;
use crate::exact::{field_const, field_equals_spec};
use crate::num::fraction::{maybe_reduce, raw_add};
use crate::num::polynomial::{count_roots, count_roots_spec};

verus! {

/// Polynomials in `x` over `ℚ[z]`.
pub type Poly2 = Polynomial<PolyQ, QQx>;

/// The ring `ℚ[z][x]`.
pub type QQxy = Polynomials<PolyQ, QQx>;

/// Polynomials over `ℚ[z][x]`, used to substitute into a polynomial.
pub type Poly3 = Polynomial<Poly2, QQxy>;

pub type Poly2V = ((), Seq<PolyQV>, int);

pub type Poly3V = ((), Seq<Poly2V>, int);

/// The constant rational polynomial `c`.
pub open spec fn const_q(c: (int, int)) -> PolyQV {
    poly_of::<Fraction, QQ>((), seq![c])
}

/// `A` with each coefficient a constant of `ℚ[z]`.
pub open spec fn lift2(a: PolyQV) -> Poly2V {
    poly_of::<PolyQ, QQx>((), a.1.map_values(|c: (int, int)| const_q(c)))
}

/// `B` with each coefficient a constant of `ℚ[z][x]`.
pub open spec fn lift3(b: PolyQV) -> Poly3V {
    poly_of::<Poly2, QQxy>((), b.1.map_values(|c: (int, int)| poly_of::<PolyQ, QQx>((), seq![const_q(c)])))
}

/// `z - kx`, as a polynomial in `x` over `ℚ[z]`.
pub open spec fn shift(k: int) -> Poly2V {
    poly_of::<PolyQ, QQx>(
        (),
        seq![poly_of::<Fraction, QQ>((), seq![(0int, 1int), (1int, 1int)]), const_q((-k, 1int))],
    )
}

/// `Res_x(A(x), B(z - kx))`, a polynomial in `z`.
#[verifier::opaque]
pub open spec fn candidate_spec(a: PolyQV, b: PolyQV, k: int) -> Outcome<PolyQV> {
    let b3 = lift3(b);
    match horner::<Poly2>(b3.1, shift(k), b3.1.len(), Outcome::Ok(poly_of::<PolyQ, QQx>((), seq![]))) {
        Outcome::Err(e) => Outcome::Err(e),
        Outcome::Ok(bz) => resultant_spec::<PolyQ, QQx>(lift2(a), bz),
    }
}

/// The formal derivative of a rational polynomial.
pub open spec fn deriv_q(p: PolyQV) -> Outcome<PolyQV> {
    finish::<Fraction, QQ>(
        p.0,
        deriv_loop::<Fraction, QQ>(
            p.0,
            p.1,
            if p.2 > 0 {
                p.2 as nat
            } else {
                0
            },
        ),
    )
}

/// Whether `p` has no repeated factor: its gcd with its derivative is a
/// constant.
#[verifier::opaque]
pub open spec fn squarefree_spec(p: PolyQV) -> Outcome<bool> {
    match deriv_q(p) {
        Outcome::Err(e) => Outcome::Err(e),
        Outcome::Ok(d) => match poly_gcd_spec::<Fraction, QQ>(p, d) {
            Outcome::Err(e) => Outcome::Err(e),
            Outcome::Ok(g) => Outcome::Ok(g.2 == 0),
        },
    }
}

/// How many values of `k` the search for a primitive element tries.
pub const K_TRIES: i64 = 65536;

/// The first `k`, from `k` on, with a squarefree candidate: `k` and the
/// candidate, trying at most `tries` values.
pub open spec fn k_search(a: PolyQV, b: PolyQV, k: int, tries: nat) -> Outcome<(int, PolyQV)>
    decreases tries,
{
    if tries == 0 {
        Outcome::Err(ErrorKind::Other)
    } else {
        match candidate_spec(a, b, k) {
            Outcome::Err(e) => Outcome::Err(e),
            Outcome::Ok(c) => match squarefree_spec(c) {
                Outcome::Err(e) => Outcome::Err(e),
                Outcome::Ok(sq) => if sq {
                    Outcome::Ok((k, c))
                } else {
                    k_search(a, b, k + 1, (tries - 1) as nat)
                },
            },
        }
    }
}

/// The constant rational polynomial `c`.
fn const_poly(c: &Fraction) -> (r: PolyQ)
    requires
        c@.1 > 0,
    ensures
        r@ == const_q(c@),
        PolyQ::wf_view(r@),
{
    let v = vec![c.copy()];
    proof {
        assert(views::<Fraction>(v@) =~= seq![c@]);
    }
    polynomial(v)
}

/// `A` with each coefficient a constant of `ℚ[z]`.
fn lift2_exec(a: &PolyQ) -> (r: Poly2)
    requires
        PolyQ::wf_view(a@),
    ensures
        r@ == lift2(a@),
        Poly2::wf_view(r@),
{
    let mut v: Vec<PolyQ> = Vec::new();
    let mut i: usize = 0;
    while i < a.coeffs.len()
        invariant
            i <= a.coeffs@.len(),
            PolyQ::wf_view(a@),
            views::<PolyQ>(v@) == a@.1.take(i as int).map_values(|c: (int, int)| const_q(c)),
            forall|j: int| 0 <= j < v@.len() ==> PolyQ::wf_view(#[trigger] v@[j]@),
        decreases a.coeffs@.len() - i,
    {
        proof {
            assert(a@.1[i as int] == a.coeffs@[i as int]@);
            assert(Fraction::wf_spec(a@.1[i as int]));
        }
        let ghost before = views::<PolyQ>(v@);
        let p = const_poly(&a.coeffs[i]);
        v.push(p);
        proof {
            assert(views::<PolyQ>(v@) =~= before.push(p@));
            assert(a@.1.take(i + 1).map_values(|c: (int, int)| const_q(c)) =~= a@.1.take(i as int).map_values(
                |c: (int, int)| const_q(c),
            ).push(const_q(a@.1[i as int])));
        }
        i = i + 1;
    }
    proof {
        assert(a@.1.take(a@.1.len() as int) =~= a@.1);
        assert forall|j: int| 0 <= j < views::<PolyQ>(v@).len() implies #[trigger] PolyQ::wf_spec(
            views::<PolyQ>(v@)[j],
        ) by {
            assert(views::<PolyQ>(v@)[j] == v@[j]@);
        }
    }
    Polynomial::new(qq_x(), v)
}

/// `B` with each coefficient a constant of `ℚ[z][x]`.
fn lift3_exec(b: &PolyQ) -> (r: Poly3)
    requires
        PolyQ::wf_view(b@),
    ensures
        r@ == lift3(b@),
        Poly3::wf_view(r@),
{
    let mut v: Vec<Poly2> = Vec::new();
    let mut i: usize = 0;
    while i < b.coeffs.len()
        invariant
            i <= b.coeffs@.len(),
            PolyQ::wf_view(b@),
            views::<Poly2>(v@) == b@.1.take(i as int).map_values(
                |c: (int, int)| poly_of::<PolyQ, QQx>((), seq![const_q(c)]),
            ),
            forall|j: int| 0 <= j < v@.len() ==> Poly2::wf_view(#[trigger] v@[j]@),
        decreases b.coeffs@.len() - i,
    {
        proof {
            assert(b@.1[i as int] == b.coeffs@[i as int]@);
            assert(Fraction::wf_spec(b@.1[i as int]));
        }
        let ghost before = views::<Poly2>(v@);
        let cp = const_poly(&b.coeffs[i]);
        let w = vec![cp];
        proof {
            assert(views::<PolyQ>(w@) =~= seq![const_q(b@.1[i as int])]);
        }
        let p = Polynomial::new(qq_x(), w);
        v.push(p);
        proof {
            assert(views::<Poly2>(v@) =~= before.push(p@));
            assert(b@.1.take(i + 1).map_values(|c: (int, int)| poly_of::<PolyQ, QQx>((), seq![const_q(c)]))
                =~= b@.1.take(i as int).map_values(
                |c: (int, int)| poly_of::<PolyQ, QQx>((), seq![const_q(c)]),
            ).push(poly_of::<PolyQ, QQx>((), seq![const_q(b@.1[i as int])])));
        }
        i = i + 1;
    }
    proof {
        assert(b@.1.take(b@.1.len() as int) =~= b@.1);
        assert forall|j: int| 0 <= j < views::<Poly2>(v@).len() implies #[trigger] Poly2::wf_spec(
            views::<Poly2>(v@)[j],
        ) by {
            assert(views::<Poly2>(v@)[j] == v@[j]@);
        }
    }
    Polynomial::new(Polynomials::new(qq_x()), v)
}

/// `z - kx`.
fn shift_exec(k: i64) -> (r: Poly2)
    requires
        k > 0,
    ensures
        r@ == shift(k as int),
        Poly2::wf_view(r@),
{
    let mut zv: Vec<Fraction> = Vec::new();
    zv.push(Fraction::from_int(0));
    zv.push(Fraction::from_int(1));
    proof {
        assert(views::<Fraction>(zv@) =~= seq![(0int, 1int), (1int, 1int)]);
    }
    let z = polynomial(zv);
    let c = const_poly(&Fraction::from_int(-k));
    let mut v: Vec<PolyQ> = Vec::new();
    v.push(z);
    v.push(c);
    proof {
        assert(views::<PolyQ>(v@) =~= seq![z@, c@]);
        assert forall|j: int| 0 <= j < views::<PolyQ>(v@).len() implies #[trigger] PolyQ::wf_spec(
            views::<PolyQ>(v@)[j],
        ) by {}
    }
    Polynomial::new(qq_x(), v)
}

/// `Res_x(A(x), B(z - kx))`.
fn candidate(a: &PolyQ, b: &PolyQ, k: i64) -> (r: core::result::Result<PolyQ, Error>)
    requires
        PolyQ::wf_view(a@),
        PolyQ::wf_view(b@),
        k > 0,
    ensures
        match r {
            Ok(c) => candidate_spec(a@, b@, k as int) == Outcome::Ok(c@) && PolyQ::wf_view(c@),
            Err(e) => candidate_spec(a@, b@, k as int) == Outcome::<PolyQV>::Err(e.spec_error_kind()),
        },
{
    proof {
        reveal(candidate_spec);
    }
    let a2 = lift2_exec(a);
    let b3 = lift3_exec(b);
    let beta = shift_exec(k);
    let bz = b3.eval(&beta)?;
    resultant(&a2, &bz)
}

/// Whether `p` has no repeated factor.
fn squarefree(p: &PolyQ) -> (r: core::result::Result<bool, Error>)
    requires
        PolyQ::wf_view(p@),
    ensures
        match r {
            Ok(b) => squarefree_spec(p@) == Outcome::Ok(b),
            Err(e) => squarefree_spec(p@) == Outcome::<bool>::Err(e.spec_error_kind()),
        },
{
    proof {
        reveal(squarefree_spec);
    }
    let d = p.derivative()?;
    let g = gcd(p, &d)?;
    Ok(g.degree == 0)
}

proof fn lemma_k_search_err(a: PolyQV, b: PolyQV, k: int, tries: nat)
    requires
        tries > 0,
        candidate_spec(a, b, k) is Err || (candidate_spec(a, b, k) matches Outcome::Ok(c) && squarefree_spec(c) is Err),
    ensures
        k_search(a, b, k, tries) is Err,
{
}

/// The first `k` from one on whose candidate is squarefree, and that
/// candidate: `kα + β` is then a primitive element of ℚ(α, β).
fn search_k(a: &PolyQ, b: &PolyQ) -> (r: core::result::Result<(i64, PolyQ), Error>)
    requires
        PolyQ::wf_view(a@),
        PolyQ::wf_view(b@),
    ensures
        match r {
            Ok(t) => k_search(a@, b@, 1, K_TRIES as nat) == Outcome::Ok((t.0 as int, t.1@)) && PolyQ::wf_view(
                t.1@,
            ) && t.0 > 0,
            Err(e) => k_search(a@, b@, 1, K_TRIES as nat) == Outcome::<(int, PolyQV)>::Err(e.spec_error_kind()),
        },
{
    let mut k: i64 = 1;
    while k <= K_TRIES
        invariant
            1 <= k <= K_TRIES + 1,
            PolyQ::wf_view(a@),
            PolyQ::wf_view(b@),
            k_search(a@, b@, 1, K_TRIES as nat) == k_search(a@, b@, k as int, (K_TRIES + 1 - k) as nat),
        decreases K_TRIES + 1 - k,
    {
        let c = match candidate(a, b, k) {
            Ok(c) => c,
            Err(e) => {
                proof {
                    lemma_k_search_err(a@, b@, k as int, (K_TRIES + 1 - k) as nat);
                }
                return Err(e);
            },
        };
        let sq = match squarefree(&c) {
            Ok(sq) => sq,
            Err(e) => {
                proof {
                    lemma_k_search_err(a@, b@, k as int, (K_TRIES + 1 - k) as nat);
                }
                return Err(e);
            },
        };
        if sq {
            return Ok((k, c));
        }
        k = k + 1;
    }
    Err(Error::Other("no primitive element found among the values of k tried".to_owned()))
}

/// `[k·lower_α + lower_β, k·upper_α + upper_β]`: an interval around
/// `kα + β`.
pub open spec fn interval_spec(qa: FieldV, qb: FieldV, k: int) -> Outcome<((int, int), (int, int))> {
    match <Fraction as Elem>::mul_spec(qa.lower, (k, 1)) {
        Outcome::Err(e) => Outcome::Err(e),
        Outcome::Ok(ml) => match <Fraction as Elem>::mul_spec(qa.upper, (k, 1)) {
            Outcome::Err(e) => Outcome::Err(e),
            Outcome::Ok(mu) => Outcome::Ok(
                (maybe_reduce(raw_add(ml, qb.lower), true), maybe_reduce(raw_add(mu, qb.upper), true)),
            ),
        },
    }
}

/// The roots of the first `n` factors in `[lo, hi]`, counted together,
/// and the last factor with a root there (`c` if none has).
pub open spec fn count_fold(fs: Seq<PolyQV>, lo: (int, int), hi: (int, int), n: nat, c: Option<PolyQV>) -> Outcome<
    (int, Option<PolyQV>),
>
    decreases n,
{
    if n == 0 {
        Outcome::Ok((0, c))
    } else {
        match count_fold(fs, lo, hi, (n - 1) as nat, c) {
            Outcome::Err(e) => Outcome::Err(e),
            Outcome::Ok(tc) => if fs[n - 1].2 >= 0x4000_0000 {
                Outcome::Err(ErrorKind::Range)
            } else {
                match count_roots_spec(fs[n - 1], lo, hi) {
                    Outcome::Err(e) => Outcome::Err(e),
                    Outcome::Ok(x) => Outcome::Ok(
                        (
                            tc.0 + x,
                            if x > 0 {
                                Some(fs[n - 1])
                            } else {
                                tc.1
                            },
                        ),
                    ),
                }
            },
        }
    }
}

/// How many times the two fields are refined, at most, before the
/// factor with `kα + β` as a root is told apart.
pub const REFINE_TRIES: u32 = 4096;

/// Narrow the intervals of α and β until exactly one root of the factors
/// lies in the interval around `kα + β`: the refined fields, that
/// interval, and the factor found.
pub open spec fn isolate_spec(
    qa: FieldV,
    qb: FieldV,
    k: int,
    fs: Seq<PolyQV>,
    c: Option<PolyQV>,
    tries: nat,
) -> Outcome<(FieldV, FieldV, (int, int), (int, int), Option<PolyQV>)>
    decreases tries,
{
    match interval_spec(qa, qb, k) {
        Outcome::Err(e) => Outcome::Err(e),
        Outcome::Ok(iv) => match count_fold(fs, iv.0, iv.1, fs.len(), c) {
            Outcome::Err(e) => Outcome::Err(e),
            Outcome::Ok(tc) => if tc.0 == 1 {
                Outcome::Ok((qa, qb, iv.0, iv.1, tc.1))
            } else if tries == 0 {
                Outcome::Err(ErrorKind::Other)
            } else {
                match refine_spec(qa) {
                    Outcome::Err(e) => Outcome::Err(e),
                    Outcome::Ok(qa2) => match refine_spec(qb) {
                        Outcome::Err(e) => Outcome::Err(e),
                        Outcome::Ok(qb2) => isolate_spec(qa2, qb2, k, fs, tc.1, (tries - 1) as nat),
                    },
                }
            },
        },
    }
}

fn interval_exec(qa: &AlgebraicNumberField, qb: &AlgebraicNumberField, k: i64) -> (r: core::result::Result<
    (Fraction, Fraction),
    Error,
>)
    requires
        crate::exact::field_wf(qa@),
        crate::exact::field_wf(qb@),
    ensures
        match r {
            Ok(iv) => interval_spec(qa@, qb@, k as int) == Outcome::Ok((iv.0@, iv.1@)) && iv.0@.1 > 0 && iv.1@.1
                > 0,
            Err(e) => interval_spec(qa@, qb@, k as int) == Outcome::<((int, int), (int, int))>::Err(
                e.spec_error_kind(),
            ),
        },
{
    let (al, au) = qa.bounds();
    let (bl, bu) = qb.bounds();
    let kf = Fraction::from_int(k);
    let mut lower = Elem::mul(&al, &kf)?;
    lower.iadd_r(&bl, true);
    let mut upper = Elem::mul(&au, &kf)?;
    upper.iadd_r(&bu, true);
    Ok((lower, upper))
}

proof fn lemma_count_err(fs: Seq<PolyQV>, lo: (int, int), hi: (int, int), n: nat, n2: nat, c: Option<PolyQV>)
    requires
        n <= n2,
        count_fold(fs, lo, hi, n, c) is Err,
    ensures
        count_fold(fs, lo, hi, n2, c) == count_fold(fs, lo, hi, n, c),
    decreases n2,
{
    if n2 > n {
        lemma_count_err(fs, lo, hi, n, (n2 - 1) as nat, c);
    }
}

/// The view of an optional rational polynomial.
pub open spec fn opt_poly(o: Option<PolyQ>) -> Option<PolyQV> {
    match o {
        Some(p) => Some(p@),
        None => None,
    }
}

/// The views of a list of rational polynomials.
pub open spec fn poly_views(v: Seq<PolyQ>) -> Seq<PolyQV> {
    v.map_values(|p: PolyQ| p@)
}

/// Count the roots of the factors in `[lo, hi]`.
fn count_exec(fs: &Vec<PolyQ>, lo: &Fraction, hi: &Fraction, c: Option<PolyQ>) -> (r: core::result::Result<
    (i128, Option<PolyQ>),
    Error,
>)
    requires
        forall|i: int| 0 <= i < fs@.len() ==> PolyQ::wf_view(#[trigger] fs@[i]@),
        lo@.1 > 0,
        hi@.1 > 0,
        c matches Some(p) ==> PolyQ::wf_view(p@),
    ensures
        match r {
            Ok(t) => count_fold(poly_views(fs@), lo@, hi@, fs@.len() as nat, opt_poly(c)) == Outcome::Ok((t.0 as int, opt_poly(t.1))) && (t.1 matches Some(p) ==> PolyQ::wf_view(p@)),
            Err(e) => count_fold(poly_views(fs@), lo@, hi@, fs@.len() as nat, opt_poly(c)) == Outcome::<(int, Option<PolyQV>)>::Err(e.spec_error_kind()),
        },
{
    let ghost fv = poly_views(fs@);
    let ghost c0 = opt_poly(c);
    let mut total: i128 = 0;
    let mut found = c;
    let mut i: usize = 0;
    while i < fs.len()
        invariant
            i <= fs@.len(),
            fv == poly_views(fs@),
            c0 == opt_poly(c),
            forall|j: int| 0 <= j < fs@.len() ==> PolyQ::wf_view(#[trigger] fs@[j]@),
            lo@.1 > 0,
            hi@.1 > 0,
            found matches Some(p) ==> PolyQ::wf_view(p@),
            -0x8000_0000 * i <= total <= 0x8000_0000 * i,
            count_fold(fv, lo@, hi@, i as nat, c0) == Outcome::Ok((total as int, opt_poly(found))),
        decreases fs@.len() - i,
    {
        proof {
            assert(fv[i as int] == fs@[i as int]@);
        }
        if fs[i].degree >= 0x4000_0000 {
            proof {
                lemma_count_err(fv, lo@, hi@, (i + 1) as nat, fs@.len() as nat, c0);
            }
            return Err(Error::Range("polynomial too large".to_owned()));
        }
        let x = match count_roots(&fs[i], lo, hi) {
            Ok(x) => x,
            Err(e) => {
                proof {
                    lemma_count_err(fv, lo@, hi@, (i + 1) as nat, fs@.len() as nat, c0);
                }
                return Err(e);
            },
        };
        total = total + x as i128;
        if x > 0 {
            found = Some(fs[i].copy_poly());
        }
        i = i + 1;
    }
    Ok((total, found))
}

/// Narrow the intervals of α and β until exactly one factor has a root in
/// the interval around `kα + β`.
fn isolate(qa: AlgebraicNumberField, qb: AlgebraicNumberField, k: i64, fs: &Vec<PolyQ>) -> (r: core::result::Result<
    (AlgebraicNumberField, AlgebraicNumberField, Fraction, Fraction, Option<PolyQ>),
    Error,
>)
    requires
        crate::exact::field_wf(qa@),
        crate::exact::field_wf(qb@),
        forall|i: int| 0 <= i < fs@.len() ==> PolyQ::wf_view(#[trigger] fs@[i]@),
    ensures
        match r {
            Ok(t) => isolate_spec(qa@, qb@, k as int, poly_views(fs@), None, REFINE_TRIES as nat) == Outcome::Ok(
                (t.0@, t.1@, t.2@, t.3@, opt_poly(t.4)),
            ) && crate::exact::field_wf(t.0@) && crate::exact::field_wf(t.1@) && t.2@.1 > 0 && t.3@.1 > 0 && (
            t.4 matches Some(p) ==> PolyQ::wf_view(p@)) && t.0@.degree == qa@.degree && t.1@.degree == qb@.degree,
            Err(e) => isolate_spec(qa@, qb@, k as int, poly_views(fs@), None, REFINE_TRIES as nat)
                == Outcome::<(FieldV, FieldV, (int, int), (int, int), Option<PolyQV>)>::Err(e.spec_error_kind()),
        },
{
    let ghost target = isolate_spec(qa@, qb@, k as int, poly_views(fs@), None, REFINE_TRIES as nat);
    let mut fa = qa;
    let mut fb = qb;
    let mut c: Option<PolyQ> = None;
    let mut tries: u32 = REFINE_TRIES;
    loop
        invariant
            crate::exact::field_wf(fa@),
            crate::exact::field_wf(fb@),
            forall|i: int| 0 <= i < fs@.len() ==> PolyQ::wf_view(#[trigger] fs@[i]@),
            c matches Some(p) ==> PolyQ::wf_view(p@),
            target == isolate_spec(fa@, fb@, k as int, poly_views(fs@), opt_poly(c), tries as nat),
            target == isolate_spec(qa@, qb@, k as int, poly_views(fs@), None, REFINE_TRIES as nat),
            fa@.degree == qa@.degree,
            fb@.degree == qb@.degree,
        decreases tries,
    {
        let (lo, hi) = interval_exec(&fa, &fb, k)?;
        let ghost cv = opt_poly(c);
        proof {
            assert(poly_views(fs@).len() == fs@.len());
        }
        let (t, c2) = match count_exec(fs, &lo, &hi, c) {
            Ok(x) => x,
            Err(e) => {
                return Err(e);
            },
        };
        if t == 1 {
            return Ok((fa, fb, lo, hi, c2));
        }
        if tries == 0 {
            return Err(Error::Other("the factor of the primitive element could not be isolated".to_owned()));
        }
        fa.refine()?;
        fb.refine()?;
        c = c2;
        tries = tries - 1;
    }
}

/// Polynomials in `x` over a number field.
pub type KPoly = Polynomial<AlgebraicNumber, AlgebraicNumberField>;

/// The ring of polynomials over a number field.
pub type KX = Polynomials<AlgebraicNumber, AlgebraicNumberField>;

/// Polynomials over `K[x]`, used to substitute into a polynomial.
pub type CPoly = Polynomial<KPoly, KX>;

pub type NumV = (FieldV, PolyQV);

pub type KPolyV = (FieldV, Seq<NumV>, int);

/// The first `n` of `cs` as numbers of the field, each a polynomial in θ
/// reduced into it.
pub open spec fn nums_fold(q: FieldV, cs: Seq<Seq<(int, int)>>, n: nat) -> Outcome<Seq<NumV>>
    decreases n,
{
    if n == 0 {
        Outcome::Ok(Seq::empty())
    } else {
        match nums_fold(q, cs, (n - 1) as nat) {
            Outcome::Err(e) => Outcome::Err(e),
            Outcome::Ok(v) => match number_new_spec(q, poly_of::<Fraction, QQ>((), cs[n - 1])) {
                Outcome::Err(e) => Outcome::Err(e),
                Outcome::Ok(x) => Outcome::Ok(v.push(x)),
            },
        }
    }
}

/// The polynomial over the field whose coefficients are `cs`, each read
/// as a polynomial in θ.
pub open spec fn kpoly_spec(q: FieldV, cs: Seq<Seq<(int, int)>>) -> Outcome<KPolyV> {
    match nums_fold(q, cs, cs.len()) {
        Outcome::Err(e) => Outcome::Err(e),
        Outcome::Ok(v) => Outcome::Ok(poly_of::<AlgebraicNumber, AlgebraicNumberField>(q, v)),
    }
}

/// The first `n` coefficients of `c` as constants of `K[x]`.
pub open spec fn consts_fold(q: FieldV, c: PolyQV, n: nat) -> Outcome<Seq<KPolyV>>
    decreases n,
{
    if n == 0 {
        Outcome::Ok(Seq::empty())
    } else {
        match consts_fold(q, c, (n - 1) as nat) {
            Outcome::Err(e) => Outcome::Err(e),
            Outcome::Ok(v) => match kpoly_spec(q, seq![seq![c.1[n - 1]]]) {
                Outcome::Err(e) => Outcome::Err(e),
                Outcome::Ok(x) => Outcome::Ok(v.push(x)),
            },
        }
    }
}

/// `C` with each coefficient a constant of `K[x]`.
pub open spec fn cpoly_spec(q: FieldV, c: PolyQV) -> Outcome<(FieldV, Seq<KPolyV>, int)> {
    match consts_fold(q, c, c.1.len()) {
        Outcome::Err(e) => Outcome::Err(e),
        Outcome::Ok(v) => Outcome::Ok(poly_of::<KPoly, KX>(q, v)),
    }
}

/// `C(g(θ, y))`, with `C`'s coefficients and `g`'s read in the field.
#[verifier::opaque]
pub open spec fn subst_spec(q: FieldV, c: PolyQV, g: Seq<Seq<(int, int)>>) -> Outcome<KPolyV> {
    match cpoly_spec(q, c) {
        Outcome::Err(e) => Outcome::Err(e),
        Outcome::Ok(cx) => match kpoly_spec(q, g) {
            Outcome::Err(e) => Outcome::Err(e),
            Outcome::Ok(gm) => horner::<KPoly>(
                cx.1,
                gm,
                cx.1.len(),
                Outcome::Ok(poly_of::<AlgebraicNumber, AlgebraicNumberField>(q, seq![])),
            ),
        },
    }
}

/// The root of a linear polynomial: minus its constant term once monic.
#[verifier::opaque]
pub open spec fn neg_root_spec(bf: KPolyV) -> Outcome<NumV> {
    match monic_spec::<AlgebraicNumber, AlgebraicNumberField>(bf) {
        Outcome::Err(k) => Outcome::Err(k),
        Outcome::Ok(m) => if m.1.len() == 0 {
            Outcome::Err(ErrorKind::Other)
        } else {
            Outcome::Ok(number_neg_spec(m.1[0]))
        },
    }
}

/// The root of `gcd(ba, e)` when that is linear, and otherwise nothing.
#[verifier::opaque]
pub open spec fn linear_root_spec(ba: KPolyV, e: KPolyV) -> Outcome<Option<NumV>> {
    match poly_gcd_spec::<AlgebraicNumber, AlgebraicNumberField>(ba, e) {
        Outcome::Err(k) => Outcome::Err(k),
        Outcome::Ok(bf) => if bf.2 == 1 {
            match neg_root_spec(bf) {
                Outcome::Err(k) => Outcome::Err(k),
                Outcome::Ok(x) => Outcome::Ok(Some(x)),
            }
        } else {
            Outcome::Ok(None)
        },
    }
}

/// Whether a root of `B` lies in the field: if `gcd(B(y), C(g(θ, y)))` is
/// linear, its root, and otherwise nothing.
pub open spec fn helper_spec(q: FieldV, b: PolyQV, c: PolyQV, g: Seq<Seq<(int, int)>>) -> Outcome<Option<NumV>> {
    match kpoly_spec(q, b.1.map_values(|x: (int, int)| seq![x])) {
        Outcome::Err(e) => Outcome::Err(e),
        Outcome::Ok(ba) => match subst_spec(q, c, g) {
            Outcome::Err(e) => Outcome::Err(e),
            Outcome::Ok(e) => linear_root_spec(ba, e),
        },
    }
}

/// The views of a list of fractions.
pub open spec fn frac_views(v: Seq<Fraction>) -> Seq<(int, int)> {
    v.map_values(|f: Fraction| f@)
}

/// The views of a list of lists of fractions.
pub open spec fn frac_rows(v: Seq<Vec<Fraction>>) -> Seq<Seq<(int, int)>> {
    v.map_values(|r: Vec<Fraction>| frac_views(r@))
}

/// Every fraction of the lists has a positive denominator, and no list is
/// longer than a polynomial can be.
pub open spec fn rows_ok(cs: Seq<Seq<(int, int)>>) -> bool {
    forall|i: int| 0 <= i < cs.len() ==> {
        &&& (#[trigger] cs[i]).len() <= max_len()
        &&& forall|j: int| 0 <= j < cs[i].len() ==> cs[i][j].1 > 0
    }
}

fn copy_row(v: &Vec<Fraction>) -> (r: Vec<Fraction>)
    requires
        forall|j: int| 0 <= j < v@.len() ==> (#[trigger] v@[j])@.1 > 0,
    ensures
        frac_views(r@) == frac_views(v@),
        forall|j: int| 0 <= j < r@.len() ==> (#[trigger] r@[j])@.1 > 0,
{
    let mut out: Vec<Fraction> = Vec::new();
    let mut i: usize = 0;
    while i < v.len()
        invariant
            i <= v@.len(),
            forall|j: int| 0 <= j < v@.len() ==> (#[trigger] v@[j])@.1 > 0,
            frac_views(out@) == frac_views(v@).take(i as int),
            forall|j: int| 0 <= j < out@.len() ==> (#[trigger] out@[j])@.1 > 0,
        decreases v@.len() - i,
    {
        let ghost before = frac_views(out@);
        let f = v[i].copy();
        out.push(f);
        proof {
            assert(frac_views(out@) =~= before.push(f@));
            assert(frac_views(v@).take(i + 1) =~= frac_views(v@).take(i as int).push(v@[i as int]@));
            assert forall|j: int| 0 <= j < out@.len() implies (#[trigger] out@[j])@.1 > 0 by {
                if j < i {
                    assert(out@[j] == out@.drop_last()[j]);
                }
            }
        }
        i = i + 1;
    }
    proof {
        assert(frac_views(v@).take(v@.len() as int) =~= frac_views(v@));
    }
    out
}

proof fn lemma_nums_err(q: FieldV, cs: Seq<Seq<(int, int)>>, n: nat, n2: nat)
    requires
        n <= n2,
        nums_fold(q, cs, n) is Err,
    ensures
        nums_fold(q, cs, n2) == nums_fold(q, cs, n),
    decreases n2,
{
    if n2 > n {
        lemma_nums_err(q, cs, n, (n2 - 1) as nat);
    }
}

/// The polynomial over the field whose coefficients are `cs`.
fn kpoly(q: &AlgebraicNumberField, cs: &Vec<Vec<Fraction>>) -> (r: core::result::Result<KPoly, Error>)
    requires
        ring_field(q@),
        rows_ok(frac_rows(cs@)),
        cs@.len() <= max_len(),
    ensures
        match r {
            Ok(p) => kpoly_spec(q@, frac_rows(cs@)) == Outcome::Ok(p@) && KPoly::wf_view(p@),
            Err(e) => kpoly_spec(q@, frac_rows(cs@)) == Outcome::<KPolyV>::Err(e.spec_error_kind()),
        },
{
    let ghost rows = frac_rows(cs@);
    let mut v: Vec<AlgebraicNumber> = Vec::new();
    proof {
        assert(views::<AlgebraicNumber>(v@) =~= Seq::<NumV>::empty());
    }
    let mut i: usize = 0;
    while i < cs.len()
        invariant
            i <= cs@.len() <= max_len(),
            rows == frac_rows(cs@),
            ring_field(q@),
            rows_ok(rows),
            nums_fold(q@, rows, i as nat) == Outcome::Ok(views::<AlgebraicNumber>(v@)),
            forall|j: int| 0 <= j < v@.len() ==> number_wf(#[trigger] v@[j]@),
            v@.len() == i,
        decreases cs@.len() - i,
    {
        proof {
            assert(rows[i as int] == frac_views(cs@[i as int]@));
            assert forall|j: int| 0 <= j < cs@[i as int]@.len() implies (#[trigger] cs@[i as int]@[j])@.1 > 0 by {
                assert(rows[i as int][j] == cs@[i as int]@[j]@);
            }
        }
        let row = copy_row(&cs[i]);
        proof {
            assert(views::<Fraction>(row@) == frac_views(row@));
            assert(rows[i as int].len() <= max_len());
        }
        let x = match q.from_vector(row) {
            Ok(x) => x,
            Err(e) => {
                proof {
                    lemma_nums_err(q@, rows, (i + 1) as nat, rows.len());
                }
                return Err(e);
            },
        };
        let ghost before = views::<AlgebraicNumber>(v@);
        v.push(x);
        proof {
            assert(views::<AlgebraicNumber>(v@) =~= before.push(x@));
            assert forall|j: int| 0 <= j < v@.len() implies number_wf(#[trigger] v@[j]@) by {
                if j < i {
                    assert(v@[j] == v@.drop_last()[j]);
                }
            }
        }
        i = i + 1;
    }
    proof {
        assert forall|j: int| 0 <= j < views::<AlgebraicNumber>(v@).len() implies #[trigger] AlgebraicNumber::wf_spec(
            views::<AlgebraicNumber>(v@)[j],
        ) by {
            assert(views::<AlgebraicNumber>(v@)[j] == v@[j]@);
        }
    }
    Ok(Polynomial::new(q.copy(), v))
}

proof fn lemma_consts_err(q: FieldV, c: PolyQV, n: nat, n2: nat)
    requires
        n <= n2,
        consts_fold(q, c, n) is Err,
    ensures
        consts_fold(q, c, n2) == consts_fold(q, c, n),
    decreases n2,
{
    if n2 > n {
        lemma_consts_err(q, c, n, (n2 - 1) as nat);
    }
}

/// The one-row, one-entry list `[[c]]`.
fn single(c: &Fraction) -> (r: Vec<Vec<Fraction>>)
    requires
        c@.1 > 0,
    ensures
        frac_rows(r@) == seq![seq![c@]],
        rows_ok(frac_rows(r@)),
        r@.len() == 1,
{
    let mut row: Vec<Fraction> = Vec::new();
    row.push(c.copy());
    let mut out: Vec<Vec<Fraction>> = Vec::new();
    out.push(row);
    proof {
        assert(frac_views(out@[0]@) =~= seq![c@]);
        assert(frac_rows(out@) =~= seq![seq![c@]]);
    }
    out
}

/// `C` with each coefficient a constant of `K[x]`.
fn cpoly(q: &AlgebraicNumberField, c: &PolyQ) -> (r: core::result::Result<CPoly, Error>)
    requires
        ring_field(q@),
        PolyQ::wf_view(c@),
    ensures
        match r {
            Ok(p) => cpoly_spec(q@, c@) == Outcome::Ok(p@) && CPoly::wf_view(p@),
            Err(e) => cpoly_spec(q@, c@) == Outcome::<(FieldV, Seq<KPolyV>, int)>::Err(e.spec_error_kind()),
        },
{
    let mut v: Vec<KPoly> = Vec::new();
    proof {
        assert(views::<KPoly>(v@) =~= Seq::<KPolyV>::empty());
    }
    let mut i: usize = 0;
    while i < c.coeffs.len()
        invariant
            i <= c.coeffs@.len(),
            ring_field(q@),
            PolyQ::wf_view(c@),
            consts_fold(q@, c@, i as nat) == Outcome::Ok(views::<KPoly>(v@)),
            forall|j: int| 0 <= j < v@.len() ==> KPoly::wf_view(#[trigger] v@[j]@),
            v@.len() == i,
        decreases c.coeffs@.len() - i,
    {
        proof {
            assert(c@.1[i as int] == c.coeffs@[i as int]@);
            assert(Fraction::wf_spec(c@.1[i as int]));
        }
        let cs = single(&c.coeffs[i]);
        let x = match kpoly(q, &cs) {
            Ok(x) => x,
            Err(e) => {
                proof {
                    lemma_consts_err(q@, c@, (i + 1) as nat, c@.1.len());
                }
                return Err(e);
            },
        };
        let ghost before = views::<KPoly>(v@);
        v.push(x);
        proof {
            assert(views::<KPoly>(v@) =~= before.push(x@));
            assert forall|j: int| 0 <= j < v@.len() implies KPoly::wf_view(#[trigger] v@[j]@) by {
                if j < i {
                    assert(v@[j] == v@.drop_last()[j]);
                }
            }
        }
        i = i + 1;
    }
    proof {
        assert forall|j: int| 0 <= j < views::<KPoly>(v@).len() implies #[trigger] KPoly::wf_spec(
            views::<KPoly>(v@)[j],
        ) by {
            assert(views::<KPoly>(v@)[j] == v@[j]@);
        }
    }
    Ok(Polynomial::new(Polynomials::new(q.copy()), v))
}

/// The coefficients of `B`, each alone in a row.
fn rows_of(b: &PolyQ) -> (r: Vec<Vec<Fraction>>)
    requires
        PolyQ::wf_view(b@),
    ensures
        frac_rows(r@) == b@.1.map_values(|x: (int, int)| seq![x]),
        rows_ok(frac_rows(r@)),
        r@.len() <= max_len(),
{
    let mut out: Vec<Vec<Fraction>> = Vec::new();
    let mut i: usize = 0;
    while i < b.coeffs.len()
        invariant
            i <= b.coeffs@.len(),
            PolyQ::wf_view(b@),
            frac_rows(out@) == b@.1.take(i as int).map_values(|x: (int, int)| seq![x]),
            rows_ok(frac_rows(out@)),
            out@.len() == i,
        decreases b.coeffs@.len() - i,
    {
        proof {
            assert(b@.1[i as int] == b.coeffs@[i as int]@);
            assert(Fraction::wf_spec(b@.1[i as int]));
        }
        let mut row: Vec<Fraction> = Vec::new();
        row.push(b.coeffs[i].copy());
        let ghost before = frac_rows(out@);
        out.push(row);
        proof {
            assert(frac_views(out@[i as int]@) =~= seq![b@.1[i as int]]);
            assert(frac_rows(out@) =~= before.push(seq![b@.1[i as int]]));
            assert(b@.1.take(i + 1).map_values(|x: (int, int)| seq![x]) =~= b@.1.take(i as int).map_values(
                |x: (int, int)| seq![x],
            ).push(seq![b@.1[i as int]]));
            assert forall|k: int| 0 <= k < frac_rows(out@).len() implies {
                &&& (#[trigger] frac_rows(out@)[k]).len() <= max_len()
                &&& forall|j: int| 0 <= j < frac_rows(out@)[k].len() ==> frac_rows(out@)[k][j].1 > 0
            } by {
                if k < i {
                    assert(frac_rows(out@)[k] == before[k]);
                }
            }
        }
        i = i + 1;
    }
    proof {
        assert(b@.1.take(b@.1.len() as int) =~= b@.1);
    }
    out
}

/// `C(g(θ, y))`.
fn subst(q: &AlgebraicNumberField, c: &PolyQ, g: &Vec<Vec<Fraction>>) -> (r: core::result::Result<KPoly, Error>)
    requires
        ring_field(q@),
        PolyQ::wf_view(c@),
        rows_ok(frac_rows(g@)),
        g@.len() <= max_len(),
    ensures
        match r {
            Ok(p) => subst_spec(q@, c@, frac_rows(g@)) == Outcome::Ok(p@) && KPoly::wf_view(p@),
            Err(e) => subst_spec(q@, c@, frac_rows(g@)) == Outcome::<KPolyV>::Err(e.spec_error_kind()),
        },
{
    proof {
        reveal(subst_spec);
    }
    let cx = cpoly(q, c)?;
    let gm = kpoly(q, g)?;
    cx.eval(&gm)
}

/// The root of `gcd(ba, e)` when that is linear.
#[verifier::spinoff_prover]
#[verifier::rlimit(40)]
fn linear_root(ba: &KPoly, e: &KPoly) -> (r: core::result::Result<Option<AlgebraicNumber>, Error>)
    requires
        KPoly::wf_view(ba@),
        KPoly::wf_view(e@),
    ensures
        match r {
            Ok(o) => linear_root_spec(ba@, e@) == Outcome::Ok(
                match o {
                    Some(x) => Some(x@),
                    None => None,
                },
            ) && (o matches Some(x) ==> number_wf(x@)),
            Err(k) => linear_root_spec(ba@, e@) == Outcome::<Option<NumV>>::Err(k.spec_error_kind()),
        },
{
    proof {
        reveal(linear_root_spec);
    }
    let bf = gcd(ba, e)?;
    if bf.degree == 1 {
        let x = neg_root(&bf)?;
        Ok(Some(x))
    } else {
        Ok(None)
    }
}

/// The root of a linear polynomial over the field.
fn neg_root(bf: &KPoly) -> (r: core::result::Result<AlgebraicNumber, Error>)
    requires
        KPoly::wf_view(bf@),
    ensures
        match r {
            Ok(x) => neg_root_spec(bf@) == Outcome::Ok(x@) && number_wf(x@),
            Err(k) => neg_root_spec(bf@) == Outcome::<NumV>::Err(k.spec_error_kind()),
        },
{
    proof {
        reveal(neg_root_spec);
    }
    let m = bf.monic()?;
    if m.coeffs.len() == 0 {
        return Err(Error::Other("a monic polynomial has a leading coefficient".to_owned()));
    }
    proof {
        assert(m@.1[0] == m.coeffs@[0]@);
        assert(AlgebraicNumber::wf_spec(m@.1[0]));
    }
    Ok(AlgebraicNumber::neg(&m.coeffs[0]))
}

/// Whether a root of `B` lies in the field `q`, found as the root of
/// `gcd(B(y), C(g(θ, y)))` when that is linear.
fn helper(q: &AlgebraicNumberField, b: &PolyQ, c: &PolyQ, g: &Vec<Vec<Fraction>>) -> (r: core::result::Result<
    Option<AlgebraicNumber>,
    Error,
>)
    requires
        ring_field(q@),
        PolyQ::wf_view(b@),
        PolyQ::wf_view(c@),
        rows_ok(frac_rows(g@)),
        g@.len() <= max_len(),
    ensures
        match r {
            Ok(o) => helper_spec(q@, b@, c@, frac_rows(g@)) == Outcome::Ok(
                match o {
                    Some(x) => Some(x@),
                    None => None,
                },
            ) && (o matches Some(x) ==> number_wf(x@)),
            Err(e) => helper_spec(q@, b@, c@, frac_rows(g@)) == Outcome::<Option<NumV>>::Err(e.spec_error_kind()),
        },
{
    let brows = rows_of(b);
    let ba = kpoly(q, &brows)?;
    let e = subst(q, c, g)?;
    linear_root(&ba, &e)
}

/// The number θ of a field: the polynomial `x`, reduced into it.
pub open spec fn generator_spec(f: FieldV) -> Outcome<NumV> {
    number_new_spec(f, poly_of::<Fraction, QQ>((), seq![(0int, 1int), (1int, 1int)]))
}

/// `n / d`, reduced.
pub open spec fn frac_of(n: int, d: int) -> (int, int) {
    match fraction_new_spec(n, d, true) {
        Outcome::Ok(v) => v,
        Outcome::Err(_) => (0, 1),
    }
}

/// The polynomial `a0 + a1·θ + b0·y`, written by its coefficients in `y`.
pub open spec fn pair_rows(a0: (int, int), a1: (int, int), b0: (int, int)) -> Seq<Seq<(int, int)>> {
    seq![seq![a0, a1], seq![b0]]
}

/// The result of `extend`: the common field, α in it and β in it.
pub type ExtV = (FieldV, NumV, NumV);

/// The irreducible factors of a candidate, and the random stream after.
#[verifier::opaque]
pub open spec fn factors_of(c: PolyQV, state: u64) -> (Outcome<Seq<PolyQV>>, u64) {
    factor_spec(c, state)
}

/// With the common field `qg` built, α and β written in it: in ℚ(α) when
/// β lies there, in ℚ(β) when α lies there, and otherwise in ℚ(θ).
#[verifier::opaque]
pub open spec fn pick_spec(qa: FieldV, qb: FieldV, qg: FieldV, a: PolyQV, b: PolyQV, c: PolyQV, k: int) -> Outcome<
    ExtV,
> {
    match helper_spec(qa, b, c, pair_rows((0, 1), (k, 1), (1, 1))) {
        Outcome::Err(e) => Outcome::Err(e),
        Outcome::Ok(Some(bv)) => match generator_spec(qa) {
            Outcome::Err(e) => Outcome::Err(e),
            Outcome::Ok(av) => Outcome::Ok((qa, av, bv)),
        },
        Outcome::Ok(None) => match helper_spec(qb, a, c, pair_rows((0, 1), (1, 1), (k, 1))) {
            Outcome::Err(e) => Outcome::Err(e),
            Outcome::Ok(Some(av)) => match generator_spec(qb) {
                Outcome::Err(e) => Outcome::Err(e),
                Outcome::Ok(bv) => Outcome::Ok((qb, av, bv)),
            },
            Outcome::Ok(None) => match helper_spec(qg, a, b, pair_rows((0, 1), (1, 1), (-k, 1))) {
                Outcome::Err(e) => Outcome::Err(e),
                Outcome::Ok(ao) => match helper_spec(qg, b, a, pair_rows((0, 1), frac_of(1, k), frac_of(-1, k))) {
                    Outcome::Err(e) => Outcome::Err(e),
                    Outcome::Ok(bo) => match (ao, bo) {
                        (Some(x), Some(y)) => Outcome::Ok((qg, x, y)),
                        _ => Outcome::Err(ErrorKind::Other),
                    },
                },
            },
        },
    }
}

/// Once the factors of the candidate are known: isolate the one with
/// `kα + β` as a root, build its field, and write α and β there.
#[verifier::opaque]
pub open spec fn after_factor_spec(qa: FieldV, qb: FieldV, k: int, fs: Seq<PolyQV>) -> Outcome<ExtV> {
    match isolate_spec(qa, qb, k, fs, None, REFINE_TRIES as nat) {
        Outcome::Err(e) => Outcome::Err(e),
        Outcome::Ok(iso) => match iso.4 {
            None => Outcome::Err(ErrorKind::Other),
            Some(c) => if c.2 < 1 || c.2 >= 0x4000_0000 {
                Outcome::Err(ErrorKind::Range)
            } else {
                match field_new_spec(c, iso.2, iso.3) {
                    Outcome::Err(e) => Outcome::Err(e),
                    Outcome::Ok(qg) => pick_spec(iso.0, iso.1, qg, qa.poly, qb.poly, c, k),
                }
            },
        },
    }
}

/// `extend(ℚ(α), ℚ(β))`: ℚ(α, β) as one field, with α and β written in
/// it, and the random stream after it.
pub open spec fn extend_spec(qa: FieldV, qb: FieldV, state: u64) -> (Outcome<ExtV>, u64) {
    if qa.degree < 1 || qb.degree < 1 {
        (Outcome::Err(ErrorKind::Range), state)
    } else {
    match field_equals_spec(qa, qb) {
        Outcome::Err(e) => (Outcome::Err(e), state),
        Outcome::Ok(same) => if same {
            (
                match generator_spec(qa) {
                    Outcome::Err(e) => Outcome::Err(e),
                    Outcome::Ok(x) => match generator_spec(qb) {
                        Outcome::Err(e) => Outcome::Err(e),
                        Outcome::Ok(y) => Outcome::Ok((qa, x, y)),
                    },
                },
                state,
            )
        } else {
            match k_search(qa.poly, qb.poly, 1, K_TRIES as nat) {
                Outcome::Err(e) => (Outcome::Err(e), state),
                Outcome::Ok(kc) => {
                    let fo = factors_of(kc.1, state);
                    (
                        match fo.0 {
                            Outcome::Err(e) => Outcome::Err(e),
                            Outcome::Ok(fs) => after_factor_spec(qa, qb, kc.0, fs),
                        },
                        fo.1,
                    )
                },
            }
        }
    }
    }
}

/// The outcome an `extend` result stands for.
pub open spec fn extend_outcome(r: core::result::Result<(AlgebraicNumberField, AlgebraicNumber, AlgebraicNumber), Error>) -> Outcome<
    ExtV,
> {
    match r {
        Ok(t) => Outcome::Ok((t.0@, t.1@, t.2@)),
        Err(e) => Outcome::Err(e.spec_error_kind()),
    }
}

/// The row list `[[a0, a1], [b0]]`.
fn pair_rows_exec(a0: Fraction, a1: Fraction, b0: Fraction) -> (r: Vec<Vec<Fraction>>)
    requires
        a0@.1 > 0,
        a1@.1 > 0,
        b0@.1 > 0,
    ensures
        frac_rows(r@) == pair_rows(a0@, a1@, b0@),
        rows_ok(frac_rows(r@)),
        r@.len() == 2,
{
    let ghost (x0, x1, y0) = (a0@, a1@, b0@);
    let mut first: Vec<Fraction> = Vec::new();
    first.push(a0);
    first.push(a1);
    let mut second: Vec<Fraction> = Vec::new();
    second.push(b0);
    let mut out: Vec<Vec<Fraction>> = Vec::new();
    out.push(first);
    out.push(second);
    proof {
        assert(frac_views(out@[0]@) =~= seq![x0, x1]);
        assert(frac_views(out@[1]@) =~= seq![y0]);
        assert(frac_rows(out@) =~= pair_rows(x0, x1, y0));
    }
    out
}

/// θ of a field.
fn generator(f: &AlgebraicNumberField) -> (r: core::result::Result<AlgebraicNumber, Error>)
    requires
        crate::exact::field_wf(f@),
    ensures
        match r {
            Ok(x) => generator_spec(f@) == Outcome::Ok(x@) && number_wf(x@),
            Err(e) => generator_spec(f@) == Outcome::<NumV>::Err(e.spec_error_kind()),
        },
{
    let c = [0i64, 1i64];
    proof {
        assert(c@.map_values(|c: i64| (c as int, 1int)) =~= seq![(0int, 1int), (1int, 1int)]);
    }
    f.from_vector_i64(&c)
}

/// With the common field built, write α and β in the right field.
fn pick(
    qa: AlgebraicNumberField,
    qb: AlgebraicNumberField,
    qg: AlgebraicNumberField,
    a: &PolyQ,
    b: &PolyQ,
    c: &PolyQ,
    k: i64,
) -> (r: core::result::Result<(AlgebraicNumberField, AlgebraicNumber, AlgebraicNumber), Error>)
    requires
        ring_field(qa@),
        ring_field(qb@),
        ring_field(qg@),
        PolyQ::wf_view(a@),
        PolyQ::wf_view(b@),
        PolyQ::wf_view(c@),
        k > 0,
    ensures
        extend_outcome(r) == pick_spec(qa@, qb@, qg@, a@, b@, c@, k as int),
        r matches Ok(t) ==> ring_field(t.0@) && number_wf(t.1@) && number_wf(t.2@),
{
    proof {
        reveal(pick_spec);
    }
    let g1 = pair_rows_exec(Fraction::from_int(0), Fraction::from_int(k), Fraction::from_int(1));
    match helper(&qa, b, c, &g1)? {
        Some(bv) => {
            let av = generator(&qa)?;
            return Ok((qa, av, bv));
        },
        None => {},
    }
    let g2 = pair_rows_exec(Fraction::from_int(0), Fraction::from_int(1), Fraction::from_int(k));
    match helper(&qb, a, c, &g2)? {
        Some(av) => {
            let bv = generator(&qb)?;
            return Ok((qb, av, bv));
        },
        None => {},
    }
    let g3 = pair_rows_exec(Fraction::from_int(0), Fraction::from_int(1), Fraction::from_int(-k));
    let ao = helper(&qg, a, b, &g3)?;
    let g4 = pair_rows_exec(Fraction::from_int(0), Fraction::of(1, k), Fraction::of(-1, k));
    let bo = helper(&qg, b, a, &g4)?;
    match (ao, bo) {
        (Some(x), Some(y)) => Ok((qg, x, y)),
        _ => Err(Error::Other("Could not represent alpha and beta (this shouldn't happen)".to_owned())),
    }
}

/// ℚ(α, β) as one field ℚ(θ), with α and β written in it.
///
/// For the same field twice, that field with its generator each time.
/// Otherwise θ = kα + β for the first `k` from one on whose conjugates are
/// distinct; its minimal polynomial is the factor of
/// `Res_x(A(x), B(θ - kx))` with a root in the interval around `kα + β`,
/// narrowed until exactly one factor has one. When β already lies in
/// ℚ(α), that field is kept; when α lies in ℚ(β), that one.
pub fn extend(rng: &mut BitStream, q_alpha: &AlgebraicNumberField, q_beta: &AlgebraicNumberField) -> (r:
    core::result::Result<(AlgebraicNumberField, AlgebraicNumber, AlgebraicNumber), Error>)
    requires
        crate::exact::field_wf(q_alpha@),
        crate::exact::field_wf(q_beta@),
    ensures
        (extend_outcome(r), final(rng).state) == extend_spec(q_alpha@, q_beta@, old(rng).state),
        r matches Ok(t) ==> ring_field(t.0@) && number_wf(t.1@) && number_wf(t.2@),
{
    if q_alpha.degree() < 1 || q_beta.degree() < 1 {
        return Err(Error::Range("a number field needs a polynomial of degree at least one".to_owned()));
    }
    if q_alpha.equals(q_beta)? {
        let x = generator(q_alpha)?;
        let y = generator(q_beta)?;
        return Ok((q_alpha.copy(), x, y));
    }
    proof {
        crate::exact::lemma_field_poly(q_alpha@);
        crate::exact::lemma_field_poly(q_beta@);
    }
    let (k, cm) = search_k(q_alpha.poly(), q_beta.poly())?;
    let fs = factors(rng, &cm)?;
    after_factor(q_alpha, q_beta, k, &fs)
}

/// The factors of a candidate.
fn factors(rng: &mut BitStream, c: &PolyQ) -> (r: core::result::Result<Vec<PolyQ>, Error>)
    requires
        PolyQ::wf_view(c@),
    ensures
        (match r {
            Ok(v) => Outcome::<Seq<PolyQV>>::Ok(poly_views(v@)),
            Err(e) => Outcome::<Seq<PolyQV>>::Err(e.spec_error_kind()),
        }, final(rng).state) == factors_of(c@, old(rng).state),
        r matches Ok(v) ==> forall|i: int| 0 <= i < v@.len() ==> #[trigger] PolyQ::wf_view(v@[i]@),
{
    proof {
        reveal(factors_of);
    }
    match factor(rng, c) {
        Ok(v) => {
            assert(poly_views(v@) == q_views(v@));
            Ok(v)
        },
        Err(e) => Err(e),
    }
}

/// Everything after factoring: isolate the factor, build its field, pick.
fn after_factor(q_alpha: &AlgebraicNumberField, q_beta: &AlgebraicNumberField, k: i64, fs: &Vec<PolyQ>) -> (r:
    core::result::Result<(AlgebraicNumberField, AlgebraicNumber, AlgebraicNumber), Error>)
    requires
        ring_field(q_alpha@),
        ring_field(q_beta@),
        forall|i: int| 0 <= i < fs@.len() ==> #[trigger] PolyQ::wf_view(fs@[i]@),
        k > 0,
    ensures
        extend_outcome(r) == after_factor_spec(q_alpha@, q_beta@, k as int, poly_views(fs@)),
        r matches Ok(t) ==> ring_field(t.0@) && number_wf(t.1@) && number_wf(t.2@),
{
    proof {
        reveal(after_factor_spec);
    }
    proof {
        crate::exact::lemma_field_poly(q_alpha@);
        crate::exact::lemma_field_poly(q_beta@);
    }
    let (qa2, qb2, lo, hi, co) = isolate(q_alpha.copy(), q_beta.copy(), k, fs)?;
    let c = match co {
        Some(c) => c,
        None => {
            return Err(Error::Other("Could not construct C (this shouldn't happen)".to_owned()));
        },
    };
    if c.degree < 1 || c.degree >= 0x4000_0000 {
        return Err(Error::Range("the minimal polynomial of the primitive element is out of range".to_owned()));
    }
    let qg = AlgebraicNumberField::new(c.copy_poly(), lo, hi)?;
    pick(qa2, qb2, qg, q_alpha.poly(), q_beta.poly(), &c, k)
}

/// A number carried into a field `f` where the θ of its own field is `a`:
/// its polynomial in θ, read over `f`, evaluated at `a`.
pub open spec fn remap_spec(x: NumV, f: FieldV, a: NumV) -> Outcome<NumV> {
    match kpoly_spec(f, x.1.1.map_values(|c: (int, int)| seq![c])) {
        Outcome::Err(e) => Outcome::Err(e),
        Outcome::Ok(p) => horner::<AlgebraicNumber>(p.1, a, p.1.len(), Outcome::Ok(field_const(f, 0))),
    }
}

/// The first `j` numbers carried into `f` one after another, stopping at
/// the first failure: the outcome and the numbers as they then stand.
pub open spec fn remap_upto(xs: Seq<NumV>, j: nat, f: FieldV, a: NumV) -> (Outcome<()>, Seq<NumV>)
    decreases j,
{
    if j == 0 {
        (Outcome::Ok(()), xs)
    } else {
        let prev = remap_upto(xs, (j - 1) as nat, f, a);
        match prev.0 {
            Outcome::Err(e) => prev,
            Outcome::Ok(_) => match remap_spec(prev.1[j - 1], f, a) {
                Outcome::Err(e) => (Outcome::Err(e), prev.1),
                Outcome::Ok(y) => (Outcome::Ok(()), prev.1.update(j - 1, y)),
            },
        }
    }
}

/// One step of `promote`: number `i` and the one before it are brought
/// into their common field, the earlier ones carried along when that field
/// is a new one. The outcome, the numbers as they then stand, and the
/// random stream.
#[verifier::opaque]
pub open spec fn promote_step(xs: Seq<NumV>, i: nat, state: u64) -> (Outcome<()>, Seq<NumV>, u64) {
    let (eo, st) = extend_spec(xs[i - 1].0, xs[i as int].0, state);
    match eo {
        Outcome::Err(e) => (Outcome::Err(e), xs, st),
        Outcome::Ok(t) => match field_equals_spec(t.0, xs[i - 1].0) {
            Outcome::Err(e) => (Outcome::Err(e), xs, st),
            Outcome::Ok(same1) => {
                let m = if same1 {
                    (Outcome::Ok(()), xs)
                } else {
                    remap_upto(xs, i, t.0, t.1)
                };
                let ys = m.1;
                match m.0 {
                    Outcome::Err(e) => (Outcome::Err(e), ys, st),
                    Outcome::Ok(_) => match field_equals_spec(t.0, ys[i as int].0) {
                        Outcome::Err(e) => (Outcome::Err(e), ys, st),
                        Outcome::Ok(same2) => if same2 {
                            (Outcome::Ok(()), ys, st)
                        } else {
                            match remap_spec(ys[i as int], t.0, t.2) {
                                Outcome::Err(e) => (Outcome::Err(e), ys, st),
                                Outcome::Ok(y) => (Outcome::Ok(()), ys.update(i as int, y), st),
                            }
                        },
                    },
                }
            },
        },
    }
}

/// Carrying numbers into a field keeps how many there are.
pub proof fn lemma_remap_len(xs: Seq<NumV>, j: nat, f: FieldV, a: NumV)
    requires
        j <= xs.len(),
    ensures
        remap_upto(xs, j, f, a).1.len() == xs.len(),
    decreases j,
{
    if j > 0 {
        lemma_remap_len(xs, (j - 1) as nat, f, a);
    }
}

/// A step of `promote` keeps how many numbers there are.
pub proof fn lemma_step_len(xs: Seq<NumV>, i: nat, state: u64)
    requires
        1 <= i < xs.len(),
    ensures
        promote_step(xs, i, state).1.len() == xs.len(),
{
    reveal(promote_step);
    let (eo, st) = extend_spec(xs[i - 1].0, xs[i as int].0, state);
    if eo is Ok {
        lemma_remap_len(xs, i, eo->Ok_0.0, eo->Ok_0.1);
    }
}

/// `promote` from number `i` on, one step after another, stopping at the
/// first failure.
pub open spec fn promote_from(xs: Seq<NumV>, i: nat, state: u64) -> (Outcome<()>, Seq<NumV>, u64)
    decreases xs.len() - i,
{
    if i == 0 || i >= xs.len() {
        (Outcome::Ok(()), xs, state)
    } else {
        let step = promote_step(xs, i, state);
        match step.0 {
            Outcome::Err(_) => step,
            Outcome::Ok(_) => {
                proof {
                    lemma_step_len(xs, i, state);
                }
                promote_from(step.1, i + 1, step.2)
            },
        }
    }
}

/// Carry a number into `f`, where the θ of its field is `a`.
fn remap(x: &AlgebraicNumber, f: &AlgebraicNumberField, a: &AlgebraicNumber) -> (r: core::result::Result<
    AlgebraicNumber,
    Error,
>)
    requires
        number_wf(x@),
        number_wf(a@),
        ring_field(f@),
    ensures
        match r {
            Ok(y) => remap_spec(x@, f@, a@) == Outcome::Ok(y@) && number_wf(y@),
            Err(e) => remap_spec(x@, f@, a@) == Outcome::<NumV>::Err(e.spec_error_kind()),
        },
{
    let rows = rows_of(&x.poly);
    let p = kpoly(f, &rows)?;
    p.eval(a)
}

/// The views of a list of numbers.
pub open spec fn num_views(v: Seq<AlgebraicNumber>) -> Seq<NumV> {
    v.map_values(|x: AlgebraicNumber| x@)
}

/// Every number of a list is well formed.
pub open spec fn all_numbers_wf(v: Seq<NumV>) -> bool {
    forall|i: int| 0 <= i < v.len() ==> number_wf(#[trigger] v[i])
}

/// Carry the first `i` numbers into `f`.
fn remap_prefix(xs: &mut Vec<AlgebraicNumber>, i: usize, f: &AlgebraicNumberField, a: &AlgebraicNumber) -> (r:
    core::result::Result<(), Error>)
    requires
        i <= old(xs)@.len(),
        all_numbers_wf(num_views(old(xs)@)),
        number_wf(a@),
        ring_field(f@),
    ensures
        (match r {
            Ok(_) => Outcome::<()>::Ok(()),
            Err(e) => Outcome::<()>::Err(e.spec_error_kind()),
        }, num_views(final(xs)@)) == remap_upto(num_views(old(xs)@), i as nat, f@, a@),
        all_numbers_wf(num_views(final(xs)@)),
        final(xs)@.len() == old(xs)@.len(),
{
    let ghost x0 = num_views(xs@);
    let mut j: usize = 0;
    while j < i
        invariant
            j <= i <= xs@.len(),
            xs@.len() == old(xs)@.len(),
            x0 == num_views(old(xs)@),
            all_numbers_wf(num_views(xs@)),
            number_wf(a@),
            ring_field(f@),
            remap_upto(x0, j as nat, f@, a@) == (Outcome::<()>::Ok(()), num_views(xs@)),
        decreases i - j,
    {
        proof {
            assert(num_views(xs@)[j as int] == xs@[j as int]@);
        }
        let y = match remap(&xs[j], f, a) {
            Ok(y) => y,
            Err(e) => {
                proof {
                    lemma_remap_err(x0, (j + 1) as nat, i as nat, f@, a@);
                }
                return Err(e);
            },
        };
        let ghost before = num_views(xs@);
        xs.set(j, y);
        proof {
            assert(num_views(xs@) =~= before.update(j as int, y@));
            assert forall|t: int| 0 <= t < num_views(xs@).len() implies number_wf(#[trigger] num_views(xs@)[t]) by {
                if t != j {
                    assert(num_views(xs@)[t] == before[t]);
                }
            }
        }
        j = j + 1;
    }
    Ok(())
}

proof fn lemma_remap_err(xs: Seq<NumV>, j: nat, j2: nat, f: FieldV, a: NumV)
    requires
        j <= j2,
        remap_upto(xs, j, f, a).0 is Err,
    ensures
        remap_upto(xs, j2, f, a) == remap_upto(xs, j, f, a),
    decreases j2,
{
    if j2 > j {
        lemma_remap_err(xs, j, (j2 - 1) as nat, f, a);
    }
}

/// Step `i` of `promote`.
fn promote_at(rng: &mut BitStream, xs: &mut Vec<AlgebraicNumber>, i: usize) -> (r: core::result::Result<(), Error>)
    requires
        1 <= i < old(xs)@.len(),
        all_numbers_wf(num_views(old(xs)@)),
    ensures
        (match r {
            Ok(_) => Outcome::<()>::Ok(()),
            Err(e) => Outcome::<()>::Err(e.spec_error_kind()),
        }, num_views(final(xs)@), final(rng).state) == promote_step(num_views(old(xs)@), i as nat, old(rng).state),
        all_numbers_wf(num_views(final(xs)@)),
        final(xs)@.len() == old(xs)@.len(),
{
    let ghost v = num_views(xs@);
    proof {
        reveal(promote_step);
        assert(v[i - 1] == xs@[i - 1]@);
        assert(v[i as int] == xs@[i as int]@);
        assert(number_wf(v[i - 1]));
        assert(number_wf(v[i as int]));
    }
    let (k, alpha, beta) = extend(rng, &xs[i - 1].field, &xs[i].field)?;
    let same1 = k.equals(&xs[i - 1].field)?;
    if !same1 {
        remap_prefix(xs, i, &k, &alpha)?;
    }
    proof {
        assert(num_views(xs@)[i as int] == xs@[i as int]@);
        assert(number_wf(num_views(xs@)[i as int]));
    }
    let same2 = k.equals(&xs[i].field)?;
    if !same2 {
        let y = remap(&xs[i], &k, &beta)?;
        let ghost before = num_views(xs@);
        xs.set(i, y);
        proof {
            assert(num_views(xs@) =~= before.update(i as int, y@));
            assert forall|t: int| 0 <= t < num_views(xs@).len() implies number_wf(#[trigger] num_views(xs@)[t]) by {
                if t != i {
                    assert(num_views(xs@)[t] == before[t]);
                }
            }
        }
    }
    Ok(())
}

/// Bring every number of the list into one field: each number and the one
/// before it into their common field, the earlier ones carried along when
/// that field is a new one. Fields compare as `equals` compares them.
pub fn promote(rng: &mut BitStream, xs: &mut Vec<AlgebraicNumber>) -> (r: core::result::Result<(), Error>)
    requires
        all_numbers_wf(num_views(old(xs)@)),
    ensures
        (match r {
            Ok(_) => Outcome::<()>::Ok(()),
            Err(e) => Outcome::<()>::Err(e.spec_error_kind()),
        }, num_views(final(xs)@), final(rng).state) == promote_from(num_views(old(xs)@), 1, old(rng).state),
        all_numbers_wf(num_views(final(xs)@)),
{
    let ghost target = promote_from(num_views(xs@), 1, rng.state);
    let mut i: usize = 1;
    while i < xs.len()
        invariant
            1 <= i,
            all_numbers_wf(num_views(xs@)),
            target == promote_from(num_views(xs@), i as nat, rng.state),
            target == promote_from(num_views(old(xs)@), 1, old(rng).state),
        decreases xs@.len() - i,
    {
        let ghost v = num_views(xs@);
        let ghost old_len = xs@.len();
        let ghost st = rng.state;
        let res = promote_at(rng, xs, i);
        proof {
            assert(v.len() == old_len);
            lemma_step_len(v, i as nat, st);
            assert(promote_from(v, i as nat, st) == match promote_step(v, i as nat, st).0 {
                Outcome::Err(_) => promote_step(v, i as nat, st),
                Outcome::Ok(_) => promote_from(promote_step(v, i as nat, st).1, i as nat + 1, promote_step(v, i as nat, st).2),
            });
        }
        match res {
            Ok(_) => {},
            Err(e) => {
                return Err(e);
            },
        }
        i = i + 1;
    }
    Ok(())
}

/// Extending a field by a field that `equals` it draws no random bits and
/// keeps the first field: α comes back as the generator θ of ℚ(α) and β as
/// the generator of ℚ(β), each the root of its own polynomial in its own
/// interval. Extending a field by itself gives α and β as one and the same
/// number.
pub proof fn lemma_extend_same_field(qa: FieldV, qb: FieldV, state: u64)
    requires
        crate::exact::field_wf(qa),
        crate::exact::field_wf(qb),
        qa.degree >= 1,
        qb.degree >= 1,
        field_equals_spec(qa, qb) == Outcome::Ok(true),
    ensures
        extend_spec(qa, qb, state).1 == state,
        generator_spec(qa) is Ok && generator_spec(qb) is Ok ==> extend_spec(qa, qb, state).0 == Outcome::Ok(
            (qa, generator_spec(qa)->Ok_0, generator_spec(qb)->Ok_0),
        ),
        extend_spec(qa, qb, state).0 matches Outcome::Ok(t) ==> (t.0 == qa && t.1.0 == qa && t.2.0 == qb),
        qa == qb ==> (extend_spec(qa, qb, state).0 matches Outcome::Ok(t) ==> t.1 == t.2),
        qa.degree >= 2 && qb.degree >= 2 ==> extend_spec(qa, qb, state).0 == Outcome::Ok(
            (qa, (qa, theta_poly()), (qb, theta_poly())),
        ),
{
    crate::exact::lemma_field_poly(qa);
    crate::exact::lemma_field_poly(qb);
    if qa.degree >= 2 && qb.degree >= 2 {
        lemma_generator_is_x(qa);
        lemma_generator_is_x(qb);
    }
}

/// The polynomial `x`, which stands for θ.
pub open spec fn theta_poly() -> PolyQV {
    poly_of::<Fraction, QQ>((), seq![(0int, 1int), (1int, 1int)])
}

/// In a field of degree two or more, θ is written as the polynomial `x`
/// itself.
pub proof fn lemma_generator_is_x(f: FieldV)
    requires
        f.degree >= 2,
        f.degree == f.poly.2,
    ensures
        generator_spec(f) == Outcome::Ok((f, theta_poly())),
{
    let s = seq![(0int, 1int), (1int, 1int)];
    assert(s.drop_last().len() == 1);
    assert(!<Fraction as Elem>::is_zero_spec(s.last()));
    assert(crate::num::polynomial::trim_spec::<Fraction>(s) == s);
    assert(theta_poly() == ((), s, 1int));
    let fd = crate::num::polynomial::sdiv_fn::<Fraction>((1int, 1int));
    reveal_with_fuel(crate::num::polynomial::map_loop, 3);
    assert(fd((0int, 1int)) == Outcome::Ok((0int, 1int)));
    assert(fd((1int, 1int)) == Outcome::Ok((1int, 1int)));
    assert(s.update(0, (0int, 1int)) =~= s);
    assert(s.update(1, (1int, 1int)) =~= s);
    assert(crate::num::polynomial::map_loop::<Fraction>(s, fd, 0) == Outcome::Ok(s));
    assert(crate::num::polynomial::map_loop::<Fraction>(s, fd, 1) == Outcome::Ok(s));
    assert(crate::num::polynomial::map_loop::<Fraction>(s, fd, 2) == Outcome::Ok(s));
}

} // verus!
