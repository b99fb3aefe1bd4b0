//! Univariate polynomials over an arbitrary ring.
//!
//! `coeffs[i]` is the coefficient on `x^i`, and `degree == coeffs.len() - 1`
//! always holds because the constructor trims trailing zeros. Every operation
//! is specified on views: the ring's view, the coefficients' views, and the
//! degree.

use core::cmp::Ordering;

use vstd::prelude::*;

use super::integers::Int;
use super::fraction::{Fraction, QQ};
use super::integers::{ordering_of, sign_of};
use super::ring::{
    matches_outcome, matches_update, power, power_spec, Elem, Euclidean, Integer, Outcome, RingOps, ZZ,
};
use crate::error::{Error, ErrorKind};

verus! {

/// A polynomial with coefficients in the ring `R` hands out.
pub struct Polynomial<E: Elem, R: RingOps<E>> {
    pub coeff_ring: R,
    pub coeffs: Vec<E>,
    pub degree: isize,
}

impl<E: Elem, R: RingOps<E>> View for Polynomial<E, R> {
    type V = (R::V, Seq<E::V>, int);

    open spec fn view(&self) -> (R::V, Seq<E::V>, int) {
        (self.coeff_ring@, views::<E>(self.coeffs@), self.degree as int)
    }
}

/// The views of a sequence of elements.
pub open spec fn views<E: Elem>(v: Seq<E>) -> Seq<E::V> {
    v.map_values(|c: E| c@)
}

/// Drop trailing zero coefficients.
pub open spec fn trim_spec<E: Elem>(s: Seq<E::V>) -> Seq<E::V>
    decreases s.len(),
{
    if s.len() > 0 && E::is_zero_spec(s.last()) {
        trim_spec::<E>(s.drop_last())
    } else {
        s
    }
}

/// Every coefficient is well formed.
pub open spec fn all_wf<E: Elem>(s: Seq<E::V>) -> bool {
    forall|i: int| 0 <= i < s.len() ==> #[trigger] E::wf_spec(s[i])
}

/// No trailing zero coefficient.
pub open spec fn trimmed<E: Elem>(s: Seq<E::V>) -> bool {
    s.len() == 0 || !E::is_zero_spec(s.last())
}

/// The polynomial view of a ring and a coefficient sequence, trimmed.
pub open spec fn poly_of<E: Elem, R: RingOps<E>>(r: R::V, s: Seq<E::V>) -> (R::V, Seq<E::V>, int) {
    (r, trim_spec::<E>(s), trim_spec::<E>(s).len() - 1)
}

/// The most coefficients a polynomial holds: more cannot be allocated.
pub open spec fn max_len() -> int {
    isize::MAX as int / 2
}

/// Trimming keeps a prefix, keeps well-formedness, and is trimmed.
pub proof fn lemma_trim<E: Elem>(s: Seq<E::V>)
    ensures
        trim_spec::<E>(s).len() <= s.len(),
        trim_spec::<E>(s) == s.take(trim_spec::<E>(s).len() as int),
        trimmed::<E>(trim_spec::<E>(s)),
        all_wf::<E>(s) ==> all_wf::<E>(trim_spec::<E>(s)),
        trimmed::<E>(s) ==> trim_spec::<E>(s) == s,
    decreases s.len(),
{
    if s.len() > 0 && E::is_zero_spec(s.last()) {
        lemma_trim::<E>(s.drop_last());
        assert(trim_spec::<E>(s) =~= s.take(trim_spec::<E>(s).len() as int));
    } else {
        assert(s.take(s.len() as int) =~= s);
    }
}

/// Coefficient-wise combination with `op`, extending with `ext` past the
/// end of `a`: the first `n` steps of the in-place loop.
pub open spec fn zip_loop<E: Elem>(
    a: Seq<E::V>,
    b: Seq<E::V>,
    n: nat,
    op: spec_fn(E::V, E::V) -> Outcome<E::V>,
    ext: spec_fn(E::V) -> E::V,
) -> Outcome<Seq<E::V>>
    decreases n,
{
    if n == 0 {
        Outcome::<Seq<E::V>>::Ok(a)
    } else {
        match zip_loop::<E>(a, b, (n - 1) as nat, op, ext) {
            Outcome::<Seq<E::V>>::Err(k) => Outcome::<Seq<E::V>>::Err(k),
            Outcome::<Seq<E::V>>::Ok(c) => if n - 1 < a.len() {
                match op(c[n - 1], b[n - 1]) {
                    Outcome::<E::V>::Ok(x) => Outcome::<Seq<E::V>>::Ok(c.update(n - 1, x)),
                    Outcome::<E::V>::Err(k) => Outcome::<Seq<E::V>>::Err(k),
                }
            } else {
                Outcome::<Seq<E::V>>::Ok(c.push(ext(b[n - 1])))
            },
        }
    }
}

/// The trimmed polynomial from a loop's outcome.
pub open spec fn finish<E: Elem, R: RingOps<E>>(
    r: R::V,
    o: Outcome<Seq<E::V>>,
) -> Outcome<(R::V, Seq<E::V>, int)> {
    match o {
        Outcome::<Seq<E::V>>::Ok(c) => Outcome::<(R::V, Seq<E::V>, int)>::Ok(poly_of::<E, R>(r, c)),
        Outcome::<Seq<E::V>>::Err(k) => Outcome::<(R::V, Seq<E::V>, int)>::Err(k),
    }
}

/// The shape of `zip_loop`'s result: length, untouched tail, well-formedness.
proof fn lemma_zip_loop<E: Elem>(
    a: Seq<E::V>,
    b: Seq<E::V>,
    n: nat,
    op: spec_fn(E::V, E::V) -> Outcome<E::V>,
    ext: spec_fn(E::V) -> E::V,
)
    requires
        n <= b.len(),
    ensures
        zip_loop::<E>(a, b, n, op, ext) matches Outcome::<Seq<E::V>>::Ok(c) ==> {
            &&& c.len() == if n <= a.len() {
                a.len() as int
            } else {
                n as int
            }
            &&& forall|i: int| n <= i < a.len() ==> c[i] == a[i]
        },
    decreases n,
{
    if n > 0 {
        lemma_zip_loop::<E>(a, b, (n - 1) as nat, op, ext);
    }
}


/// The first `j` steps of mapping a fallible `f` over `s` in place.
pub open spec fn map_loop<E: Elem>(s: Seq<E::V>, f: spec_fn(E::V) -> Outcome<E::V>, j: nat) -> Outcome<
    Seq<E::V>,
>
    decreases j,
{
    if j == 0 {
        Outcome::<Seq<E::V>>::Ok(s)
    } else {
        match map_loop::<E>(s, f, (j - 1) as nat) {
            Outcome::<Seq<E::V>>::Err(k) => Outcome::<Seq<E::V>>::Err(k),
            Outcome::<Seq<E::V>>::Ok(d) => match f(d[j - 1]) {
                Outcome::<E::V>::Ok(x) => Outcome::<Seq<E::V>>::Ok(d.update(j - 1, x)),
                Outcome::<E::V>::Err(k) => Outcome::<Seq<E::V>>::Err(k),
            },
        }
    }
}

pub proof fn lemma_map_loop<E: Elem>(s: Seq<E::V>, f: spec_fn(E::V) -> Outcome<E::V>, j: nat)
    requires
        j <= s.len(),
    ensures
        map_loop::<E>(s, f, j) matches Outcome::<Seq<E::V>>::Ok(d) ==> {
            &&& d.len() == s.len()
            &&& forall|i: int| j <= i < s.len() ==> d[i] == s[i]
        },
    decreases j,
{
    if j > 0 {
        lemma_map_loop::<E>(s, f, (j - 1) as nat);
    }
}

pub proof fn lemma_map_loop_err<E: Elem>(s: Seq<E::V>, f: spec_fn(E::V) -> Outcome<E::V>, j: nat, j2: nat)
    requires
        j <= j2,
        map_loop::<E>(s, f, j) is Err,
    ensures
        map_loop::<E>(s, f, j2) == map_loop::<E>(s, f, j),
    decreases j2,
{
    if j2 > j {
        lemma_map_loop_err::<E>(s, f, j, (j2 - 1) as nat);
    }
}

proof fn lemma_zip_loop_err<E: Elem>(
    a: Seq<E::V>,
    b: Seq<E::V>,
    j: nat,
    j2: nat,
    op: spec_fn(E::V, E::V) -> Outcome<E::V>,
    ext: spec_fn(E::V) -> E::V,
)
    requires
        j <= j2,
        zip_loop::<E>(a, b, j, op, ext) is Err,
    ensures
        zip_loop::<E>(a, b, j2, op, ext) == zip_loop::<E>(a, b, j, op, ext),
    decreases j2,
{
    if j2 > j {
        lemma_zip_loop_err::<E>(a, b, j, (j2 - 1) as nat, op, ext);
    }
}

/// Multiply by a scalar, coefficient by coefficient.
pub open spec fn smul_fn<E: Elem>(y: E::V) -> spec_fn(E::V) -> Outcome<E::V> {
    |c: E::V| E::mul_spec(c, y)
}

/// Divide by a scalar, coefficient by coefficient.
pub open spec fn sdiv_fn<E: Elem>(y: E::V) -> spec_fn(E::V) -> Outcome<E::V> {
    |c: E::V| E::div_spec(c, y)
}

/// Coefficient-wise addition.
pub open spec fn add_op<E: Elem>() -> spec_fn(E::V, E::V) -> Outcome<E::V> {
    |x: E::V, y: E::V| E::add_spec(x, y)
}

/// Coefficient-wise subtraction.
pub open spec fn sub_op<E: Elem>() -> spec_fn(E::V, E::V) -> Outcome<E::V> {
    |x: E::V, y: E::V| E::sub_spec(x, y)
}

/// A coefficient of `b` past the end of `a`, taken as it is.
pub open spec fn keep_ext<E: Elem>() -> spec_fn(E::V) -> E::V {
    |y: E::V| y
}

/// A coefficient of `b` past the end of `a`, negated.
pub open spec fn neg_ext<E: Elem>() -> spec_fn(E::V) -> E::V {
    |y: E::V| E::neg_spec(y)
}

/// Every coefficient negated.
pub open spec fn neg_all<E: Elem>(s: Seq<E::V>) -> Seq<E::V> {
    s.map_values(|c: E::V| E::neg_spec(c))
}

/// Polynomial addition (`sub == false`) or subtraction (`sub == true`).
pub open spec fn poly_zip_spec<E: Elem, R: RingOps<E>>(
    a: (R::V, Seq<E::V>, int),
    b: (R::V, Seq<E::V>, int),
    sub: bool,
) -> Outcome<(R::V, Seq<E::V>, int)> {
    if sub {
        finish::<E, R>(a.0, zip_loop::<E>(a.1, b.1, b.1.len(), sub_op::<E>(), neg_ext::<E>()))
    } else {
        finish::<E, R>(a.0, zip_loop::<E>(a.1, b.1, b.1.len(), add_op::<E>(), keep_ext::<E>()))
    }
}

/// Apply a coefficient map to a polynomial view, then trim.
pub open spec fn map_poly<E: Elem, R: RingOps<E>>(
    a: (R::V, Seq<E::V>, int),
    f: spec_fn(E::V) -> Outcome<E::V>,
) -> Outcome<(R::V, Seq<E::V>, int)> {
    finish::<E, R>(a.0, map_loop::<E>(a.1, f, a.1.len()))
}

/// The running sum `acc + a[i] * b[k - i]` for `i` in `lo..hi`.
pub open spec fn conv_acc<E: Elem>(
    a: Seq<E::V>,
    b: Seq<E::V>,
    k: int,
    lo: int,
    hi: int,
    acc: Outcome<E::V>,
) -> Outcome<E::V>
    decreases hi - lo,
{
    if lo >= hi {
        acc
    } else {
        match acc {
            Outcome::<E::V>::Err(e) => Outcome::<E::V>::Err(e),
            Outcome::<E::V>::Ok(x) => match E::mul_spec(a[lo], b[k - lo]) {
                Outcome::<E::V>::Err(e) => Outcome::<E::V>::Err(e),
                Outcome::<E::V>::Ok(t) => conv_acc::<E>(a, b, k, lo + 1, hi, E::add_spec(x, t)),
            },
        }
    }
}

/// Coefficient `k` of the product, summed from the ring's zero.
pub open spec fn conv_coeff<E: Elem>(a: Seq<E::V>, b: Seq<E::V>, k: int, zero: E::V) -> Outcome<E::V> {
    let m = a.len() - 1;
    let n = b.len() - 1;
    let lo = if k - n > 0 {
        k - n
    } else {
        0
    };
    let hi = if k < m {
        k
    } else {
        m
    };
    conv_acc::<E>(a, b, k, lo, hi + 1, Outcome::<E::V>::Ok(zero))
}

/// The first `count` coefficients of the product.
pub open spec fn conv_loop<E: Elem>(a: Seq<E::V>, b: Seq<E::V>, count: nat, zero: E::V) -> Outcome<
    Seq<E::V>,
>
    decreases count,
{
    if count == 0 {
        Outcome::<Seq<E::V>>::Ok(seq![])
    } else {
        match conv_loop::<E>(a, b, (count - 1) as nat, zero) {
            Outcome::<Seq<E::V>>::Err(e) => Outcome::<Seq<E::V>>::Err(e),
            Outcome::<Seq<E::V>>::Ok(s) => match conv_coeff::<E>(a, b, count - 1, zero) {
                Outcome::<E::V>::Ok(c) => Outcome::<Seq<E::V>>::Ok(s.push(c)),
                Outcome::<E::V>::Err(e) => Outcome::<Seq<E::V>>::Err(e),
            },
        }
    }
}

proof fn lemma_conv_loop<E: Elem>(a: Seq<E::V>, b: Seq<E::V>, count: nat, zero: E::V)
    ensures
        conv_loop::<E>(a, b, count, zero) matches Outcome::<Seq<E::V>>::Ok(s) ==> s.len() == count,
    decreases count,
{
    if count > 0 {
        lemma_conv_loop::<E>(a, b, (count - 1) as nat, zero);
    }
}

proof fn lemma_conv_loop_err<E: Elem>(a: Seq<E::V>, b: Seq<E::V>, j: nat, j2: nat, zero: E::V)
    requires
        j <= j2,
        conv_loop::<E>(a, b, j, zero) is Err,
    ensures
        conv_loop::<E>(a, b, j2, zero) == conv_loop::<E>(a, b, j, zero),
    decreases j2,
{
    if j2 > j {
        lemma_conv_loop_err::<E>(a, b, j, (j2 - 1) as nat, zero);
    }
}

proof fn lemma_conv_acc_err<E: Elem>(
    a: Seq<E::V>,
    b: Seq<E::V>,
    k: int,
    lo: int,
    hi: int,
    e: ErrorKind,
)
    ensures
        conv_acc::<E>(a, b, k, lo, hi, Outcome::<E::V>::Err(e)) == Outcome::<E::V>::Err(e),
    decreases hi - lo,
{
}

/// The product's coefficients: `m + n + 1` of them, unless that many could
/// not be allocated.
pub open spec fn poly_mul_spec<E: Elem, R: RingOps<E>>(
    a: (R::V, Seq<E::V>, int),
    b: (R::V, Seq<E::V>, int),
) -> Outcome<(R::V, Seq<E::V>, int)> {
    let count = a.2 + b.2 + 1;
    if count > max_len() {
        Outcome::<(R::V, Seq<E::V>, int)>::Err(ErrorKind::Range)
    } else {
        finish::<E, R>(
            a.0,
            conv_loop::<E>(
                a.1,
                b.1,
                if count > 0 {
                    count as nat
                } else {
                    0
                },
                R::zero_spec(a.0),
            ),
        )
    }
}


/// Scale every coefficient but the `k`-th by `bn`: the first `j` steps.
pub open spec fn scale_loop<E: Elem>(c: Seq<E::V>, bn: E::V, k: int, j: nat) -> Outcome<Seq<E::V>>
    decreases j,
{
    if j == 0 {
        Outcome::<Seq<E::V>>::Ok(c)
    } else {
        match scale_loop::<E>(c, bn, k, (j - 1) as nat) {
            Outcome::<Seq<E::V>>::Err(e) => Outcome::<Seq<E::V>>::Err(e),
            Outcome::<Seq<E::V>>::Ok(d) => if j - 1 == k {
                Outcome::<Seq<E::V>>::Ok(d)
            } else {
                match E::mul_spec(d[j - 1], bn) {
                    Outcome::<E::V>::Ok(x) => Outcome::<Seq<E::V>>::Ok(d.update(j - 1, x)),
                    Outcome::<E::V>::Err(e) => Outcome::<Seq<E::V>>::Err(e),
                }
            },
        }
    }
}

/// Subtract `c[k] * b[i]` from `c[k - n + i]`: the first `j` steps.
pub open spec fn sub_loop<E: Elem>(c: Seq<E::V>, b: Seq<E::V>, k: int, n: int, j: nat) -> Outcome<
    Seq<E::V>,
>
    decreases j,
{
    if j == 0 {
        Outcome::<Seq<E::V>>::Ok(c)
    } else {
        match sub_loop::<E>(c, b, k, n, (j - 1) as nat) {
            Outcome::<Seq<E::V>>::Err(e) => Outcome::<Seq<E::V>>::Err(e),
            Outcome::<Seq<E::V>>::Ok(d) => match E::mul_spec(d[k], b[j - 1]) {
                Outcome::<E::V>::Err(e) => Outcome::<Seq<E::V>>::Err(e),
                Outcome::<E::V>::Ok(t) => match E::sub_spec(d[k - n + j - 1], t) {
                    Outcome::<E::V>::Ok(x) => Outcome::<Seq<E::V>>::Ok(d.update(k - n + j - 1, x)),
                    Outcome::<E::V>::Err(e) => Outcome::<Seq<E::V>>::Err(e),
                },
            },
        }
    }
}

/// The pseudo-division loop from step `k` down to `n`: the multiplier and
/// the coefficients at the end.
pub open spec fn pd_loop<E: Elem>(
    c: Seq<E::V>,
    p: E::V,
    b: Seq<E::V>,
    bn: E::V,
    m: int,
    n: int,
    k: int,
) -> Outcome<(E::V, Seq<E::V>)>
    decreases k - n + 1,
{
    if k < n {
        Outcome::<(E::V, Seq<E::V>)>::Ok((p, c))
    } else {
        match scale_loop::<E>(c, bn, k, (m + 1) as nat) {
            Outcome::<Seq<E::V>>::Err(e) => Outcome::<(E::V, Seq<E::V>)>::Err(e),
            Outcome::<Seq<E::V>>::Ok(c1) => match E::mul_spec(p, bn) {
                Outcome::<E::V>::Err(e) => Outcome::<(E::V, Seq<E::V>)>::Err(e),
                Outcome::<E::V>::Ok(p1) => match sub_loop::<E>(c1, b, k, n, n as nat) {
                    Outcome::<Seq<E::V>>::Err(e) => Outcome::<(E::V, Seq<E::V>)>::Err(e),
                    Outcome::<Seq<E::V>>::Ok(c2) => pd_loop::<E>(c2, p1, b, bn, m, n, k - 1),
                },
            },
        }
    }
}

proof fn lemma_scale_loop<E: Elem>(c: Seq<E::V>, bn: E::V, k: int, j: nat)
    requires
        j <= c.len(),
    ensures
        scale_loop::<E>(c, bn, k, j) matches Outcome::<Seq<E::V>>::Ok(d) ==> d.len() == c.len()
            && forall|i: int| 0 <= i < c.len() && (j <= i || i == k) ==> d[i] == c[i],
    decreases j,
{
    if j > 0 {
        lemma_scale_loop::<E>(c, bn, k, (j - 1) as nat);
    }
}

proof fn lemma_scale_loop_err<E: Elem>(c: Seq<E::V>, bn: E::V, k: int, j: nat, j2: nat)
    requires
        j <= j2,
        scale_loop::<E>(c, bn, k, j) is Err,
    ensures
        scale_loop::<E>(c, bn, k, j2) == scale_loop::<E>(c, bn, k, j),
    decreases j2,
{
    if j2 > j {
        lemma_scale_loop_err::<E>(c, bn, k, j, (j2 - 1) as nat);
    }
}

proof fn lemma_sub_loop<E: Elem>(c: Seq<E::V>, b: Seq<E::V>, k: int, n: int, j: nat)
    requires
        0 <= n <= k < c.len(),
        j <= n,
    ensures
        sub_loop::<E>(c, b, k, n, j) matches Outcome::<Seq<E::V>>::Ok(d) ==> d.len() == c.len()
            && d[k] == c[k],
    decreases j,
{
    if j > 0 {
        lemma_sub_loop::<E>(c, b, k, n, (j - 1) as nat);
    }
}

proof fn lemma_sub_loop_err<E: Elem>(c: Seq<E::V>, b: Seq<E::V>, k: int, n: int, j: nat, j2: nat)
    requires
        j <= j2,
        sub_loop::<E>(c, b, k, n, j) is Err,
    ensures
        sub_loop::<E>(c, b, k, n, j2) == sub_loop::<E>(c, b, k, n, j),
    decreases j2,
{
    if j2 > j {
        lemma_sub_loop_err::<E>(c, b, k, n, j, (j2 - 1) as nat);
    }
}

/// Extract quotient and remainder coefficients after the loop.
pub open spec fn pd_split<E: Elem, R: RingOps<E>>(r: R::V, c: Seq<E::V>, m: int, n: int) -> (
    (R::V, Seq<E::V>, int),
    (R::V, Seq<E::V>, int),
) {
    let lo = if n < c.len() {
        n
    } else {
        c.len() as int
    };
    let top = if m + 1 > 0 {
        m + 1
    } else {
        0
    };
    let hi = if top < c.len() {
        top
    } else {
        c.len() as int
    };
    let q = if lo <= hi {
        c.subrange(lo, hi)
    } else {
        seq![]
    };
    (poly_of::<E, R>(r, q), poly_of::<E, R>(r, c.take(lo)))
}

/// `pseudo_divmod(b)`: `(p, q, r)` with `p * a == q * b + r`.
pub open spec fn pseudo_divmod_spec<E: Elem, R: RingOps<E>>(
    a: (R::V, Seq<E::V>, int),
    b: (R::V, Seq<E::V>, int),
) -> Outcome<(E::V, (R::V, Seq<E::V>, int), (R::V, Seq<E::V>, int))> {
    if b.2 == -1 {
        Outcome::<(E::V, (R::V, Seq<E::V>, int), (R::V, Seq<E::V>, int))>::Err(ErrorKind::Division)
    } else {
        match pd_loop::<E>(a.1, R::one_spec(a.0), b.1, b.1[b.2], a.2, b.2, a.2) {
            Outcome::<(E::V, Seq<E::V>)>::Err(e) => Outcome::<
                (E::V, (R::V, Seq<E::V>, int), (R::V, Seq<E::V>, int)),
            >::Err(e),
            Outcome::<(E::V, Seq<E::V>)>::Ok((p, c)) => {
                let (q, r) = pd_split::<E, R>(a.0, c, a.2, b.2);
                Outcome::<(E::V, (R::V, Seq<E::V>, int), (R::V, Seq<E::V>, int))>::Ok((p, q, r))
            },
        }
    }
}

/// Euclidean division: the quotient and remainder.
pub open spec fn divmod_spec<E: Elem, R: RingOps<E>>(
    a: (R::V, Seq<E::V>, int),
    b: (R::V, Seq<E::V>, int),
) -> Outcome<((R::V, Seq<E::V>, int), (R::V, Seq<E::V>, int))> {
    if b.2 == -1 {
        Outcome::<((R::V, Seq<E::V>, int), (R::V, Seq<E::V>, int))>::Err(ErrorKind::Division)
    } else if a.2 < b.2 {
        match map_poly::<E, R>(a, sdiv_fn::<E>(R::one_spec(a.0))) {
            Outcome::<(R::V, Seq<E::V>, int)>::Ok(r) => Outcome::<
                ((R::V, Seq<E::V>, int), (R::V, Seq<E::V>, int)),
            >::Ok(((a.0, seq![], -1), r)),
            Outcome::<(R::V, Seq<E::V>, int)>::Err(e) => Outcome::<
                ((R::V, Seq<E::V>, int), (R::V, Seq<E::V>, int)),
            >::Err(e),
        }
    } else {
        match pseudo_divmod_spec::<E, R>(a, b) {
            Outcome::<(E::V, (R::V, Seq<E::V>, int), (R::V, Seq<E::V>, int))>::Err(e) => Outcome::<
                ((R::V, Seq<E::V>, int), (R::V, Seq<E::V>, int)),
            >::Err(e),
            Outcome::<(E::V, (R::V, Seq<E::V>, int), (R::V, Seq<E::V>, int))>::Ok((p, q, r)) => {
                match map_poly::<E, R>(q, sdiv_fn::<E>(p)) {
                    Outcome::<(R::V, Seq<E::V>, int)>::Err(e) => Outcome::<
                        ((R::V, Seq<E::V>, int), (R::V, Seq<E::V>, int)),
                    >::Err(e),
                    Outcome::<(R::V, Seq<E::V>, int)>::Ok(q2) => match map_poly::<E, R>(
                        r,
                        sdiv_fn::<E>(p),
                    ) {
                        Outcome::<(R::V, Seq<E::V>, int)>::Err(e) => Outcome::<
                            ((R::V, Seq<E::V>, int), (R::V, Seq<E::V>, int)),
                        >::Err(e),
                        Outcome::<(R::V, Seq<E::V>, int)>::Ok(r2) => Outcome::<
                            ((R::V, Seq<E::V>, int), (R::V, Seq<E::V>, int)),
                        >::Ok((q2, r2)),
                    },
                }
            },
        }
    }
}

/// Field division of polynomials: by a constant coefficient-wise, otherwise
/// by Euclidean division that must leave no remainder.
pub open spec fn poly_div_spec<E: Elem, R: RingOps<E>>(
    a: (R::V, Seq<E::V>, int),
    b: (R::V, Seq<E::V>, int),
) -> Outcome<(R::V, Seq<E::V>, int)> {
    if b.2 == 0 {
        map_poly::<E, R>(a, sdiv_fn::<E>(b.1[0]))
    } else {
        match divmod_spec::<E, R>(a, b) {
            Outcome::<((R::V, Seq<E::V>, int), (R::V, Seq<E::V>, int))>::Err(e) => Outcome::<
                (R::V, Seq<E::V>, int),
            >::Err(e),
            Outcome::<((R::V, Seq<E::V>, int), (R::V, Seq<E::V>, int))>::Ok((q, r)) => if r.2 > -1 {
                Outcome::<(R::V, Seq<E::V>, int)>::Err(ErrorKind::Division)
            } else {
                Outcome::<(R::V, Seq<E::V>, int)>::Ok(q)
            },
        }
    }
}


/// The polynomial over its leading coefficient; the zero polynomial has
/// none.
pub open spec fn monic_spec<E: Elem, R: RingOps<E>>(a: (R::V, Seq<E::V>, int)) -> Outcome<
    (R::V, Seq<E::V>, int),
> {
    if a.2 < 0 {
        Outcome::<(R::V, Seq<E::V>, int)>::Err(ErrorKind::Range)
    } else {
        map_poly::<E, R>(a, sdiv_fn::<E>(a.1.last()))
    }
}

/// Horner's rule over the top `j` coefficients, from `acc`.
pub open spec fn horner<E: Elem>(s: Seq<E::V>, x: E::V, j: nat, acc: Outcome<E::V>) -> Outcome<E::V>
    decreases j,
{
    if j == 0 {
        acc
    } else {
        match acc {
            Outcome::<E::V>::Err(e) => Outcome::<E::V>::Err(e),
            Outcome::<E::V>::Ok(v) => match E::mul_spec(v, x) {
                Outcome::<E::V>::Err(e) => Outcome::<E::V>::Err(e),
                Outcome::<E::V>::Ok(w) => horner::<E>(s, x, (j - 1) as nat, E::add_spec(w, s[j - 1])),
            },
        }
    }
}

proof fn lemma_horner_err<E: Elem>(s: Seq<E::V>, x: E::V, j: nat, e: ErrorKind)
    ensures
        horner::<E>(s, x, j, Outcome::<E::V>::Err(e)) == Outcome::<E::V>::Err(e),
    decreases j,
{
}

/// The derivative's first `j` coefficients: `(i + 1) * a[i + 1]`.
pub open spec fn deriv_loop<E: Elem, R: RingOps<E>>(r: R::V, a: Seq<E::V>, j: nat) -> Outcome<
    Seq<E::V>,
>
    decreases j,
{
    if j == 0 {
        Outcome::<Seq<E::V>>::Ok(seq![])
    } else {
        match deriv_loop::<E, R>(r, a, (j - 1) as nat) {
            Outcome::<Seq<E::V>>::Err(e) => Outcome::<Seq<E::V>>::Err(e),
            Outcome::<Seq<E::V>>::Ok(d) => match E::mul_spec(R::from_int_spec(r, j as int), a[j as int]) {
                Outcome::<E::V>::Ok(t) => Outcome::<Seq<E::V>>::Ok(d.push(t)),
                Outcome::<E::V>::Err(e) => Outcome::<Seq<E::V>>::Err(e),
            },
        }
    }
}

proof fn lemma_deriv_loop<E: Elem, R: RingOps<E>>(r: R::V, a: Seq<E::V>, j: nat)
    ensures
        deriv_loop::<E, R>(r, a, j) matches Outcome::<Seq<E::V>>::Ok(d) ==> d.len() == j,
    decreases j,
{
    if j > 0 {
        lemma_deriv_loop::<E, R>(r, a, (j - 1) as nat);
    }
}

proof fn lemma_deriv_loop_err<E: Elem, R: RingOps<E>>(r: R::V, a: Seq<E::V>, j: nat, j2: nat)
    requires
        j <= j2,
        deriv_loop::<E, R>(r, a, j) is Err,
    ensures
        deriv_loop::<E, R>(r, a, j2) == deriv_loop::<E, R>(r, a, j),
    decreases j2,
{
    if j2 > j {
        lemma_deriv_loop_err::<E, R>(r, a, j, (j2 - 1) as nat);
    }
}

impl<E: Elem, R: RingOps<E>> Polynomial<E, R> {
    /// Well-formed views: a well-formed ring, well-formed coefficients, no
    /// trailing zero, and the degree one less than the length.
    pub open spec fn wf_view(v: (R::V, Seq<E::V>, int)) -> bool {
        &&& R::ring_wf(v.0)
        &&& all_wf::<E>(v.1)
        &&& trimmed::<E>(v.1)
        &&& v.2 == v.1.len() - 1
        &&& v.1.len() <= max_len()
    }

    /// A polynomial from its coefficients, lowest first, trimmed.
    pub fn new(coeff_ring: R, coeffs: Vec<E>) -> (p: Polynomial<E, R>)
        requires
            R::ring_wf(coeff_ring@),
            all_wf::<E>(views::<E>(coeffs@)),
            coeffs@.len() <= max_len(),
        ensures
            p@ == poly_of::<E, R>(coeff_ring@, views::<E>(coeffs@)),
            Self::wf_view(p@),
    {
        let degree = coeffs.len() as isize - 1;
        let mut p = Polynomial { coeff_ring, coeffs, degree };
        p.trim();
        p
    }

    /// Drop trailing zero coefficients.
    pub fn trim(&mut self)
        requires
            R::ring_wf(old(self)@.0),
            all_wf::<E>(old(self)@.1),
            old(self)@.2 == old(self)@.1.len() - 1,
            old(self)@.1.len() <= max_len(),
        ensures
            final(self)@ == poly_of::<E, R>(old(self)@.0, old(self)@.1),
            Self::wf_view(final(self)@),
    {
        let ghost s0 = self@.1;
        proof {
            lemma_trim::<E>(s0);
            assert forall|i: int| 0 <= i < self.coeffs@.len() implies #[trigger] E::wf_spec(
                self.coeffs@[i]@,
            ) by {
                assert(self@.1[i] == self.coeffs@[i]@);
            }
        }
        while self.coeffs.len() > 0 && self.coeffs[self.coeffs.len() - 1].is_zero()
            invariant
                R::ring_wf(self@.0),
                self@.0 == old(self)@.0,
                all_wf::<E>(self@.1),
                forall|i: int| 0 <= i < self.coeffs@.len() ==> #[trigger] E::wf_spec(self.coeffs@[i]@),
                self@.2 == self@.1.len() - 1,
                self@.1.len() <= max_len(),
                trim_spec::<E>(self@.1) == trim_spec::<E>(s0),
            decreases self.coeffs.len(),
        {
            proof {
                assert(self@.1.last() == self.coeffs@[self.coeffs.len() - 1]@);
            }
            let ghost prev = self@.1;
            self.coeffs.pop();
            self.degree = self.degree - 1;
            proof {
                assert(self@.1 =~= prev.drop_last());
            }
        }
        proof {
            lemma_trim::<E>(self@.1);
            if self@.1.len() > 0 {
                assert(self@.1.last() == self.coeffs@[self.coeffs.len() - 1]@);
            }
        }
    }

    /// `lc()`: the leading coefficient, `None` for the zero polynomial.
    pub fn lc(&self) -> (r: Option<&E>)
        requires
            Self::wf_view(self@),
        ensures
            self@.2 < 0 ==> r is None,
            self@.2 >= 0 ==> (r matches Some(c) && c@ == self@.1.last()),
    {
        if self.degree < 0 {
            None
        } else {
            Some(&self.coeffs[self.degree as usize])
        }
    }

    /// A copy of the coefficient vector.
    fn copy_coeffs(v: &Vec<E>) -> (r: Vec<E>)
        requires
            all_wf::<E>(views::<E>(v@)),
        ensures
            views::<E>(r@) == views::<E>(v@),
    {
        let mut out: Vec<E> = Vec::new();
        let mut i: usize = 0;
        while i < v.len()
            invariant
                i <= v.len(),
                all_wf::<E>(views::<E>(v@)),
                out@.len() == i,
                forall|j: int| 0 <= j < i ==> #[trigger] out@[j]@ == v@[j]@,
            decreases v.len() - i,
        {
            proof {
                assert(views::<E>(v@)[i as int] == v@[i as int]@);
            }
            out.push(v[i].copy());
            i = i + 1;
        }
        assert(views::<E>(out@) =~= views::<E>(v@));
        out
    }

    /// Map a scalar multiplication (`mul`) or division over the coefficients.
    fn map_scalar(&mut self, y: &E, mul: bool) -> (r: core::result::Result<(), Error>)
        requires
            Self::wf_view(old(self)@),
            E::wf_spec(y@),
        ensures
            matches_update(
                r,
                *final(self),
                map_poly::<E, R>(
                    old(self)@,
                    if mul {
                        smul_fn::<E>(y@)
                    } else {
                        sdiv_fn::<E>(y@)
                    },
                ),
            ),
            r is Ok ==> Self::wf_view(final(self)@),
    {
        let ghost a0 = self@;
        let ghost f = if mul {
            smul_fn::<E>(y@)
        } else {
            sdiv_fn::<E>(y@)
        };
        let mut i: usize = 0;
        while i < self.coeffs.len()
            invariant
                i <= self.coeffs.len(),
                a0 == old(self)@,
                self.coeffs.len() == a0.1.len(),
                self@.0 == a0.0,
                self@.2 == a0.2,
                Self::wf_view(a0),
                E::wf_spec(y@),
                f == (if mul {
                    smul_fn::<E>(y@)
                } else {
                    sdiv_fn::<E>(y@)
                }),
                all_wf::<E>(self@.1),
                map_loop::<E>(a0.1, f, i as nat) == Outcome::<Seq<E::V>>::Ok(self@.1),
            decreases self.coeffs.len() - i,
        {
            proof {
                assert(self@.1[i as int] == self.coeffs@[i as int]@);
                if mul {
                    assert(f(self@.1[i as int]) == E::mul_spec(self@.1[i as int], y@));
                } else {
                    assert(f(self@.1[i as int]) == E::div_spec(self@.1[i as int], y@));
                }
            }
            let ghost before = self@.1;
            let res = if mul {
                self.coeffs[i].imul(y)
            } else {
                self.coeffs[i].idiv(y)
            };
            match res {
                Ok(()) => {},
                Err(e) => {
                    proof {
                        assert(f(before[i as int]) == Outcome::<E::V>::Err(e.spec_error_kind()));
                        assert(map_loop::<E>(a0.1, f, (i + 1) as nat) == Outcome::<Seq<E::V>>::Err(
                            e.spec_error_kind(),
                        ));
                        lemma_map_loop_err::<E>(a0.1, f, (i + 1) as nat, a0.1.len());
                        assert(map_loop::<E>(a0.1, f, a0.1.len()) == Outcome::<Seq<E::V>>::Err(
                            e.spec_error_kind(),
                        ));
                        assert(map_poly::<E, R>(a0, f) == Outcome::<(R::V, Seq<E::V>, int)>::Err(
                            e.spec_error_kind(),
                        ));
                    }
                    return Err(e);
                },
            }
            proof {
                assert(self@.1 =~= map_loop::<E>(a0.1, f, i as nat)->Ok_0.update(
                    i as int,
                    self.coeffs@[i as int]@,
                ));
            }
            i = i + 1;
        }
        self.trim();
        Ok(())
    }

    /// `ismul(b)`: multiply every coefficient by a scalar.
    pub fn ismul(&mut self, b: &E) -> (r: core::result::Result<(), Error>)
        requires
            Self::wf_view(old(self)@),
            E::wf_spec(b@),
        ensures
            matches_update(r, *final(self), map_poly::<E, R>(old(self)@, smul_fn::<E>(b@))),
            r is Ok ==> Self::wf_view(final(self)@),
    {
        self.map_scalar(b, true)
    }

    pub fn smul(&self, b: &E) -> (r: core::result::Result<Polynomial<E, R>, Error>)
        requires
            Self::wf_view(self@),
            E::wf_spec(b@),
        ensures
            matches_outcome(r, map_poly::<E, R>(self@, smul_fn::<E>(b@))),
            r matches Ok(p) ==> Self::wf_view(p@),
    {
        let mut c = self.copy_poly();
        c.ismul(b)?;
        Ok(c)
    }

    /// `isdiv(b)`: divide every coefficient by a scalar.
    pub fn isdiv(&mut self, b: &E) -> (r: core::result::Result<(), Error>)
        requires
            Self::wf_view(old(self)@),
            E::wf_spec(b@),
        ensures
            matches_update(r, *final(self), map_poly::<E, R>(old(self)@, sdiv_fn::<E>(b@))),
            r is Ok ==> Self::wf_view(final(self)@),
    {
        self.map_scalar(b, false)
    }

    pub fn sdiv(&self, b: &E) -> (r: core::result::Result<Polynomial<E, R>, Error>)
        requires
            Self::wf_view(self@),
            E::wf_spec(b@),
        ensures
            matches_outcome(r, map_poly::<E, R>(self@, sdiv_fn::<E>(b@))),
            r matches Ok(p) ==> Self::wf_view(p@),
    {
        let mut c = self.copy_poly();
        c.isdiv(b)?;
        Ok(c)
    }

    /// The polynomial divided by its leading coefficient; the zero
    /// polynomial has none.
    pub fn monic(&self) -> (r: core::result::Result<Polynomial<E, R>, Error>)
        requires
            Self::wf_view(self@),
        ensures
            matches_outcome(r, monic_spec::<E, R>(self@)),
            r matches Ok(p) ==> Self::wf_view(p@),
    {
        let lc = match self.lc() {
            Some(c) => c.copy(),
            None => {
                return Err(Error::Range("monic() of zero polynomial".to_owned()));
            },
        };
        proof {
            assert(self@.1.last() == self@.1[self@.2]);
        }
        self.sdiv(&lc)
    }

    /// A copy with the same view.
    pub fn copy_poly(&self) -> (r: Polynomial<E, R>)
        requires
            Self::wf_view(self@),
        ensures
            r@ == self@,
    {
        Polynomial {
            coeff_ring: self.coeff_ring.copy_ring(),
            coeffs: Self::copy_coeffs(&self.coeffs),
            degree: self.degree,
        }
    }

    /// `pseudo_divmod(b)`: returns `(p, q, r)` with `p*self == q*b + r`.
    pub fn pseudo_divmod(&self, b: &Polynomial<E, R>) -> (r: core::result::Result<
        (E, Polynomial<E, R>, Polynomial<E, R>),
        Error,
    >)
        requires
            Self::wf_view(self@),
            Self::wf_view(b@),
        ensures
            match r {
                Ok(t) => pseudo_divmod_spec::<E, R>(self@, b@) == Outcome::<
                    (E::V, (R::V, Seq<E::V>, int), (R::V, Seq<E::V>, int)),
                >::Ok((t.0@, t.1@, t.2@)) && E::wf_spec(t.0@) && Self::wf_view(t.1@)
                    && Self::wf_view(t.2@),
                Err(e) => pseudo_divmod_spec::<E, R>(self@, b@) == Outcome::<
                    (E::V, (R::V, Seq<E::V>, int), (R::V, Seq<E::V>, int)),
                >::Err(e.spec_error_kind()),
            },
    {
        let m = self.degree;
        let n = b.degree;
        let mut p = self.coeff_ring.one();
        if n == -1 {
            return Err(Error::Division("Division by zero".to_owned()));
        }
        proof {
            assert(b@.1[n as int] == b.coeffs@[n as int]@);
        }
        let bn = b.coeffs[n as usize].copy();
        let mut c: Vec<E> = Self::copy_coeffs(&self.coeffs);
        let ghost target = pd_loop::<E>(self@.1, p@, b@.1, bn@, m as int, n as int, m as int);
        let mut k: isize = m;
        while k >= n
            invariant
                Self::wf_view(self@),
                Self::wf_view(b@),
                m == self.degree,
                n == b.degree,
                0 <= n,
                bn@ == b@.1[n as int],
                E::wf_spec(bn@),
                E::wf_spec(p@),
                k <= m,
                k >= n - 1 || k == m,
                m < max_len(),
                c@.len() == m + 1,
                all_wf::<E>(views::<E>(c@)),
                target == pd_loop::<E>(self@.1, R::one_spec(self@.0), b@.1, bn@, m as int, n as int, m as int),
                pd_loop::<E>(views::<E>(c@), p@, b@.1, bn@, m as int, n as int, k as int) == target,
            decreases k - n + 1,
        {
            let ghost c0 = views::<E>(c@);
            let mut i: isize = 0;
            while i <= m
                invariant
                    0 <= i <= m + 1,
                    0 <= n <= k <= m,
                    m < max_len(),
                    c@.len() == m + 1,
                    c0.len() == m + 1,
                    E::wf_spec(bn@),
                    bn@ == b@.1[n as int],
                    n == b.degree,
                    m == self.degree,
                    target == pd_loop::<E>(self@.1, R::one_spec(self@.0), b@.1, bn@, m as int, n as int, m as int),
                    pd_loop::<E>(c0, p@, b@.1, bn@, m as int, n as int, k as int) == target,
                    all_wf::<E>(views::<E>(c@)),
                    scale_loop::<E>(c0, bn@, k as int, i as nat) == Outcome::<Seq<E::V>>::Ok(
                        views::<E>(c@),
                    ),
                decreases m + 1 - i,
            {
                if i != k {
                    proof {
                        assert(views::<E>(c@)[i as int] == c@[i as int]@);
                    }
                    let ghost before = views::<E>(c@);
                    match c[i as usize].imul(&bn) {
                        Ok(()) => {},
                        Err(e) => {
                            proof {
                                assert(scale_loop::<E>(c0, bn@, k as int, (i + 1) as nat) == Outcome::<
                                    Seq<E::V>,
                                >::Err(e.spec_error_kind()));
                                lemma_scale_loop_err::<E>(c0, bn@, k as int, (i + 1) as nat, (m + 1) as nat);
                            }
                            return Err(e);
                        },
                    }
                    proof {
                        assert(views::<E>(c@) =~= before.update(i as int, c@[i as int]@));
                    }
                }
                i = i + 1;
            }
            let ghost c1 = views::<E>(c@);
            proof {
                lemma_scale_loop::<E>(c0, bn@, k as int, (m + 1) as nat);
            }
            let ghost p0 = p@;
            match p.imul(&bn) {
                Ok(()) => {},
                Err(e) => {
                    return Err(e);
                },
            }
            let ghost p1 = p@;
            let mut i: isize = 0;
            while i < n
                invariant
                    0 <= i <= n,
                    n <= k <= m,
                    c@.len() == m + 1,
                    c1.len() == m + 1,
                    bn@ == b@.1[n as int],
                    n == b.degree,
                    m == self.degree,
                    target == pd_loop::<E>(self@.1, R::one_spec(self@.0), b@.1, bn@, m as int, n as int, m as int),
                    pd_loop::<E>(c0, p0, b@.1, bn@, m as int, n as int, k as int) == target,
                    scale_loop::<E>(c0, bn@, k as int, (m + 1) as nat) == Outcome::<Seq<E::V>>::Ok(c1),
                    E::mul_spec(p0, bn@) == Outcome::<E::V>::Ok(p1),
                    p@ == p1,
                    E::wf_spec(p@),
                    Self::wf_view(b@),
                    n == b.degree,
                    all_wf::<E>(views::<E>(c@)),
                    sub_loop::<E>(c1, b@.1, k as int, n as int, i as nat) == Outcome::<Seq<E::V>>::Ok(
                        views::<E>(c@),
                    ),
                decreases n - i,
            {
                proof {
                    lemma_sub_loop::<E>(c1, b@.1, k as int, n as int, i as nat);
                    assert(views::<E>(c@)[k as int] == c@[k as int]@);
                    assert(b@.1[i as int] == b.coeffs@[i as int]@);
                    assert(views::<E>(c@)[k - n + i] == c@[k - n + i]@);
                }
                let ghost before = views::<E>(c@);
                let t = match c[k as usize].mul(&b.coeffs[i as usize]) {
                    Ok(t) => t,
                    Err(e) => {
                        proof {
                            assert(sub_loop::<E>(c1, b@.1, k as int, n as int, (i + 1) as nat) == Outcome::<
                                Seq<E::V>,
                            >::Err(e.spec_error_kind()));
                            lemma_sub_loop_err::<E>(c1, b@.1, k as int, n as int, (i + 1) as nat, n as nat);
                        }
                        return Err(e);
                    },
                };
                match c[(k - n + i) as usize].isub(&t) {
                    Ok(()) => {},
                    Err(e) => {
                        proof {
                            assert(sub_loop::<E>(c1, b@.1, k as int, n as int, (i + 1) as nat) == Outcome::<
                                Seq<E::V>,
                            >::Err(e.spec_error_kind()));
                            lemma_sub_loop_err::<E>(c1, b@.1, k as int, n as int, (i + 1) as nat, n as nat);
                        }
                        return Err(e);
                    },
                }
                proof {
                    assert(views::<E>(c@) =~= before.update(k - n + i, c@[k - n + i]@));
                }
                i = i + 1;
            }
            k = k - 1;
        }
        let len = c.len();
        let lo: usize = if (n as usize) < len {
            n as usize
        } else {
            len
        };
        let top: usize = if m + 1 > 0 {
            (m + 1) as usize
        } else {
            0
        };
        let hi: usize = if top < len {
            top
        } else {
            len
        };
        let ghost cv = views::<E>(c@);
        let mut quot: Vec<E> = Vec::new();
        let mut rem: Vec<E> = Vec::new();
        let mut j: usize = 0;
        while j < lo
            invariant
                j <= lo <= len == c@.len(),
                cv == views::<E>(c@),
                all_wf::<E>(cv),
                rem@.len() == j,
                forall|t: int| 0 <= t < j ==> #[trigger] rem@[t]@ == cv[t],
            decreases lo - j,
        {
            proof {
                assert(cv[j as int] == c@[j as int]@);
            }
            rem.push(c[j].copy());
            j = j + 1;
        }
        let mut j: usize = lo;
        while j < hi
            invariant
                lo <= j <= hi || (hi < lo && j == lo),
                hi <= len == c@.len(),
                cv == views::<E>(c@),
                all_wf::<E>(cv),
                quot@.len() == j - lo,
                forall|t: int| 0 <= t < j - lo ==> #[trigger] quot@[t]@ == cv[lo + t],
            decreases hi - j,
        {
            proof {
                assert(cv[j as int] == c@[j as int]@);
            }
            quot.push(c[j].copy());
            j = j + 1;
        }
        proof {
            assert(views::<E>(rem@) =~= cv.take(lo as int));
            if lo <= hi {
                assert(views::<E>(quot@) =~= cv.subrange(lo as int, hi as int));
            } else {
                assert(views::<E>(quot@) =~= Seq::<E::V>::empty());
            }
            assert(all_wf::<E>(views::<E>(quot@)));
            assert(all_wf::<E>(views::<E>(rem@)));
        }
        let q = Polynomial::new(self.coeff_ring.copy_ring(), quot);
        let r = Polynomial::new(self.coeff_ring.copy_ring(), rem);
        Ok((p, q, r))
    }

    /// Euclidean division: quotient and remainder.
    fn divmod_poly(&self, b: &Polynomial<E, R>) -> (r: core::result::Result<
        (Polynomial<E, R>, Polynomial<E, R>),
        Error,
    >)
        requires
            Self::wf_view(self@),
            Self::wf_view(b@),
        ensures
            match r {
                Ok(t) => divmod_spec::<E, R>(self@, b@) == Outcome::<
                    ((R::V, Seq<E::V>, int), (R::V, Seq<E::V>, int)),
                >::Ok((t.0@, t.1@)) && Self::wf_view(t.0@) && Self::wf_view(t.1@),
                Err(e) => divmod_spec::<E, R>(self@, b@) == Outcome::<
                    ((R::V, Seq<E::V>, int), (R::V, Seq<E::V>, int)),
                >::Err(e.spec_error_kind()),
            },
    {
        if b.degree == -1 {
            return Err(Error::Division("Division by zero".to_owned()));
        }
        if self.degree < b.degree {
            // Nothing to divide: the quotient is zero and the remainder is
            // `self`, normalized coefficient by coefficient.
            let one = self.coeff_ring.one();
            let rem = self.sdiv(&one)?;
            let empty: Vec<E> = Vec::new();
            assert(views::<E>(empty@) =~= Seq::<E::V>::empty());
            let zero = Polynomial::new(self.coeff_ring.copy_ring(), empty);
            return Ok((zero, rem));
        }
        let (p, mut q, mut r) = self.pseudo_divmod(b)?;
        q.isdiv(&p)?;
        r.isdiv(&p)?;
        Ok((q, r))
    }

    /// `modulo`, consuming the dividend.
    pub fn into_modulo(self, b: &Polynomial<E, R>) -> (r: core::result::Result<Polynomial<E, R>, Error>)
        requires
            Self::wf_view(self@),
            Self::wf_view(b@),
        ensures
            match r {
                Ok(t) => divmod_spec::<E, R>(self@, b@) is Ok && t@ == divmod_spec::<E, R>(
                    self@,
                    b@,
                )->Ok_0.1 && Self::wf_view(t@),
                Err(e) => divmod_spec::<E, R>(self@, b@) == Outcome::<
                    ((R::V, Seq<E::V>, int), (R::V, Seq<E::V>, int)),
                >::Err(e.spec_error_kind()),
            },
    {
        if b.degree == -1 {
            return Err(Error::Division("Division by zero".to_owned()));
        }
        if self.degree < b.degree {
            let one = self.coeff_ring.one();
            let mut s = self;
            s.isdiv(&one)?;
            return Ok(s);
        }
        let (_, r) = self.divmod_poly(b)?;
        Ok(r)
    }

    /// `eval(arg)`: Horner's rule.
    pub fn eval(&self, arg: &E) -> (r: core::result::Result<E, Error>)
        requires
            Self::wf_view(self@),
            E::wf_spec(arg@),
        ensures
            matches_outcome(r, horner::<E>(self@.1, arg@, self@.1.len(), Outcome::<E::V>::Ok(R::zero_spec(self@.0)))),
            r matches Ok(v) ==> E::wf_spec(v@),
    {
        let mut sum = self.coeff_ring.zero();
        let ghost target = horner::<E>(self@.1, arg@, self@.1.len(), Outcome::<E::V>::Ok(sum@));
        let mut i: usize = self.coeffs.len();
        while i > 0
            invariant
                i <= self.coeffs.len(),
                Self::wf_view(self@),
                E::wf_spec(arg@),
                E::wf_spec(sum@),
                horner::<E>(self@.1, arg@, i as nat, Outcome::<E::V>::Ok(sum@)) == target,
                target == horner::<E>(
                    self@.1,
                    arg@,
                    self@.1.len(),
                    Outcome::<E::V>::Ok(R::zero_spec(self@.0)),
                ),
            decreases i,
        {
            i = i - 1;
            proof {
                assert(self@.1[i as int] == self.coeffs@[i as int]@);
            }
            let ghost s0 = sum@;
            match sum.imul(arg) {
                Ok(()) => {},
                Err(e) => {
                    return Err(e);
                },
            }
            let ghost s1 = sum@;
            match sum.iadd(&self.coeffs[i]) {
                Ok(()) => {},
                Err(e) => {
                    proof {
                        lemma_horner_err::<E>(self@.1, arg@, i as nat, e.spec_error_kind());
                    }
                    return Err(e);
                },
            }
        }
        Ok(sum)
    }

    /// The formal derivative.
    pub fn derivative(&self) -> (r: core::result::Result<Polynomial<E, R>, Error>)
        requires
            Self::wf_view(self@),
        ensures
            matches_outcome(
                r,
                finish::<E, R>(
                    self@.0,
                    deriv_loop::<E, R>(
                        self@.0,
                        self@.1,
                        if self@.2 > 0 {
                            self@.2 as nat
                        } else {
                            0
                        },
                    ),
                ),
            ),
            r matches Ok(p) ==> Self::wf_view(p@),
    {
        let mut coeffs: Vec<E> = Vec::new();
        assert(views::<E>(coeffs@) =~= Seq::<E::V>::empty());
        let mut i: isize = 1;
        while i <= self.degree
            invariant
                1 <= i,
                self.degree >= 0 ==> i <= self.degree + 1,
                self.degree < 0 ==> i == 1,
                Self::wf_view(self@),
                all_wf::<E>(views::<E>(coeffs@)),
                deriv_loop::<E, R>(self@.0, self@.1, (i - 1) as nat) == Outcome::<Seq<E::V>>::Ok(
                    views::<E>(coeffs@),
                ),
            decreases self.degree + 1 - i,
        {
            proof {
                assert(self@.1[i as int] == self.coeffs@[i as int]@);
            }
            let mut t = self.coeff_ring.from_int(i as i64);
            match t.imul(&self.coeffs[i as usize]) {
                Ok(()) => {},
                Err(e) => {
                    proof {
                        lemma_deriv_loop_err::<E, R>(
                            self@.0,
                            self@.1,
                            i as nat,
                            if self@.2 > 0 {
                                self@.2 as nat
                            } else {
                                0
                            },
                        );
                    }
                    return Err(e);
                },
            }
            let ghost before = views::<E>(coeffs@);
            coeffs.push(t);
            proof {
                assert(views::<E>(coeffs@) =~= before.push(t@));
            }
            i = i + 1;
        }
        proof {
            lemma_deriv_loop::<E, R>(self@.0, self@.1, (i - 1) as nat);
        }
        Ok(Polynomial::new(self.coeff_ring.copy_ring(), coeffs))
    }

    pub fn is_zero_poly(&self) -> (r: bool)
        requires
            Self::wf_view(self@),
        ensures
            r == (self@.2 == -1),
    {
        self.degree == -1
    }
}


impl<E: Elem, R: RingOps<E>> Polynomial<E, R> {
    /// Add (or subtract) `b` coefficient by coefficient, in place.
    fn zip_in_place(&mut self, b: &Polynomial<E, R>, sub: bool) -> (r: core::result::Result<(), Error>)
        requires
            Self::wf_view(old(self)@),
            Self::wf_view(b@),
        ensures
            matches_update(r, *final(self), poly_zip_spec::<E, R>(old(self)@, b@, sub)),
            r is Ok ==> Self::wf_view(final(self)@),
    {
        let ghost a0 = self@;
        let ghost op = if sub {
            sub_op::<E>()
        } else {
            add_op::<E>()
        };
        let ghost ext = if sub {
            neg_ext::<E>()
        } else {
            keep_ext::<E>()
        };
        let mut i: usize = 0;
        while i < b.coeffs.len()
            invariant
                i <= b.coeffs.len(),
                a0 == old(self)@,
                Self::wf_view(a0),
                Self::wf_view(b@),
                op == (if sub {
                    sub_op::<E>()
                } else {
                    add_op::<E>()
                }),
                ext == (if sub {
                    neg_ext::<E>()
                } else {
                    keep_ext::<E>()
                }),
                self@.0 == a0.0,
                self@.2 == self@.1.len() - 1,
                self.coeffs.len() == if i <= a0.1.len() {
                    a0.1.len() as int
                } else {
                    i as int
                },
                all_wf::<E>(self@.1),
                zip_loop::<E>(a0.1, b@.1, i as nat, op, ext) == Outcome::<Seq<E::V>>::Ok(self@.1),
            decreases b.coeffs.len() - i,
        {
            proof {
                assert(b@.1[i as int] == b.coeffs@[i as int]@);
            }
            let ghost before = self@.1;
            if i < self.coeffs.len() {
                proof {
                    assert(self@.1[i as int] == self.coeffs@[i as int]@);
                    if sub {
                        assert(op(before[i as int], b@.1[i as int]) == E::sub_spec(before[i as int], b@.1[i as int]));
                    } else {
                        assert(op(before[i as int], b@.1[i as int]) == E::add_spec(before[i as int], b@.1[i as int]));
                    }
                }
                let res = if sub {
                    self.coeffs[i].isub(&b.coeffs[i])
                } else {
                    self.coeffs[i].iadd(&b.coeffs[i])
                };
                match res {
                    Ok(()) => {},
                    Err(e) => {
                        proof {
                            assert(zip_loop::<E>(a0.1, b@.1, (i + 1) as nat, op, ext) == Outcome::<
                                Seq<E::V>,
                            >::Err(e.spec_error_kind()));
                            lemma_zip_loop_err::<E>(a0.1, b@.1, (i + 1) as nat, b@.1.len(), op, ext);
                        }
                        return Err(e);
                    },
                }
                proof {
                    assert(self@.1 =~= before.update(i as int, self.coeffs@[i as int]@));
                }
            } else {
                let c = if sub {
                    b.coeffs[i].neg()
                } else {
                    b.coeffs[i].copy()
                };
                proof {
                    if sub {
                        assert(ext(b@.1[i as int]) == E::neg_spec(b@.1[i as int]));
                    } else {
                        assert(ext(b@.1[i as int]) == b@.1[i as int]);
                    }
                }
                self.coeffs.push(c);
                self.degree = self.degree + 1;
                proof {
                    assert(self@.1 =~= before.push(c@));
                }
            }
            i = i + 1;
        }
        proof {
            lemma_zip_loop::<E>(a0.1, b@.1, i as nat, op, ext);
        }
        self.trim();
        Ok(())
    }

    /// The product by convolution.
    fn mul_poly(&self, b: &Polynomial<E, R>) -> (r: core::result::Result<Polynomial<E, R>, Error>)
        requires
            Self::wf_view(self@),
            Self::wf_view(b@),
        ensures
            matches_outcome(r, poly_mul_spec::<E, R>(self@, b@)),
            r matches Ok(p) ==> Self::wf_view(p@),
    {
        let m = self.degree;
        let n = b.degree;
        if m + n + 1 > isize::MAX / 2 {
            return Err(Error::Range("polynomial too large".to_owned()));
        }
        let count: isize = if m + n + 1 > 0 {
            m + n + 1
        } else {
            0
        };
        let ghost zero = R::zero_spec(self@.0);
        let mut coeffs: Vec<E> = Vec::new();
        proof {
            assert(views::<E>(coeffs@) =~= Seq::<E::V>::empty());
        }
        let mut k: isize = 0;
        while k < count
            invariant
                0 <= k <= count,
                count <= max_len(),
                count == (if m + n + 1 > 0 {
                    m + n + 1
                } else {
                    0
                }),
                m == self.degree,
                n == b.degree,
                Self::wf_view(self@),
                Self::wf_view(b@),
                zero == R::zero_spec(self@.0),
                all_wf::<E>(views::<E>(coeffs@)),
                conv_loop::<E>(self@.1, b@.1, k as nat, zero) == Outcome::<Seq<E::V>>::Ok(
                    views::<E>(coeffs@),
                ),
            decreases count - k,
        {
            let mut ck = self.coeff_ring.zero();
            let lo: isize = if k - n > 0 {
                k - n
            } else {
                0
            };
            let hi: isize = if k < m {
                k
            } else {
                m
            };
            let mut i: isize = lo;
            proof {
                assert(conv_coeff::<E>(self@.1, b@.1, k as int, zero) == conv_acc::<E>(
                    self@.1,
                    b@.1,
                    k as int,
                    lo as int,
                    hi + 1,
                    Outcome::<E::V>::Ok(zero),
                ));
            }
            while i <= hi
                invariant
                    lo <= i,
                    lo <= hi + 1 ==> i <= hi + 1,
                    lo > hi + 1 ==> i == lo,
                    0 <= lo,
                    hi <= m,
                    hi <= k,
                    lo >= k - n,
                    0 <= k < count,
                    m == self.degree,
                    n == b.degree,
                    Self::wf_view(self@),
                    Self::wf_view(b@),
                    E::wf_spec(ck@),
                    conv_acc::<E>(self@.1, b@.1, k as int, i as int, hi + 1, Outcome::<E::V>::Ok(ck@))
                        == conv_coeff::<E>(self@.1, b@.1, k as int, zero),
                    zero == R::zero_spec(self@.0),
                    count <= max_len(),
                    count == (if m + n + 1 > 0 {
                        m + n + 1
                    } else {
                        0
                    }),
                    conv_loop::<E>(self@.1, b@.1, k as nat, zero) == Outcome::<Seq<E::V>>::Ok(
                        views::<E>(coeffs@),
                    ),
                decreases hi + 1 - i,
            {
                proof {
                    assert(self@.1[i as int] == self.coeffs@[i as int]@);
                    assert(b@.1[k - i] == b.coeffs@[k - i]@);
                }
                let t = match self.coeffs[i as usize].mul(&b.coeffs[(k - i) as usize]) {
                    Ok(t) => t,
                    Err(e) => {
                        proof {
                            assert(conv_coeff::<E>(self@.1, b@.1, k as int, zero) == Outcome::<E::V>::Err(
                                e.spec_error_kind(),
                            ));
                            assert(conv_loop::<E>(self@.1, b@.1, (k + 1) as nat, zero) == Outcome::<
                                Seq<E::V>,
                            >::Err(e.spec_error_kind()));
                            lemma_conv_loop_err::<E>(self@.1, b@.1, (k + 1) as nat, count as nat, zero);
                        }
                        return Err(e);
                    },
                };
                let ghost ck0 = ck@;
                match ck.iadd(&t) {
                    Ok(()) => {},
                    Err(e) => {
                        proof {
                            lemma_conv_acc_err::<E>(self@.1, b@.1, k as int, i + 1, hi + 1, e.spec_error_kind());
                            assert(conv_coeff::<E>(self@.1, b@.1, k as int, zero) == Outcome::<E::V>::Err(
                                e.spec_error_kind(),
                            ));
                            assert(conv_loop::<E>(self@.1, b@.1, (k + 1) as nat, zero) == Outcome::<
                                Seq<E::V>,
                            >::Err(e.spec_error_kind()));
                            lemma_conv_loop_err::<E>(self@.1, b@.1, (k + 1) as nat, count as nat, zero);
                        }
                        return Err(e);
                    },
                }
                i = i + 1;
            }
            let ghost before = views::<E>(coeffs@);
            coeffs.push(ck);
            proof {
                assert(views::<E>(coeffs@) =~= before.push(ck@));
            }
            k = k + 1;
        }
        proof {
            lemma_conv_loop::<E>(self@.1, b@.1, count as nat, zero);
        }
        Ok(Polynomial::new(self.coeff_ring.copy_ring(), coeffs))
    }
}

impl<E: Elem, R: RingOps<E>> Elem for Polynomial<E, R> {
    open spec fn wf_spec(v: (R::V, Seq<E::V>, int)) -> bool {
        Self::wf_view(v)
    }

    open spec fn is_poly_spec() -> bool {
        true
    }

    open spec fn text_spec(v: (R::V, Seq<E::V>, int)) -> Seq<char> {
        poly_text::<E, R>(v)
    }

    fn is_poly() -> (r: bool) {
        true
    }

    fn text(&self) -> (r: String) {
        self.to_string()
    }

    open spec fn is_zero_spec(v: (R::V, Seq<E::V>, int)) -> bool {
        v.2 == -1
    }

    open spec fn equals_spec(a: (R::V, Seq<E::V>, int), b: (R::V, Seq<E::V>, int)) -> bool {
        &&& a.2 == b.2
        &&& forall|i: int| 0 <= i < a.1.len() ==> #[trigger] E::equals_spec(a.1[i], b.1[i])
    }

    open spec fn add_spec(a: (R::V, Seq<E::V>, int), b: (R::V, Seq<E::V>, int)) -> Outcome<
        (R::V, Seq<E::V>, int),
    > {
        poly_zip_spec::<E, R>(a, b, false)
    }

    open spec fn sub_spec(a: (R::V, Seq<E::V>, int), b: (R::V, Seq<E::V>, int)) -> Outcome<
        (R::V, Seq<E::V>, int),
    > {
        poly_zip_spec::<E, R>(a, b, true)
    }

    open spec fn neg_spec(a: (R::V, Seq<E::V>, int)) -> (R::V, Seq<E::V>, int) {
        poly_of::<E, R>(a.0, neg_all::<E>(a.1))
    }

    open spec fn mul_spec(a: (R::V, Seq<E::V>, int), b: (R::V, Seq<E::V>, int)) -> Outcome<
        (R::V, Seq<E::V>, int),
    > {
        poly_mul_spec::<E, R>(a, b)
    }

    open spec fn div_spec(a: (R::V, Seq<E::V>, int), b: (R::V, Seq<E::V>, int)) -> Outcome<
        (R::V, Seq<E::V>, int),
    > {
        poly_div_spec::<E, R>(a, b)
    }

    open spec fn inv_spec(a: (R::V, Seq<E::V>, int)) -> Outcome<(R::V, Seq<E::V>, int)> {
        Outcome::<(R::V, Seq<E::V>, int)>::Err(ErrorKind::Other)
    }

    fn copy(&self) -> (r: Polynomial<E, R>) {
        self.copy_poly()
    }

    fn equals(&self, y: &Polynomial<E, R>) -> (r: bool) {
        if self.degree != y.degree {
            return false;
        }
        let mut i: usize = 0;
        while i < self.coeffs.len()
            invariant
                i <= self.coeffs.len(),
                Self::wf_view(self@),
                Self::wf_view(y@),
                self.degree == y.degree,
                forall|j: int| 0 <= j < i ==> #[trigger] E::equals_spec(self@.1[j], y@.1[j]),
            decreases self.coeffs.len() - i,
        {
            proof {
                assert(self@.1[i as int] == self.coeffs@[i as int]@);
                assert(y@.1[i as int] == y.coeffs@[i as int]@);
            }
            if !self.coeffs[i].equals(&y.coeffs[i]) {
                return false;
            }
            i = i + 1;
        }
        true
    }

    fn is_zero(&self) -> (r: bool) {
        self.degree == -1
    }

    fn iadd(&mut self, y: &Polynomial<E, R>) -> (r: core::result::Result<(), Error>) {
        self.zip_in_place(y, false)
    }

    fn add(&self, y: &Polynomial<E, R>) -> (r: core::result::Result<Polynomial<E, R>, Error>) {
        let mut c = self.copy_poly();
        c.zip_in_place(y, false)?;
        Ok(c)
    }

    fn isub(&mut self, y: &Polynomial<E, R>) -> (r: core::result::Result<(), Error>) {
        self.zip_in_place(y, true)
    }

    fn sub(&self, y: &Polynomial<E, R>) -> (r: core::result::Result<Polynomial<E, R>, Error>) {
        let mut c = self.copy_poly();
        c.zip_in_place(y, true)?;
        Ok(c)
    }

    fn neg(&self) -> (r: Polynomial<E, R>) {
        let mut coeffs: Vec<E> = Vec::new();
        let mut i: usize = 0;
        while i < self.coeffs.len()
            invariant
                i <= self.coeffs.len(),
                Self::wf_view(self@),
                coeffs@.len() == i,
                forall|j: int| 0 <= j < i ==> #[trigger] coeffs@[j]@ == E::neg_spec(self@.1[j]),
                forall|j: int| 0 <= j < i ==> #[trigger] E::wf_spec(coeffs@[j]@),
            decreases self.coeffs.len() - i,
        {
            proof {
                assert(self@.1[i as int] == self.coeffs@[i as int]@);
            }
            coeffs.push(self.coeffs[i].neg());
            i = i + 1;
        }
        proof {
            assert(views::<E>(coeffs@) =~= neg_all::<E>(self@.1));
            assert forall|j: int| 0 <= j < views::<E>(coeffs@).len() implies #[trigger] E::wf_spec(
                views::<E>(coeffs@)[j],
            ) by {
                assert(views::<E>(coeffs@)[j] == coeffs@[j]@);
            }
        }
        Polynomial::new(self.coeff_ring.copy_ring(), coeffs)
    }

    fn imul(&mut self, y: &Polynomial<E, R>) -> (r: core::result::Result<(), Error>) {
        let c = self.mul_poly(y)?;
        *self = c;
        Ok(())
    }

    fn mul(&self, y: &Polynomial<E, R>) -> (r: core::result::Result<Polynomial<E, R>, Error>) {
        self.mul_poly(y)
    }

    fn idiv(&mut self, y: &Polynomial<E, R>) -> (r: core::result::Result<(), Error>) {
        let c = Elem::div(&*self, y)?;
        *self = c;
        Ok(())
    }

    fn div(&self, y: &Polynomial<E, R>) -> (r: core::result::Result<Polynomial<E, R>, Error>) {
        if y.degree == 0 {
            proof {
                assert(y@.1[0] == y.coeffs@[0]@);
            }
            self.sdiv(&y.coeffs[0])
        } else {
            let (q, r) = self.divmod_poly(y)?;
            if r.degree > -1 {
                return Err(Error::Division("not divisible".to_owned()));
            }
            Ok(q)
        }
    }

    fn inv(&self) -> (r: core::result::Result<Polynomial<E, R>, Error>) {
        Err(Error::Other("not implemented".to_owned()))
    }
}


/// A coefficient map keeps the polynomial no longer than it was.
pub proof fn lemma_map_poly_len<E: Elem, R: RingOps<E>>(
    a: (R::V, Seq<E::V>, int),
    f: spec_fn(E::V) -> Outcome<E::V>,
)
    ensures
        map_poly::<E, R>(a, f) matches Outcome::<(R::V, Seq<E::V>, int)>::Ok(p) ==> p.1.len()
            <= a.1.len() && p.2 == p.1.len() - 1,
{
    lemma_map_loop::<E>(a.1, f, a.1.len());
    if let Outcome::<Seq<E::V>>::Ok(d) = map_loop::<E>(a.1, f, a.1.len()) {
        lemma_trim::<E>(d);
    }
}

/// The remainder of Euclidean division has a smaller degree than the
/// divisor.
pub proof fn lemma_divmod_degree<E: Elem, R: RingOps<E>>(
    a: (R::V, Seq<E::V>, int),
    b: (R::V, Seq<E::V>, int),
)
    requires
        Polynomial::<E, R>::wf_view(a),
        Polynomial::<E, R>::wf_view(b),
    ensures
        divmod_spec::<E, R>(a, b) matches Outcome::<
            ((R::V, Seq<E::V>, int), (R::V, Seq<E::V>, int)),
        >::Ok((q, r)) ==> r.2 < b.2,
{
    if b.2 == -1 {
    } else if a.2 < b.2 {
        lemma_map_poly_len::<E, R>(a, sdiv_fn::<E>(R::one_spec(a.0)));
    } else {
        if let Outcome::<(E::V, (R::V, Seq<E::V>, int), (R::V, Seq<E::V>, int))>::Ok((p, q, r)) =
            pseudo_divmod_spec::<E, R>(a, b) {
            let (pp, c) = pd_loop::<E>(a.1, R::one_spec(a.0), b.1, b.1[b.2], a.2, b.2, a.2)->Ok_0;
            let lo = if b.2 < c.len() {
                b.2
            } else {
                c.len() as int
            };
            lemma_trim::<E>(c.take(lo));
            lemma_map_poly_len::<E, R>(r, sdiv_fn::<E>(p));
        }
    }
}

impl<E: Elem, R: RingOps<E>> Euclidean for Polynomial<E, R> {
    open spec fn euclid_spec(v: (R::V, Seq<E::V>, int)) -> int {
        v.2
    }

    open spec fn divmod_spec(a: (R::V, Seq<E::V>, int), b: (R::V, Seq<E::V>, int)) -> Outcome<
        ((R::V, Seq<E::V>, int), (R::V, Seq<E::V>, int)),
    > {
        divmod_spec::<E, R>(a, b)
    }

    proof fn lemma_euclid_bound(v: (R::V, Seq<E::V>, int)) {
    }

    /// The Euclidean size: the degree.
    fn euclidean(&self) -> (r: Int) {
        Int::from_i64(self.degree as i64)
    }

    fn divmod(&self, y: &Polynomial<E, R>) -> (r: core::result::Result<
        (Polynomial<E, R>, Polynomial<E, R>),
        Error,
    >) {
        proof {
            lemma_divmod_degree::<E, R>(self@, y@);
        }
        let r = self.divmod_poly(y);
        if let Ok(t) = &r {
            assert(t.1@.2 < y@.2);
            assert(Self::euclid_spec(t.1@) < Self::euclid_spec(y@));
            assert(Self::wf_spec(t.0@));
            assert(Self::wf_spec(t.1@));
            assert(<Self as Euclidean>::divmod_spec(self@, y@) == Outcome::<((R::V, Seq<E::V>, int), (R::V, Seq<E::V>, int))>::Ok((t.0@, t.1@)));
        }
        r
    }
}

/// `Polynomials<E>`: the ring of polynomials over a coefficient ring.
pub struct Polynomials<E: Elem, R: RingOps<E>> {
    pub coeff_ring: R,
    _marker: core::marker::PhantomData<E>,
}

impl<E: Elem, R: RingOps<E>> View for Polynomials<E, R> {
    type V = R::V;

    closed spec fn view(&self) -> R::V {
        self.coeff_ring@
    }
}

impl<E: Elem, R: RingOps<E>> Polynomials<E, R> {
    pub fn new(coeff_ring: R) -> (r: Self)
        ensures
            r@ == coeff_ring@,
    {
        Polynomials { coeff_ring, _marker: core::marker::PhantomData }
    }
}

impl<E: Elem, R: RingOps<E>> RingOps<Polynomial<E, R>> for Polynomials<E, R> {
    open spec fn ring_wf(r: R::V) -> bool {
        R::ring_wf(r)
    }

    open spec fn zero_spec(r: R::V) -> (R::V, Seq<E::V>, int) {
        poly_of::<E, R>(r, seq![])
    }

    open spec fn one_spec(r: R::V) -> (R::V, Seq<E::V>, int) {
        poly_of::<E, R>(r, seq![R::one_spec(r)])
    }

    open spec fn from_int_spec(r: R::V, n: int) -> (R::V, Seq<E::V>, int) {
        poly_of::<E, R>(r, seq![R::from_int_spec(r, n)])
    }

    fn copy_ring(&self) -> (r: Polynomials<E, R>) {
        Polynomials { coeff_ring: self.coeff_ring.copy_ring(), _marker: core::marker::PhantomData }
    }

    fn zero(&self) -> (r: Polynomial<E, R>) {
        let v: Vec<E> = Vec::new();
        assert(views::<E>(v@) =~= seq![]);
        Polynomial::new(self.coeff_ring.copy_ring(), v)
    }

    fn one(&self) -> (r: Polynomial<E, R>) {
        let mut v: Vec<E> = Vec::new();
        v.push(self.coeff_ring.one());
        assert(views::<E>(v@) =~= seq![R::one_spec(self@)]);
        Polynomial::new(self.coeff_ring.copy_ring(), v)
    }

    fn from_int(&self, n: i64) -> (r: Polynomial<E, R>) {
        let mut v: Vec<E> = Vec::new();
        v.push(self.coeff_ring.from_int(n));
        assert(views::<E>(v@) =~= seq![R::from_int_spec(self@, n as int)]);
        Polynomial::new(self.coeff_ring.copy_ring(), v)
    }
}


/// `(-1)^(d1 * d2)` as an element of the ring.
pub open spec fn neg_one_pow_spec<E: Elem, R: RingOps<E>>(k: R::V, d1: int, d2: int) -> E::V {
    R::from_int_spec(
        k,
        if d1 % 2 == 0 || d2 % 2 == 0 {
            1
        } else {
            -1
        },
    )
}

/// `(-1)^(d1 * d2)`, from the parities, so that no product is formed.
fn neg_one_pow<E: Elem, R: RingOps<E>>(k: &R, d1: isize, d2: isize) -> (r: E)
    requires
        R::ring_wf(k@),
    ensures
        r@ == neg_one_pow_spec::<E, R>(k@, d1 as int, d2 as int),
        E::wf_spec(r@),
{
    let even1 = d1 % 2 == 0;
    let even2 = d2 % 2 == 0;
    k.from_int(
        if even1 || even2 {
            1
        } else {
            -1
        },
    )
}

/// The next `psi` of the subresultant sequence: `g / psi^(d-1)` or
/// `g * psi^(1-d)`.
pub open spec fn subres_psi<E: Elem, R: RingOps<E>>(k: R::V, g: E::V, psi: E::V, d: int) -> Outcome<E::V> {
    if d > 1 {
        match power_spec::<E, R>(k, psi, d - 1) {
            Outcome::<E::V>::Ok(p) => E::div_spec(g, p),
            Outcome::<E::V>::Err(e) => Outcome::<E::V>::Err(e),
        }
    } else if d < 1 {
        match power_spec::<E, R>(k, psi, 1 - d) {
            Outcome::<E::V>::Ok(p) => E::mul_spec(g, p),
            Outcome::<E::V>::Err(e) => Outcome::<E::V>::Err(e),
        }
    } else {
        Outcome::<E::V>::Ok(g)
    }
}

/// The subresultant remainder sequence from `(r0, r1)`, with `fuel` steps
/// allowed; degrees fall, so the fuel `poly_gcd_spec` gives suffices.
pub open spec fn subres_loop<E: Elem, R: RingOps<E>>(
    k: R::V,
    r0: (R::V, Seq<E::V>, int),
    r1: (R::V, Seq<E::V>, int),
    psi: E::V,
    d: int,
    beta: E::V,
    fuel: nat,
) -> Outcome<(R::V, Seq<E::V>, int)>
    decreases fuel,
{
    if fuel == 0 {
        Outcome::<(R::V, Seq<E::V>, int)>::Err(ErrorKind::Other)
    } else if r1.2 == -1 {
        Outcome::<(R::V, Seq<E::V>, int)>::Ok(r0)
    } else {
        let gc = r1.1[r1.2];
        match power_spec::<E, R>(k, gc, d + 1) {
            Outcome::<E::V>::Err(e) => Outcome::<(R::V, Seq<E::V>, int)>::Err(e),
            Outcome::<E::V>::Ok(g) => match map_poly::<E, R>(r0, smul_fn::<E>(g)) {
                Outcome::<(R::V, Seq<E::V>, int)>::Err(e) => Outcome::<(R::V, Seq<E::V>, int)>::Err(e),
                Outcome::<(R::V, Seq<E::V>, int)>::Ok(r0g) => match divmod_spec::<E, R>(r0g, r1) {
                    Outcome::<((R::V, Seq<E::V>, int), (R::V, Seq<E::V>, int))>::Err(e) => Outcome::<
                        (R::V, Seq<E::V>, int),
                    >::Err(e),
                    Outcome::<((R::V, Seq<E::V>, int), (R::V, Seq<E::V>, int))>::Ok(qr) => match map_poly::<
                        E,
                        R,
                    >(qr.1, sdiv_fn::<E>(beta)) {
                        Outcome::<(R::V, Seq<E::V>, int)>::Err(e) => Outcome::<
                            (R::V, Seq<E::V>, int),
                        >::Err(e),
                        Outcome::<(R::V, Seq<E::V>, int)>::Ok(r2) => match power_spec::<E, R>(
                            k,
                            E::neg_spec(gc),
                            d,
                        ) {
                            Outcome::<E::V>::Err(e) => Outcome::<(R::V, Seq<E::V>, int)>::Err(e),
                            Outcome::<E::V>::Ok(g2) => match subres_psi::<E, R>(k, g2, psi, d) {
                                Outcome::<E::V>::Err(e) => Outcome::<(R::V, Seq<E::V>, int)>::Err(e),
                                Outcome::<E::V>::Ok(psi2) => match power_spec::<E, R>(
                                    k,
                                    psi2,
                                    r1.2 - r2.2,
                                ) {
                                    Outcome::<E::V>::Err(e) => Outcome::<(R::V, Seq<E::V>, int)>::Err(
                                        e,
                                    ),
                                    Outcome::<E::V>::Ok(p) => match E::mul_spec(E::neg_spec(gc), p) {
                                        Outcome::<E::V>::Err(e) => Outcome::<
                                            (R::V, Seq<E::V>, int),
                                        >::Err(e),
                                        Outcome::<E::V>::Ok(beta2) => subres_loop::<E, R>(
                                            k,
                                            r1,
                                            r2,
                                            psi2,
                                            r1.2 - r2.2,
                                            beta2,
                                            (fuel - 1) as nat,
                                        ),
                                    },
                                },
                            },
                        },
                    },
                },
            },
        }
    }
}

/// The subresultant gcd of `a` and `b`: the larger degree first.
pub open spec fn poly_gcd_spec<E: Elem, R: RingOps<E>>(
    a: (R::V, Seq<E::V>, int),
    b: (R::V, Seq<E::V>, int),
) -> Outcome<(R::V, Seq<E::V>, int)> {
    let k = a.0;
    let (x, y) = if a.2 < b.2 {
        (b, a)
    } else {
        (a, b)
    };
    let d = x.2 - y.2;
    subres_loop::<E, R>(
        k,
        x,
        y,
        R::from_int_spec(k, -1),
        d,
        neg_one_pow_spec::<E, R>(k, d + 1, 1),
        (y.2 + 2) as nat,
    )
}

/// Subresultant GCD.
pub fn gcd<E: Elem, R: RingOps<E>>(a: &Polynomial<E, R>, b: &Polynomial<E, R>) -> (r: core::result::Result<
    Polynomial<E, R>,
    Error,
>)
    requires
        Polynomial::<E, R>::wf_view(a@),
        Polynomial::<E, R>::wf_view(b@),
    ensures
        matches_outcome(r, poly_gcd_spec::<E, R>(a@, b@)),
        r matches Ok(p) ==> Polynomial::<E, R>::wf_view(p@),
{
    let k = a.coeff_ring.copy_ring();
    let empty: Vec<E> = Vec::new();
    assert(views::<E>(empty@) =~= Seq::<E::V>::empty());
    let zero: Polynomial<E, R> = Polynomial::new(k.copy_ring(), empty);
    let (x, y) = if a.degree < b.degree {
        (b.copy_poly(), a.copy_poly())
    } else {
        (a.copy_poly(), b.copy_poly())
    };
    let mut r0 = x;
    let mut r1 = y;
    let mut psi = k.from_int(-1);
    let mut d: isize = r0.degree - r1.degree;
    let mut beta: E = neg_one_pow(&k, d + 1, 1);
    let ghost mut fuel: nat = (r1@.2 + 2) as nat;
    let ghost target = subres_loop::<E, R>(k@, r0@, r1@, psi@, d as int, beta@, fuel);
    assert(target == poly_gcd_spec::<E, R>(a@, b@));
    while !Elem::equals(&r1, &zero)
        invariant
            R::ring_wf(k@),
            k@ == a@.0,
            Polynomial::<E, R>::wf_view(r0@),
            Polynomial::<E, R>::wf_view(r1@),
            zero@ == (k@, Seq::<E::V>::empty(), -1int),
            E::wf_spec(psi@),
            E::wf_spec(beta@),
            d == r0@.2 - r1@.2,
            fuel >= r1@.2 + 2,
            subres_loop::<E, R>(k@, r0@, r1@, psi@, d as int, beta@, fuel) == target,
            target == poly_gcd_spec::<E, R>(a@, b@),
        decreases r1@.2 + 2,
    {
        proof {
            assert(r1@.1[r1@.2] == r1.coeffs@[r1.degree as int]@);
        }
        let g_cur = r1.coeffs[r1.degree as usize].copy();
        let g = power(&k, &g_cur, &Int::from_i64((d + 1) as i64))?;
        let r0g = r0.smul(&g)?;
        let (_q, mut r2) = r0g.divmod_poly(&r1)?;
        proof {
            lemma_divmod_degree::<E, R>(r0g@, r1@);
        }
        let ghost r2a = r2@;
        r2.isdiv(&beta)?;
        proof {
            lemma_map_poly_len::<E, R>(r2a, sdiv_fn::<E>(beta@));
        }
        let mut g2 = power(&k, &g_cur.neg(), &Int::from_i64(d as i64))?;
        if d > 1 {
            let p = power(&k, &psi, &Int::from_i64((d - 1) as i64))?;
            g2.idiv(&p)?;
        } else if d < 1 {
            let p = power(&k, &psi, &Int::from_i64((1 - d) as i64))?;
            g2.imul(&p)?;
        }
        let d2: isize = r1.degree - r2.degree;
        let mut nb = g_cur.neg();
        let p = power(&k, &g2, &Int::from_i64(d2 as i64))?;
        nb.imul(&p)?;
        proof {
            fuel = (fuel - 1) as nat;
        }
        r0 = r1;
        r1 = r2;
        psi = g2;
        d = d2;
        beta = nb;
    }
    Ok(r0)
}

/// `resultant(a, b)`: the sign for the order of the arguments times the
/// constant gcd, or zero when the gcd is not constant.
pub open spec fn resultant_spec<E: Elem, R: RingOps<E>>(
    a: (R::V, Seq<E::V>, int),
    b: (R::V, Seq<E::V>, int),
) -> Outcome<E::V> {
    let k = a.0;
    let res0 = if a.2 < b.2 {
        E::mul_spec(R::one_spec(k), neg_one_pow_spec::<E, R>(k, a.2, b.2))
    } else {
        Outcome::<E::V>::Ok(R::one_spec(k))
    };
    match res0 {
        Outcome::<E::V>::Err(e) => Outcome::<E::V>::Err(e),
        Outcome::<E::V>::Ok(res) => match poly_gcd_spec::<E, R>(a, b) {
            Outcome::<(R::V, Seq<E::V>, int)>::Err(e) => Outcome::<E::V>::Err(e),
            Outcome::<(R::V, Seq<E::V>, int)>::Ok(g) => if g.2 == 0 {
                E::mul_spec(res, g.1[0])
            } else {
                Outcome::<E::V>::Ok(R::zero_spec(k))
            },
        },
    }
}

/// `resultant(a, b)`
pub fn resultant<E: Elem, R: RingOps<E>>(a: &Polynomial<E, R>, b: &Polynomial<E, R>) -> (r: core::result::Result<
    E,
    Error,
>)
    requires
        Polynomial::<E, R>::wf_view(a@),
        Polynomial::<E, R>::wf_view(b@),
    ensures
        matches_outcome(r, resultant_spec::<E, R>(a@, b@)),
        r matches Ok(v) ==> E::wf_spec(v@),
{
    let k = a.coeff_ring.copy_ring();
    let mut res = k.one();
    if a.degree < b.degree {
        let s: E = neg_one_pow(&k, a.degree, b.degree);
        res.imul(&s)?;
    }
    let g = gcd(a, b)?;
    if g.degree == 0 {
        proof {
            assert(g@.1[0] == g.coeffs@[0]@);
        }
        res.imul(&g.coeffs[0])?;
        Ok(res)
    } else {
        Ok(k.zero())
    }
}


/// Polynomials over the rationals.
pub type QQx = Polynomials<Fraction, QQ>;

/// Polynomials over the integers.
pub type ZZx = Polynomials<Integer, ZZ>;

/// A polynomial over the rationals.
pub type PolyQ = Polynomial<Fraction, QQ>;

pub fn qq_x() -> (r: QQx)
    ensures
        r@ == (),
{
    Polynomials::new(QQ)
}

pub fn zz_x() -> (r: ZZx)
    ensures
        r@ == (),
{
    Polynomials::new(ZZ)
}

/// `polynomial(coeffs)`: the rational polynomial with these coefficients,
/// lowest first.
pub fn polynomial(coeffs: Vec<Fraction>) -> (r: PolyQ)
    requires
        forall|i: int| 0 <= i < coeffs@.len() ==> #[trigger] coeffs@[i]@.1 > 0,
        coeffs@.len() <= max_len(),
    ensures
        r@ == poly_of::<Fraction, QQ>((), views::<Fraction>(coeffs@)),
        PolyQ::wf_view(r@),
{
    proof {
        assert forall|i: int| 0 <= i < views::<Fraction>(coeffs@).len() implies #[trigger] Fraction::wf_spec(
            views::<Fraction>(coeffs@)[i],
        ) by {
            assert(views::<Fraction>(coeffs@)[i] == coeffs@[i]@);
        }
    }
    Polynomial::new(QQ, coeffs)
}

/// The rational polynomial with these integer coefficients, lowest first.
pub fn polynomial_i64(coeffs: &[i64]) -> (r: PolyQ)
    requires
        coeffs@.len() <= max_len(),
    ensures
        r@ == poly_of::<Fraction, QQ>((), coeffs@.map_values(|c: i64| (c as int, 1int))),
        PolyQ::wf_view(r@),
{
    let mut v: Vec<Fraction> = Vec::new();
    let mut i: usize = 0;
    while i < coeffs.len()
        invariant
            i <= coeffs.len(),
            v@.len() == i,
            forall|j: int| 0 <= j < i ==> #[trigger] v@[j]@ == (coeffs@[j] as int, 1int),
        decreases coeffs.len() - i,
    {
        v.push(Fraction::from_int(coeffs[i]));
        i = i + 1;
    }
    assert(views::<Fraction>(v@) =~= coeffs@.map_values(|c: i64| (c as int, 1int)));
    polynomial(v)
}

/// The value of a polynomial at a point, by Horner's rule from zero.
pub open spec fn eval_spec<E: Elem, R: RingOps<E>>(p: (R::V, Seq<E::V>, int), x: E::V) -> Outcome<E::V> {
    horner::<E>(p.1, x, p.1.len(), Outcome::<E::V>::Ok(R::zero_spec(p.0)))
}

/// The formal derivative.
pub open spec fn derivative_spec<E: Elem, R: RingOps<E>>(p: (R::V, Seq<E::V>, int)) -> Outcome<
    (R::V, Seq<E::V>, int),
> {
    finish::<E, R>(
        p.0,
        deriv_loop::<E, R>(
            p.0,
            p.1,
            if p.2 > 0 {
                p.2 as nat
            } else {
                0
            },
        ),
    )
}

/// Counting sign changes along the Sturm sequence from `(p0, p1)` at `x`,
/// with `prev` the last nonzero sign seen; degrees fall, so the fuel
/// `sturm_spec` gives suffices.
pub open spec fn sturm_loop(
    p0: ((), Seq<(int, int)>, int),
    p1: ((), Seq<(int, int)>, int),
    x: (int, int),
    prev: int,
    changes: int,
    fuel: nat,
) -> Outcome<int>
    decreases fuel,
{
    if fuel == 0 {
        Outcome::<int>::Err(ErrorKind::Other)
    } else if p1.2 < 0 {
        Outcome::<int>::Ok(changes)
    } else {
        match eval_spec::<Fraction, QQ>(p1, x) {
            Outcome::<(int, int)>::Err(e) => Outcome::<int>::Err(e),
            Outcome::<(int, int)>::Ok(v) => {
                let cur = sign_of(v.0);
                let changes2 = if cur != 0 && prev != 0 && cur != prev {
                    changes + 1
                } else {
                    changes
                };
                let prev2 = if cur != 0 {
                    cur
                } else {
                    prev
                };
                match divmod_spec::<Fraction, QQ>(p0, p1) {
                    Outcome::<
                        (((), Seq<(int, int)>, int), ((), Seq<(int, int)>, int)),
                    >::Err(e) => Outcome::<int>::Err(e),
                    Outcome::<(((), Seq<(int, int)>, int), ((), Seq<(int, int)>, int))>::Ok(qr) => {
                        sturm_loop(
                            p1,
                            PolyQ::neg_spec(qr.1),
                            x,
                            prev2,
                            changes2,
                            (fuel - 1) as nat,
                        )
                    },
                }
            },
        }
    }
}

/// The number of sign changes in the Sturm sequence of `p` at `x`.
pub open spec fn sturm_spec(p: ((), Seq<(int, int)>, int), x: (int, int)) -> Outcome<int> {
    match derivative_spec::<Fraction, QQ>(p) {
        Outcome::<((), Seq<(int, int)>, int)>::Err(e) => Outcome::<int>::Err(e),
        Outcome::<((), Seq<(int, int)>, int)>::Ok(p1) => match eval_spec::<Fraction, QQ>(p, x) {
            Outcome::<(int, int)>::Err(e) => Outcome::<int>::Err(e),
            Outcome::<(int, int)>::Ok(v) => sturm_loop(p, p1, x, sign_of(v.0), 0, (p1.2 + 2) as nat),
        },
    }
}

/// The derivative has no more coefficients than the polynomial.
proof fn lemma_derivative_len<E: Elem, R: RingOps<E>>(p: (R::V, Seq<E::V>, int))
    requires
        Polynomial::<E, R>::wf_view(p),
    ensures
        derivative_spec::<E, R>(p) matches Outcome::<(R::V, Seq<E::V>, int)>::Ok(d) ==> d.2 < p.2
            || d.2 == -1,
{
    let j: nat = if p.2 > 0 {
        p.2 as nat
    } else {
        0
    };
    lemma_deriv_loop::<E, R>(p.0, p.1, j);
    if let Outcome::<Seq<E::V>>::Ok(c) = deriv_loop::<E, R>(p.0, p.1, j) {
        lemma_trim::<E>(c);
    }
}

/// Number of sign changes in the Sturm sequence at `arg`.
fn sturm_sequence(p0: &PolyQ, arg: &Fraction) -> (r: core::result::Result<i32, Error>)
    requires
        PolyQ::wf_view(p0@),
        arg@.1 > 0,
        p0@.2 < 0x4000_0000,
    ensures
        matches_sturm(r, sturm_spec(p0@, arg@)),
        r matches Ok(c) ==> 0 <= c <= p0@.2 + 1,
{
    let mut a = p0.copy_poly();
    let mut b = a.derivative()?;
    proof {
        lemma_derivative_len::<Fraction, QQ>(p0@);
    }
    let mut prev_sign = a.eval(arg)?.sign();
    let mut changes: i32 = 0;
    let ghost mut fuel: nat = (b@.2 + 2) as nat;
    let ghost target = sturm_loop(a@, b@, arg@, prev_sign as int, 0, fuel);
    while b.degree >= 0
        invariant
            PolyQ::wf_view(a@),
            PolyQ::wf_view(b@),
            arg@.1 > 0,
            fuel >= b@.2 + 2,
            b@.2 < a@.2 || b@.2 == -1,
            0 <= changes,
            changes + b@.2 + 1 <= p0@.2 + 1,
            p0@.2 < 0x4000_0000,
            -1 <= prev_sign <= 1,
            sturm_loop(a@, b@, arg@, prev_sign as int, changes as int, fuel) == target,
            target == sturm_spec(p0@, arg@),
        decreases b@.2 + 2,
    {
        let cur_sign = b.eval(arg)?.sign();
        if cur_sign != 0 {
            if prev_sign != 0 && cur_sign != prev_sign {
                changes = changes + 1;
            }
            prev_sign = cur_sign;
        }
        let m = Euclidean::modulo(&a, &b)?;
        let next = Elem::neg(&m);
        proof {
            lemma_trim::<Fraction>(neg_all::<Fraction>(m@.1));
            fuel = (fuel - 1) as nat;
        }
        a = b;
        b = next;
    }
    Ok(changes)
}

/// Whether a sign-change count is the one the spec gives.
pub open spec fn matches_sturm(r: core::result::Result<i32, Error>, o: Outcome<int>) -> bool {
    match r {
        Ok(c) => o == Outcome::<int>::Ok(c as int),
        Err(e) => o == Outcome::<int>::Err(e.spec_error_kind()),
    }
}

/// The number of real roots in `[lower, upper]`, by Sturm's theorem: one
/// for a root at `lower`, plus the sign changes lost from `lower` to
/// `upper`.
pub open spec fn count_roots_spec(p: ((), Seq<(int, int)>, int), lower: (int, int), upper: (int, int)) -> Outcome<
    int,
> {
    match eval_spec::<Fraction, QQ>(p, lower) {
        Outcome::<(int, int)>::Err(e) => Outcome::<int>::Err(e),
        Outcome::<(int, int)>::Ok(v) => {
            let at_lower: int = if v.0 == 0 {
                1
            } else {
                0
            };
            match sturm_spec(p, lower) {
                Outcome::<int>::Err(e) => Outcome::<int>::Err(e),
                Outcome::<int>::Ok(s1) => match sturm_spec(p, upper) {
                    Outcome::<int>::Err(e) => Outcome::<int>::Err(e),
                    Outcome::<int>::Ok(s2) => Outcome::<int>::Ok(at_lower + s1 - s2),
                },
            }
        },
    }
}

/// Number of real roots in the closed interval `[lower, upper]`.
pub fn count_roots(p: &PolyQ, lower: &Fraction, upper: &Fraction) -> (r: core::result::Result<i32, Error>)
    requires
        PolyQ::wf_view(p@),
        lower@.1 > 0,
        upper@.1 > 0,
        p@.2 < 0x4000_0000,
    ensures
        matches_sturm(r, count_roots_spec(p@, lower@, upper@)),
{
    let v = p.eval(lower)?;
    let at_lower: i32 = if v.sign() == 0 {
        1
    } else {
        0
    };
    let s1 = sturm_sequence(p, lower)?;
    let s2 = sturm_sequence(p, upper)?;
    Ok(at_lower + s1 - s2)
}


/// `compare` on degrees, as the Euclidean `gcd` driver uses it.
pub fn degree_cmp<E: Elem, R: RingOps<E>>(a: &Polynomial<E, R>, b: &Polynomial<E, R>) -> (r: Ordering)
    ensures
        r == ordering_of(a@.2, b@.2),
{
    if a.degree < b.degree {
        Ordering::Less
    } else if a.degree == b.degree {
        Ordering::Equal
    } else {
        Ordering::Greater
    }
}


/// The quotient of Euclidean division has degree at most the difference of
/// the degrees.
pub proof fn lemma_divmod_quot_degree<E: Elem, R: RingOps<E>>(
    a: (R::V, Seq<E::V>, int),
    b: (R::V, Seq<E::V>, int),
)
    requires
        Polynomial::<E, R>::wf_view(a),
        Polynomial::<E, R>::wf_view(b),
    ensures
        divmod_spec::<E, R>(a, b) matches Outcome::<
            ((R::V, Seq<E::V>, int), (R::V, Seq<E::V>, int)),
        >::Ok((q, r)) ==> (q.2 <= a.2 - b.2 || q.2 == -1) && q.2 == q.1.len() - 1,
{
    if b.2 == -1 {
    } else if a.2 < b.2 {
        if let Outcome::<((R::V, Seq<E::V>, int), (R::V, Seq<E::V>, int))>::Ok((q, r)) = divmod_spec::<
            E,
            R,
        >(a, b) {
            assert(q == (a.0, Seq::<E::V>::empty(), -1int));
        }
    } else {
        if let Outcome::<(E::V, (R::V, Seq<E::V>, int), (R::V, Seq<E::V>, int))>::Ok((p, q, r)) =
            pseudo_divmod_spec::<E, R>(a, b) {
            let (pp, c) = pd_loop::<E>(a.1, R::one_spec(a.0), b.1, b.1[b.2], a.2, b.2, a.2)->Ok_0;
            let lo = if b.2 < c.len() {
                b.2
            } else {
                c.len() as int
            };
            let hi = if a.2 + 1 < c.len() {
                a.2 + 1
            } else {
                c.len() as int
            };
            let qs = if lo <= hi {
                c.subrange(lo, hi)
            } else {
                seq![]
            };
            assert(pd_split::<E, R>(a.0, c, a.2, b.2).0 == poly_of::<E, R>(a.0, qs));
            assert(q == poly_of::<E, R>(a.0, qs));
            lemma_trim::<E>(qs);
            assert(qs.len() <= a.2 + 1 - b.2);
            assert(q.1.len() <= a.2 + 1 - b.2);
            lemma_map_poly_len::<E, R>(q, sdiv_fn::<E>(p));
            if let Outcome::<(R::V, Seq<E::V>, int)>::Ok(q2) = map_poly::<E, R>(q, sdiv_fn::<E>(p)) {
                assert(q2.2 <= a.2 - b.2);
            }
        }
    }
}

/// The superscript form of a decimal digit.
pub open spec fn sup_digit(d: int) -> char {
    if d == 0 {
        '⁰'
    } else if d == 1 {
        '¹'
    } else if d == 2 {
        '²'
    } else if d == 3 {
        '³'
    } else if d == 4 {
        '⁴'
    } else if d == 5 {
        '⁵'
    } else if d == 6 {
        '⁶'
    } else if d == 7 {
        '⁷'
    } else if d == 8 {
        '⁸'
    } else {
        '⁹'
    }
}

/// The decimal digits of `n` in superscript, most significant first.
pub open spec fn superscript(n: nat) -> Seq<char>
    decreases n,
{
    if n < 10 {
        seq![sup_digit(n as int)]
    } else {
        superscript(n / 10) + seq![sup_digit((n % 10) as int)]
    }
}

/// The text of term `i`: nothing for a zero coefficient; otherwise ` + `
/// below the leading term, the coefficient unless it is one above the
/// constant term (in parentheses when it is itself a polynomial), then `x`
/// and the exponent in superscript.
pub open spec fn term_text<E: Elem, R: RingOps<E>>(v: (R::V, Seq<E::V>, int), i: int) -> Seq<char> {
    let c = v.1[i];
    if E::is_zero_spec(c) {
        Seq::empty()
    } else {
        (if i < v.2 {
            seq![' ', '+', ' ']
        } else {
            Seq::empty()
        }) + (if !E::equals_spec(c, R::one_spec(v.0)) || i == 0 {
            if E::is_poly_spec() {
                seq!['('] + E::text_spec(c) + seq![')']
            } else {
                E::text_spec(c)
            }
        } else {
            Seq::empty()
        }) + (if i >= 1 {
            seq!['x']
        } else {
            Seq::empty()
        }) + (if i > 1 {
            superscript(i as nat)
        } else {
            Seq::empty()
        })
    }
}

/// The texts of terms `i` down to the constant term.
pub open spec fn terms_text<E: Elem, R: RingOps<E>>(v: (R::V, Seq<E::V>, int), i: int) -> Seq<char>
    decreases i + 1,
{
    if i < 0 {
        Seq::empty()
    } else {
        term_text::<E, R>(v, i) + terms_text::<E, R>(v, i - 1)
    }
}

/// The text of a polynomial: `0`, or its terms from the highest power down.
pub open spec fn poly_text<E: Elem, R: RingOps<E>>(v: (R::V, Seq<E::V>, int)) -> Seq<char> {
    if v.2 == -1 {
        seq!['0']
    } else {
        terms_text::<E, R>(v, v.2)
    }
}

/// The superscript digits of `n`.
fn superscript_text(n: usize) -> (r: String)
    ensures
        r@ == superscript(n as nat),
    decreases n,
{
    let d = n % 10;
    proof {
        reveal_strlit("⁰");
        reveal_strlit("¹");
        reveal_strlit("²");
        reveal_strlit("³");
        reveal_strlit("⁴");
        reveal_strlit("⁵");
        reveal_strlit("⁶");
        reveal_strlit("⁷");
        reveal_strlit("⁸");
        reveal_strlit("⁹");
    }
    let digit = if d == 0 {
        "⁰"
    } else if d == 1 {
        "¹"
    } else if d == 2 {
        "²"
    } else if d == 3 {
        "³"
    } else if d == 4 {
        "⁴"
    } else if d == 5 {
        "⁵"
    } else if d == 6 {
        "⁶"
    } else if d == 7 {
        "⁷"
    } else if d == 8 {
        "⁸"
    } else {
        "⁹"
    };
    assert(digit@ =~= seq![sup_digit(d as int)]);
    if n < 10 {
        String::from_str(digit)
    } else {
        let mut t = superscript_text(n / 10);
        t.append(digit);
        t
    }
}

impl<E: Elem, R: RingOps<E>> Polynomial<E, R> {
    /// The text of the polynomial, highest power first, as `Display` writes
    /// it: `0` for the zero polynomial.
    pub fn to_string(&self) -> (r: String)
        requires
            Self::wf_view(self@),
        ensures
            r@ == poly_text::<E, R>(self@),
    {
        if self.degree == -1 {
            proof {
                reveal_strlit("0");
                assert("0"@ =~= seq!['0']);
            }
            return String::from_str("0");
        }
        proof {
            reveal_strlit(" + ");
            reveal_strlit("(");
            reveal_strlit(")");
            reveal_strlit("x");
        }
        let ghost v = self@;
        let one = self.coeff_ring.one();
        let mut out = String::new();
        let mut i: isize = self.degree;
        proof {
            assert(out@ + terms_text::<E, R>(v, i as int) =~= terms_text::<E, R>(v, v.2));
        }
        while i >= 0
            invariant
                -1 <= i <= self.degree,
                v == self@,
                Self::wf_view(v),
                one@ == R::one_spec(v.0),
                E::wf_spec(one@),
                " + "@ == seq![' ', '+', ' '],
                "("@ == seq!['('],
                ")"@ == seq![')'],
                "x"@ == seq!['x'],
                out@ + terms_text::<E, R>(v, i as int) == terms_text::<E, R>(v, v.2),
            decreases i + 1,
        {
            let ghost before = out@;
            let c = &self.coeffs[i as usize];
            proof {
                assert(v.1[i as int] == c@);
            }
            if !c.is_zero() {
                if i < self.degree {
                    out.append(" + ");
                }
                if !c.equals(&one) || i == 0 {
                    if E::is_poly() {
                        out.append("(");
                        let t = c.text();
                        out.append(t.as_str());
                        out.append(")");
                    } else {
                        let t = c.text();
                        out.append(t.as_str());
                    }
                }
                if i >= 1 {
                    out.append("x");
                }
                if i > 1 {
                    let t = superscript_text(i as usize);
                    out.append(t.as_str());
                }
            }
            proof {
                assert(out@ =~= before + term_text::<E, R>(v, i as int));
                assert(before + terms_text::<E, R>(v, i as int) =~= out@ + terms_text::<E, R>(v, i - 1));
            }
            i = i - 1;
        }
        proof {
            assert(out@ =~= terms_text::<E, R>(v, v.2));
        }
        out
    }
}

} // verus!
