//! Factorization of rational polynomials over the rationals.
//!
//! Berlekamp-Zassenhaus: make squarefree and primitive, factor mod a small
//! prime (distinct-degree, then Cantor-Zassenhaus), Hensel-lift to a prime
//! power, then recombine.

use vstd::prelude::*;

use super::digits::{tdiv, trem};
use super::divisibility::{gcd, lemma_gcd_divides};
use super::fraction::{Fraction, QQ};
use super::integers::{factorial, sign_of, Int};
use super::polynomial::{
    derivative_spec, divmod_spec, finish, lemma_divmod_quot_degree, lemma_map_loop, lemma_map_poly_len,
    lemma_map_loop_err, lemma_trim, map_loop, map_poly, max_len, monic_spec, poly_div_spec,
    poly_of, sdiv_fn, smul_fn, views, PolyQ, Polynomial, Polynomials,
};
use super::ring::{
    extended_gcd, extended_gcd_spec, gcd as ring_gcd, gcd_spec, integer_divmod_spec,
    matches_outcome, obind, power_mod, power_mod_spec, product, product_loop, reduce_mod,
    residue_in_range, Elem,
    Euclidean, Integer, IntegerMod, IntegersMod, Outcome, RingOps, ZZ,
};
use crate::error::{Error, ErrorKind};

verus! {

/// The `k`-subsets that `combinations` visits from position `i` with the
/// chosen `prefix`, lexicographically by position: those with `xs[i]`
/// first, then those without.
pub open spec fn combos<T>(xs: Seq<T>, k: int, i: int, prefix: Seq<T>) -> Seq<Seq<T>>
    decreases xs.len() + 1 - i,
{
    if i > xs.len() || i < 0 {
        seq![]
    } else if i + k == xs.len() {
        seq![prefix + xs.skip(i)]
    } else {
        (if k > 0 && i < xs.len() {
            combos(xs, k - 1, i + 1, prefix.push(xs[i]))
        } else {
            seq![]
        }) + combos(xs, k, i + 1, prefix)
    }
}

/// Every `k`-subset of `xs` from position `i`, appended to `out`.
fn combinations<T: Copy>(
    xs: &[T],
    k: isize,
    i: usize,
    prefix: &mut Vec<T>,
    out: &mut Vec<Vec<T>>,
)
    requires
        i <= xs.len() + 1,
        k <= xs.len() - i,
    ensures
        final(prefix)@ == old(prefix)@,
        final(out)@.map_values(|v: Vec<T>| v@) == old(out)@.map_values(|v: Vec<T>| v@) + combos(
            xs@,
            k as int,
            i as int,
            old(prefix)@,
        ),
    decreases xs.len() + 1 - i,
{
    let ghost out0 = out@.map_values(|v: Vec<T>| v@);
    let ghost p0 = prefix@;
    if i > xs.len() {
        assert(out@.map_values(|v: Vec<T>| v@) =~= out0 + combos(xs@, k as int, i as int, p0));
        return ;
    }
    if k >= 0 && i + (k as usize) == xs.len() {
        let mut c: Vec<T> = Vec::new();
        let mut j: usize = 0;
        while j < prefix.len()
            invariant
                j <= prefix.len(),
                prefix@ == p0,
                c@ == p0.take(j as int),
            decreases prefix.len() - j,
        {
            c.push(prefix[j]);
            j = j + 1;
            assert(c@ =~= p0.take(j as int));
        }
        let mut j: usize = i;
        while j < xs.len()
            invariant
                i <= j <= xs.len(),
                c@ == p0 + xs@.subrange(i as int, j as int),
            decreases xs.len() - j,
        {
            c.push(xs[j]);
            j = j + 1;
            assert(c@ =~= p0 + xs@.subrange(i as int, j as int));
        }
        assert(xs@.subrange(i as int, xs.len() as int) =~= xs@.skip(i as int));
        assert(p0.take(p0.len() as int) =~= p0);
        out.push(c);
        assert(out@.map_values(|v: Vec<T>| v@) =~= out0 + combos(xs@, k as int, i as int, p0));
        return ;
    }
    if i == xs.len() {
        // Past the last element nothing more can be chosen.
        assert(combos(xs@, k as int, i + 1, p0) =~= Seq::<Seq<T>>::empty());
        assert(out@.map_values(|v: Vec<T>| v@) =~= out0 + combos(xs@, k as int, i as int, p0));
        return ;
    }
    if k > 0 {
        prefix.push(xs[i]);
        combinations(xs, k - 1, i + 1, prefix, out);
        prefix.pop();
        assert(prefix@ =~= p0);
    }
    combinations(xs, k, i + 1, prefix, out);
    assert(out@.map_values(|v: Vec<T>| v@) =~= out0 + combos(xs@, k as int, i as int, p0));
}

/// Every `k`-subset of `xs`, lexicographically by position: the order
/// factor recombination visits them in.
pub fn combinations_vec<T: Copy>(xs: &[T], k: isize) -> (r: Vec<Vec<T>>)
    requires
        k <= xs.len(),
    ensures
        r@.map_values(|v: Vec<T>| v@) == combos(xs@, k as int, 0, Seq::empty()),
{
    let mut out: Vec<Vec<T>> = Vec::new();
    let mut prefix: Vec<T> = Vec::new();
    combinations(xs, k, 0, &mut prefix, &mut out);
    assert(prefix@ =~= Seq::<T>::empty());
    out
}


/* -------------------------------------------------------------------------- */
/*  A deterministic stream of random bits                                     */
/* -------------------------------------------------------------------------- */

/// The generator behind Cantor-Zassenhaus's random polynomials: only the
/// order in which factors are found depends on its draws, not the factors,
/// so a deterministic stream keeps runs reproducible.
pub struct BitStream {
    pub state: u64,
}

/// One xorshift64 step.
pub open spec fn xorshift(x: u64) -> u64 {
    let a = x ^ (x << 13u64);
    let b = a ^ (a >> 7u64);
    b ^ (b << 17u64)
}

/// The bit a state yields: bit 33.
pub open spec fn state_bit(x: u64) -> bool {
    (x >> 33u64) & 1u64 == 1u64
}

impl BitStream {
    /// A stream from the fixed starting state.
    pub fn new() -> (r: BitStream)
        ensures
            r.state == 0x2545_F491_4F6C_DD1Du64,
    {
        BitStream { state: 0x2545_F491_4F6C_DD1D }
    }
}

/// The next bit of the stream.
pub fn next_bit(rng: &mut BitStream) -> (r: bool)
    ensures
        final(rng).state == xorshift(old(rng).state),
        r == state_bit(xorshift(old(rng).state)),
{
    let mut x = rng.state;
    x = x ^ (x << 13);
    x = x ^ (x >> 7);
    x = x ^ (x << 17);
    rng.state = x;
    (x >> 33) & 1 == 1
}

/// Building a number bit by bit while halving `m`: the number and the
/// generator's state afterwards.
pub open spec fn random_loop(state: u64, r: int, m: int) -> (int, u64)
    decreases (if m > 0 {
        m
    } else {
        0
    }),
{
    if m <= 0 {
        (r, state)
    } else {
        let s = xorshift(state);
        proof {
            assert(tdiv(m, 2) == m / 2);
        }
        random_loop(
            s,
            2 * r + if state_bit(s) {
                1int
            } else {
                0int
            },
            tdiv(m, 2),
        )
    }
}

/// `random(n)`: as many random bits as `n` has, reduced modulo `n`.
pub open spec fn random_spec(state: u64, n: int) -> (int, u64) {
    let (r, s) = random_loop(state, 0, n);
    (trem(r, n), s)
}

/// A uniform-ish integer in `[0, n)`, built bit by bit.
pub fn random(rng: &mut BitStream, n: &Int) -> (r: Int)
    requires
        n@ != 0,
    ensures
        (r@, final(rng).state) == random_spec(old(rng).state, n@),
{
    let two = Int::from_i64(2);
    let one = Int::from_i64(1);
    let mut r = Int::from_i64(0);
    let mut m = n.clone();
    while m.sign() > 0
        invariant
            two@ == 2,
            one@ == 1,
            random_loop(rng.state, r@, m@) == random_loop(old(rng).state, 0, n@),
        decreases m@,
    {
        r = r.mul(&two);
        if next_bit(rng) {
            r = r.add(&one);
        }
        let ghost m0 = m@;
        m = m.div(&two);
        proof {
            assert(m0 > 0);
            assert(vstd::math::abs(m0) == m0);
            assert(vstd::math::abs(2int) == 2);
            assert(tdiv(m0, 2) == (m0 as nat / 2nat) as int);
            assert(m@ == tdiv(m0, 2));
            assert((m0 as nat / 2nat) < m0) by (nonlinear_arith)
                requires
                    m0 > 0,
            ;
            assert(m@ < m0);
        }
    }
    r.rem(n)
}


/* -------------------------------------------------------------------------- */
/*  Integer and modular polynomials                                           */
/* -------------------------------------------------------------------------- */

/// A polynomial over the integers.
pub type PolyZ = Polynomial<Integer, ZZ>;

/// A polynomial over the integers modulo `p`.
pub type PolyFp = Polynomial<IntegerMod, IntegersMod>;

/// The residues of integer coefficients modulo `p`.
pub open spec fn residues(s: Seq<int>, p: int) -> Seq<(int, int)> {
    s.map_values(|c: int| (reduce_mod(c, p), p))
}

/// The integer representatives of residues.
pub open spec fn representatives(s: Seq<(int, int)>) -> Seq<int> {
    s.map_values(|c: (int, int)| c.0)
}

/// A modular polynomial read as an integer polynomial.
fn to_zz(a: &PolyFp) -> (r: PolyZ)
    requires
        PolyFp::wf_view(a@),
    ensures
        r@ == poly_of::<Integer, ZZ>((), representatives(a@.1)),
        PolyZ::wf_view(r@),
{
    let mut v: Vec<Integer> = Vec::new();
    let mut i: usize = 0;
    while i < a.coeffs.len()
        invariant
            i <= a.coeffs.len(),
            PolyFp::wf_view(a@),
            v@.len() == i,
            forall|j: int| 0 <= j < i ==> #[trigger] v@[j]@ == a@.1[j].0,
        decreases a.coeffs.len() - i,
    {
        proof {
            assert(a@.1[i as int] == a.coeffs@[i as int]@);
        }
        v.push(Integer::new(a.coeffs[i].n.clone()));
        i = i + 1;
    }
    assert(views::<Integer>(v@) =~= representatives(a@.1));
    Polynomial::new(ZZ, v)
}

/// An integer polynomial reduced modulo `p`.
fn to_fp(a: &PolyZ, p: &Int) -> (r: PolyFp)
    requires
        PolyZ::wf_view(a@),
        p@ != 0,
    ensures
        r@ == poly_of::<IntegerMod, IntegersMod>(p@, residues(a@.1, p@)),
        PolyFp::wf_view(r@),
{
    let mut v: Vec<IntegerMod> = Vec::new();
    let mut i: usize = 0;
    while i < a.coeffs.len()
        invariant
            i <= a.coeffs.len(),
            PolyZ::wf_view(a@),
            p@ != 0,
            v@.len() == i,
            forall|j: int| 0 <= j < i ==> #[trigger] v@[j]@ == (reduce_mod(a@.1[j], p@), p@),
            forall|j: int| 0 <= j < i ==> residue_in_range(#[trigger] v@[j]@.0, v@[j]@.1),
        decreases a.coeffs.len() - i,
    {
        proof {
            assert(a@.1[i as int] == a.coeffs@[i as int]@);
        }
        v.push(IntegerMod::new(a.coeffs[i].n.clone(), p.clone()));
        i = i + 1;
    }
    assert(views::<IntegerMod>(v@) =~= residues(a@.1, p@));
    assert forall|j: int| 0 <= j < views::<IntegerMod>(v@).len() implies #[trigger] IntegerMod::wf_spec(
        views::<IntegerMod>(v@)[j],
    ) by {
        assert(views::<IntegerMod>(v@)[j] == v@[j]@);
    }
    Polynomial::new(IntegersMod::new(p.clone()), v)
}

/// The sum of the squares of the first `j` coefficients.
pub open spec fn sum_squares(s: Seq<int>, j: nat) -> int
    decreases j,
{
    if j == 0 {
        0
    } else {
        sum_squares(s, (j - 1) as nat) + s[j - 1] * s[j - 1]
    }
}

/// Whether `r` is the upper square root of `n`: `n` itself for `n <= 1`,
/// else the `r` with `(r - 1)^2 <= n < r^2`.
pub open spec fn is_sqrt_upper(n: int, r: int) -> bool {
    &&& n <= 1 ==> r == n
    &&& n >= 2 ==> (r - 1) * (r - 1) <= n < r * r
}

/// The upper square root of `n`.
pub open spec fn sqrt_upper_of(n: int) -> int {
    choose|r: int| is_sqrt_upper(n, r)
}

/// The upper square root is unique.
proof fn lemma_sqrt_upper_unique(n: int, r: int)
    requires
        is_sqrt_upper(n, r),
    ensures
        sqrt_upper_of(n) == r,
{
    let s = sqrt_upper_of(n);
    assert(is_sqrt_upper(n, s));
    if n >= 2 {
        assert(r >= 1) by (nonlinear_arith)
            requires
                (r - 1) * (r - 1) <= n < r * r,
        ;
        assert(s >= 1) by (nonlinear_arith)
            requires
                (s - 1) * (s - 1) <= n < s * s,
        ;
        if s < r {
            assert(s * s <= (r - 1) * (r - 1)) by (nonlinear_arith)
                requires
                    1 <= s <= r - 1,
            ;
        }
        if r < s {
            assert(r * r <= (s - 1) * (s - 1)) by (nonlinear_arith)
                requires
                    1 <= r <= s - 1,
            ;
        }
    }
}

/// The binomial coefficient as `Int::comb` computes it.
pub open spec fn comb_spec(n: int, k: int) -> int {
    tdiv(factorial(n), factorial(k) * factorial(n - k))
}

/// Mignotte's bound on the coefficients of factors of degree at most half
/// the degree, with `s` the upper square root of the sum of squares.
pub open spec fn factor_bound_spec(v: ((), Seq<int>, int), s: int) -> int {
    let d = tdiv(v.2, 2);
    comb_spec(d - 1, tdiv(d, 2) - 1) * v.1.last() + comb_spec(d - 1, tdiv(d, 2)) * s
}

/// Bound on the coefficients of factors of degree `<= deg(P)/2`.
fn factor_bound(p: &PolyZ) -> (r: core::result::Result<Int, Error>)
    requires
        PolyZ::wf_view(p@),
    ensures
        r is Err <==> p@.2 < 0,
        r matches Err(e) ==> e.spec_error_kind() == ErrorKind::Other,
        r matches Ok(b) ==> b@ == factor_bound_spec(
            p@,
            sqrt_upper_of(sum_squares(p@.1, p@.1.len())),
        ),
{
    let two = Int::from_i64(2);
    let one = Int::from_i64(1);
    let d = Int::from_i64(p.degree as i64).div(&two);
    let mut n = Int::from_i64(0);
    let mut i: usize = 0;
    while i < p.coeffs.len()
        invariant
            i <= p.coeffs.len(),
            PolyZ::wf_view(p@),
            n@ == sum_squares(p@.1, i as nat),
        decreases p.coeffs.len() - i,
    {
        proof {
            assert(p@.1[i as int] == p.coeffs@[i as int]@);
        }
        n = n.add(&p.coeffs[i].n.mul(&p.coeffs[i].n));
        i = i + 1;
    }
    let ghost nsq = n@;
    n = n.sqrt_upper();
    let lc = match p.lc() {
        Some(c) => c,
        None => {
            return Err(Error::Other("factor_bound of zero polynomial".to_owned()));
        },
    };
    let a = Int::comb(&d.sub(&one), &d.div(&two).sub(&one)).mul(&lc.n);
    let b = Int::comb(&d.sub(&one), &d.div(&two)).mul(&n);
    let r = a.add(&b);
    proof {
        assert(is_sqrt_upper(nsq, n@));
        lemma_sqrt_upper_unique(nsq, n@);
        assert(r@ == factor_bound_spec(p@, n@));
    }
    Ok(r)
}

/// The running gcd of numerators and lcm of denominators over the first
/// `j` coefficients, from the first coefficient's.
pub open spec fn content_fold(s: Seq<(int, int)>, j: nat) -> (int, int)
    decreases j,
{
    if j == 0 {
        (s[0].0, s[0].1)
    } else {
        let (g, l) = content_fold(s, (j - 1) as nat);
        let c = s[j - 1];
        (
            gcd(vstd::math::abs(g), vstd::math::abs(c.0)) as int,
            tdiv(l * c.1, gcd(vstd::math::abs(l), vstd::math::abs(c.1)) as int),
        )
    }
}

/// A rational coefficient scaled to the integer that `factor_squarefree`
/// keeps: times the lcm of denominators, over its own denominator, over the
/// gcd of numerators.
pub open spec fn primitive_coeffs(s: Seq<(int, int)>, g: int, l: int) -> Seq<int> {
    s.map_values(|c: (int, int)| tdiv(tdiv(c.0 * l, c.1), g))
}

/// `factor_squarefree`: `a` over the monic gcd of `a` and `a'`, made
/// primitive with integer coefficients.
pub open spec fn squarefree_spec(a: ((), Seq<(int, int)>, int)) -> Outcome<((), Seq<int>, int)> {
    match derivative_spec::<Fraction, QQ>(a) {
        Outcome::<((), Seq<(int, int)>, int)>::Err(e) => Outcome::<((), Seq<int>, int)>::Err(e),
        Outcome::<((), Seq<(int, int)>, int)>::Ok(da) => match gcd_spec::<PolyQ, Polynomials<Fraction, QQ>>(
            (),
            a,
            da,
        ) {
            Outcome::<((), Seq<(int, int)>, int)>::Err(e) => Outcome::<((), Seq<int>, int)>::Err(e),
            Outcome::<((), Seq<(int, int)>, int)>::Ok(g) => if g.2 < 0 {
                Outcome::<((), Seq<int>, int)>::Err(ErrorKind::Range)
            } else {
                let gm = super::polynomial::map_poly::<Fraction, QQ>(
                    g,
                    super::polynomial::sdiv_fn::<Fraction>(g.1.last()),
                );
                match gm {
                    Outcome::<((), Seq<(int, int)>, int)>::Err(e) => Outcome::<((), Seq<int>, int)>::Err(
                        e,
                    ),
                    Outcome::<((), Seq<(int, int)>, int)>::Ok(gm) => match poly_div_spec::<Fraction, QQ>(
                        a,
                        gm,
                    ) {
                        Outcome::<((), Seq<(int, int)>, int)>::Err(e) => Outcome::<
                            ((), Seq<int>, int),
                        >::Err(e),
                        Outcome::<((), Seq<(int, int)>, int)>::Ok(sf) => if sf.1.len() == 0 {
                            Outcome::<((), Seq<int>, int)>::Err(ErrorKind::Other)
                        } else {
                            let (g, l) = content_fold(sf.1, sf.1.len());
                            Outcome::<((), Seq<int>, int)>::Ok(
                                poly_of::<Integer, ZZ>((), primitive_coeffs(sf.1, g, l)),
                            )
                        },
                    },
                }
            },
        },
    }
}

/// A positive argument makes the gcd positive.
proof fn lemma_gcd_pos(a: nat, b: nat)
    requires
        a > 0 || b > 0,
    ensures
        gcd(a, b) > 0,
{
    lemma_gcd_divides(a, b);
}

/// Make `a` squarefree and primitive, returning an integer polynomial.
fn factor_squarefree(a: &PolyQ) -> (r: core::result::Result<PolyZ, Error>)
    requires
        PolyQ::wf_view(a@),
    ensures
        matches_outcome(r, squarefree_spec(a@)),
        r matches Ok(z) ==> PolyZ::wf_view(z@),
{
    let qq_x: Polynomials<Fraction, QQ> = Polynomials::new(QQ);
    let da = a.derivative()?;
    let g = ring_gcd(&qq_x, a, &da)?;
    let gm = g.monic()?;
    let a_sf = Elem::div(a, &gm)?;
    if a_sf.coeffs.len() == 0 {
        return Err(Error::Other("factor_squarefree of zero polynomial".to_owned()));
    }
    proof {
        assert(a_sf@.1[0] == a_sf.coeffs@[0]@);
        assert(Fraction::wf_spec(a_sf@.1[0]));
    }
    let mut n_gcd = a_sf.coeffs[0].n.clone();
    let mut d_lcm = a_sf.coeffs[0].d.clone();
    let mut i: usize = 0;
    while i < a_sf.coeffs.len()
        invariant
            i <= a_sf.coeffs.len(),
            a_sf.coeffs.len() > 0,
            PolyQ::wf_view(a_sf@),
            (n_gcd@, d_lcm@) == content_fold(a_sf@.1, i as nat),
            d_lcm@ > 0,
            i > 0 ==> n_gcd@ >= 0,
            a_sf@.1[0].0 != 0 ==> n_gcd@ != 0,
            forall|j: int| 0 <= j < i && a_sf@.1[j].0 != 0 ==> n_gcd@ != 0,
        decreases a_sf.coeffs.len() - i,
    {
        proof {
            assert(a_sf@.1[i as int] == a_sf.coeffs@[i as int]@);
            assert(Fraction::wf_spec(a_sf@.1[i as int]));
            lemma_gcd_pos(vstd::math::abs(d_lcm@), vstd::math::abs(a_sf@.1[i as int].1));
        }
        let ghost g0 = n_gcd@;
        n_gcd = n_gcd.gcd(&a_sf.coeffs[i].n);
        proof {
            if g0 != 0 || a_sf@.1[i as int].0 != 0 {
                lemma_gcd_pos(vstd::math::abs(g0), vstd::math::abs(a_sf@.1[i as int].0));
            }
        }
        let gd = d_lcm.gcd(&a_sf.coeffs[i].d);
        let ghost l0 = d_lcm@;
        d_lcm = d_lcm.mul(&a_sf.coeffs[i].d).div(&gd);
        proof {
            lemma_lcm_pos(l0, a_sf@.1[i as int].1);
        }
        i = i + 1;
    }
    proof {
        let last = (a_sf@.1.len() - 1) as int;
        assert(a_sf@.1[last] == a_sf@.1.last());
        assert(n_gcd@ != 0);
    }
    let mut v: Vec<Integer> = Vec::new();
    let mut i: usize = 0;
    while i < a_sf.coeffs.len()
        invariant
            i <= a_sf.coeffs.len(),
            PolyQ::wf_view(a_sf@),
            n_gcd@ != 0,
            v@.len() == i,
            forall|j: int|
                0 <= j < i ==> #[trigger] v@[j]@ == tdiv(
                    tdiv(a_sf@.1[j].0 * d_lcm@, a_sf@.1[j].1),
                    n_gcd@,
                ),
        decreases a_sf.coeffs.len() - i,
    {
        proof {
            assert(a_sf@.1[i as int] == a_sf.coeffs@[i as int]@);
            assert(Fraction::wf_spec(a_sf@.1[i as int]));
        }
        let c = &a_sf.coeffs[i];
        v.push(Integer::new(c.n.mul(&d_lcm).div(&c.d).div(&n_gcd)));
        i = i + 1;
    }
    assert(views::<Integer>(v@) =~= primitive_coeffs(a_sf@.1, n_gcd@, d_lcm@));
    Ok(Polynomial::new(ZZ, v))
}

/// The lcm step keeps a positive running lcm positive.
proof fn lemma_lcm_pos(l: int, d: int)
    requires
        l > 0,
        d > 0,
    ensures
        tdiv(l * d, gcd(vstd::math::abs(l), vstd::math::abs(d)) as int) > 0,
{
    let g = gcd(vstd::math::abs(l), vstd::math::abs(d)) as int;
    lemma_gcd_divides(vstd::math::abs(l), vstd::math::abs(d));
    assert(0 < g <= d);
    let x = l * d;
    assert(x >= d) by (nonlinear_arith)
        requires
            l >= 1,
            d > 0,
            x == l * d,
    ;
    vstd::arithmetic::div_mod::lemma_fundamental_div_mod(x, g);
    vstd::arithmetic::div_mod::lemma_mod_bound(x, g);
    let q = x / g;
    if q <= 0 {
        assert(g * q <= 0) by (nonlinear_arith)
            requires
                q <= 0,
                g > 0,
        ;
    }
    assert(tdiv(x, g) == q);
}


/* -------------------------------------------------------------------------- */
/*  Factoring modulo a prime                                                  */
/* -------------------------------------------------------------------------- */

/// Polynomials modulo `p`.
pub type Fpx = Polynomials<IntegerMod, IntegersMod>;

/// The view of a polynomial modulo `p`.
pub type FpV = (int, Seq<(int, int)>, int);

/// The views of a sequence of polynomials.
pub open spec fn fp_views(v: Seq<PolyFp>) -> Seq<FpV> {
    v.map_values(|x: PolyFp| x@)
}

/// A list of polynomials as the spec describes it: the views, or the kind
/// of the error.
pub open spec fn fp_outcome(r: core::result::Result<Vec<PolyFp>, Error>) -> Outcome<Seq<FpV>> {
    match r {
        Ok(v) => Outcome::<Seq<FpV>>::Ok(fp_views(v@)),
        Err(e) => Outcome::<Seq<FpV>>::Err(e.spec_error_kind()),
    }
}

/// Every polynomial of a list is well formed.
pub open spec fn all_fp_wf(v: Seq<FpV>) -> bool {
    forall|i: int| 0 <= i < v.len() ==> #[trigger] PolyFp::wf_view(v[i])
}

/// The polynomial `1` modulo `p`.
pub open spec fn fp_one(p: int) -> FpV {
    poly_of::<IntegerMod, IntegersMod>(p, seq![(reduce_mod(1, p), p)])
}

/// The polynomial `x` modulo `p`.
pub open spec fn fp_x_spec(p: int) -> FpV {
    poly_of::<IntegerMod, IntegersMod>(p, seq![(reduce_mod(0, p), p), (reduce_mod(1, p), p)])
}

/// One distinct-degree step: `w1 = w^p mod v`, the gcd `ad` of `w1 - x`
/// and `v`, and `v / ad`.
#[verifier::opaque]
pub open spec fn ddf_step_spec(p: int, v: FpV, w: FpV) -> Outcome<(FpV, FpV, FpV)> {
    match power_mod_spec::<PolyFp, Fpx>(p, w, p, v) {
        Outcome::<FpV>::Err(e) => Outcome::<(FpV, FpV, FpV)>::Err(e),
        Outcome::<FpV>::Ok(w1) => match PolyFp::sub_spec(w1, fp_x_spec(p)) {
            Outcome::<FpV>::Err(e) => Outcome::<(FpV, FpV, FpV)>::Err(e),
            Outcome::<FpV>::Ok(t) => match gcd_spec::<PolyFp, Fpx>(p, t, v) {
                Outcome::<FpV>::Err(e) => Outcome::<(FpV, FpV, FpV)>::Err(e),
                Outcome::<FpV>::Ok(ad) => match poly_div_spec::<IntegerMod, IntegersMod>(v, ad) {
                    Outcome::<FpV>::Err(e) => Outcome::<(FpV, FpV, FpV)>::Err(e),
                    Outcome::<FpV>::Ok(v1) => Outcome::<(FpV, FpV, FpV)>::Ok((w1, ad, v1)),
                },
            },
        },
    }
}

/// The distinct-degree loop from degree `d`: `w = x^(p^d) mod v`, then the
/// gcd of `w - x` and `v` is the product of the factors of degree `d`.
pub open spec fn ddf_loop(p: int, n: int, factors: Seq<FpV>, v: FpV, w: FpV, d: int) -> Outcome<
    (Seq<FpV>, FpV),
>
    decreases (if n + 2 - 2 * d > 0 {
        n + 2 - 2 * d
    } else {
        0
    }),
{
    if 2 * d > n {
        Outcome::<(Seq<FpV>, FpV)>::Ok((factors, v))
    } else {
        match ddf_step_spec(p, v, w) {
            Outcome::<(FpV, FpV, FpV)>::Err(e) => Outcome::<(Seq<FpV>, FpV)>::Err(e),
            Outcome::<(FpV, FpV, FpV)>::Ok(t) => ddf_loop(p, n, factors.push(t.1), t.2, t.0, d + 1),
        }
    }
}

/// One distinct-degree step.
fn ddf_step(fpx: &Fpx, p: &Int, v: &PolyFp, w: &PolyFp, x: &PolyFp) -> (r: core::result::Result<
    (PolyFp, PolyFp, PolyFp),
    Error,
>)
    requires
        fpx@ == p@,
        p@ != 0,
        x@ == fp_x_spec(p@),
        PolyFp::wf_view(v@),
        PolyFp::wf_view(w@),
        PolyFp::wf_view(x@),
    ensures
        match r {
            Ok(t) => ddf_step_spec(p@, v@, w@) == Outcome::<(FpV, FpV, FpV)>::Ok((t.0@, t.1@, t.2@))
                && PolyFp::wf_view(t.0@) && PolyFp::wf_view(t.1@) && PolyFp::wf_view(t.2@),
            Err(e) => ddf_step_spec(p@, v@, w@) == Outcome::<(FpV, FpV, FpV)>::Err(e.spec_error_kind()),
        },
{
    reveal(ddf_step_spec);
    let w1 = power_mod(fpx, w, p, v)?;
    let t = Elem::sub(&w1, x)?;
    let ad = ring_gcd(fpx, &t, v)?;
    let v1 = Elem::div(v, &ad)?;
    Ok((w1, ad, v1))
}

/// The factors of the distinct-degree loop, padded with ones so that the
/// rest `v` lands at the index of its degree.
pub open spec fn ddf_pad(fs: Seq<FpV>, v: FpV, p: int) -> Seq<FpV> {
    fs + Seq::new(
        if v.2 > fs.len() {
            (v.2 - fs.len()) as nat
        } else {
            0
        },
        |i: int| fp_one(p),
    ) + seq![v]
}

/// `factor_distinct_degrees(a, p)`: entry `i` is the product of the
/// irreducible factors of degree `i` (Cohen, Algorithm 3.4.3).
pub open spec fn ddf_spec(a: FpV, p: int) -> Outcome<Seq<FpV>> {
    match ddf_loop(p, a.2, seq![fp_one(p)], a, fp_x_spec(p), 1) {
        Outcome::<(Seq<FpV>, FpV)>::Err(e) => Outcome::<Seq<FpV>>::Err(e),
        Outcome::<(Seq<FpV>, FpV)>::Ok(t) => Outcome::<Seq<FpV>>::Ok(ddf_pad(t.0, t.1, p)),
    }
}

/// The constant one, and `x`, modulo `p`.
fn fp_one_x(p: &Int) -> (r: (PolyFp, PolyFp))
    requires
        p@ != 0,
    ensures
        r.0@ == fp_one(p@),
        r.1@ == fp_x_spec(p@),
        PolyFp::wf_view(r.0@),
        PolyFp::wf_view(r.1@),
{
    let fp = IntegersMod::new(p.clone());
    let mut v1: Vec<IntegerMod> = Vec::new();
    v1.push(fp.one());
    assert(views::<IntegerMod>(v1@) =~= seq![(reduce_mod(1, p@), p@)]);
    let one = Polynomial::new(fp.copy_ring(), v1);
    let mut v2: Vec<IntegerMod> = Vec::new();
    v2.push(fp.zero());
    v2.push(fp.one());
    assert(views::<IntegerMod>(v2@) =~= seq![(reduce_mod(0, p@), p@), (reduce_mod(1, p@), p@)]);
    let x = Polynomial::new(fp, v2);
    (one, x)
}

/// Split `a` into `A0..Ad`, where `Ai` is the product of the irreducible
/// factors of degree `i`.
fn factor_distinct_degrees(a: &PolyFp, p: &Int) -> (r: core::result::Result<Vec<PolyFp>, Error>)
    requires
        PolyFp::wf_view(a@),
        p@ != 0,
    ensures
        fp_outcome(r) == ddf_spec(a@, p@),
        r matches Ok(v) ==> all_fp_wf(fp_views(v@)),
{
    let fpx: Fpx = Polynomials::new(IntegersMod::new(p.clone()));
    let (one, x) = fp_one_x(p);
    let mut factors: Vec<PolyFp> = Vec::new();
    factors.push(one.copy_poly());
    assert(fp_views(factors@) =~= seq![fp_one(p@)]);
    let mut v = a.copy_poly();
    let mut w = x.copy_poly();
    let mut d: isize = 1;
    let ghost target = ddf_loop(p@, a@.2, seq![fp_one(p@)], a@, fp_x_spec(p@), 1);
    while 2 * d <= a.degree
        invariant
            1 <= d,
            2 * d <= a@.2 + 2 || d == 1,
            a@.2 <= max_len(),
            PolyFp::wf_view(a@),
            PolyFp::wf_view(v@),
            PolyFp::wf_view(w@),
            PolyFp::wf_view(x@),
            PolyFp::wf_view(one@),
            x@ == fp_x_spec(p@),
            one@ == fp_one(p@),
            fpx@ == p@,
            p@ != 0,
            all_fp_wf(fp_views(factors@)),
            factors@.len() == d,
            ddf_loop(p@, a@.2, fp_views(factors@), v@, w@, d as int) == target,
            target == ddf_loop(p@, a@.2, seq![fp_one(p@)], a@, fp_x_spec(p@), 1),
        decreases a@.2 + 2 - 2 * d,
    {
        let (w1, ad, v1) = ddf_step(&fpx, p, &v, &w, &x)?;
        let ghost before = fp_views(factors@);
        factors.push(ad);
        proof {
            assert(fp_views(factors@) =~= before.push(ad@));
            assert forall|i: int| 0 <= i < fp_views(factors@).len() implies #[trigger] PolyFp::wf_view(
                fp_views(factors@)[i],
            ) by {
                if i < before.len() {
                    assert(fp_views(factors@)[i] == before[i]);
                }
            }
        }
        w = w1;
        v = v1;
        d = d + 1;
    }
    let ghost fs0 = fp_views(factors@);
    let ghost want: nat = if v@.2 > fs0.len() {
        (v@.2 - fs0.len()) as nat
    } else {
        0
    };
    let ghost mut k: nat = 0;
    while (factors.len() as isize) < v.degree
        invariant
            fp_views(factors@) == fs0 + Seq::new(k, |i: int| fp_one(p@)),
            factors@.len() == fs0.len() + k,
            k <= want,
            want == (if v@.2 > fs0.len() {
                (v@.2 - fs0.len()) as nat
            } else {
                0
            }),
            v@.2 <= max_len(),
            fs0.len() <= max_len(),
            one@ == fp_one(p@),
            PolyFp::wf_view(one@),
            all_fp_wf(fp_views(factors@)),
            PolyFp::wf_view(v@),
        decreases v@.2 - factors@.len(),
    {
        let ghost before = fp_views(factors@);
        factors.push(one.copy_poly());
        proof {
            assert(fp_views(factors@) =~= before.push(one@));
            k = k + 1;
            assert(fp_views(factors@) =~= fs0 + Seq::new(k, |i: int| fp_one(p@)));
            assert forall|i: int| 0 <= i < fp_views(factors@).len() implies #[trigger] PolyFp::wf_view(
                fp_views(factors@)[i],
            ) by {
                if i < before.len() {
                    assert(fp_views(factors@)[i] == before[i]);
                }
            }
        }
    }
    assert(k == want);
    let ghost before = fp_views(factors@);
    factors.push(v.copy_poly());
    proof {
        assert(fp_views(factors@) =~= before.push(v@));
        assert(fp_views(factors@) =~= ddf_pad(fs0, v@, p@));
        assert(all_fp_wf(fp_views(factors@))) by {
            assert forall|i: int| 0 <= i < fp_views(factors@).len() implies #[trigger] PolyFp::wf_view(
                fp_views(factors@)[i],
            ) by {
                if i < before.len() {
                    assert(fp_views(factors@)[i] == before[i]);
                }
            }
        }
    }
    Ok(factors)
}


/// `count` random residues modulo `p`, drawn in order.
pub open spec fn rand_coeffs(state: u64, p: int, count: nat) -> (Seq<(int, int)>, u64)
    decreases count,
{
    if count == 0 {
        (seq![], state)
    } else {
        let (cs, s1) = rand_coeffs(state, p, (count - 1) as nat);
        let (r, s2) = random_spec(s1, p);
        (cs.push((reduce_mod(r, p), p)), s2)
    }
}

/// One Cantor-Zassenhaus trial: a random monic `t` of degree `2d - 1`, and
/// the monic gcd of `a` with `t^((p^d - 1)/2) - 1`.
#[verifier::opaque]
pub open spec fn cz_trial_spec(a: FpV, d: int, p: int, state: u64) -> (Outcome<FpV>, u64) {
    let count: nat = if 2 * d - 1 > 0 {
        (2 * d - 1) as nat
    } else {
        0
    };
    let (cs, s1) = rand_coeffs(state, p, count);
    let t = poly_of::<IntegerMod, IntegersMod>(p, cs.push((reduce_mod(1, p), p)));
    let exp = tdiv(vstd::arithmetic::power::pow(p, (d as u32) as nat) - 1, 2);
    let b1 = match power_mod_spec::<PolyFp, Fpx>(p, t, exp, a) {
        Outcome::<FpV>::Err(e) => Outcome::<FpV>::Err(e),
        Outcome::<FpV>::Ok(pm) => match PolyFp::sub_spec(pm, fp_one(p)) {
            Outcome::<FpV>::Err(e) => Outcome::<FpV>::Err(e),
            Outcome::<FpV>::Ok(u) => match gcd_spec::<PolyFp, Fpx>(p, a, u) {
                Outcome::<FpV>::Err(e) => Outcome::<FpV>::Err(e),
                Outcome::<FpV>::Ok(g) => monic_spec::<IntegerMod, IntegersMod>(g),
            },
        },
    };
    (b1, s1)
}

/// Cantor-Zassenhaus on `a`, whose irreducible factors all have degree `d`
/// (Cohen, Algorithm 3.4.6), with `fuel` levels of splitting allowed; each
/// split lowers the degree, so a degree's worth of fuel suffices.
pub open spec fn cz_spec(a: FpV, d: int, p: int, state: u64, fuel: nat) -> (Outcome<Seq<FpV>>, u64)
    decreases fuel, 1002int,
{
    if p == 2 {
        (Outcome::<Seq<FpV>>::Err(ErrorKind::Range), state)
    } else if a.2 == d {
        (Outcome::<Seq<FpV>>::Ok(seq![a]), state)
    } else {
        cz_try(a, d, p, state, 0, fuel)
    }
}

/// Cantor-Zassenhaus trials from trial `t` of a thousand.
pub open spec fn cz_try(a: FpV, d: int, p: int, state: u64, t: int, fuel: nat) -> (Outcome<Seq<FpV>>, u64)
    decreases fuel, 1001 - t,
{
    if t >= 1000 || t < 0 {
        (Outcome::<Seq<FpV>>::Err(ErrorKind::Other), state)
    } else {
        let (b1o, s1) = cz_trial_spec(a, d, p, state);
        match b1o {
            Outcome::<FpV>::Err(e) => (Outcome::<Seq<FpV>>::Err(e), s1),
            Outcome::<FpV>::Ok(b1) => if 0 < b1.2 && b1.2 < a.2 {
                match divmod_spec::<IntegerMod, IntegersMod>(a, b1) {
                    Outcome::<(FpV, FpV)>::Err(e) => (Outcome::<Seq<FpV>>::Err(e), s1),
                    Outcome::<(FpV, FpV)>::Ok(qr) => if fuel == 0 {
                        (Outcome::<Seq<FpV>>::Err(ErrorKind::Other), s1)
                    } else {
                        let (r1, s2) = cz_spec(b1, d, p, s1, (fuel - 1) as nat);
                        match r1 {
                            Outcome::<Seq<FpV>>::Err(e) => (Outcome::<Seq<FpV>>::Err(e), s2),
                            Outcome::<Seq<FpV>>::Ok(f1) => {
                                let (r2, s3) = cz_spec(qr.0, d, p, s2, (fuel - 1) as nat);
                                match r2 {
                                    Outcome::<Seq<FpV>>::Err(e) => (Outcome::<Seq<FpV>>::Err(e), s3),
                                    Outcome::<Seq<FpV>>::Ok(f2) => (Outcome::<Seq<FpV>>::Ok(f1 + f2), s3),
                                }
                            },
                        }
                    },
                }
            } else {
                cz_try(a, d, p, s1, t + 1, fuel)
            },
        }
    }
}

/// One Cantor-Zassenhaus trial.
#[verifier::spinoff_prover]
#[verifier::rlimit(40)]
fn cz_trial(rng: &mut BitStream, a: &PolyFp, d: isize, p: &Int) -> (r: core::result::Result<
    PolyFp,
    Error,
>)
    requires
        PolyFp::wf_view(a@),
        p@ != 0,
        0 <= 2 * d <= max_len(),
    ensures
        (matches_outcome_fp(r), final(rng).state) == cz_trial_spec(a@, d as int, p@, old(rng).state),
        r matches Ok(b) ==> PolyFp::wf_view(b@),
{
    reveal(cz_trial_spec);
    let fp = IntegersMod::new(p.clone());
    let fpx: Fpx = Polynomials::new(IntegersMod::new(p.clone()));
    let (one, _) = fp_one_x(p);
    let count: isize = 2 * d - 1;
    let ghost cnt: nat = if 2 * d - 1 > 0 {
        (2 * d - 1) as nat
    } else {
        0
    };
    let mut coeffs: Vec<IntegerMod> = Vec::new();
    let mut i: isize = 0;
    while i < count
        invariant
            0 <= i,
            count == 2 * d - 1,
            i <= count || i == 0,
            p@ != 0,
            (views::<IntegerMod>(coeffs@), rng.state) == rand_coeffs(old(rng).state, p@, i as nat),
            forall|j: int| 0 <= j < coeffs@.len() ==> #[trigger] IntegerMod::wf_spec(coeffs@[j]@),
            coeffs@.len() == i,
        decreases count - i,
    {
        let ghost before = views::<IntegerMod>(coeffs@);
        let r = random(rng, p);
        coeffs.push(IntegerMod::new(r, p.clone()));
        assert(views::<IntegerMod>(coeffs@) =~= before.push((reduce_mod(r@, p@), p@)));
        i = i + 1;
    }
    assert(i as nat == cnt);
    let ghost before = views::<IntegerMod>(coeffs@);
    coeffs.push(IntegerMod::new(Int::from_i64(1), p.clone()));
    proof {
        assert(views::<IntegerMod>(coeffs@) =~= before.push((reduce_mod(1, p@), p@)));
        assert forall|j: int| 0 <= j < views::<IntegerMod>(coeffs@).len() implies #[trigger] IntegerMod::wf_spec(
            views::<IntegerMod>(coeffs@)[j],
        ) by {
            assert(views::<IntegerMod>(coeffs@)[j] == coeffs@[j]@);
        }
    }
    let t_poly = Polynomial::new(fp, coeffs);
    let exp = p.pow(d as u32).sub(&Int::from_i64(1)).div(&Int::from_i64(2));
    let pm = power_mod(&fpx, &t_poly, &exp, a)?;
    let u = Elem::sub(&pm, &one)?;
    let g = ring_gcd(&fpx, a, &u)?;
    g.monic()
}

/// A polynomial result as the spec describes it.
pub open spec fn matches_outcome_fp(r: core::result::Result<PolyFp, Error>) -> Outcome<FpV> {
    match r {
        Ok(v) => Outcome::<FpV>::Ok(v@),
        Err(e) => Outcome::<FpV>::Err(e.spec_error_kind()),
    }
}

/// Split a squarefree `a` whose factors all have degree `d`.
fn factor_cantor_zassenhaus(
    rng: &mut BitStream,
    a: &PolyFp,
    d: isize,
    p: &Int,
    Ghost(fuel): Ghost<nat>,
) -> (r: core::result::Result<Vec<PolyFp>, Error>)
    requires
        PolyFp::wf_view(a@),
        p@ != 0,
        0 <= 2 * d <= max_len(),
        fuel >= a@.2,
    ensures
        (fp_outcome(r), final(rng).state) == cz_spec(a@, d as int, p@, old(rng).state, fuel),
        r matches Ok(v) ==> all_fp_wf(fp_views(v@)),
    decreases fuel,
{
    if p.eq(&Int::from_i64(2)) {
        return Err(Error::Range("p=2 not implemented".to_owned()));
    }
    if a.degree == d {
        let mut v: Vec<PolyFp> = Vec::new();
        v.push(a.copy_poly());
        assert(fp_views(v@) =~= seq![a@]);
        return Ok(v);
    }
    let mut t: u32 = 0;
    while t < 1000
        invariant
            t <= 1000,
            PolyFp::wf_view(a@),
            p@ != 0,
            p@ != 2,
            a@.2 != d,
            0 <= 2 * d <= max_len(),
            fuel >= a@.2,
            cz_try(a@, d as int, p@, rng.state, t as int, fuel) == cz_spec(
                a@,
                d as int,
                p@,
                old(rng).state,
                fuel,
            ),
        decreases 1000 - t,
    {
        let b1 = cz_trial(rng, a, d, p)?;
        if 0 < b1.degree && b1.degree < a.degree {
            let (b2, _) = a.divmod(&b1)?;
            proof {
                lemma_divmod_quot_degree::<IntegerMod, IntegersMod>(a@, b1@);
            }
            let mut factors = factor_cantor_zassenhaus(rng, &b1, d, p, Ghost((fuel - 1) as nat))?;
            let mut more = factor_cantor_zassenhaus(rng, &b2, d, p, Ghost((fuel - 1) as nat))?;
            let ghost f1 = fp_views(factors@);
            let ghost f2 = fp_views(more@);
            factors.append(&mut more);
            proof {
                assert(fp_views(factors@) =~= f1 + f2);
                assert forall|i: int| 0 <= i < fp_views(factors@).len() implies #[trigger] PolyFp::wf_view(
                    fp_views(factors@)[i],
                ) by {
                    if i < f1.len() {
                        assert(fp_views(factors@)[i] == f1[i]);
                    } else {
                        assert(fp_views(factors@)[i] == f2[i - f1.len()]);
                    }
                }
            }
            return Ok(factors);
        }
        t = t + 1;
    }
    Err(Error::Other("This (probably) shouldn't happen".to_owned()))
}


/// Cantor-Zassenhaus over the distinct-degree factors of nonzero degree,
/// entry `i` split into factors of degree `i`: the first `j` entries.
pub open spec fn fm_loop(fs: Seq<FpV>, j: nat, p: int, state: u64) -> (Outcome<Seq<FpV>>, u64)
    decreases j,
{
    if j == 0 {
        (Outcome::<Seq<FpV>>::Ok(seq![]), state)
    } else {
        let (r, s) = fm_loop(fs, (j - 1) as nat, p, state);
        match r {
            Outcome::<Seq<FpV>>::Err(e) => (Outcome::<Seq<FpV>>::Err(e), s),
            Outcome::<Seq<FpV>>::Ok(acc) => {
                let f = fs[j - 1];
                if f.2 != 0 && 2 * (j - 1) > max_len() {
                    (Outcome::<Seq<FpV>>::Err(ErrorKind::Range), s)
                } else if f.2 != 0 {
                    let (r2, s2) = cz_spec(
                        f,
                        j - 1,
                        p,
                        s,
                        if f.2 > 0 {
                            f.2 as nat
                        } else {
                            0
                        },
                    );
                    match r2 {
                        Outcome::<Seq<FpV>>::Err(e) => (Outcome::<Seq<FpV>>::Err(e), s2),
                        Outcome::<Seq<FpV>>::Ok(more) => (Outcome::<Seq<FpV>>::Ok(acc + more), s2),
                    }
                } else {
                    (Outcome::<Seq<FpV>>::Ok(acc), s)
                }
            },
        }
    }
}

/// Every polynomial of a list made monic, stopping at the first that
/// cannot be: the first `j`.
pub open spec fn monic_all(fs: Seq<FpV>, j: nat) -> Outcome<Seq<FpV>>
    decreases j,
{
    if j == 0 {
        Outcome::<Seq<FpV>>::Ok(seq![])
    } else {
        match monic_all(fs, (j - 1) as nat) {
            Outcome::<Seq<FpV>>::Err(e) => Outcome::<Seq<FpV>>::Err(e),
            Outcome::<Seq<FpV>>::Ok(acc) => match monic_spec::<IntegerMod, IntegersMod>(fs[j - 1]) {
                Outcome::<FpV>::Err(e) => Outcome::<Seq<FpV>>::Err(e),
                Outcome::<FpV>::Ok(m) => Outcome::<Seq<FpV>>::Ok(acc.push(m)),
            },
        }
    }
}

proof fn lemma_monic_all_err(fs: Seq<FpV>, j: nat, j2: nat)
    requires
        j <= j2,
        monic_all(fs, j) is Err,
    ensures
        monic_all(fs, j2) == monic_all(fs, j),
    decreases j2,
{
    if j2 > j {
        lemma_monic_all_err(fs, j, (j2 - 1) as nat);
    }
}

proof fn lemma_fm_loop_err(fs: Seq<FpV>, j: nat, j2: nat, p: int, state: u64)
    requires
        j <= j2,
        fm_loop(fs, j, p, state).0 is Err,
    ensures
        fm_loop(fs, j2, p, state) == fm_loop(fs, j, p, state),
    decreases j2,
{
    if j2 > j {
        lemma_fm_loop_err(fs, j, (j2 - 1) as nat, p, state);
    }
}

/// `factor_mod(a, p)`: the monic irreducible factors of a squarefree `a`
/// modulo `p`, ignoring multiplicities and constant factors.
pub open spec fn factor_mod_spec(a: FpV, p: int, state: u64) -> (Outcome<Seq<FpV>>, u64) {
    match ddf_spec(a, p) {
        Outcome::<Seq<FpV>>::Err(e) => (Outcome::<Seq<FpV>>::Err(e), state),
        Outcome::<Seq<FpV>>::Ok(fs) => {
            let (r, s1) = fm_loop(fs, fs.len(), p, state);
            match r {
                Outcome::<Seq<FpV>>::Err(e) => (Outcome::<Seq<FpV>>::Err(e), s1),
                Outcome::<Seq<FpV>>::Ok(fm) => (monic_all(fm, fm.len()), s1),
            }
        },
    }
}

/// Factor a squarefree polynomial in `F_p[x]`, ignoring multiplicities and
/// constant factors.
fn factor_mod(rng: &mut BitStream, a: &PolyFp, p: &Int) -> (r: core::result::Result<Vec<PolyFp>, Error>)
    requires
        PolyFp::wf_view(a@),
        p@ != 0,
    ensures
        (fp_outcome(r), final(rng).state) == factor_mod_spec(a@, p@, old(rng).state),
        r matches Ok(v) ==> all_fp_wf(fp_views(v@)),
{
    let ddf = factor_distinct_degrees(a, p)?;
    let ghost fs = fp_views(ddf@);
    let mut fm: Vec<PolyFp> = Vec::new();
    assert(fp_views(fm@) =~= Seq::<FpV>::empty());
    let mut d: usize = 0;
    while d < ddf.len()
        invariant
            d <= ddf@.len(),
            fs == fp_views(ddf@),
            ddf_spec(a@, p@) == Outcome::<Seq<FpV>>::Ok(fs),
            all_fp_wf(fs),
            p@ != 0,
            fm_loop(fs, d as nat, p@, old(rng).state) == (Outcome::<Seq<FpV>>::Ok(fp_views(fm@)), rng.state),
            all_fp_wf(fp_views(fm@)),
        decreases ddf.len() - d,
    {
        proof {
            assert(fs[d as int] == ddf@[d as int]@);
            assert(PolyFp::wf_view(fs[d as int]));
        }
        if ddf[d].degree != 0 {
            if d > (isize::MAX / 2) as usize / 2 {
                proof {
                    lemma_fm_loop_err(fs, (d + 1) as nat, fs.len(), p@, old(rng).state);
                }
                return Err(Error::Range("polynomial too large".to_owned()));
            }
            let ghost acc = fp_views(fm@);
            let fuel: Ghost<nat> = Ghost(
                if ddf@[d as int]@.2 > 0 {
                    ddf@[d as int]@.2 as nat
                } else {
                    0
                },
            );
            let mut more = match factor_cantor_zassenhaus(rng, &ddf[d], d as isize, p, fuel) {
                Ok(m) => m,
                Err(e) => {
                    proof {
                        lemma_fm_loop_err(fs, (d + 1) as nat, fs.len(), p@, old(rng).state);
                    }
                    return Err(e);
                },
            };
            let ghost m = fp_views(more@);
            fm.append(&mut more);
            proof {
                assert(fp_views(fm@) =~= acc + m);
                assert forall|i: int| 0 <= i < fp_views(fm@).len() implies #[trigger] PolyFp::wf_view(
                    fp_views(fm@)[i],
                ) by {
                    if i < acc.len() {
                        assert(fp_views(fm@)[i] == acc[i]);
                    } else {
                        assert(fp_views(fm@)[i] == m[i - acc.len()]);
                    }
                }
            }
        }
        d = d + 1;
    }
    assert(fs.len() == ddf@.len());
    let ghost fmv = fp_views(fm@);
    let mut out: Vec<PolyFp> = Vec::new();
    assert(fp_views(out@) =~= Seq::<FpV>::empty());
    assert(factor_mod_spec(a@, p@, old(rng).state) == (monic_all(fmv, fmv.len()), rng.state));
    let mut i: usize = 0;
    while i < fm.len()
        invariant
            i <= fm@.len(),
            fmv == fp_views(fm@),
            factor_mod_spec(a@, p@, old(rng).state) == (monic_all(fmv, fmv.len()), rng.state),
            all_fp_wf(fmv),
            monic_all(fmv, i as nat) == Outcome::<Seq<FpV>>::Ok(fp_views(out@)),
            all_fp_wf(fp_views(out@)),
        decreases fm.len() - i,
    {
        proof {
            assert(fmv[i as int] == fm@[i as int]@);
            assert(PolyFp::wf_view(fmv[i as int]));
        }
        let m = match fm[i].monic() {
            Ok(m) => m,
            Err(e) => {
                proof {
                    lemma_monic_all_err(fmv, (i + 1) as nat, fmv.len());
                }
                return Err(e);
            },
        };
        let ghost before = fp_views(out@);
        out.push(m);
        proof {
            assert(fp_views(out@) =~= before.push(m@));
            assert forall|t: int| 0 <= t < fp_views(out@).len() implies #[trigger] PolyFp::wf_view(
                fp_views(out@)[t],
            ) by {
                if t < before.len() {
                    assert(fp_views(out@)[t] == before[t]);
                }
            }
        }
        i = i + 1;
    }
    Ok(out)
}


/* -------------------------------------------------------------------------- */
/*  Hensel lifting                                                            */
/* -------------------------------------------------------------------------- */

/// The view of an integer polynomial.
pub type ZV = ((), Seq<int>, int);

/// An integer polynomial read modulo `p`.
pub open spec fn to_fp_spec(a: ZV, p: int) -> FpV {
    poly_of::<IntegerMod, IntegersMod>(p, residues(a.1, p))
}

/// A modular polynomial read as an integer polynomial.
pub open spec fn to_zz_spec(a: FpV) -> ZV {
    poly_of::<Integer, ZZ>((), representatives(a.1))
}

/// Reduce an integer modulo `p`, floored; `p` must be positive.
pub open spec fn mod_fn(p: int) -> spec_fn(int) -> Outcome<int> {
    |c: int|
        match integer_divmod_spec(c, p) {
            Outcome::<(int, int)>::Ok(qr) => Outcome::<int>::Ok(qr.1),
            Outcome::<(int, int)>::Err(e) => Outcome::<int>::Err(e),
        }
}

/// Every coefficient reduced modulo `p`.
fn map_mod(a: &PolyZ, pint: &Integer) -> (r: core::result::Result<PolyZ, Error>)
    requires
        PolyZ::wf_view(a@),
    ensures
        matches_outcome(r, map_poly::<Integer, ZZ>(a@, mod_fn(pint@))),
        r matches Ok(z) ==> PolyZ::wf_view(z@),
{
    let ghost f = mod_fn(pint@);
    let mut v: Vec<Integer> = Vec::new();
    let mut i: usize = 0;
    proof {
        assert(views::<Integer>(v@) + a@.1.skip(0) =~= a@.1);
    }
    while i < a.coeffs.len()
        invariant
            i <= a.coeffs.len(),
            PolyZ::wf_view(a@),
            f == mod_fn(pint@),
            map_loop::<Integer>(a@.1, f, i as nat) == Outcome::<Seq<int>>::Ok(
                views::<Integer>(v@) + a@.1.skip(i as int),
            ),
            v@.len() == i,
        decreases a.coeffs.len() - i,
    {
        proof {
            assert(a@.1[i as int] == a.coeffs@[i as int]@);
            lemma_map_loop::<Integer>(a@.1, f, i as nat);
            assert((views::<Integer>(v@) + a@.1.skip(i as int))[i as int] == a@.1[i as int]);
        }
        let m = match a.coeffs[i].modulo(pint) {
            Ok(m) => m,
            Err(e) => {
                proof {
                    lemma_map_loop_err::<Integer>(a@.1, f, (i + 1) as nat, a@.1.len());
                }
                return Err(e);
            },
        };
        let ghost before = views::<Integer>(v@);
        v.push(m);
        proof {
            assert(views::<Integer>(v@) + a@.1.skip(i + 1) =~= (before + a@.1.skip(i as int)).update(
                i as int,
                m@,
            ));
        }
        i = i + 1;
    }
    proof {
        assert(views::<Integer>(v@) + a@.1.skip(i as int) =~= views::<Integer>(v@));
    }
    Ok(Polynomial::new(ZZ, v))
}

/// `divmod_mod(a, b, p)`: Euclidean division modulo `p`, read back as
/// integer polynomials.
pub open spec fn divmod_mod_spec(a: ZV, b: ZV, p: int) -> Outcome<(ZV, ZV)> {
    match divmod_spec::<IntegerMod, IntegersMod>(to_fp_spec(a, p), to_fp_spec(b, p)) {
        Outcome::<(FpV, FpV)>::Err(e) => Outcome::<(ZV, ZV)>::Err(e),
        Outcome::<(FpV, FpV)>::Ok(qr) => Outcome::<(ZV, ZV)>::Ok((to_zz_spec(qr.0), to_zz_spec(qr.1))),
    }
}

fn divmod_mod(a: &PolyZ, b: &PolyZ, p: &Int) -> (r: core::result::Result<(PolyZ, PolyZ), Error>)
    requires
        PolyZ::wf_view(a@),
        PolyZ::wf_view(b@),
        p@ != 0,
    ensures
        match r {
            Ok(t) => divmod_mod_spec(a@, b@, p@) == Outcome::<(ZV, ZV)>::Ok((t.0@, t.1@))
                && PolyZ::wf_view(t.0@) && PolyZ::wf_view(t.1@),
            Err(e) => divmod_mod_spec(a@, b@, p@) == Outcome::<(ZV, ZV)>::Err(e.spec_error_kind()),
        },
{
    let af = to_fp(a, p);
    let bf = to_fp(b, p);
    let (q, r) = af.divmod(&bf)?;
    Ok((to_zz(&q), to_zz(&r)))
}

/// One Hensel step from `p` to `p^2` (Cohen, Algorithms 3.5.5 and 3.5.6):
/// the lifted factors `a`, `b` and cofactors `u`, `v`.
#[verifier::opaque]
pub open spec fn hensel_step_spec(c: ZV, a: ZV, b: ZV, u: ZV, v: ZV, one: ZV, p: int) -> Outcome<
    (ZV, ZV, ZV, ZV),
> {
    obind(
        PolyZ::mul_spec(a, b),
        |ab: ZV|
            obind(
                PolyZ::sub_spec(c, ab),
                |x: ZV|
                    obind(
                        map_poly::<Integer, ZZ>(x, sdiv_fn::<Integer>(p)),
                        |f: ZV|
                            obind(
                                PolyZ::mul_spec(v, f),
                                |vf: ZV|
                                    obind(
                                        divmod_mod_spec(vf, a, p),
                                        |ta0: (ZV, ZV)|
                                            obind(
                                                PolyZ::mul_spec(u, f),
                                                |uf: ZV|
                                                    obind(
                                                        PolyZ::mul_spec(b, ta0.0),
                                                        |bt: ZV|
                                                            obind(
                                                                PolyZ::add_spec(uf, bt),
                                                                |s1: ZV|
                                                                    obind(
                                                                        map_poly::<Integer, ZZ>(
                                                                            s1,
                                                                            mod_fn(p),
                                                                        ),
                                                                        |b0: ZV|
                                                                            hensel_step2_spec(
                                                                                c,
                                                                                a,
                                                                                b,
                                                                                u,
                                                                                v,
                                                                                one,
                                                                                p,
                                                                                ta0.1,
                                                                                b0,
                                                                            ),
                                                                    ),
                                                            ),
                                                    ),
                                            ),
                                    ),
                            ),
                    ),
            ),
    )
}

/// The second half of a Hensel step: new factors, then new cofactors.
#[verifier::opaque]
pub open spec fn hensel_step2_spec(
    c: ZV,
    a: ZV,
    b: ZV,
    u: ZV,
    v: ZV,
    one: ZV,
    p: int,
    a0: ZV,
    b0: ZV,
) -> Outcome<(ZV, ZV, ZV, ZV)> {
    obind(
        map_poly::<Integer, ZZ>(a0, smul_fn::<Integer>(p)),
        |a0p: ZV|
            obind(
                PolyZ::add_spec(a, a0p),
                |a1: ZV|
                    obind(
                        map_poly::<Integer, ZZ>(b0, smul_fn::<Integer>(p)),
                        |b0p: ZV|
                            obind(
                                PolyZ::add_spec(b, b0p),
                                |b1: ZV| hensel_step3_spec(a1, b1, u, v, one, p),
                            ),
                    ),
            ),
    )
}

/// The cofactor half of a Hensel step.
#[verifier::opaque]
pub open spec fn hensel_step3_spec(a1: ZV, b1: ZV, u: ZV, v: ZV, one: ZV, p: int) -> Outcome<
    (ZV, ZV, ZV, ZV),
> {
    obind(
        PolyZ::mul_spec(u, a1),
        |ua: ZV|
            obind(
                PolyZ::sub_spec(one, ua),
                |x1: ZV|
                    obind(
                        PolyZ::mul_spec(v, b1),
                        |vb: ZV|
                            obind(
                                PolyZ::sub_spec(x1, vb),
                                |x2: ZV|
                                    obind(
                                        map_poly::<Integer, ZZ>(x2, sdiv_fn::<Integer>(p)),
                                        |g: ZV|
                                            obind(
                                                PolyZ::mul_spec(v, g),
                                                |vg: ZV|
                                                    obind(
                                                        divmod_mod_spec(vg, a1, p),
                                                        |sv0: (ZV, ZV)|
                                                            hensel_step4_spec(
                                                                a1,
                                                                b1,
                                                                u,
                                                                v,
                                                                p,
                                                                g,
                                                                sv0.0,
                                                                sv0.1,
                                                            ),
                                                    ),
                                            ),
                                    ),
                            ),
                    ),
            ),
    )
}

/// The end of a Hensel step: the new cofactors.
#[verifier::opaque]
pub open spec fn hensel_step4_spec(a1: ZV, b1: ZV, u: ZV, v: ZV, p: int, g: ZV, s: ZV, v0: ZV) -> Outcome<
    (ZV, ZV, ZV, ZV),
> {
    obind(
        PolyZ::mul_spec(u, g),
        |ug: ZV|
            obind(
                PolyZ::mul_spec(b1, s),
                |bs: ZV|
                    obind(
                        PolyZ::add_spec(ug, bs),
                        |s2: ZV|
                            obind(
                                map_poly::<Integer, ZZ>(s2, mod_fn(p)),
                                |u0: ZV|
                                    obind(
                                        map_poly::<Integer, ZZ>(u0, smul_fn::<Integer>(p)),
                                        |u0p: ZV|
                                            obind(
                                                PolyZ::add_spec(u, u0p),
                                                |u1: ZV|
                                                    obind(
                                                        map_poly::<Integer, ZZ>(
                                                            v0,
                                                            smul_fn::<Integer>(p),
                                                        ),
                                                        |v0p: ZV|
                                                            obind(
                                                                PolyZ::add_spec(v, v0p),
                                                                |v1: ZV|
                                                                    Outcome::<(ZV, ZV, ZV, ZV)>::Ok(
                                                                        (a1, b1, u1, v1),
                                                                    ),
                                                            ),
                                                    ),
                                            ),
                                    ),
                            ),
                    ),
            ),
    )
}

/// The four polynomials of a Hensel step as the spec describes them.
pub open spec fn step_outcome(r: core::result::Result<(PolyZ, PolyZ, PolyZ, PolyZ), Error>) -> Outcome<
    (ZV, ZV, ZV, ZV),
> {
    match r {
        Ok(t) => Outcome::<(ZV, ZV, ZV, ZV)>::Ok((t.0@, t.1@, t.2@, t.3@)),
        Err(e) => Outcome::<(ZV, ZV, ZV, ZV)>::Err(e.spec_error_kind()),
    }
}

fn hensel_step4(a1: PolyZ, b1: PolyZ, u: &PolyZ, v: &PolyZ, pint: &Integer, g: &PolyZ, s: &PolyZ, v0: &PolyZ) -> (r: core::result::Result<
    (PolyZ, PolyZ, PolyZ, PolyZ),
    Error,
>)
    requires
        PolyZ::wf_view(a1@),
        PolyZ::wf_view(b1@),
        PolyZ::wf_view(u@),
        PolyZ::wf_view(v@),
        PolyZ::wf_view(g@),
        PolyZ::wf_view(s@),
        PolyZ::wf_view(v0@),
    ensures
        step_outcome(r) == hensel_step4_spec(a1@, b1@, u@, v@, pint@, g@, s@, v0@),
        r matches Ok(t) ==> PolyZ::wf_view(t.0@) && PolyZ::wf_view(t.1@) && PolyZ::wf_view(t.2@)
            && PolyZ::wf_view(t.3@),
{
    reveal(hensel_step4_spec);
    let ug = Elem::mul(u, g)?;
    let bs = Elem::mul(&b1, s)?;
    let s2 = Elem::add(&ug, &bs)?;
    let u0 = map_mod(&s2, pint)?;
    let u0p = u0.smul(pint)?;
    let u1 = Elem::add(u, &u0p)?;
    let v0p = v0.smul(pint)?;
    let v1 = Elem::add(v, &v0p)?;
    Ok((a1, b1, u1, v1))
}

fn hensel_step3(a1: PolyZ, b1: PolyZ, u: &PolyZ, v: &PolyZ, one: &PolyZ, p: &Int, pint: &Integer) -> (r: core::result::Result<
    (PolyZ, PolyZ, PolyZ, PolyZ),
    Error,
>)
    requires
        PolyZ::wf_view(a1@),
        PolyZ::wf_view(b1@),
        PolyZ::wf_view(u@),
        PolyZ::wf_view(v@),
        PolyZ::wf_view(one@),
        pint@ == p@,
        p@ != 0,
    ensures
        step_outcome(r) == hensel_step3_spec(a1@, b1@, u@, v@, one@, p@),
        r matches Ok(t) ==> PolyZ::wf_view(t.0@) && PolyZ::wf_view(t.1@) && PolyZ::wf_view(t.2@)
            && PolyZ::wf_view(t.3@),
{
    reveal(hensel_step3_spec);
    let ua = Elem::mul(u, &a1)?;
    let x1 = Elem::sub(one, &ua)?;
    let vb = Elem::mul(v, &b1)?;
    let x2 = Elem::sub(&x1, &vb)?;
    let g = x2.sdiv(pint)?;
    let vg = Elem::mul(v, &g)?;
    let (s, v0) = divmod_mod(&vg, &a1, p)?;
    hensel_step4(a1, b1, u, v, pint, &g, &s, &v0)
}

fn hensel_step2(a: &PolyZ, b: &PolyZ, u: &PolyZ, v: &PolyZ, one: &PolyZ, p: &Int, pint: &Integer, a0: &PolyZ, b0: &PolyZ) -> (r: core::result::Result<
    (PolyZ, PolyZ, PolyZ, PolyZ),
    Error,
>)
    requires
        PolyZ::wf_view(a@),
        PolyZ::wf_view(b@),
        PolyZ::wf_view(u@),
        PolyZ::wf_view(v@),
        PolyZ::wf_view(one@),
        PolyZ::wf_view(a0@),
        PolyZ::wf_view(b0@),
        pint@ == p@,
        p@ != 0,
    ensures
        forall|c: ZV| step_outcome(r) == #[trigger] hensel_step2_spec(c, a@, b@, u@, v@, one@, p@, a0@, b0@),
        r matches Ok(t) ==> PolyZ::wf_view(t.0@) && PolyZ::wf_view(t.1@) && PolyZ::wf_view(t.2@)
            && PolyZ::wf_view(t.3@),
{
    reveal(hensel_step2_spec);
    let a0p = a0.smul(pint)?;
    let a1 = Elem::add(a, &a0p)?;
    let b0p = b0.smul(pint)?;
    let b1 = Elem::add(b, &b0p)?;
    hensel_step3(a1, b1, u, v, one, p, pint)
}

/// One Hensel step.
fn hensel_step(c: &PolyZ, a: &PolyZ, b: &PolyZ, u: &PolyZ, v: &PolyZ, one: &PolyZ, p: &Int) -> (r: core::result::Result<
    (PolyZ, PolyZ, PolyZ, PolyZ),
    Error,
>)
    requires
        PolyZ::wf_view(c@),
        PolyZ::wf_view(a@),
        PolyZ::wf_view(b@),
        PolyZ::wf_view(u@),
        PolyZ::wf_view(v@),
        PolyZ::wf_view(one@),
        p@ != 0,
    ensures
        step_outcome(r) == hensel_step_spec(c@, a@, b@, u@, v@, one@, p@),
        r matches Ok(t) ==> PolyZ::wf_view(t.0@) && PolyZ::wf_view(t.1@) && PolyZ::wf_view(t.2@)
            && PolyZ::wf_view(t.3@),
{
    reveal(hensel_step_spec);
    let pint = Integer::new(p.clone());
    let ab = Elem::mul(a, b)?;
    let x = Elem::sub(c, &ab)?;
    let f = x.sdiv(&pint)?;
    let vf = Elem::mul(v, &f)?;
    let (t, a0) = divmod_mod(&vf, a, p)?;
    let uf = Elem::mul(u, &f)?;
    let bt = Elem::mul(b, &t)?;
    let s1 = Elem::add(&uf, &bt)?;
    let b0 = map_mod(&s1, &pint)?;
    hensel_step2(a, b, u, v, one, p, &pint, &a0, &b0)
}


/// The integer polynomial `1`.
pub open spec fn z_one() -> ZV {
    poly_of::<Integer, ZZ>((), seq![1int])
}

/// Hensel steps while the modulus `p` is below `qf`, squaring it each time.
pub open spec fn hensel_loop(c: ZV, a: ZV, b: ZV, u: ZV, v: ZV, p: int, qf: int) -> Outcome<(ZV, ZV)>
    decreases (if p < qf {
        qf - p
    } else {
        0
    }),
    when p >= 2
{
    if p < qf {
        proof {
            assert(p * p > p) by (nonlinear_arith)
                requires
                    p >= 2,
            ;
        }
        match hensel_step_spec(c, a, b, u, v, z_one(), p) {
            Outcome::<(ZV, ZV, ZV, ZV)>::Ok(t) => hensel_loop(c, t.0, t.1, t.2, t.3, p * p, qf),
            Outcome::<(ZV, ZV, ZV, ZV)>::Err(e) => Outcome::<(ZV, ZV)>::Err(e),
        }
    } else {
        Outcome::<(ZV, ZV)>::Ok((a, b))
    }
}

/// The lifted factors read modulo `qf`.
pub open spec fn lift_finish(o: Outcome<(ZV, ZV)>, qf: int) -> Outcome<(FpV, FpV)> {
    match o {
        Outcome::<(ZV, ZV)>::Ok(ab) => Outcome::<(FpV, FpV)>::Ok(
            (to_fp_spec(ab.0, qf), to_fp_spec(ab.1, qf)),
        ),
        Outcome::<(ZV, ZV)>::Err(e) => Outcome::<(FpV, FpV)>::Err(e),
    }
}

/// `hensel_lift_two(C, A_p, B_p, p, e)`: a factorization `C = A_p * B_p (mod p)`
/// lifted to one modulo `p^e`.
pub open spec fn hensel_lift_two_spec(c: ZV, ap: FpV, bp: FpV, p: int, e: nat) -> Outcome<(FpV, FpV)> {
    let qf = vstd::arithmetic::power::pow(p, e);
    obind(
        extended_gcd_spec::<PolyFp, Fpx>(p, ap, bp),
        |g: (FpV, FpV, FpV)|
            obind(
                PolyFp::div_spec(g.1, g.0),
                |up: FpV|
                    obind(
                        PolyFp::div_spec(g.2, g.0),
                        |vp: FpV|
                            lift_finish(
                                hensel_loop(
                                    c,
                                    to_zz_spec(ap),
                                    to_zz_spec(bp),
                                    to_zz_spec(up),
                                    to_zz_spec(vp),
                                    p,
                                    qf,
                                ),
                                qf,
                            ),
                    ),
            ),
    )
}

/// Two modular polynomials as the spec describes them.
pub open spec fn fp2_outcome(r: core::result::Result<(PolyFp, PolyFp), Error>) -> Outcome<(FpV, FpV)> {
    match r {
        Ok(t) => Outcome::<(FpV, FpV)>::Ok((t.0@, t.1@)),
        Err(e) => Outcome::<(FpV, FpV)>::Err(e.spec_error_kind()),
    }
}

fn hensel_lift_two(c: &PolyZ, a_p: &PolyFp, b_p: &PolyFp, p_in: &Int, e: u32) -> (r: core::result::Result<
    (PolyFp, PolyFp),
    Error,
>)
    requires
        PolyZ::wf_view(c@),
        PolyFp::wf_view(a_p@),
        PolyFp::wf_view(b_p@),
        p_in@ >= 2,
    ensures
        fp2_outcome(r) == hensel_lift_two_spec(c@, a_p@, b_p@, p_in@, e as nat),
        r matches Ok(t) ==> PolyFp::wf_view(t.0@) && PolyFp::wf_view(t.1@),
{
    let fpx: Fpx = Polynomials::new(IntegersMod::new(p_in.clone()));
    let (lc, u_p, v_p) = extended_gcd(&fpx, a_p, b_p)?;
    let u_p = Elem::div(&u_p, &lc)?;
    let v_p = Elem::div(&v_p, &lc)?;
    let mut a = to_zz(a_p);
    let mut b = to_zz(b_p);
    let mut u = to_zz(&u_p);
    let mut v = to_zz(&v_p);
    let ov: Vec<Integer> = vec![ZZ.one()];
    proof {
        assert(views::<Integer>(ov@) =~= seq![1int]);
    }
    let one: PolyZ = Polynomial::new(ZZ, ov);
    let q_final = p_in.pow(e);
    proof {
        vstd::arithmetic::power::lemma_pow_positive(p_in@, e as nat);
    }
    let mut p = p_in.clone();
    while p.less_than(&q_final)
        invariant
            q_final@ > 0,
            lift_finish(hensel_loop(c@, a@, b@, u@, v@, p@, q_final@), q_final@) == hensel_lift_two_spec(
                c@,
                a_p@,
                b_p@,
                p_in@,
                e as nat,
            ),
            PolyZ::wf_view(c@),
            PolyZ::wf_view(a@),
            PolyZ::wf_view(b@),
            PolyZ::wf_view(u@),
            PolyZ::wf_view(v@),
            one@ == z_one(),
            PolyZ::wf_view(one@),
            p@ >= 2,
        decreases (if p@ < q_final@ {
            q_final@ - p@
        } else {
            0
        }),
    {
        let (a1, b1, u1, v1) = hensel_step(c, &a, &b, &u, &v, &one, &p)?;
        a = a1;
        b = b1;
        u = u1;
        v = v1;
        let pp = p.mul(&p);
        proof {
            assert(p@ * p@ > p@) by (nonlinear_arith)
                requires
                    p@ >= 2,
            ;
        }
        p = pp;
    }
    let fa = to_fp(&a, &q_final);
    let fb = to_fp(&b, &q_final);
    Ok((fa, fb))
}


/// The product of modular polynomials, from one.
pub open spec fn fp_product(fs: Seq<FpV>, p: int) -> Outcome<FpV> {
    product_loop::<PolyFp>(<Fpx as RingOps<PolyFp>>::one_spec(p), fs, fs.len())
}

/// `hensel_lift(C, factors, p, e)`: a factorization of `C` modulo `p`
/// lifted to monic factors modulo `p^e` (von zur Gathen, Algorithm 15.17).
pub open spec fn hensel_lift_spec(c: ZV, fs: Seq<FpV>, p: int, e: nat) -> Outcome<Seq<FpV>>
    decreases fs.len(),
{
    if fs.len() <= 1 {
        match monic_spec::<IntegerMod, IntegersMod>(to_fp_spec(c, vstd::arithmetic::power::pow(p, e))) {
            Outcome::<FpV>::Ok(m) => Outcome::<Seq<FpV>>::Ok(seq![m]),
            Outcome::<FpV>::Err(k) => Outcome::<Seq<FpV>>::Err(k),
        }
    } else {
        let split = fs.len() / 2;
        let af = fs.take(split as int);
        let bf = fs.skip(split as int);
        match lift_halves(c, af, bf, p, e) {
            Outcome::<(FpV, FpV)>::Err(k) => Outcome::<Seq<FpV>>::Err(k),
            Outcome::<(FpV, FpV)>::Ok(ab) => match hensel_lift_spec(to_zz_spec(ab.0), af, p, e) {
                Outcome::<Seq<FpV>>::Err(k) => Outcome::<Seq<FpV>>::Err(k),
                Outcome::<Seq<FpV>>::Ok(ra) => match hensel_lift_spec(to_zz_spec(ab.1), bf, p, e) {
                    Outcome::<Seq<FpV>>::Err(k) => Outcome::<Seq<FpV>>::Err(k),
                    Outcome::<Seq<FpV>>::Ok(rb) => Outcome::<Seq<FpV>>::Ok(ra + rb),
                },
            },
        }
    }
}

/// The two halves of a factorization, multiplied out (the second scaled by
/// the leading coefficient of `C`) and lifted together.
#[verifier::opaque]
pub open spec fn lift_halves(c: ZV, af: Seq<FpV>, bf: Seq<FpV>, p: int, e: nat) -> Outcome<(FpV, FpV)> {
    obind(
        fp_product(af, p),
        |ap: FpV|
            if c.2 < 0 {
                Outcome::<(FpV, FpV)>::Err(ErrorKind::Other)
            } else {
                obind(
                    fp_product(bf, p),
                    |bp0: FpV|
                        obind(
                            map_poly::<IntegerMod, IntegersMod>(
                                bp0,
                                smul_fn::<IntegerMod>((reduce_mod(c.1.last(), p), p)),
                            ),
                            |bp: FpV| hensel_lift_two_spec(c, ap, bp, p, e),
                        ),
                )
            },
    )
}

/// Copies of `fs[lo..hi]`.
fn fp_range(fs: &Vec<PolyFp>, lo: usize, hi: usize) -> (r: Vec<PolyFp>)
    requires
        lo <= hi <= fs@.len(),
        all_fp_wf(fp_views(fs@)),
    ensures
        fp_views(r@) == fp_views(fs@).subrange(lo as int, hi as int),
        all_fp_wf(fp_views(r@)),
{
    let mut r: Vec<PolyFp> = Vec::new();
    let mut i = lo;
    while i < hi
        invariant
            lo <= i <= hi <= fs@.len(),
            all_fp_wf(fp_views(fs@)),
            fp_views(r@) == fp_views(fs@).subrange(lo as int, i as int),
        decreases hi - i,
    {
        proof {
            assert(fp_views(fs@)[i as int] == fs@[i as int]@);
        }
        let ghost before = fp_views(r@);
        let x = fs[i].copy_poly();
        r.push(x);
        proof {
            assert(fp_views(r@) =~= before.push(x@));
            assert(fp_views(fs@).subrange(lo as int, i + 1) =~= fp_views(fs@).subrange(
                lo as int,
                i as int,
            ).push(fp_views(fs@)[i as int]));
        }
        i = i + 1;
    }
    r
}

fn lift_halves_exec(c: &PolyZ, af: &Vec<PolyFp>, bf: &Vec<PolyFp>, p: &Int, e: u32) -> (r: core::result::Result<
    (PolyFp, PolyFp),
    Error,
>)
    requires
        PolyZ::wf_view(c@),
        all_fp_wf(fp_views(af@)),
        all_fp_wf(fp_views(bf@)),
        p@ >= 2,
    ensures
        fp2_outcome(r) == lift_halves(c@, fp_views(af@), fp_views(bf@), p@, e as nat),
        r matches Ok(t) ==> PolyFp::wf_view(t.0@) && PolyFp::wf_view(t.1@),
{
    reveal(lift_halves);
    let fpx: Fpx = Polynomials::new(IntegersMod::new(p.clone()));
    proof {
        assert(af@.map_values(|x: PolyFp| x@) =~= fp_views(af@));
        assert(bf@.map_values(|x: PolyFp| x@) =~= fp_views(bf@));
        assert forall|i: int| 0 <= i < af@.len() implies #[trigger] PolyFp::wf_spec(af@[i]@) by {
            assert(fp_views(af@)[i] == af@[i]@);
        }
        assert forall|i: int| 0 <= i < bf@.len() implies #[trigger] PolyFp::wf_spec(bf@[i]@) by {
            assert(fp_views(bf@)[i] == bf@[i]@);
        }
    }
    let a_p = product(&fpx, af.as_slice())?;
    let lc = match c.lc() {
        Some(x) => x,
        None => {
            return Err(Error::Other("hensel_lift of zero polynomial".to_owned()));
        },
    };
    let s = IntegerMod::new(lc.n.clone(), p.clone());
    let b_p0 = product(&fpx, bf.as_slice())?;
    let b_p = b_p0.smul(&s)?;
    hensel_lift_two(c, &a_p, &b_p, p, e)
}

#[verifier::rlimit(30)]
fn hensel_lift(c: &PolyZ, fs: &Vec<PolyFp>, p: &Int, e: u32) -> (r: core::result::Result<Vec<PolyFp>, Error>)
    requires
        PolyZ::wf_view(c@),
        all_fp_wf(fp_views(fs@)),
        fs@.len() >= 1,
        p@ >= 2,
    ensures
        fp_outcome(r) == hensel_lift_spec(c@, fp_views(fs@), p@, e as nat),
        r matches Ok(v) ==> all_fp_wf(fp_views(v@)),
    decreases fs@.len(),
{
    if fs.len() == 1 {
        let q = p.pow(e);
        proof {
            vstd::arithmetic::power::lemma_pow_positive(p@, e as nat);
        }
        let m = to_fp(c, &q).monic()?;
        let out = vec![m];
        proof {
            assert(fp_views(out@) =~= seq![m@]);
        }
        return Ok(out);
    }
    let split = fs.len() / 2;
    let af = fp_range(fs, 0, split);
    let bf = fp_range(fs, split, fs.len());
    proof {
        assert(fp_views(af@) =~= fp_views(fs@).take(split as int));
        assert(fp_views(bf@) =~= fp_views(fs@).skip(split as int));
        assert(af@.len() == fp_views(af@).len());
        assert(bf@.len() == fp_views(bf@).len());
        assert(1 <= af@.len() < fs@.len());
        assert(1 <= bf@.len() < fs@.len());
    }
    let (a_q, b_q) = lift_halves_exec(c, &af, &bf, p, e)?;
    let a = to_zz(&a_q);
    let b = to_zz(&b_q);
    let mut out = hensel_lift(&a, &af, p, e)?;
    let mut rest = hensel_lift(&b, &bf, p, e)?;
    let ghost ra = fp_views(out@);
    let ghost rb = fp_views(rest@);
    out.append(&mut rest);
    proof {
        assert(fp_views(out@) =~= ra + rb);
    }
    Ok(out)
}


/* ------------------------------------------------------------------------ */
/*  Recombination                                                            */
/* ------------------------------------------------------------------------ */

/// The views of a list of integer polynomials.
pub open spec fn z_views(v: Seq<PolyZ>) -> Seq<ZV> {
    v.map_values(|x: PolyZ| x@)
}

/// Every polynomial of the list well formed.
pub open spec fn all_z_wf(v: Seq<ZV>) -> bool {
    forall|i: int| 0 <= i < v.len() ==> #[trigger] PolyZ::wf_view(v[i])
}

/// A modular polynomial read back with coefficients in `[-p/2, p/2)`.
pub open spec fn center_spec(v: FpV, p: int) -> ZV {
    poly_of::<Integer, ZZ>(
        (),
        v.1.map_values(
            |c: (int, int)|
                if 2 * c.0 < p {
                    c.0
                } else {
                    c.0 - p
                },
        ),
    )
}

/// The running gcd of the first `j` coefficients, started from the first.
pub open spec fn coeff_gcd(s: Seq<int>, j: nat) -> int
    decreases j,
{
    if j == 0 {
        s[0]
    } else {
        gcd(vstd::math::abs(coeff_gcd(s, (j - 1) as nat)), vstd::math::abs(s[j - 1])) as int
    }
}

/// A true factor `vz` found: made primitive, recorded, and divided out of `u`.
pub open spec fn cf_found(u: ZV, facs: Seq<ZV>, vz: ZV) -> Outcome<(ZV, Seq<ZV>)> {
    let g = coeff_gcd(vz.1, vz.1.len());
    match map_poly::<Integer, ZZ>(vz, sdiv_fn::<Integer>(g)) {
        Outcome::<ZV>::Err(e) => Outcome::<(ZV, Seq<ZV>)>::Err(e),
        Outcome::<ZV>::Ok(vz2) => match poly_div_spec::<Integer, ZZ>(u, vz2) {
            Outcome::<ZV>::Err(e) => Outcome::<(ZV, Seq<ZV>)>::Err(e),
            Outcome::<ZV>::Ok(u2) => Outcome::<(ZV, Seq<ZV>)>::Ok((u2, facs.push(vz2))),
        },
    }
}

/// One candidate of recombination: the product of `comb` (times the leading
/// coefficient of `u`) taken to the integers; if it divides `lc(u) * u` it is
/// a factor. A candidate that cannot divide at all is passed over.
pub open spec fn cf_step_spec(u: ZV, facs: Seq<ZV>, comb: Seq<FpV>, p: int) -> Outcome<(ZV, Seq<ZV>)> {
    if u.2 < 0 {
        Outcome::<(ZV, Seq<ZV>)>::Err(ErrorKind::Other)
    } else {
        let lc = u.1.last();
        match fp_product(comb, p) {
            Outcome::<FpV>::Err(e) => Outcome::<(ZV, Seq<ZV>)>::Err(e),
            Outcome::<FpV>::Ok(prod) => match map_poly::<IntegerMod, IntegersMod>(
                prod,
                smul_fn::<IntegerMod>((reduce_mod(lc, p), p)),
            ) {
                Outcome::<FpV>::Err(e) => Outcome::<(ZV, Seq<ZV>)>::Err(e),
                Outcome::<FpV>::Ok(v) => {
                    let vz = center_spec(v, p);
                    match map_poly::<Integer, ZZ>(u, smul_fn::<Integer>(lc)) {
                        Outcome::<ZV>::Err(e) => Outcome::<(ZV, Seq<ZV>)>::Err(e),
                        Outcome::<ZV>::Ok(ul) => match divmod_spec::<Integer, ZZ>(ul, vz) {
                            Outcome::<(ZV, ZV)>::Err(e) => if e == ErrorKind::Division {
                                Outcome::<(ZV, Seq<ZV>)>::Ok((u, facs))
                            } else {
                                Outcome::<(ZV, Seq<ZV>)>::Err(e)
                            },
                            Outcome::<(ZV, ZV)>::Ok(qr) => if qr.1.2 == -1 {
                                cf_found(u, facs, vz)
                            } else {
                                Outcome::<(ZV, Seq<ZV>)>::Ok((u, facs))
                            },
                        },
                    }
                },
            },
        }
    }
}

/// The first `j` candidates of `combs`, in order.
pub open spec fn cf_inner(u: ZV, facs: Seq<ZV>, combs: Seq<Seq<FpV>>, j: nat, p: int) -> Outcome<
    (ZV, Seq<ZV>),
>
    decreases j,
{
    if j == 0 {
        Outcome::<(ZV, Seq<ZV>)>::Ok((u, facs))
    } else {
        match cf_inner(u, facs, combs, (j - 1) as nat, p) {
            Outcome::<(ZV, Seq<ZV>)>::Ok(st) => cf_step_spec(st.0, st.1, combs[j - 1], p),
            Outcome::<(ZV, Seq<ZV>)>::Err(e) => Outcome::<(ZV, Seq<ZV>)>::Err(e),
        }
    }
}

/// Candidates of `d` factors, then `d + 1`, ..., while `d` is at most half
/// the degree of what is left (and, which that implies, at most `bound`, the
/// degree it started from); what is left at the end is the last factor.
pub open spec fn cf_outer(u: ZV, facs: Seq<ZV>, fs: Seq<FpV>, d: int, p: int, bound: int) -> Outcome<
    Seq<ZV>,
>
    decreases bound + 1 - d,
{
    if d <= tdiv(u.2, 2) && d <= bound {
        match cf_inner(u, facs, combos(fs, d, 0, Seq::empty()), combos(fs, d, 0, Seq::empty()).len(), p) {
            Outcome::<(ZV, Seq<ZV>)>::Ok(st) => cf_outer(st.0, st.1, fs, d + 1, p, bound),
            Outcome::<(ZV, Seq<ZV>)>::Err(e) => Outcome::<Seq<ZV>>::Err(e),
        }
    } else if u.2 > 0 {
        Outcome::<Seq<ZV>>::Ok(facs.push(u))
    } else {
        Outcome::<Seq<ZV>>::Ok(facs)
    }
}

/// `combine_factors(U, factors, p)`: the true factors of `U` recombined from
/// its factors modulo `p` (Cohen, Algorithm 3.5.7, step 5).
pub open spec fn combine_factors_spec(u: ZV, fs: Seq<FpV>, p: int) -> Outcome<Seq<ZV>> {
    cf_outer(u, Seq::empty(), fs, 1, p, u.2)
}

/// A quotient in exact division is no larger than the dividend.
proof fn lemma_poly_div_degree(a: ZV, b: ZV)
    requires
        PolyZ::wf_view(a),
        PolyZ::wf_view(b),
    ensures
        poly_div_spec::<Integer, ZZ>(a, b) matches Outcome::<ZV>::Ok(q) ==> q.2 <= a.2,
{
    if b.2 == 0 {
        lemma_map_poly_len::<Integer, ZZ>(a, sdiv_fn::<Integer>(b.1[0]));
    } else {
        lemma_divmod_quot_degree::<Integer, ZZ>(a, b);
    }
}

/// Every element of a combination is an element of the prefix or of `xs`
/// from `i` on; here, every index stays below `n`.
proof fn lemma_combos_below(xs: Seq<usize>, k: int, i: int, prefix: Seq<usize>, n: usize)
    requires
        forall|t: int| 0 <= t < xs.len() ==> #[trigger] xs[t] < n,
        forall|t: int| 0 <= t < prefix.len() ==> #[trigger] prefix[t] < n,
    ensures
        forall|c: int, t: int|
            0 <= c < combos(xs, k, i, prefix).len() && 0 <= t < combos(xs, k, i, prefix)[c].len()
                ==> #[trigger] combos(xs, k, i, prefix)[c][t] < n,
    decreases xs.len() + 1 - i,
{
    if i > xs.len() || i < 0 {
    } else if i + k == xs.len() {
        let c0 = prefix + xs.skip(i);
        assert forall|t: int| 0 <= t < c0.len() implies #[trigger] c0[t] < n by {
            if t < prefix.len() {
            } else {
                assert(c0[t] == xs[i + (t - prefix.len())]);
            }
        }
    } else {
        lemma_combos_below(xs, k, i + 1, prefix, n);
        if k > 0 && i < xs.len() {
            let p2 = prefix.push(xs[i]);
            assert forall|t: int| 0 <= t < p2.len() implies #[trigger] p2[t] < n by {
                if t < prefix.len() {
                } else {
                }
            }
            lemma_combos_below(xs, k - 1, i + 1, p2, n);
            let a = combos(xs, k - 1, i + 1, p2);
            let b = combos(xs, k, i + 1, prefix);
            assert(combos(xs, k, i, prefix) == a + b);
            assert forall|c: int, t: int|
                0 <= c < (a + b).len() && 0 <= t < (a + b)[c].len() implies #[trigger] (a + b)[c][t] < n by {
                if c < a.len() {
                    assert((a + b)[c] == a[c]);
                } else {
                    assert((a + b)[c] == b[c - a.len()]);
                }
            }
        } else {
            assert(combos(xs, k, i, prefix) =~= Seq::<Seq<usize>>::empty() + combos(xs, k, i + 1, prefix));
        }
    }
}

/// Choosing indices and then looking them up visits the same combinations,
/// in the same order, as choosing the elements themselves.
proof fn lemma_combos_map<A, B>(xs: Seq<A>, k: int, i: int, prefix: Seq<A>, f: spec_fn(A) -> B)
    ensures
        combos(xs.map_values(f), k, i, prefix.map_values(f)) == combos(xs, k, i, prefix).map_values(
            |c: Seq<A>| c.map_values(f),
        ),
    decreases xs.len() + 1 - i,
{
    let g = |c: Seq<A>| c.map_values(f);
    let xf = xs.map_values(f);
    let pf = prefix.map_values(f);
    if i > xs.len() || i < 0 {
        assert(combos(xs, k, i, prefix).map_values(g) =~= Seq::<Seq<B>>::empty());
    } else if i + k == xs.len() {
        assert(pf + xf.skip(i) =~= (prefix + xs.skip(i)).map_values(f));
        assert(combos(xs, k, i, prefix).map_values(g) =~= seq![(prefix + xs.skip(i)).map_values(f)]);
    } else {
        lemma_combos_map(xs, k, i + 1, prefix, f);
        let a = combos(xs, k, i + 1, prefix);
        if k > 0 && i < xs.len() {
            lemma_combos_map(xs, k - 1, i + 1, prefix.push(xs[i]), f);
            assert(pf.push(xf[i]) =~= prefix.push(xs[i]).map_values(f));
            let b = combos(xs, k - 1, i + 1, prefix.push(xs[i]));
            assert((b + a).map_values(g) =~= b.map_values(g) + a.map_values(g));
        } else {
            assert(combos(xs, k, i, prefix) =~= Seq::<Seq<A>>::empty() + a);
            assert(combos(xs, k, i, prefix) =~= a);
            assert(combos(xf, k, i, pf) =~= Seq::<Seq<B>>::empty() + combos(xf, k, i + 1, pf));
            assert(combos(xf, k, i, pf) =~= combos(xf, k, i + 1, pf));
        }
    }
}

/// No combination has more elements than remain.
proof fn lemma_combos_empty<T>(xs: Seq<T>, k: int, i: int, prefix: Seq<T>)
    requires
        k > xs.len() - i,
    ensures
        combos(xs, k, i, prefix) == Seq::<Seq<T>>::empty(),
    decreases xs.len() + 1 - i,
{
    if i > xs.len() || i < 0 {
    } else {
        lemma_combos_empty(xs, k, i + 1, prefix);
        if k > 0 && i < xs.len() {
            lemma_combos_empty(xs, k - 1, i + 1, prefix.push(xs[i]));
        }
        assert(combos(xs, k, i, prefix) =~= Seq::<Seq<T>>::empty());
    }
}


/// A modular polynomial taken to the integers with coefficients in
/// `[-p/2, p/2)`.
fn center(v: &PolyFp, p: &Int) -> (r: PolyZ)
    requires
        PolyFp::wf_view(v@),
    ensures
        r@ == center_spec(v@, p@),
        PolyZ::wf_view(r@),
{
    let two = Int::from_i64(2);
    let mut out: Vec<Integer> = Vec::new();
    let mut i: usize = 0;
    while i < v.coeffs.len()
        invariant
            i <= v.coeffs.len(),
            PolyFp::wf_view(v@),
            two@ == 2,
            out@.len() == i,
            forall|j: int|
                0 <= j < i ==> #[trigger] out@[j]@ == (if 2 * v@.1[j].0 < p@ {
                    v@.1[j].0
                } else {
                    v@.1[j].0 - p@
                }),
        decreases v.coeffs.len() - i,
    {
        proof {
            assert(v@.1[i as int] == v.coeffs@[i as int]@);
        }
        let c = &v.coeffs[i].n;
        let twice = two.mul(c);
        let x = if twice.less_than(p) {
            c.clone()
        } else {
            c.sub(p)
        };
        out.push(Integer::new(x));
        i = i + 1;
    }
    proof {
        assert(views::<Integer>(out@) =~= v@.1.map_values(
            |c: (int, int)|
                if 2 * c.0 < p@ {
                    c.0
                } else {
                    c.0 - p@
                },
        ));
    }
    Polynomial::new(ZZ, out)
}

/// The views of a pair of state as the spec describes them.
pub open spec fn cf_outcome(r: core::result::Result<(PolyZ, Vec<PolyZ>), Error>) -> Outcome<
    (ZV, Seq<ZV>),
> {
    match r {
        Ok(t) => Outcome::<(ZV, Seq<ZV>)>::Ok((t.0@, z_views(t.1@))),
        Err(e) => Outcome::<(ZV, Seq<ZV>)>::Err(e.spec_error_kind()),
    }
}

/// Make `vz` primitive, record it and divide it out of `u`.
fn cf_take(u: PolyZ, facs: Vec<PolyZ>, vz: PolyZ) -> (r: core::result::Result<(PolyZ, Vec<PolyZ>), Error>)
    requires
        PolyZ::wf_view(u@),
        PolyZ::wf_view(vz@),
        vz@.2 >= 0,
        all_z_wf(z_views(facs@)),
    ensures
        cf_outcome(r) == cf_found(u@, z_views(facs@), vz@),
        r matches Ok(t) ==> PolyZ::wf_view(t.0@) && all_z_wf(z_views(t.1@)) && t.0@.2 <= u@.2,
{
    let mut facs = facs;
    proof {
        assert(vz@.1[0] == vz.coeffs@[0]@);
    }
    let mut g = vz.coeffs[0].n.clone();
    let mut i: usize = 0;
    while i < vz.coeffs.len()
        invariant
            i <= vz.coeffs.len(),
            PolyZ::wf_view(vz@),
            vz@.2 >= 0,
            g@ == coeff_gcd(vz@.1, i as nat),
        decreases vz.coeffs.len() - i,
    {
        proof {
            assert(vz@.1[i as int] == vz.coeffs@[i as int]@);
        }
        g = g.gcd(&vz.coeffs[i].n);
        i = i + 1;
    }
    let vz2 = vz.sdiv(&Integer::new(g))?;
    let ghost before = z_views(facs@);
    facs.push(vz2.copy_poly());
    proof {
        assert(z_views(facs@) =~= before.push(vz2@));
        lemma_poly_div_degree(u@, vz2@);
    }
    let u2 = Elem::div(&u, &vz2)?;
    Ok((u2, facs))
}

/// One candidate of recombination.
fn cf_step(u: PolyZ, facs: Vec<PolyZ>, comb: &Vec<PolyFp>, fpx: &Fpx, p: &Int) -> (r: core::result::Result<
    (PolyZ, Vec<PolyZ>),
    Error,
>)
    requires
        PolyZ::wf_view(u@),
        all_z_wf(z_views(facs@)),
        all_fp_wf(fp_views(comb@)),
        fpx@ == p@,
        p@ != 0,
    ensures
        cf_outcome(r) == cf_step_spec(u@, z_views(facs@), fp_views(comb@), p@),
        r matches Ok(t) ==> PolyZ::wf_view(t.0@) && all_z_wf(z_views(t.1@)) && t.0@.2 <= u@.2,
{
    let lc = match u.lc() {
        Some(c) => c.copy(),
        None => {
            return Err(Error::Other("combine_factors: zero polynomial".to_owned()));
        },
    };
    proof {
        assert(comb@.map_values(|x: PolyFp| x@) =~= fp_views(comb@));
        assert forall|i: int| 0 <= i < comb@.len() implies #[trigger] PolyFp::wf_spec(comb@[i]@) by {
            assert(fp_views(comb@)[i] == comb@[i]@);
        }
    }
    let prod = product(fpx, comb.as_slice())?;
    let v = prod.smul(&IntegerMod::new(lc.n.clone(), p.clone()))?;
    let vz = center(&v, p);
    let ul = u.smul(&lc)?;
    let r = match ul.modulo(&vz) {
        Ok(r) => r,
        Err(e) => {
            return match e {
                Error::Division(_) => Ok((u, facs)),
                _ => Err(e),
            };
        },
    };
    if r.degree == -1 {
        return cf_take(u, facs, vz);
    }
    Ok((u, facs))
}

/// `0, 1, ..., n - 1`.
fn indices(n: usize) -> (r: Vec<usize>)
    ensures
        r@.len() == n,
        forall|j: int| 0 <= j < n ==> #[trigger] r@[j] == j,
{
    let mut r: Vec<usize> = Vec::new();
    let mut j: usize = 0;
    while j < n
        invariant
            j <= n,
            r@.len() == j,
            forall|t: int| 0 <= t < j ==> #[trigger] r@[t] == t,
        decreases n - j,
    {
        r.push(j);
        j = j + 1;
    }
    r
}

/// The factors picked by `comb`, copied.
fn pick(fs: &Vec<PolyFp>, comb: &Vec<usize>) -> (r: Vec<PolyFp>)
    requires
        all_fp_wf(fp_views(fs@)),
        forall|t: int| 0 <= t < comb@.len() ==> #[trigger] comb@[t] < fs@.len(),
    ensures
        fp_views(r@) == comb@.map_values(|j: usize| fp_views(fs@)[j as int]),
        all_fp_wf(fp_views(r@)),
{
    let mut r: Vec<PolyFp> = Vec::new();
    let mut t: usize = 0;
    while t < comb.len()
        invariant
            t <= comb@.len(),
            all_fp_wf(fp_views(fs@)),
            forall|t2: int| 0 <= t2 < comb@.len() ==> #[trigger] comb@[t2] < fs@.len(),
            fp_views(r@) == comb@.take(t as int).map_values(|j: usize| fp_views(fs@)[j as int]),
        decreases comb@.len() - t,
    {
        let j = comb[t];
        proof {
            assert(fp_views(fs@)[j as int] == fs@[j as int]@);
        }
        let ghost before = fp_views(r@);
        let x = fs[j].copy_poly();
        r.push(x);
        proof {
            assert(fp_views(r@) =~= before.push(x@));
            assert(comb@.take(t + 1).map_values(|j: usize| fp_views(fs@)[j as int]) =~= comb@.take(
                t as int,
            ).map_values(|j: usize| fp_views(fs@)[j as int]).push(fp_views(fs@)[j as int]));
        }
        t = t + 1;
    }
    proof {
        assert(comb@.take(comb@.len() as int) =~= comb@);
    }
    r
}


/// Once a candidate fails, the whole round fails the same way.
proof fn lemma_cf_inner_err(u: ZV, facs: Seq<ZV>, cs: Seq<Seq<FpV>>, j: nat, j2: nat, p: int)
    requires
        j <= j2,
        cf_inner(u, facs, cs, j, p) is Err,
    ensures
        cf_inner(u, facs, cs, j2, p) == cf_inner(u, facs, cs, j, p),
    decreases j2 - j,
{
    if j < j2 {
        lemma_cf_inner_err(u, facs, cs, j, (j2 - 1) as nat, p);
    }
}

/// A list of integer polynomials as the spec describes it.
pub open spec fn z_outcome(r: core::result::Result<Vec<PolyZ>, Error>) -> Outcome<Seq<ZV>> {
    match r {
        Ok(v) => Outcome::<Seq<ZV>>::Ok(z_views(v@)),
        Err(e) => Outcome::<Seq<ZV>>::Err(e.spec_error_kind()),
    }
}

/// The candidates of `d` factors, tried in turn against what is left of `u`.
#[verifier::spinoff_prover]
#[verifier::rlimit(40)]
fn cf_round(
    u_in: PolyZ,
    facs_in: Vec<PolyZ>,
    fs: &Vec<PolyFp>,
    idx: &Vec<usize>,
    d: isize,
    fpx: &Fpx,
    p: &Int,
) -> (r: core::result::Result<(PolyZ, Vec<PolyZ>), Error>)
    requires
        PolyZ::wf_view(u_in@),
        all_z_wf(z_views(facs_in@)),
        all_fp_wf(fp_views(fs@)),
        idx@.len() == fs@.len(),
        forall|j: int| 0 <= j < idx@.len() ==> #[trigger] idx@[j] == j,
        1 <= d,
        fpx@ == p@,
        p@ != 0,
    ensures
        cf_outcome(r) == cf_inner(
            u_in@,
            z_views(facs_in@),
            combos(fp_views(fs@), d as int, 0, Seq::empty()),
            combos(fp_views(fs@), d as int, 0, Seq::empty()).len(),
            p@,
        ),
        r matches Ok(t) ==> PolyZ::wf_view(t.0@) && all_z_wf(z_views(t.1@)) && t.0@.2 <= u_in@.2,
{
    let ghost fsv = fp_views(fs@);
    let ghost cs = combos(fsv, d as int, 0, Seq::empty());
    let ghost u0 = u_in@;
    let ghost f0 = z_views(facs_in@);
    if d as usize > fs.len() {
        proof {
            lemma_combos_empty(fsv, d as int, 0, Seq::empty());
        }
        return Ok((u_in, facs_in));
    }
    let combs = combinations_vec(idx.as_slice(), d);
    let ghost f = |j: usize| fsv[j as int];
    proof {
        assert(idx@.map_values(f) =~= fsv);
        assert(Seq::<usize>::empty().map_values(f) =~= Seq::<FpV>::empty());
        lemma_combos_map(idx@, d as int, 0, Seq::empty(), f);
        lemma_combos_below(idx@, d as int, 0, Seq::empty(), fs.len());
        assert(cs == combos(idx@, d as int, 0, Seq::empty()).map_values(
            |c: Seq<usize>| c.map_values(f),
        ));
        assert(combs@.len() == cs.len());
    }
    let mut u = u_in;
    let mut facs = facs_in;
    let mut k: usize = 0;
    while k < combs.len()
        invariant
            k <= combs@.len() == cs.len(),
            PolyZ::wf_view(u@),
            u@.2 <= u0.2,
            all_z_wf(z_views(facs@)),
            all_fp_wf(fp_views(fs@)),
            fsv == fp_views(fs@),
            cs == combos(fsv, d as int, 0, Seq::empty()),
            u0 == u_in@,
            f0 == z_views(facs_in@),
            fpx@ == p@,
            p@ != 0,
            combs@.map_values(|v: Vec<usize>| v@) == combos(idx@, d as int, 0, Seq::empty()),
            cs == combos(idx@, d as int, 0, Seq::empty()).map_values(|c: Seq<usize>| c.map_values(f)),
            forall|c: int, t: int|
                0 <= c < combos(idx@, d as int, 0, Seq::empty()).len() && 0 <= t < combos(
                    idx@,
                    d as int,
                    0,
                    Seq::empty(),
                )[c].len() ==> #[trigger] combos(idx@, d as int, 0, Seq::empty())[c][t] < fs@.len(),
            f == (|j: usize| fsv[j as int]),
            cf_inner(u0, f0, cs, k as nat, p@) == Outcome::<(ZV, Seq<ZV>)>::Ok((u@, z_views(facs@))),
        decreases combs@.len() - k,
    {
        proof {
            assert(combs@[k as int]@ == combos(idx@, d as int, 0, Seq::empty())[k as int]);
            assert forall|t: int| 0 <= t < combs@[k as int]@.len() implies #[trigger] combs@[k as int]@[t]
                < fs@.len() by {
                assert(combs@[k as int]@[t] == combos(idx@, d as int, 0, Seq::empty())[k as int][t]);
            }
        }
        let comb = pick(fs, &combs[k]);
        proof {
            assert(fp_views(comb@) =~= cs[k as int]);
        }
        let ghost uv = u@;
        let ghost fv = z_views(facs@);
        let stepped = cf_step(u, facs, &comb, fpx, p);
        let (u2, f2) = match stepped {
            Ok(t) => t,
            Err(e) => {
                proof {
                    assert(cf_step_spec(uv, fv, cs[k as int], p@) == Outcome::<(ZV, Seq<ZV>)>::Err(
                        e.spec_error_kind(),
                    ));
                    assert(cf_inner(u0, f0, cs, (k + 1) as nat, p@) == Outcome::<(ZV, Seq<ZV>)>::Err(
                        e.spec_error_kind(),
                    ));
                    lemma_cf_inner_err(u0, f0, cs, (k + 1) as nat, cs.len(), p@);



                }
                return Err(e);
            },
        };
        u = u2;
        facs = f2;
        k = k + 1;
    }
    Ok((u, facs))
}

/// Recombine the lifted factors (Cohen, Algorithm 3.5.7, step 5).
///
/// Assumes the coefficients of the factors of `U` lie in `[-p/2, p/2)`.
fn combine_factors(u_in: &PolyZ, fs: &Vec<PolyFp>, p: &Int) -> (r: core::result::Result<Vec<PolyZ>, Error>)
    requires
        PolyZ::wf_view(u_in@),
        all_fp_wf(fp_views(fs@)),
        p@ != 0,
    ensures
        z_outcome(r) == combine_factors_spec(u_in@, fp_views(fs@), p@),
        r matches Ok(v) ==> all_z_wf(z_views(v@)),
{
    let fpx: Fpx = Polynomials::new(IntegersMod::new(p.clone()));
    let mut factors: Vec<PolyZ> = Vec::new();
    let mut u = u_in.copy_poly();
    let mut d: isize = 1;
    let idx = indices(fs.len());
    let ghost fsv = fp_views(fs@);
    let ghost bound = u_in@.2;
    proof {
        assert(z_views(factors@) =~= Seq::<ZV>::empty());
    }
    while d <= u.degree / 2
        invariant
            PolyZ::wf_view(u@),
            all_z_wf(z_views(factors@)),
            all_fp_wf(fp_views(fs@)),
            fsv == fp_views(fs@),
            idx@.len() == fs@.len(),
            forall|j: int| 0 <= j < idx@.len() ==> #[trigger] idx@[j] == j,
            fpx@ == p@,
            p@ != 0,
            1 <= d,
            u@.2 <= bound,
            cf_outer(u@, z_views(factors@), fsv, d as int, p@, bound) == combine_factors_spec(
                u_in@,
                fsv,
                p@,
            ),
        decreases bound + 1 - d,
    {
        proof {
            assert(d <= tdiv(u@.2, 2));
            assert(d <= bound);
        }
        let (u2, f2) = cf_round(u, factors, fs, &idx, d, &fpx, p)?;
        u = u2;
        factors = f2;
        d = d + 1;
    }
    proof {
        assert(!(d <= tdiv(u@.2, 2)));
    }
    if u.degree > 0 {
        let ghost before = z_views(factors@);
        factors.push(u);
        proof {
            assert(z_views(factors@) =~= before.push(u@));
        }
    }
    Ok(factors)
}


/* ------------------------------------------------------------------------ */
/*  Choosing the prime                                                       */
/* ------------------------------------------------------------------------ */

/// The largest candidate tried when looking for a suitable prime.
pub const PRIME_SEARCH_LIMIT: u64 = 4294967295;

/// `n` is prime.
pub open spec fn is_prime(n: int) -> bool {
    n >= 2 && forall|d: int| 2 <= d < n ==> #[trigger] (n % d) != 0
}

/// A divisor at or above `d`, with `d * d > n`, has a cofactor below `d`.
proof fn lemma_cofactor_below(n: int, d: int, k: int)
    requires
        2 <= d <= k < n,
        d * d > n,
        n % k == 0,
    ensures
        2 <= n / k < d,
        n % (n / k) == 0,
{
    let m = n / k;
    vstd::arithmetic::div_mod::lemma_fundamental_div_mod(n, k);
    assert(n == k * m);
    assert(m >= 2) by (nonlinear_arith)
        requires
            n == k * m,
            2 <= k < n,
    ;
    if m >= d {
        assert(k * m >= d * m) by (nonlinear_arith)
            requires
                d <= k,
                m >= 0,
        ;
        assert(d * m >= d * d) by (nonlinear_arith)
            requires
                m >= d,
                d >= 0,
        ;
    }
    vstd::arithmetic::div_mod::lemma_mod_multiples_basic(k, m);
    assert(n == m * k) by (nonlinear_arith)
        requires
            n == k * m,
    ;
}

/// Primality by trial division up to the square root.
fn is_prime_u64(n: u64) -> (r: bool)
    ensures
        r == is_prime(n as int),
{
    if n < 2 {
        return false;
    }
    let mut d: u64 = 2;
    while d <= n / d
        invariant
            2 <= d <= n,
            forall|j: int| 2 <= j < d ==> #[trigger] ((n as int) % j) != 0,
        decreases n - d,
    {
        proof {
            assert(d * d <= n) by (nonlinear_arith)
                requires
                    d <= n / d,
                    d >= 2,
            ;
            assert(d < n) by (nonlinear_arith)
                requires
                    d * d <= n,
                    d >= 2,
            ;
        }
        if n % d == 0 {
            proof {
                assert(((n as int) % (d as int)) == 0);
            }
            return false;
        }
        proof {
            assert(d * d <= n) by (nonlinear_arith)
                requires
                    d <= n / d,
                    d >= 2,
            ;
            assert(d + 1 <= n) by (nonlinear_arith)
                requires
                    d * d <= n,
                    d >= 2,
            ;
        }
        d = d + 1;
    }
    proof {
        assert(d * d > n) by (nonlinear_arith)
            requires
                d > n / d,
                d >= 2,
        ;
        assert forall|k: int| 2 <= k < n implies #[trigger] ((n as int) % k) != 0 by {
            if k >= d && (n as int) % k == 0 {
                lemma_cofactor_below(n as int, d as int, k);
                let m = (n as int) / k;
                assert((n as int) % m != 0);
            }
        }
    }
    true
}

/// Whether `U` stays squarefree modulo the prime `p`, which divides no
/// leading coefficient.
pub open spec fn prime_fits(u: ZV, p: int) -> Outcome<bool> {
    if gcd(vstd::math::abs(p), vstd::math::abs(u.1.last())) != 1 {
        Outcome::<bool>::Ok(false)
    } else {
        let up = to_fp_spec(u, p);
        match derivative_spec::<IntegerMod, IntegersMod>(up) {
            Outcome::<FpV>::Err(e) => Outcome::<bool>::Err(e),
            Outcome::<FpV>::Ok(du) => match gcd_spec::<PolyFp, Fpx>(p, up, du) {
                Outcome::<FpV>::Err(e) => Outcome::<bool>::Err(e),
                Outcome::<FpV>::Ok(g) => Outcome::<bool>::Ok(g.2 == 0),
            },
        }
    }
}

/// The odd primes from `c` up to the search limit, tried in order.
pub open spec fn prime_search(u: ZV, c: int) -> Outcome<int>
    decreases PRIME_SEARCH_LIMIT + 1 - c,
{
    if c > PRIME_SEARCH_LIMIT || c < 0 {
        Outcome::<int>::Err(ErrorKind::Other)
    } else if c == 2 || !is_prime(c) {
        prime_search(u, c + 1)
    } else {
        match prime_fits(u, c) {
            Outcome::<bool>::Err(e) => Outcome::<int>::Err(e),
            Outcome::<bool>::Ok(true) => Outcome::<int>::Ok(c),
            Outcome::<bool>::Ok(false) => prime_search(u, c + 1),
        }
    }
}

/// `choose_prime(U)`: the smallest odd prime `p` (not dividing `lc(U)`) for
/// which `U` stays squarefree mod `p`, looked for up to the search limit.
pub open spec fn choose_prime_spec(u: ZV) -> Outcome<int> {
    if u.2 < 0 {
        Outcome::<int>::Err(ErrorKind::Other)
    } else {
        prime_search(u, 2)
    }
}

fn choose_prime(u: &PolyZ) -> (r: core::result::Result<(Int, PolyFp), Error>)
    requires
        PolyZ::wf_view(u@),
    ensures
        match r {
            Ok(t) => choose_prime_spec(u@) == Outcome::<int>::Ok(t.0@) && t.1@ == to_fp_spec(u@, t.0@)
                && PolyFp::wf_view(t.1@),
            Err(e) => choose_prime_spec(u@) == Outcome::<int>::Err(e.spec_error_kind()),
        },
{
    let lc = match u.lc() {
        Some(c) => c,
        None => {
            return Err(Error::Other("choose_prime of zero polynomial".to_owned()));
        },
    };
    let mut c: u64 = 2;
    while c <= PRIME_SEARCH_LIMIT
        invariant
            2 <= c,
            PolyZ::wf_view(u@),
            u@.2 >= 0,
            lc@ == u@.1.last(),
            prime_search(u@, c as int) == choose_prime_spec(u@),
        decreases PRIME_SEARCH_LIMIT + 1 - c,
    {
        if c != 2 && is_prime_u64(c) {
            let p = Int::from_i64(c as i64);
            let g = p.gcd(&lc.n);
            if g.is_one() {
                let fpx: Fpx = Polynomials::new(IntegersMod::new(p.clone()));
                let u_modp = to_fp(u, &p);
                let du = u_modp.derivative()?;
                let gg = ring_gcd(&fpx, &u_modp, &du)?;
                if gg.degree == 0 {
                    return Ok((p, u_modp));
                }
            }
        }
        c = c + 1;
    }
    Err(Error::Other("this shouldn't happen".to_owned()))
}


/// A prime found by the search is odd.
proof fn lemma_prime_search_odd(u: ZV, c: int)
    requires
        c >= 2,
    ensures
        prime_search(u, c) matches Outcome::<int>::Ok(p) ==> p >= 3,
    decreases PRIME_SEARCH_LIMIT + 1 - c,
{
    if c > PRIME_SEARCH_LIMIT || c < 0 {
    } else if c == 2 || !is_prime(c) {
        lemma_prime_search_odd(u, c + 1);
    } else {
        lemma_prime_search_odd(u, c + 1);
    }
}

/* ------------------------------------------------------------------------ */
/*  Factoring over the rationals                                             */
/* ------------------------------------------------------------------------ */

/// The view of a rational polynomial.
pub type QV = ((), Seq<(int, int)>, int);

/// The least exponent `e`, from `e` up, with `p^e > limit`; the search gives
/// up at the largest `u32`.
pub open spec fn exponent_search(p: int, limit: int, e: int) -> Outcome<int>
    decreases u32::MAX - e,
{
    if vstd::arithmetic::power::pow(p, e as nat) > limit {
        Outcome::<int>::Ok(e)
    } else if e >= u32::MAX || e < 0 {
        Outcome::<int>::Err(ErrorKind::Other)
    } else {
        exponent_search(p, limit, e + 1)
    }
}

/// An integer polynomial read as a rational one.
pub open spec fn to_qq_spec(z: ZV) -> QV {
    poly_of::<Fraction, QQ>((), z.1.map_values(|c: int| (c, 1int)))
}

/// The views of a list of rational polynomials.
pub open spec fn q_views(v: Seq<PolyQ>) -> Seq<QV> {
    v.map_values(|x: PolyQ| x@)
}

/// What is left after choosing `p`: factor modulo `p`, lift to `p^e`,
/// recombine, and read back as rational polynomials.
pub open spec fn factor_rest(u: ZV, p: int, fs: Seq<FpV>) -> Outcome<Seq<QV>> {
    if u.2 < 0 {
        Outcome::<Seq<QV>>::Err(ErrorKind::Other)
    } else {
        let b = factor_bound_spec(u, sqrt_upper_of(sum_squares(u.1, u.1.len())));
        let limit = 2 * u.1.last() * b;
        match exponent_search(p, limit, 1) {
            Outcome::<int>::Err(k) => Outcome::<Seq<QV>>::Err(k),
            Outcome::<int>::Ok(e) => if fs.len() == 0 {
                Outcome::<Seq<QV>>::Ok(Seq::empty())
            } else {
                match hensel_lift_spec(u, fs, p, e as nat) {
                    Outcome::<Seq<FpV>>::Err(k) => Outcome::<Seq<QV>>::Err(k),
                    Outcome::<Seq<FpV>>::Ok(fq) => match combine_factors_spec(
                        u,
                        fq,
                        vstd::arithmetic::power::pow(p, e as nat),
                    ) {
                        Outcome::<Seq<ZV>>::Err(k) => Outcome::<Seq<QV>>::Err(k),
                        Outcome::<Seq<ZV>>::Ok(zs) => Outcome::<Seq<QV>>::Ok(
                            zs.map_values(|z: ZV| to_qq_spec(z)),
                        ),
                    },
                }
            },
        }
    }
}

/// `factor(A)`: the irreducible factors of a rational polynomial, and the
/// state of the random bits afterwards.
pub open spec fn factor_spec(a: QV, state: u64) -> (Outcome<Seq<QV>>, u64) {
    match squarefree_spec(a) {
        Outcome::<ZV>::Err(k) => (Outcome::<Seq<QV>>::Err(k), state),
        Outcome::<ZV>::Ok(u) => match choose_prime_spec(u) {
            Outcome::<int>::Err(k) => (Outcome::<Seq<QV>>::Err(k), state),
            Outcome::<int>::Ok(p) => {
                let (fm, s1) = factor_mod_spec(to_fp_spec(u, p), p, state);
                match fm {
                    Outcome::<Seq<FpV>>::Err(k) => (Outcome::<Seq<QV>>::Err(k), s1),
                    Outcome::<Seq<FpV>>::Ok(fs) => (factor_rest(u, p, fs), s1),
                }
            },
        },
    }
}

/// A list of rational polynomials as the spec describes it.
pub open spec fn q_outcome(r: core::result::Result<Vec<PolyQ>, Error>) -> Outcome<Seq<QV>> {
    match r {
        Ok(v) => Outcome::<Seq<QV>>::Ok(q_views(v@)),
        Err(e) => Outcome::<Seq<QV>>::Err(e.spec_error_kind()),
    }
}

/// An integer polynomial as a rational one.
fn to_qq(z: &PolyZ) -> (r: PolyQ)
    requires
        PolyZ::wf_view(z@),
    ensures
        r@ == to_qq_spec(z@),
        PolyQ::wf_view(r@),
{
    let mut out: Vec<Fraction> = Vec::new();
    let mut i: usize = 0;
    while i < z.coeffs.len()
        invariant
            i <= z.coeffs.len(),
            PolyZ::wf_view(z@),
            out@.len() == i,
            forall|j: int| 0 <= j < i ==> #[trigger] out@[j]@ == (z@.1[j], 1int),
        decreases z.coeffs.len() - i,
    {
        proof {
            assert(z@.1[i as int] == z.coeffs@[i as int]@);
        }
        let f = match Fraction::new(z.coeffs[i].n.clone(), Int::from_i64(1), true) {
            Ok(f) => f,
            Err(_) => {
                proof {
                    assert(false);
                }
                Fraction::from_int(0)
            },
        };
        out.push(f);
        i = i + 1;
    }
    proof {
        assert(views::<Fraction>(out@) =~= z@.1.map_values(|c: int| (c, 1int)));
    }
    Polynomial::new(QQ, out)
}

/// The rest of `factor` once `p` is chosen and `U` factored modulo `p`.
fn factor_lift(u: &PolyZ, p: &Int, fs: &Vec<PolyFp>) -> (r: core::result::Result<Vec<PolyQ>, Error>)
    requires
        PolyZ::wf_view(u@),
        all_fp_wf(fp_views(fs@)),
        p@ >= 3,
    ensures
        q_outcome(r) == factor_rest(u@, p@, fp_views(fs@)),
        r matches Ok(v) ==> forall|i: int| 0 <= i < v@.len() ==> #[trigger] PolyQ::wf_view(v@[i]@),
{
    let b = factor_bound(u)?;
    let lc = match u.lc() {
        Some(c) => c,
        None => {
            return Err(Error::Other("factor of zero polynomial".to_owned()));
        },
    };
    let limit = Int::from_i64(2).mul(&lc.n).mul(&b);
    let mut e: u32 = 1;
    while !p.pow(e).greater_than(&limit)
        invariant
            1 <= e,
            exponent_search(p@, limit@, e as int) == exponent_search(p@, limit@, 1),
            PolyZ::wf_view(u@),
            u@.2 >= 0,
            limit@ == 2 * u@.1.last() * factor_bound_spec(
                u@,
                sqrt_upper_of(sum_squares(u@.1, u@.1.len())),
            ),
        decreases u32::MAX - e,
    {
        if e == u32::MAX {
            return Err(Error::Other("exponent too large".to_owned()));
        }
        e = e + 1;
    }
    if fs.len() == 0 {
        let none: Vec<PolyQ> = Vec::new();
        proof {
            assert(fp_views(fs@).len() == 0);
            assert(q_views(none@) =~= Seq::<QV>::empty());
        }
        return Ok(none);
    }
    let fq = hensel_lift(u, fs, p, e)?;
    let q = p.pow(e);
    proof {
        vstd::arithmetic::power::lemma_pow_positive(p@, e as nat);
    }
    let zs = combine_factors(u, &fq, &q)?;
    let mut out: Vec<PolyQ> = Vec::new();
    let mut i: usize = 0;
    while i < zs.len()
        invariant
            i <= zs@.len(),
            all_z_wf(z_views(zs@)),
            q_views(out@) == z_views(zs@).take(i as int).map_values(|z: ZV| to_qq_spec(z)),
            forall|j: int| 0 <= j < out@.len() ==> #[trigger] PolyQ::wf_view(out@[j]@),
        decreases zs@.len() - i,
    {
        proof {
            assert(z_views(zs@)[i as int] == zs@[i as int]@);
        }
        let x = to_qq(&zs[i]);
        let ghost before = q_views(out@);
        out.push(x);
        proof {
            assert(q_views(out@) =~= before.push(x@));
            assert(z_views(zs@).take(i + 1).map_values(|z: ZV| to_qq_spec(z)) =~= z_views(zs@).take(
                i as int,
            ).map_values(|z: ZV| to_qq_spec(z)).push(to_qq_spec(z_views(zs@)[i as int])));
        }
        i = i + 1;
    }
    proof {
        assert(z_views(zs@).take(zs@.len() as int) =~= z_views(zs@));
    }
    Ok(out)
}

/// `factor(A)`: the irreducible factors of a rational polynomial
/// (Berlekamp-Zassenhaus), each primitive with integer coefficients.
pub fn factor(rng: &mut BitStream, a: &PolyQ) -> (r: core::result::Result<Vec<PolyQ>, Error>)
    requires
        PolyQ::wf_view(a@),
    ensures
        (q_outcome(r), final(rng).state) == factor_spec(a@, old(rng).state),
        r matches Ok(v) ==> forall|i: int| 0 <= i < v@.len() ==> #[trigger] PolyQ::wf_view(v@[i]@),
{
    let u = factor_squarefree(a)?;
    let (p, u_modp) = choose_prime(&u)?;
    proof {
        lemma_prime_search_odd(u@, 2);
    }
    let factors_p = factor_mod(rng, &u_modp, &p)?;
    factor_lift(&u, &p, &factors_p)
}

/// The squarefree part of `a`: `a` over the monic gcd of `a` and its
/// derivative, where every repeated factor is left once.
pub open spec fn squarefree_part(a: QV) -> Outcome<QV> {
    match derivative_spec::<Fraction, QQ>(a) {
        Outcome::<QV>::Err(e) => Outcome::<QV>::Err(e),
        Outcome::<QV>::Ok(da) => match gcd_spec::<PolyQ, Polynomials<Fraction, QQ>>((), a, da) {
            Outcome::<QV>::Err(e) => Outcome::<QV>::Err(e),
            Outcome::<QV>::Ok(g) => match super::polynomial::monic_spec::<Fraction, QQ>(g) {
                Outcome::<QV>::Err(e) => Outcome::<QV>::Err(e),
                Outcome::<QV>::Ok(gm) => poly_div_spec::<Fraction, QQ>(a, gm),
            },
        },
    }
}

/// `factor` sees a polynomial only through its squarefree part: two
/// polynomials with the same squarefree part, such as `(x - 1)²(x + 1)` and
/// `(x - 1)(x + 1)`, give the same factors from the same random bits, each
/// repeated factor counted once.
pub proof fn lemma_factor_sees_squarefree_part(a: QV, b: QV, state: u64)
    requires
        squarefree_part(a) is Ok,
        squarefree_part(a) == squarefree_part(b),
    ensures
        factor_spec(a, state) == factor_spec(b, state),
{
    assert(squarefree_spec(a) == squarefree_spec(b));
}

} // verus!
