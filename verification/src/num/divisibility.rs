//! The greatest common divisor as a mathematical function, and the facts
//! about it that the integer, rational and modular code rests on.

use vstd::arithmetic::div_mod::{
    lemma_fundamental_div_mod, lemma_fundamental_div_mod_converse, lemma_mod_multiples_basic,
    lemma_small_mod,
};
use vstd::arithmetic::power2::{lemma_pow2_adds, lemma_pow2_pos, pow2};
use vstd::prelude::*;

verus! {

/// Euclid's greatest common divisor of two naturals (`gcd(0, 0) == 0`).
pub open spec fn gcd(a: nat, b: nat) -> nat
    decreases b,
{
    if b == 0 {
        a
    } else {
        gcd(b, a % b)
    }
}

/// `d` divides `x`.
pub open spec fn divides(d: nat, x: nat) -> bool {
    if d == 0 {
        x == 0
    } else {
        x % d == 0
    }
}

/// A multiple of `d` leaves no remainder.
pub proof fn lemma_multiple_mod(d: int, m: int)
    requires
        d > 0,
    ensures
        (d * m) % d == 0,
{
    lemma_mod_multiples_basic(m, d);
    vstd::arithmetic::mul::lemma_mul_is_commutative(d, m);
}

/// A linear combination of multiples of `d` is a multiple of `d`.
pub proof fn lemma_divides_combination(x: nat, y: nat, k: nat, d: nat)
    requires
        d > 0,
        x % d == 0,
        y % d == 0,
    ensures
        (x * k + y) % d == 0,
        x * k >= y ==> ((x * k - y) as nat) % d == 0,
        y >= x * k ==> ((y - x * k) as nat) % d == 0,
{
    lemma_fundamental_div_mod(x as int, d as int);
    lemma_fundamental_div_mod(y as int, d as int);
    let xq: int = (x / d) as int;
    let yq: int = (y / d) as int;
    let di: int = d as int;
    assert(x * k + y == di * (xq * k + yq)) by (nonlinear_arith)
        requires
            x == di * xq,
            y == di * yq,
    ;
    lemma_multiple_mod(di, xq * k + yq);
    assert(x * k - y == di * (xq * k - yq)) by (nonlinear_arith)
        requires
            x == di * xq,
            y == di * yq,
    ;
    lemma_multiple_mod(di, xq * k - yq);
    assert(y - x * k == di * (yq - xq * k)) by (nonlinear_arith)
        requires
            x == di * xq,
            y == di * yq,
    ;
    lemma_multiple_mod(di, yq - xq * k);
}

/// The gcd divides both arguments, and is zero only for `(0, 0)`.
pub proof fn lemma_gcd_divides(a: nat, b: nat)
    ensures
        divides(gcd(a, b), a),
        divides(gcd(a, b), b),
        gcd(a, b) == 0 <==> (a == 0 && b == 0),
        gcd(a, b) <= a || a == 0,
        b > 0 ==> gcd(a, b) <= b,
    decreases b,
{
    if b == 0 {
        if a > 0 {
            vstd::arithmetic::div_mod::lemma_mod_self_0(a as int);
            lemma_small_mod(0, a);
        }
    } else {
        let r = a % b;
        lemma_gcd_divides(b, r);
        let g = gcd(a, b);
        lemma_fundamental_div_mod(a as int, b as int);
        assert(g > 0);
        assert(a == b * (a / b) + r);
        lemma_divides_combination(b, r, a / b, g);
        assert(b * (a / b) + r == a) by {
            vstd::arithmetic::mul::lemma_mul_is_commutative(b as int, (a / b) as int);
        }
        assert(g <= b) by {
            lemma_mod_bound_le(b, g);
        }
        if a > 0 {
            lemma_mod_bound_le(a, g);
        }
    }
}

/// A positive multiple of `d` is at least `d`.
pub proof fn lemma_mod_bound_le(x: nat, d: nat)
    requires
        d > 0,
        x > 0,
        x % d == 0,
    ensures
        d <= x,
{
    lemma_fundamental_div_mod(x as int, d as int);
    let q = x / d;
    assert(x == d * q);
    if q == 0 {
        assert(d * q == 0) by (nonlinear_arith)
            requires
                q == 0,
        ;
    } else {
        assert(d * q >= d) by (nonlinear_arith)
            requires
                q >= 1,
                d > 0,
        ;
    }
}

/// Every common divisor divides the gcd.
pub proof fn lemma_common_divisor(a: nat, b: nat, d: nat)
    requires
        d > 0,
        a % d == 0,
        b % d == 0,
    ensures
        gcd(a, b) % d == 0,
    decreases b,
{
    if b > 0 {
        let q = a / b;
        let r = a % b;
        lemma_fundamental_div_mod(a as int, b as int);
        assert(b * q == q * b) by {
            vstd::arithmetic::mul::lemma_mul_is_commutative(b as int, q as int);
        }
        lemma_divides_combination(b, a, q, d);
        assert(a - b * q == r);
        lemma_common_divisor(b, r, d);
    }
}

/// Two naturals that divide each other are equal.
pub proof fn lemma_divides_antisym(x: nat, y: nat)
    requires
        x > 0,
        y > 0,
        x % y == 0,
        y % x == 0,
    ensures
        x == y,
{
    lemma_mod_bound_le(x, y);
    lemma_mod_bound_le(y, x);
}

/// The gcd is symmetric.
pub proof fn lemma_gcd_sym(a: nat, b: nat)
    ensures
        gcd(a, b) == gcd(b, a),
{
    if a == b {
    } else if a < b {
        if a == 0 {
            assert(gcd(0, b) == gcd(b, 0nat % b));
            lemma_small_mod(0, b);
        } else {
            lemma_small_mod(a, b);
            assert(gcd(a, b) == gcd(b, a % b));
        }
    } else {
        if b == 0 {
            assert(gcd(0, a) == gcd(a, 0nat % a));
            lemma_small_mod(0, a);
        } else {
            lemma_small_mod(b, a);
            assert(gcd(b, a) == gcd(a, b % a));
        }
    }
}

/// `(c * a) % (c * b) == c * (a % b)`.
pub proof fn lemma_mod_scale(a: nat, b: nat, c: nat)
    requires
        b > 0,
        c > 0,
    ensures
        (c * a) % (c * b) == c * (a % b),
        c * b > 0,
{
    lemma_fundamental_div_mod(a as int, b as int);
    let q = a / b;
    let r = a % b;
    assert(c * a == q * (c * b) + c * r && 0 <= c * r < c * b) by (nonlinear_arith)
        requires
            a == b * q + r,
            0 <= r < b,
            c > 0,
    ;
    lemma_fundamental_div_mod_converse((c * a) as int, (c * b) as int, q as int, (c * r) as int);
}

/// Scaling both arguments scales the gcd.
pub proof fn lemma_gcd_scale(a: nat, b: nat, c: nat)
    requires
        c > 0,
    ensures
        gcd(c * a, c * b) == c * gcd(a, b),
    decreases b,
{
    if b == 0 {
        assert(c * b == 0);
    } else {
        lemma_mod_scale(a, b, c);
        lemma_gcd_scale(b, a % b, c);
        assert(gcd(c * a, c * b) == gcd(c * b, (c * a) % (c * b)));
    }
}

/// `gcd(a, b - a) == gcd(a, b)`.
pub proof fn lemma_gcd_sub(a: nat, b: nat)
    requires
        b >= a,
    ensures
        gcd(a, (b - a) as nat) == gcd(a, b),
{
    if a > 0 {
        lemma_gcd_sym(a, b);
        lemma_gcd_sym(a, (b - a) as nat);
        assert(gcd(b, a) == gcd(a, b % a));
        assert(gcd((b - a) as nat, a) == gcd(a, ((b - a) as nat) % a));
        lemma_fundamental_div_mod(b as int, a as int);
        vstd::arithmetic::div_mod::lemma_mod_bound(b as int, a as int);
        let q: int = (b / a) as int;
        let r: int = (b % a) as int;
        let ai: int = a as int;
        let bi: int = b as int;
        assert(bi == ai * q + r);
        assert(q >= 1) by {
            if q <= 0 {
                assert(ai * q <= 0) by (nonlinear_arith)
                    requires
                        ai > 0,
                        q <= 0,
                ;
            }
        }
        assert(bi - ai == (q - 1) * ai + r) by (nonlinear_arith)
            requires
                bi == ai * q + r,
        ;
        lemma_fundamental_div_mod_converse(bi - ai, ai, q - 1, r);
    }
}

/// A divisor of an odd number is odd.
pub proof fn lemma_divisor_of_odd(a: nat, g: nat)
    requires
        g > 0,
        a % 2 == 1,
        a % g == 0,
    ensures
        g % 2 == 1,
{
    lemma_fundamental_div_mod(a as int, g as int);
    let k = a / g;
    if g % 2 == 0 {
        lemma_fundamental_div_mod(g as int, 2);
        let h = g / 2;
        assert(a == 2 * (h * k)) by (nonlinear_arith)
            requires
                a == g * k,
                g == 2 * h,
        ;
        lemma_multiple_mod(2, (h * k) as int);
    }
}

/// An odd divisor of `2 * b` divides `b`.
pub proof fn lemma_odd_divides_double(b: nat, g: nat)
    requires
        g % 2 == 1,
        (2 * b) % g == 0,
    ensures
        b % g == 0,
{
    lemma_fundamental_div_mod((2 * b) as int, g as int);
    let k = (2 * b) / g;
    lemma_fundamental_div_mod(k as int, 2);
    lemma_fundamental_div_mod(g as int, 2);
    let h = g / 2;
    let j = k / 2;
    if k % 2 == 1 {
        // Then 2 * b == g * k is odd.
        assert(2 * b == 2 * (2 * h * j + h + j) + 1) by (nonlinear_arith)
            requires
                2 * b == g * k,
                g == 2 * h + 1,
                k == 2 * j + 1,
        ;
    }
    assert(b == g * j) by (nonlinear_arith)
        requires
            2 * b == g * k,
            k == 2 * j,
    ;
    lemma_multiple_mod(g as int, j as int);
}

/// An odd argument ignores a factor of two in the other.
pub proof fn lemma_gcd_odd_double(a: nat, b: nat)
    requires
        a % 2 == 1,
    ensures
        gcd(a, 2 * b) == gcd(a, b),
{
    let g1 = gcd(a, 2 * b);
    let g2 = gcd(a, b);
    lemma_gcd_divides(a, 2 * b);
    lemma_gcd_divides(a, b);
    // g2 divides a and 2b, so it divides g1.
    lemma_divides_combination(b, 0, 2, g2);
    assert(b * 2 == 2 * b);
    lemma_common_divisor(a, 2 * b, g2);
    // g1 is odd and divides 2b, so it divides b and hence g2.
    lemma_divisor_of_odd(a, g1);
    lemma_odd_divides_double(b, g1);
    lemma_common_divisor(a, b, g1);
    lemma_divides_antisym(g1, g2);
}

/// An odd argument ignores any power of two in the other.
pub proof fn lemma_gcd_odd_pow2(a: nat, b: nat, k: nat)
    requires
        a % 2 == 1,
    ensures
        gcd(a, b * pow2(k)) == gcd(a, b),
    decreases k,
{
    if k == 0 {
        assert(pow2(0) == 1) by {
            reveal(vstd::arithmetic::power::pow);
        }
        assert(b * pow2(k) == b);
    } else {
        lemma_gcd_odd_pow2(a, b, (k - 1) as nat);
        lemma_pow2_adds((k - 1) as nat, 1);
        vstd::arithmetic::power2::lemma2_to64();
        assert(((k - 1) as nat) + 1 == k);
        assert(pow2(k) == pow2((k - 1) as nat) * 2);
        assert(b * pow2(k) == 2 * (b * pow2((k - 1) as nat))) by (nonlinear_arith)
            requires
                pow2(k) == pow2((k - 1) as nat) * 2,
        ;
        lemma_gcd_odd_double(a, b * pow2((k - 1) as nat));
    }
}

/// The gcd of two numbers written as odd parts times powers of two.
pub proof fn lemma_gcd_odd_parts(a0: nat, ta: nat, b0: nat, tb: nat, s: nat)
    requires
        a0 % 2 == 1,
        b0 % 2 == 1,
        s == if ta <= tb {
            ta
        } else {
            tb
        },
    ensures
        gcd(a0 * pow2(ta), b0 * pow2(tb)) == pow2(s) * gcd(a0, b0),
        gcd(a0, b0 * pow2(tb)) == gcd(a0, b0),
{
    lemma_pow2_pos(s);
    lemma_pow2_adds(s, (ta - s) as nat);
    lemma_pow2_adds(s, (tb - s) as nat);
    let x = a0 * pow2((ta - s) as nat);
    let y = b0 * pow2((tb - s) as nat);
    assert(a0 * pow2(ta) == pow2(s) * x) by (nonlinear_arith)
        requires
            pow2(ta) == pow2(s) * pow2((ta - s) as nat),
            x == a0 * pow2((ta - s) as nat),
    ;
    assert(b0 * pow2(tb) == pow2(s) * y) by (nonlinear_arith)
        requires
            pow2(tb) == pow2(s) * pow2((tb - s) as nat),
            y == b0 * pow2((tb - s) as nat),
    ;
    lemma_gcd_scale(x, y, pow2(s));
    if ta <= tb {
        assert(x == a0) by {
            vstd::arithmetic::power2::lemma2_to64();
        }
        lemma_gcd_odd_pow2(a0, b0, (tb - s) as nat);
    } else {
        assert(y == b0) by {
            vstd::arithmetic::power2::lemma2_to64();
        }
        lemma_gcd_odd_pow2(b0, a0, (ta - s) as nat);
        lemma_gcd_sym(x, y);
        lemma_gcd_sym(a0, b0);
    }
    lemma_gcd_odd_pow2(a0, b0, tb);
}

} // verus!
