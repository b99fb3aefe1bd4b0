use twistypuzzle::num::integers::Int;

fn big(s: i64, k: u32) -> Int {
    // s * 2^(32k)
    let mut x = Int::from_i64(s);
    let b = Int::from_i64(4294967296);
    for _ in 0..k {
        x = x.mul(&b);
    }
    x
}

#[test]
fn small_arithmetic_matches_i64() {
    let a = Int::from_i64(17);
    let b = Int::from_i64(-5);
    assert_eq!(a.add(&b).to_i64(), Some(12));
    assert_eq!(a.sub(&b).to_i64(), Some(22));
    assert_eq!(a.mul(&b).to_i64(), Some(-85));
    assert_eq!(a.div(&b).to_i64(), Some(-3));
    assert_eq!(a.rem(&b).to_i64(), Some(2));
    assert_eq!(b.div(&a).to_i64(), Some(0));
    assert_eq!(b.rem(&a).to_i64(), Some(-5));
}

#[test]
fn overflow_widens_and_narrows_back() {
    let m = Int::from_i64(i64::MAX);
    let one = Int::from_i64(1);
    let w = m.add(&one);
    assert_eq!(w.to_i64(), None);
    assert_eq!(w.sub(&one).to_i64(), Some(i64::MAX));
    let n = Int::from_i64(i64::MIN);
    assert_eq!(n.neg().to_i64(), None);
    assert_eq!(n.neg().neg().to_i64(), Some(i64::MIN));
    assert_eq!(n.abs().sub(&one).to_i64(), Some(i64::MAX));
    let d = Int::from_i64(-1);
    assert_eq!(n.div(&d).to_i64(), None);
    assert_eq!(n.rem(&d).to_i64(), Some(0));
}

#[test]
fn wide_values_round_trip_through_digits() {
    let x = big(3, 3).add(&Int::from_i64(7));
    let (neg, mag) = x.to_digits();
    assert!(!neg);
    assert_eq!(mag, vec![7, 0, 0, 3]);
    let y = Int::from_digits(true, &mag);
    assert!(y.add(&x).is_zero());
    assert_eq!(y.sign(), -1);
}

#[test]
fn gcd_small_and_wide() {
    assert_eq!(Int::from_i64(48).gcd(&Int::from_i64(-18)).to_i64(), Some(6));
    assert_eq!(Int::from_i64(0).gcd(&Int::from_i64(-9)).to_i64(), Some(9));
    assert_eq!(Int::from_i64(0).gcd(&Int::from_i64(0)).to_i64(), Some(0));
    assert_eq!(Int::from_i64(i64::MIN).gcd(&Int::from_i64(6)).to_i64(), Some(2));
    let a = big(6, 2);
    let b = big(10, 2);
    assert!(a.gcd(&b).eq(&big(2, 2)));
}

#[test]
fn extended_gcd_bezout() {
    let a = Int::from_i64(240);
    let b = Int::from_i64(46);
    let (r, s, t) = Int::extended_gcd(&a, &b);
    assert_eq!(r.to_i64(), Some(2));
    assert!(a.mul(&s).add(&b.mul(&t)).eq(&r));
}

#[test]
fn sqrt_upper_values() {
    for (n, want) in [(-3, -3), (0, 0), (1, 1), (2, 2), (3, 2), (4, 3), (8, 3), (9, 4), (16, 5), (1000000, 1001)] {
        assert_eq!(Int::from_i64(n).sqrt_upper().to_i64(), Some(want), "n = {n}");
    }
}

#[test]
fn factorial_comb_pow_bits() {
    assert_eq!(Int::factorial(&Int::from_i64(10)).to_i64(), Some(3628800));
    assert_eq!(Int::factorial(&Int::from_i64(-4)).to_i64(), Some(1));
    assert_eq!(Int::comb(&Int::from_i64(10), &Int::from_i64(3)).to_i64(), Some(120));
    assert_eq!(Int::from_i64(3).pow(5).to_i64(), Some(243));
    assert!(Int::from_i64(2).pow(100).eq(&big(16, 3)));
    assert_eq!(Int::from_i64(-255).bits(), 8);
    assert_eq!(Int::from_i64(0).bits(), 0);
    assert_eq!(big(1, 2).bits(), 65);
}
