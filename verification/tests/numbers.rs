use twistypuzzle::num::factoring::{combinations_vec, factor, next_bit, random, BitStream};
use twistypuzzle::num::fraction::{Fraction, QQ};
use twistypuzzle::num::integers::Int;
use twistypuzzle::num::polynomial::{count_roots, gcd, polynomial_i64, qq_x, resultant, PolyQ, Polynomial};
use twistypuzzle::num::ring::Elem;

fn coeffs(p: &PolyQ) -> Vec<(i64, i64)> {
    p.coeffs
        .iter()
        .map(|c| (c.n.to_i64().unwrap(), c.d.to_i64().unwrap()))
        .collect()
}

#[test]
fn combinations_come_in_visiting_order() {
    let got = combinations_vec(&[1, 2, 3, 4], 2);
    assert_eq!(
        got,
        vec![vec![1, 2], vec![1, 3], vec![1, 4], vec![2, 3], vec![2, 4], vec![3, 4]]
    );
    assert_eq!(combinations_vec(&[1, 2, 3], 2), vec![vec![1, 2], vec![1, 3], vec![2, 3]]);
    assert_eq!(combinations_vec(&[1, 2, 3], 3), vec![vec![1, 2, 3]]);
    assert_eq!(combinations_vec(&[1, 2, 3], 0), vec![Vec::<i32>::new()]);
    assert!(combinations_vec(&[1, 2], 5).is_empty());
}

#[test]
fn random_numbers_stay_below_their_bound() {
    let mut rng = BitStream::new();
    let n = Int::from_i64(1000);
    for _ in 0..50 {
        let r = random(&mut rng, &n).to_i64().unwrap();
        assert!((0..1000).contains(&r));
    }
    let mut a = BitStream::new();
    let mut b = BitStream::new();
    for _ in 0..20 {
        assert_eq!(next_bit(&mut a), next_bit(&mut b));
    }
}

#[test]
fn fraction_middle_has_a_power_of_two_denominator() {
    let m = Fraction::of(1, 3).middle(&Fraction::of(1, 2));
    assert_eq!((m.n.to_i64(), m.d.to_i64()), (Some(3), Some(8)));
    let same = Fraction::of(2, 5).middle(&Fraction::of(2, 5));
    assert_eq!((same.n.to_i64(), same.d.to_i64()), (Some(2), Some(5)));
}

#[test]
fn fractions_print_in_lowest_terms() {
    assert_eq!(Fraction::of(6, 8).to_string(), "3/4");
    assert_eq!(Fraction::of(-4, 2).to_string(), "-2");
    assert_eq!(Fraction::of(0, 5).to_string(), "0");
    assert_eq!(Fraction::of(1, -3).to_string(), "-1/3");
}

#[test]
fn fraction_division_by_zero_is_refused() {
    let e = Fraction::new(Int::from_i64(1), Int::from_i64(0), true).err().expect("refused");
    assert_eq!(e.kind(), "RangeError");
}

#[test]
fn polynomial_gcd_and_resultant() {
    // (x - 1)(x + 2) and (x - 1)(x - 3)
    let a = polynomial_i64(&[-2, 1, 1]);
    let b = polynomial_i64(&[3, -4, 1]);
    let g = gcd(&a, &b).unwrap().monic().unwrap();
    assert_eq!(coeffs(&g), vec![(-1, 1), (1, 1)]);
    let r = resultant(&a, &b).unwrap();
    assert!(r.is_zero());
    // res(x^2 - 2, x - 1) = (1)^2 - 2 = -1
    let c = polynomial_i64(&[-2, 0, 1]);
    let d = polynomial_i64(&[-1, 1]);
    let r2 = resultant(&c, &d).unwrap();
    assert_eq!((r2.n.to_i64(), r2.d.to_i64()), (Some(-1), Some(1)));
}

#[test]
fn sturm_counts_roots_in_an_interval() {
    let p = polynomial_i64(&[-2, 0, 1]);
    assert_eq!(count_roots(&p, &Fraction::of(0, 1), &Fraction::of(2, 1)).unwrap(), 1);
    assert_eq!(count_roots(&p, &Fraction::of(-2, 1), &Fraction::of(2, 1)).unwrap(), 2);
    assert_eq!(count_roots(&p, &Fraction::of(3, 2), &Fraction::of(2, 1)).unwrap(), 0);
}

#[test]
fn polynomial_division_and_derivative() {
    let a = polynomial_i64(&[-1, 0, 0, 1]);
    let b = polynomial_i64(&[-1, 1]);
    let (q, r) = twistypuzzle::num::ring::Euclidean::divmod(&a, &b).unwrap();
    assert_eq!(coeffs(&q), vec![(1, 1), (1, 1), (1, 1)]);
    assert!(r.is_zero_poly());
    let d = a.derivative().unwrap();
    assert_eq!(coeffs(&d), vec![(0, 1), (0, 1), (3, 1)]);
    let v = a.eval(&Fraction::of(2, 1)).unwrap();
    assert_eq!((v.n.to_i64(), v.d.to_i64()), (Some(7), Some(1)));
    let sum = Elem::add(&a, &b).unwrap();
    assert_eq!(coeffs(&sum), vec![(-2, 1), (1, 1), (0, 1), (1, 1)]);
}

#[test]
fn factoring_splits_a_difference_of_squares() {
    let mut rng = BitStream::new();
    let mut got: Vec<Vec<(i64, i64)>> = factor(&mut rng, &polynomial_i64(&[-1, 0, 1]))
        .unwrap()
        .iter()
        .map(coeffs)
        .collect();
    got.sort();
    assert_eq!(got, vec![vec![(-1, 1), (1, 1)], vec![(1, 1), (1, 1)]]);
}

#[test]
fn factoring_keeps_an_irreducible_polynomial_whole() {
    let mut rng = BitStream::new();
    let got = factor(&mut rng, &polynomial_i64(&[-2, 0, 1])).unwrap();
    assert_eq!(got.len(), 1);
    assert_eq!(coeffs(&got[0]), vec![(-2, 1), (0, 1), (1, 1)]);
}

#[test]
fn factoring_a_product_of_three() {
    // 6(x^4 - 1) = 6(x - 1)(x + 1)(x^2 + 1).
    let p = polynomial_i64(&[-6, 0, 0, 0, 6]);
    let mut rng = BitStream::new();
    let mut got: Vec<Vec<(i64, i64)>> = factor(&mut rng, &p).unwrap().iter().map(coeffs).collect();
    got.sort();
    assert_eq!(
        got,
        vec![vec![(-1, 1), (1, 1)], vec![(1, 1), (0, 1), (1, 1)], vec![(1, 1), (1, 1)]]
    );
}

#[test]
fn integers_print_in_decimal() {
    assert_eq!(Int::from_i64(-12345).to_string(), "-12345");
    let big = Int::from_i64(i64::MAX).mul(&Int::from_i64(10));
    assert_eq!(big.to_string(), "92233720368547758070");
}

#[test]
fn polynomials_are_written_highest_power_first() {
    assert_eq!(polynomial_i64(&[1, 0, -3, 1]).to_string(), "x³ + -3x² + 1");
    assert_eq!(polynomial_i64(&[]).to_string(), "0");
    assert_eq!(polynomial_i64(&[1]).to_string(), "1");
    assert_eq!(polynomial_i64(&[0, 2]).to_string(), "2x");
    let mut cs = vec![0i64; 13];
    cs[12] = 1;
    cs[0] = -7;
    assert_eq!(polynomial_i64(&cs).to_string(), "x¹² + -7");
    let half = PolyQ::new(QQ, vec![Fraction::of(1, 2), Fraction::of(-3, 4)]);
    assert_eq!(half.to_string(), "-3/4x + 1/2");
}

#[test]
fn polynomial_coefficients_of_a_polynomial_are_parenthesised() {
    let inner = polynomial_i64(&[1, 1]);
    let one = polynomial_i64(&[1]);
    let outer = Polynomial::new(qq_x(), vec![inner, polynomial_i64(&[]), one]);
    assert_eq!(outer.to_string(), "x² + (x + 1)");
    assert_eq!(Elem::text(&outer), "x² + (x + 1)");
}
