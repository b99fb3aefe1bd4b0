use twistypuzzle::exact::{algebraic_number_field, qq_nothing, AlgebraicNumber, AlgebraicNumberField};
use twistypuzzle::num::fraction::Fraction;
use twistypuzzle::num::polynomial::polynomial_i64;
use twistypuzzle::num::factoring::BitStream;
use twistypuzzle::extension::{extend, promote};

/// ℚ(√2), the root of `x² - 2` between 1 and 2.
fn sqrt2_field() -> AlgebraicNumberField {
    algebraic_number_field(polynomial_i64(&[-2, 0, 1]), Fraction::from_int(1), Fraction::from_int(2))
        .expect("one root in [1, 2]")
}

fn sqrt2() -> AlgebraicNumber {
    sqrt2_field().from_vector_i64(&[0, 1]).unwrap()
}

fn frac(f: &Fraction) -> (i64, i64) {
    (f.n.to_i64().unwrap(), f.d.to_i64().unwrap())
}

#[test]
fn a_field_needs_exactly_one_root_in_its_interval() {
    let e = algebraic_number_field(polynomial_i64(&[-2, 0, 1]), Fraction::from_int(2), Fraction::from_int(3))
        .err()
        .expect("no root in [2, 3]");
    assert_eq!(e.kind(), "Error");
    assert!(algebraic_number_field(polynomial_i64(&[-2, 0, 1]), Fraction::from_int(-2), Fraction::from_int(2))
        .is_err());
    let k = sqrt2_field();
    assert_eq!(k.degree(), 2);
    assert_eq!(k.powers.len(), 5);
    assert_eq!(k.to_string(), "Q(root of x² + -2 in [1,2])");
}

#[test]
fn refining_halves_the_interval_toward_the_root() {
    let mut k = sqrt2_field();
    k.refine().unwrap();
    let (l, u) = k.bounds();
    assert_eq!((frac(&l), frac(&u)), ((1, 1), (3, 2)));
    k.refine().unwrap();
    let (l, u) = k.bounds();
    assert_eq!((frac(&l), frac(&u)), ((5, 4), (3, 2)));
    assert_eq!(frac(&k.powers_lower[2]), (25, 16));
    assert_eq!(frac(&k.powers_upper[2]), (9, 4));
}

#[test]
fn signs_are_decided_by_narrowing() {
    let r = sqrt2();
    assert_eq!(r.sign().unwrap(), 1);
    assert_eq!(r.neg().sign().unwrap(), -1);
    let k = sqrt2_field();
    let close = k.from_vector(vec![Fraction::of(-141, 100), Fraction::from_int(1)]).unwrap();
    assert_eq!(close.sign().unwrap(), 1);
    let zero = k.zero().unwrap();
    assert!(zero.is_zero());
    assert_eq!(zero.sign().unwrap(), 0);
    let (l, u) = r.interval().unwrap();
    assert_eq!((frac(&l), frac(&u)), ((1, 1), (2, 1)));
}

#[test]
fn arithmetic_reduces_modulo_the_minimal_polynomial() {
    let r = sqrt2();
    let two = r.mul(&r).unwrap();
    assert_eq!(two.poly.to_string(), "2");
    let half = r.inv().unwrap();
    assert_eq!(half.poly.to_string(), "1/2x");
    assert_eq!(r.div(&r).unwrap().poly.to_string(), "1");
    let s = r.add(&sqrt2_field().one().unwrap()).unwrap();
    assert_eq!(s.to_string(), "x + 1 in Q(root of x² + -2 in [1,2])");
    assert_eq!(s.sub(&r).unwrap().poly.to_string(), "1");
    let z = sqrt2_field().zero().unwrap();
    assert_eq!(z.inv().err().expect("zero has no inverse").kind(), "RangeError");
}

#[test]
fn rationals_meet_any_field() {
    let q = qq_nothing().unwrap();
    assert_eq!(q.degree(), 1);
    let three_halves = q.from_vector(vec![Fraction::of(3, 2)]).unwrap();
    let r = sqrt2();
    assert_eq!(three_halves.compare(&r).unwrap(), 1);
    assert_eq!(r.compare(&three_halves).unwrap(), -1);
    assert_eq!(r.compare(&r).unwrap(), 0);
    assert_eq!(r.neg().abs().unwrap().poly.to_string(), "x");
    let other = algebraic_number_field(polynomial_i64(&[-3, 0, 1]), Fraction::from_int(1), Fraction::from_int(2))
        .unwrap()
        .from_vector_i64(&[0, 1])
        .unwrap();
    assert_eq!(r.add(&other).err().expect("different fields").kind(), "RangeError");
    assert!(sqrt2_field().equals(&sqrt2_field()).unwrap());
    let mut narrowed = sqrt2_field();
    narrowed.refine().unwrap();
    assert!(sqrt2_field().equals(&narrowed).unwrap());
    let negative_root =
        algebraic_number_field(polynomial_i64(&[-2, 0, 1]), Fraction::from_int(-2), Fraction::from_int(-1))
            .unwrap();
    assert!(!sqrt2_field().equals(&negative_root).unwrap());
}

fn root_field(c: i64, lo: i64, hi: i64) -> AlgebraicNumberField {
    algebraic_number_field(polynomial_i64(&[-c, 0, 1]), Fraction::from_int(lo), Fraction::from_int(hi)).unwrap()
}

/// `x² - c` is zero at `x`.
fn squares_to(x: &AlgebraicNumber, c: i64) -> bool {
    let sq = x.mul(x).unwrap();
    let d = sq.sub(&x.field.from_int(c).unwrap()).unwrap();
    d.is_zero()
}

#[test]
fn a_field_extended_by_itself_is_itself() {
    let mut rng = BitStream::new();
    let (k, a, b) = extend(&mut rng, &sqrt2_field(), &sqrt2_field()).unwrap();
    assert_eq!(k.degree(), 2);
    assert!(squares_to(&a, 2));
    assert!(squares_to(&b, 2));
}

#[test]
fn two_square_roots_meet_in_a_field_of_degree_four() {
    let mut rng = BitStream::new();
    let (k, a, b) = extend(&mut rng, &sqrt2_field(), &root_field(3, 1, 2)).unwrap();
    assert_eq!(k.degree(), 4);
    assert!(squares_to(&a, 2));
    assert!(squares_to(&b, 3));
    assert_eq!(a.field.degree(), 4);
    assert_eq!(b.field.degree(), 4);
}

#[test]
fn a_root_already_in_the_field_keeps_the_field() {
    let mut rng = BitStream::new();
    let (k, a, b) = extend(&mut rng, &sqrt2_field(), &root_field(8, 2, 3)).unwrap();
    assert_eq!(k.degree(), 2);
    assert!(squares_to(&a, 2));
    assert!(squares_to(&b, 8));
}

#[test]
fn promoted_numbers_share_one_field() {
    let mut rng = BitStream::new();
    let root3 = root_field(3, 1, 2).from_vector_i64(&[0, 1]).unwrap();
    let one = sqrt2_field().from_int(1).unwrap();
    let mut xs = vec![sqrt2(), root3, one];
    promote(&mut rng, &mut xs).unwrap();
    for x in &xs {
        assert_eq!(x.field.degree(), 4);
        assert!(x.field.equals(&xs[0].field).unwrap());
    }
    assert!(squares_to(&xs[0], 2));
    assert!(squares_to(&xs[1], 3));
    assert!(squares_to(&xs[2], 1));
    assert!(xs[2].sub(&xs[0].field.from_int(1).unwrap()).unwrap().is_zero());
}

#[test]
fn promoting_one_number_leaves_it_alone() {
    let mut rng = BitStream::new();
    let mut xs = vec![sqrt2()];
    promote(&mut rng, &mut xs).unwrap();
    assert_eq!(xs.len(), 1);
    assert_eq!(xs[0].field.degree(), 2);
    assert!(squares_to(&xs[0], 2));
    let mut none: Vec<AlgebraicNumber> = Vec::new();
    promote(&mut rng, &mut none).unwrap();
    assert!(none.is_empty());
}
