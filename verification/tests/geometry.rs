use twistypuzzle::exact::{qq_nothing, AlgebraicNumber};
use twistypuzzle::math::{ExactPlane, ExactQuaternion, ExactVector3};

fn n(v: i64) -> AlgebraicNumber {
    qq_nothing().unwrap().from_int(v).unwrap()
}

fn v(x: i64, y: i64, z: i64) -> ExactVector3 {
    ExactVector3::new(n(x), n(y), n(z))
}

fn text(a: &AlgebraicNumber) -> String {
    a.poly.to_string()
}

fn vtext(a: &ExactVector3) -> Vec<String> {
    vec![text(&a.x), text(&a.y), text(&a.z)]
}

fn qtext(q: &ExactQuaternion) -> Vec<String> {
    vec![text(&q.x), text(&q.y), text(&q.z), text(&q.w)]
}

#[test]
fn products_of_vectors() {
    assert_eq!(text(&v(1, 2, 3).dot(&v(4, 5, 6)).unwrap()), "32");
    assert_eq!(vtext(&v(1, 0, 0).cross(&v(0, 1, 0)).unwrap()), vec!["0", "0", "1"]);
    assert_eq!(vtext(&v(1, 2, 3).cross(&v(4, 5, 6)).unwrap()), vec!["-3", "6", "-3"]);
    assert_eq!(vtext(&v(1, 2, 3).add(&v(1, 1, 1)).unwrap()), vec!["2", "3", "4"]);
    assert_eq!(vtext(&v(1, 2, 3).sub(&v(1, 1, 1)).unwrap()), vec!["0", "1", "2"]);
    assert_eq!(vtext(&v(1, 2, 3).neg()), vec!["-1", "-2", "-3"]);
    assert_eq!(vtext(&v(1, 2, 3).scale(&n(2)).unwrap()), vec!["2", "4", "6"]);
    assert_eq!(v(0, 0, -4).pseudo_sign().unwrap(), -1);
    assert_eq!(v(0, 3, -4).pseudo_sign().unwrap(), 1);
    assert_eq!(v(0, 0, 0).pseudo_sign().unwrap(), 0);
    assert!(v(1, 2, 3).equals(&v(1, 2, 3)));
    assert!(!v(1, 2, 3).equals(&v(1, 2, 4)));
}

#[test]
fn planes_sort_points_by_side_and_meet_lines() {
    let p = ExactPlane::new(v(0, 0, 1), n(-1));
    assert_eq!(p.side(&v(5, 5, 2)).unwrap(), 1);
    assert_eq!(p.side(&v(5, 5, 0)).unwrap(), -1);
    assert_eq!(p.side(&v(5, 5, 1)).unwrap(), 0);
    let x = p.intersect_line(&v(0, 0, 0), &v(0, 0, 2)).unwrap();
    assert_eq!(vtext(&x), vec!["0", "0", "1"]);
    let c = ExactPlane::new(v(0, -1, 0), n(2)).canonicalize().unwrap();
    assert_eq!(vtext(&c.normal), vec!["0", "1", "0"]);
    assert_eq!(text(&c.constant), "-2");
    let same = ExactPlane::new(v(0, 1, 0), n(2)).canonicalize().unwrap();
    assert_eq!(text(&same.constant), "2");
    let parallel = p.intersect_line(&v(0, 0, 0), &v(1, 0, 0));
    assert_eq!(parallel.err().expect("the line never meets the plane").kind(), "RangeError");
}

#[test]
fn a_quarter_turn_about_z() {
    let q = ExactQuaternion::from_axis_points(&v(0, 0, 1), &v(1, 0, 0), &v(0, 1, 0)).unwrap();
    assert_eq!(qtext(&q), vec!["0", "0", "1", "1"]);
    assert_eq!(vtext(&q.apply(&v(1, 0, 0)).unwrap()), vec!["0", "1", "0"]);
    assert_eq!(vtext(&q.apply(&v(0, 0, 7)).unwrap()), vec!["0", "0", "7"]);
    assert_eq!(text(&q.norm_squared().unwrap()), "2");
    assert_eq!(text(&q.pseudo_angle().unwrap()), "1/2");
    assert_eq!(qtext(&q.pseudo_normalize().unwrap()), vec!["0", "0", "1/2", "1/2"]);
    assert_eq!(qtext(&q.conj()), vec!["0", "0", "-1", "1"]);
    assert_eq!(qtext(&q.inv().unwrap()), vec!["0", "0", "-1/2", "1/2"]);
    let twice = q.mul(&q).unwrap();
    assert_eq!(qtext(&twice), vec!["0", "0", "2", "0"]);
    assert_eq!(vtext(&twice.apply(&v(1, 0, 0)).unwrap()), vec!["-1", "0", "0"]);
}

#[test]
fn no_turn_and_half_turns() {
    let id = ExactQuaternion::identity().unwrap();
    assert_eq!(qtext(&id), vec!["0", "0", "0", "1"]);
    assert_eq!(vtext(&id.apply(&v(1, 2, 3)).unwrap()), vec!["1", "2", "3"]);
    assert_eq!(text(&id.pseudo_angle().unwrap()), "0");
    let same = ExactQuaternion::from_axis_points(&v(0, 0, 1), &v(1, 0, 0), &v(1, 0, 0)).unwrap();
    assert!(same.equals(&id));
    let half = ExactQuaternion::from_axis_points(&v(0, 0, 1), &v(1, 0, 0), &v(-1, 0, 0)).unwrap();
    assert_eq!(qtext(&half), vec!["0", "0", "1", "0"]);
    assert_eq!(text(&half.pseudo_angle().unwrap()), "1");
    let q = ExactQuaternion::from_axis_points(&v(0, 0, 1), &v(1, 0, 0), &v(0, 1, 0)).unwrap();
    assert!(id.mul(&q).unwrap().equals(&q));
    assert!(q.mul(&q.inv().unwrap()).unwrap().equals(&id));
}
