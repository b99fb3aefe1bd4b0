use twistypuzzle::exact::{qq_nothing, AlgebraicNumber};
use twistypuzzle::math::{ExactPlane, ExactQuaternion, ExactVector3};
use twistypuzzle::movement::{find_cuts, find_stops, get_side, holds_anchor_exec, make_move, Cut, Puzzle};
use twistypuzzle::num::fraction::Fraction;
use twistypuzzle::piece::{slice_polygeometry, PolyFace, PolyGeometry};
use twistypuzzle::simulator::Simulator;
use twistypuzzle::turning::Turn;

fn n(v: i64) -> AlgebraicNumber {
    qq_nothing().unwrap().from_int(v).unwrap()
}

fn v(x: i64, y: i64, z: i64) -> ExactVector3 {
    ExactVector3::new(n(x), n(y), n(z))
}

fn plane(x: i64, y: i64, z: i64, c: i64) -> ExactPlane {
    ExactPlane::new(v(x, y, z), n(c))
}

/// A unit box from height `z` to `z + 1`, with one interior face given.
fn slab(z: i64, face: ExactPlane) -> PolyGeometry {
    let mut vertices = Vec::new();
    for dz in 0..2 {
        for y in 0..2 {
            for x in 0..2 {
                vertices.push(v(x, y, z + dz));
            }
        }
    }
    PolyGeometry {
        vertices,
        faces: vec![PolyFace { vertices: vec![0, 1, 3, 2], plane: face, color: 0, interior: true }],
        rot: ExactQuaternion::identity().unwrap(),
    }
}

/// Two slabs stacked, meeting at `z = 1`.
fn tower() -> Puzzle {
    Puzzle { pieces: vec![slab(0, plane(0, 0, 1, -1)), slab(1, plane(0, 0, -1, 1))] }
}

fn text(a: &AlgebraicNumber) -> String {
    a.poly.to_string()
}

fn quarter() -> ExactQuaternion {
    ExactQuaternion::from_axis_points(&v(0, 0, 1), &v(1, 0, 0), &v(0, 1, 0)).unwrap()
}

#[test]
fn a_piece_is_in_front_behind_or_across() {
    let t = tower();
    let p = plane(0, 0, 1, -1);
    assert_eq!(get_side(&t.pieces[0], &p).unwrap(), -1);
    assert_eq!(get_side(&t.pieces[1], &p).unwrap(), 1);
    let mid = ExactPlane::new(v(0, 0, 2), n(-1));
    assert_eq!(get_side(&t.pieces[0], &mid).unwrap(), 0);
    let half = ExactPlane::new(v(0, 0, 1), qq_nothing().unwrap().from_vector(vec![Fraction::of(-1, 2)]).unwrap());
    assert_eq!(get_side(&t.pieces[1], &half).unwrap(), 1);
}

#[test]
fn the_shared_face_is_the_one_cut() {
    let t = tower();
    let cuts = find_cuts(&t, None).unwrap();
    assert_eq!(cuts.len(), 1);
    let c = &cuts[0];
    assert_eq!(c.front, vec![1]);
    assert_eq!(c.back, vec![0]);
    assert_eq!(text(&c.plane.normal.z), "1");
    assert_eq!(text(&c.plane.constant), "-1");
    assert_eq!(find_cuts(&t, Some(&[0])).unwrap().len(), 0);
    assert_eq!(find_cuts(&t, Some(&[1, 0])).unwrap()[0].back, vec![0]);
}

#[test]
fn a_move_turns_the_front_and_keeps_piece_zero_still() {
    let mut t = tower();
    let cut = find_cuts(&t, None).unwrap().remove(0);
    assert!(!holds_anchor_exec(&cut));
    make_move(&mut t, &cut, &quarter()).unwrap();
    let r = &t.pieces[1].rot;
    assert_eq!(vec![text(&r.x), text(&r.y), text(&r.z), text(&r.w)], vec!["0", "0", "1/2", "1/2"]);
    assert_eq!(text(&t.pieces[0].rot.w), "1");
    assert_eq!(find_cuts(&t, None).unwrap().len(), 1);

    let mut u = tower();
    let flipped = Cut { plane: plane(0, 0, -1, 1), front: vec![0], back: vec![1] };
    assert!(holds_anchor_exec(&flipped));
    make_move(&mut u, &flipped, &quarter()).unwrap();
    let r = &u.pieces[1].rot;
    assert_eq!(vec![text(&r.x), text(&r.y), text(&r.z), text(&r.w)], vec!["0", "0", "-1/2", "1/2"]);
    assert_eq!(text(&u.pieces[0].rot.z), "0");
}

/// A box with the given corners and interior faces.
fn boxed(lo: (i64, i64, i64), hi: (i64, i64, i64), faces: Vec<ExactPlane>) -> PolyGeometry {
    let mut vertices = Vec::new();
    for z in [lo.2, hi.2] {
        for y in [lo.1, hi.1] {
            for x in [lo.0, hi.0] {
                vertices.push(v(x, y, z));
            }
        }
    }
    let faces = faces
        .into_iter()
        .map(|plane| PolyFace { vertices: vec![0, 1, 3, 2], plane, color: 0, interior: true })
        .collect();
    PolyGeometry { vertices, faces, rot: ExactQuaternion::identity().unwrap() }
}

/// Two layers of two slabs: the bottom one split at `y = 1`, the top one at
/// `x = 1`.
fn crossed() -> Puzzle {
    Puzzle {
        pieces: vec![
            boxed((0, 0, 0), (2, 1, 1), vec![plane(0, 1, 0, -1), plane(0, 0, 1, -1)]),
            boxed((0, 1, 0), (2, 2, 1), vec![plane(0, -1, 0, 1), plane(0, 0, 1, -1)]),
            boxed((0, 0, 1), (1, 2, 2), vec![plane(1, 0, 0, -1), plane(0, 0, -1, 1)]),
            boxed((1, 0, 1), (2, 2, 2), vec![plane(-1, 0, 0, 1), plane(0, 0, -1, 1)]),
        ],
    }
}

#[test]
fn the_layers_turn_by_quarters() {
    let p = crossed();
    let cuts = find_cuts(&p, None).unwrap();
    assert_eq!(cuts.len(), 1);
    assert_eq!(cuts[0].front, vec![2, 3]);
    assert_eq!(cuts[0].back, vec![0, 1]);
    let top = find_cuts(&p, Some(&[2, 3])).unwrap();
    assert_eq!(top.len(), 1);
    assert_eq!((top[0].front.clone(), top[0].back.clone()), (vec![3], vec![2]));
    let stops = find_stops(&p, &cuts[0]).unwrap();
    assert_eq!(stops.len(), 1);
    let q = &stops[0];
    assert_eq!(vec![text(&q.x), text(&q.y), text(&q.z), text(&q.w)], vec!["0", "0", "1", "1"]);
    assert_eq!(find_stops(&tower(), &find_cuts(&tower(), None).unwrap()[0]).unwrap().len(), 0);
}

/// A cube from 0 to 2 on each axis, with all six faces, outward.
fn cube2() -> PolyGeometry {
    let mut vertices = Vec::new();
    for z in [0, 2] {
        for y in [0, 2] {
            for x in [0, 2] {
                vertices.push(v(x, y, z));
            }
        }
    }
    let face = |vs: Vec<usize>, p: ExactPlane, color: u32| PolyFace { vertices: vs, plane: p, color, interior: false };
    PolyGeometry {
        vertices,
        faces: vec![
            face(vec![0, 2, 3, 1], plane(0, 0, -1, 0), 1),
            face(vec![4, 5, 7, 6], plane(0, 0, 1, -2), 2),
            face(vec![0, 1, 5, 4], plane(0, -1, 0, 0), 3),
            face(vec![2, 6, 7, 3], plane(0, 1, 0, -2), 4),
            face(vec![0, 4, 6, 2], plane(-1, 0, 0, 0), 5),
            face(vec![1, 3, 7, 5], plane(1, 0, 0, -2), 6),
        ],
        rot: ExactQuaternion::identity().unwrap(),
    }
}

#[test]
fn slicing_a_cube_in_half_closes_both_halves() {
    let (front, back) = slice_polygeometry(&cube2(), &plane(0, 0, 1, -1), 9, false).unwrap();
    assert_eq!(front.vertices.len(), 8);
    assert_eq!(back.vertices.len(), 8);
    assert_eq!(front.faces.len(), 6);
    assert_eq!(back.faces.len(), 6);
    let lid = &back.faces[5];
    assert_eq!((lid.color, lid.interior, lid.vertices.len()), (9, false, 4));
    assert_eq!(text(&lid.plane.constant), "-1");
    let lid = &front.faces[5];
    assert_eq!((lid.color, lid.interior, lid.vertices.len()), (9, true, 4));
    assert_eq!(text(&lid.plane.normal.z), "-1");
    for p in &front.vertices {
        assert_eq!(plane(0, 0, 1, -1).side(p).unwrap() >= 0, true);
    }
    for p in &back.vertices {
        assert_eq!(plane(0, 0, 1, -1).side(p).unwrap() <= 0, true);
    }
    assert_eq!(back.faces.iter().map(|f| f.color).collect::<Vec<_>>(), vec![1, 3, 4, 5, 6, 9]);
}

#[test]
fn a_plane_beside_the_piece_leaves_it_whole() {
    let (front, back) = slice_polygeometry(&cube2(), &plane(0, 0, 1, -3), 9, false).unwrap();
    assert_eq!(front.vertices.len(), 0);
    assert_eq!(back.faces.len(), 6);
    let (front, back) = slice_polygeometry(&cube2(), &plane(0, 0, 1, 1), 9, false).unwrap();
    assert_eq!(front.faces.len(), 6);
    assert_eq!(back.vertices.len(), 0);
}

#[test]
fn a_turn_lands_on_a_stop_and_is_recorded() {
    let mut s = Simulator::new(crossed()).unwrap();
    assert_eq!(s.grips.len(), 1);
    assert_eq!(s.move_count, 0);
    let q = s.begin_turn(0, Turn::Direction(1)).unwrap();
    assert_eq!(vec![text(&q.x), text(&q.y), text(&q.z), text(&q.w)], vec!["0", "0", "1", "1"]);
    assert_eq!(s.move_count, 1);
    assert_eq!(s.history.len(), 1);
    assert_eq!(text(&s.history[0].1.z), "1");
    assert!(!s.grips.is_empty());
}

#[test]
fn a_grip_with_no_stops_turns_by_the_identity() {
    let mut s = Simulator::new(tower()).unwrap();
    assert_eq!(s.grips.len(), 1);
    let q = s.begin_turn(0, Turn::Direction(-1)).unwrap();
    assert_eq!(vec![text(&q.x), text(&q.y), text(&q.z), text(&q.w)], vec!["0", "0", "0", "1"]);
    assert_eq!(s.move_count, 1);
}

#[test]
fn a_turn_of_a_missing_grip_or_stop_is_refused() {
    let mut s = Simulator::new(crossed()).unwrap();
    let e = s.begin_turn(7, Turn::Direction(1)).err().expect("refused");
    assert_eq!(e.message(), "grip index 7 out of range (have 1)");
    let e = s.begin_turn(0, Turn::Stop(5)).err().expect("refused");
    assert_eq!(e.message(), "stop index 5 out of range (grip 0 has 1)");
    assert_eq!(s.move_count, 0);
    assert!(s.history.is_empty());
}

#[test]
fn a_simulator_lists_the_stops_of_a_grip() {
    let s = Simulator::new(crossed()).unwrap();
    assert_eq!(s.grip_count(), 1);
    assert_eq!(s.stops(0).unwrap().len(), 1);
    assert_eq!(s.stops(3).err().expect("refused").message(), "grip index 3 out of range (have 1)");
    assert_eq!(s.moves_made(), 0);
    assert_eq!(s.history_len(), 0);
}
