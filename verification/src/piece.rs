//! Convex polyhedral pieces, as the turning logic reads them: vertices,
//! faces with their planes, and the piece's rotation. What a face is painted
//! with is the renderer's business and is kept beside these.

use vstd::prelude::*;

use crate::error::Error;
use crate::math::{
    plane_intersect, plane_neg, plane_side, plane_wf, quat_identity, quat_wf, vec_wf, ExactPlane, ExactQuaternion,
    ExactVector3, PlaneV, QuatV, VecV,
};
use crate::num::ring::Outcome;

verus! {

/// A face of a piece: its corners (indices into the piece's vertices), its
/// plane, the number of the color it is painted (which the renderer looks
/// up), and whether it lies inside the puzzle.
pub struct PolyFace {
    pub vertices: Vec<usize>,
    pub plane: ExactPlane,
    pub color: u32,
    pub interior: bool,
}

/// A piece: its vertices and faces where it was made, and the rotation it
/// has been turned by since.
pub struct PolyGeometry {
    pub vertices: Vec<ExactVector3>,
    pub faces: Vec<PolyFace>,
    pub rot: ExactQuaternion,
}

/// The mathematical form of a face.
pub struct FaceV {
    pub vertices: Seq<usize>,
    pub plane: PlaneV,
    pub color: u32,
    pub interior: bool,
}

/// The mathematical form of a piece.
pub struct PieceV {
    pub vertices: Seq<VecV>,
    pub faces: Seq<FaceV>,
    pub rot: QuatV,
}

impl View for PolyFace {
    type V = FaceV;

    open spec fn view(&self) -> FaceV {
        FaceV { vertices: self.vertices@, plane: self.plane@, color: self.color, interior: self.interior }
    }
}

/// The views of a list of vertices.
pub open spec fn vertex_views(v: Seq<ExactVector3>) -> Seq<VecV> {
    v.map_values(|x: ExactVector3| x@)
}

/// The views of a list of faces.
pub open spec fn face_views(v: Seq<PolyFace>) -> Seq<FaceV> {
    v.map_values(|x: PolyFace| x@)
}

impl View for PolyGeometry {
    type V = PieceV;

    open spec fn view(&self) -> PieceV {
        PieceV { vertices: vertex_views(self.vertices@), faces: face_views(self.faces@), rot: self.rot@ }
    }
}

/// Every vertex, face plane and the rotation well formed.
pub open spec fn piece_wf(p: PieceV) -> bool {
    &&& forall|i: int| 0 <= i < p.vertices.len() ==> #[trigger] vec_wf(p.vertices[i])
    &&& forall|i: int| 0 <= i < p.faces.len() ==> #[trigger] plane_wf(p.faces[i].plane)
    &&& quat_wf(p.rot)
}

/* ------------------------------------------------------------------------ */
/*  Slicing                                                                  */
/* ------------------------------------------------------------------------ */

/// Every face has a corner, and every corner is a vertex of the piece.
pub open spec fn faces_ok(p: PieceV) -> bool {
    forall|f: int| 0 <= f < p.faces.len() ==> {
        &&& (#[trigger] p.faces[f]).vertices.len() > 0
        &&& forall|t: int| 0 <= t < p.faces[f].vertices.len() ==> p.faces[f].vertices[t] < p.vertices.len()
    }
}

/// The sides of the first `n` vertices.
pub open spec fn sides_spec(plane: PlaneV, vs: Seq<VecV>, n: nat) -> Outcome<Seq<int>>
    decreases n,
{
    if n == 0 {
        Outcome::Ok(Seq::empty())
    } else {
        match sides_spec(plane, vs, (n - 1) as nat) {
            Outcome::Err(k) => Outcome::Err(k),
            Outcome::Ok(ss) => match plane_side(plane, vs[n - 1]) {
                Outcome::Err(k) => Outcome::Err(k),
                Outcome::Ok(x) => Outcome::Ok(ss.push(x)),
            },
        }
    }
}

/// The vertices while slicing, their sides, and the points made so far on
/// the edges `(front end, back end)`, each with its vertex number.
pub struct CutState {
    pub verts: Seq<VecV>,
    pub sides: Seq<int>,
    pub cross: Seq<(usize, usize, usize)>,
}

/// The point already made on the edge `(a, b)`, among the first `n`.
pub open spec fn cross_find(cross: Seq<(usize, usize, usize)>, a: usize, b: usize, n: nat) -> Option<usize>
    decreases n,
{
    if n == 0 {
        None
    } else {
        match cross_find(cross, a, b, (n - 1) as nat) {
            Some(c) => Some(c),
            None => if cross[n - 1].0 == a && cross[n - 1].1 == b {
                Some(cross[n - 1].2)
            } else {
                None
            },
        }
    }
}

/// The corners of a face up to `k` split into those on or in front of the
/// plane and those on or behind it, with a point made where an edge
/// crosses it (once per edge, shared between the faces that meet there).
pub open spec fn walk_face(plane: PlaneV, fvs: Seq<usize>, k: nat, st: CutState) -> Outcome<
    (CutState, Seq<usize>, Seq<usize>),
>
    decreases k,
{
    if k == 0 {
        Outcome::Ok((st, Seq::empty(), Seq::empty()))
    } else {
        match walk_face(plane, fvs, (k - 1) as nat, st) {
            Outcome::Err(e) => Outcome::Err(e),
            Outcome::Ok(w) => {
                let st2 = w.0;
                let cur = fvs[k - 1];
                let prev = if k == 1 {
                    fvs.last()
                } else {
                    fvs[k - 2]
                };
                let sc = st2.sides[cur as int];
                let sp = st2.sides[prev as int];
                let crossed = if sc * sp < 0 {
                    let ab = if sc > 0 {
                        (prev, cur)
                    } else {
                        (cur, prev)
                    };
                    match cross_find(st2.cross, ab.0, ab.1, st2.cross.len()) {
                        Some(c) => Outcome::Ok((st2, w.1.push(c), w.2.push(c))),
                        None => match plane_intersect(plane, st2.verts[prev as int], st2.verts[cur as int]) {
                            Outcome::Err(e) => Outcome::Err(e),
                            Outcome::Ok(pt) => {
                                let c = st2.verts.len() as usize;
                                Outcome::Ok(
                                    (
                                        CutState {
                                            verts: st2.verts.push(pt),
                                            sides: st2.sides.push(0),
                                            cross: st2.cross.push((ab.0, ab.1, c)),
                                        },
                                        w.1.push(c),
                                        w.2.push(c),
                                    ),
                                )
                            },
                        },
                    }
                } else {
                    Outcome::Ok((st2, w.1, w.2))
                };
                match crossed {
                    Outcome::Err(e) => Outcome::Err(e),
                    Outcome::Ok(x) => Outcome::Ok(
                        (
                            x.0,
                            if sc >= 0 {
                                x.1.push(cur)
                            } else {
                                x.1
                            },
                            if sc <= 0 {
                                x.2.push(cur)
                            } else {
                                x.2
                            },
                        ),
                    ),
                }
            },
        }
    }
}

/// The number a vertex has in a half, among the first `n` entries.
pub open spec fn map_find(map: Seq<(usize, usize)>, v: usize, n: nat) -> Option<usize>
    decreases n,
{
    if n == 0 {
        None
    } else {
        match map_find(map, v, (n - 1) as nat) {
            Some(i) => Some(i),
            None => if map[n - 1].0 == v {
                Some(map[n - 1].1)
            } else {
                None
            },
        }
    }
}

/// A half being built: its vertices, its faces, and which vertex of the
/// whole each of its vertices is.
pub struct HalfV {
    pub verts: Seq<VecV>,
    pub faces: Seq<FaceV>,
    pub map: Seq<(usize, usize)>,
}

/// The first `k` points renumbered into the half, each vertex taken in the
/// first time it is met.
pub open spec fn remap(pts: Seq<usize>, k: nat, verts: Seq<VecV>, h: HalfV) -> (Seq<usize>, HalfV)
    decreases k,
{
    if k == 0 {
        (Seq::empty(), h)
    } else {
        let prev = remap(pts, (k - 1) as nat, verts, h);
        let v = pts[k - 1];
        let h2 = prev.1;
        match map_find(h2.map, v, h2.map.len()) {
            Some(i) => (prev.0.push(i), h2),
            None => {
                let i = h2.verts.len() as usize;
                (prev.0.push(i), HalfV { verts: h2.verts.push(verts[v as int]), faces: h2.faces, map: h2.map.push((v, i)) })
            },
        }
    }
}

/// A face's points added to a half as a face like `face`, when there are
/// at least three of them.
pub open spec fn add_face(pts: Seq<usize>, verts: Seq<VecV>, face: FaceV, h: HalfV) -> HalfV {
    if pts.len() >= 3 {
        let r = remap(pts, pts.len(), verts, h);
        HalfV { faces: r.1.faces.push(FaceV { vertices: r.0, ..face }), ..r.1 }
    } else {
        h
    }
}

/// Slicing the first `n` faces: the state, and the front and back halves.
pub open spec fn faces_fold(plane: PlaneV, faces: Seq<FaceV>, n: nat, st0: CutState) -> Outcome<
    (CutState, HalfV, HalfV),
>
    decreases n,
{
    if n == 0 {
        let e = HalfV { verts: Seq::empty(), faces: Seq::empty(), map: Seq::empty() };
        Outcome::Ok((st0, e, e))
    } else {
        match faces_fold(plane, faces, (n - 1) as nat, st0) {
            Outcome::Err(k) => Outcome::Err(k),
            Outcome::Ok(acc) => {
                let face = faces[n - 1];
                match walk_face(plane, face.vertices, face.vertices.len(), acc.0) {
                    Outcome::Err(k) => Outcome::Err(k),
                    Outcome::Ok(w) => Outcome::Ok(
                        (w.0, add_face(w.1, w.0.verts, face, acc.1), add_face(w.2, w.0.verts, face, acc.2)),
                    ),
                }
            },
        }
    }
}

/// The open edges of the first `n` faces, grouped by their two ends, each
/// group in the order first met, each edge as the face walks it.
pub open spec fn edge_groups(faces: Seq<FaceV>, n: nat) -> Seq<((usize, usize), Seq<(usize, usize)>)>
    decreases n,
{
    if n == 0 {
        Seq::empty()
    } else {
        let fvs = faces[n - 1].vertices;
        face_edges(fvs, fvs.len(), edge_groups(faces, (n - 1) as nat))
    }
}

/// The first `k` edges of a face, from its last corner round, added.
pub open spec fn face_edges(fvs: Seq<usize>, k: nat, g: Seq<((usize, usize), Seq<(usize, usize)>)>) -> Seq<
    ((usize, usize), Seq<(usize, usize)>),
>
    decreases k,
{
    if k == 0 {
        g
    } else {
        let g2 = face_edges(fvs, (k - 1) as nat, g);
        let cur = fvs[k - 1];
        let prev = if k == 1 {
            fvs.last()
        } else {
            fvs[k - 2]
        };
        let h = if prev < cur {
            (prev, cur)
        } else {
            (cur, prev)
        };
        match group_find(g2, h, g2.len()) {
            Some(i) => g2.update(i as int, (h, g2[i as int].1.push((prev, cur)))),
            None => g2.push((h, seq![(prev, cur)])),
        }
    }
}

/// The position of the group of `h` among the first `n`.
pub open spec fn group_find(g: Seq<((usize, usize), Seq<(usize, usize)>)>, h: (usize, usize), n: nat) -> Option<nat>
    decreases n,
{
    if n == 0 {
        None
    } else {
        match group_find(g, h, (n - 1) as nat) {
            Some(i) => Some(i),
            None => if g[n - 1].0 == h {
                Some((n - 1) as nat)
            } else {
                None
            },
        }
    }
}

/// The edges met once, as a graph from each edge's end to its starts.
pub open spec fn cut_graph(g: Seq<((usize, usize), Seq<(usize, usize)>)>, n: nat) -> Seq<(usize, Seq<usize>)>
    decreases n,
{
    if n == 0 {
        Seq::empty()
    } else {
        let prev = cut_graph(g, (n - 1) as nat);
        let es = g[n - 1].1;
        if es.len() == 1 {
            let a = es[0].0;
            let b = es[0].1;
            match node_find(prev, b, prev.len()) {
                Some(i) => prev.update(i as int, (b, prev[i as int].1.push(a))),
                None => prev.push((b, seq![a])),
            }
        } else {
            prev
        }
    }
}

/// The position of node `b` among the first `n`.
pub open spec fn node_find(g: Seq<(usize, Seq<usize>)>, b: usize, n: nat) -> Option<nat>
    decreases n,
{
    if n == 0 {
        None
    } else {
        match node_find(g, b, (n - 1) as nat) {
            Some(i) => Some(i),
            None => if g[n - 1].0 == b {
                Some((n - 1) as nat)
            } else {
                None
            },
        }
    }
}

/// The least node among the first `n` not yet visited.
pub open spec fn least_unvisited(g: Seq<(usize, Seq<usize>)>, visited: Seq<usize>, n: nat) -> Option<usize>
    decreases n,
{
    if n == 0 {
        None
    } else {
        let prev = least_unvisited(g, visited, (n - 1) as nat);
        let b = g[n - 1].0;
        if visited.contains(b) {
            prev
        } else {
            match prev {
                Some(m) => if b < m {
                    Some(b)
                } else {
                    Some(m)
                },
                None => Some(b),
            }
        }
    }
}

/// The first of the first `n` of `ns` not yet visited.
pub open spec fn first_unvisited(ns: Seq<usize>, visited: Seq<usize>, n: nat) -> Option<usize>
    decreases n,
{
    if n == 0 {
        None
    } else {
        match first_unvisited(ns, visited, (n - 1) as nat) {
            Some(x) => Some(x),
            None => if visited.contains(ns[n - 1]) {
                None
            } else {
                Some(ns[n - 1])
            },
        }
    }
}

/// A walk along the graph from `cur`: each point taken, then on to the
/// first of its starts not yet visited; at most `fuel` steps more.
pub open spec fn walk_cut(g: Seq<(usize, Seq<usize>)>, visited: Seq<usize>, cur: usize, pts: Seq<usize>, fuel: nat) -> (
    Seq<usize>,
    Seq<usize>,
)
    decreases fuel,
{
    let pts2 = pts.push(cur);
    let vis2 = visited.push(cur);
    if fuel == 0 {
        (pts2, vis2)
    } else {
        match node_find(g, cur, g.len()) {
            None => (pts2, vis2),
            Some(i) => match first_unvisited(g[i as int].1, vis2, g[i as int].1.len()) {
                None => (pts2, vis2),
                Some(nx) => walk_cut(g, vis2, nx, pts2, (fuel - 1) as nat),
            },
        }
    }
}

/// The faces that close the cut: a walk from the least unvisited node,
/// until as many points are visited as there are nodes; at most `rounds`.
pub open spec fn close_rounds(
    g: Seq<(usize, Seq<usize>)>,
    visited: Seq<usize>,
    faces: Seq<FaceV>,
    plane: PlaneV,
    color: u32,
    interior: bool,
    steps: nat,
    rounds: nat,
) -> Seq<FaceV>
    decreases rounds,
{
    if visited.len() >= g.len() || rounds == 0 {
        faces
    } else {
        match least_unvisited(g, visited, g.len()) {
            None => faces,
            Some(v) => {
                let w = walk_cut(g, visited, v, Seq::empty(), steps);
                close_rounds(
                    g,
                    w.1,
                    faces.push(FaceV { vertices: w.0, plane, color, interior }),
                    plane,
                    color,
                    interior,
                    steps,
                    (rounds - 1) as nat,
                )
            },
        }
    }
}

/// `close_polyhedron`: the faces with the missing ones added, found from the
/// edges that only one face has.
pub open spec fn close_spec(faces: Seq<FaceV>, nverts: nat, plane: PlaneV, color: u32, interior: bool) -> Seq<FaceV> {
    let g = cut_graph(edge_groups(faces, faces.len()), edge_groups(faces, faces.len()).len());
    close_rounds(g, Seq::empty(), faces, plane, color, interior, nverts, g.len())
}

/// A piece with these vertices and faces and no rotation.
pub open spec fn piece_of(verts: Seq<VecV>, faces: Seq<FaceV>, id: QuatV) -> PieceV {
    PieceV { vertices: verts, faces, rot: id }
}

/// The halves of a piece that the plane crosses: its faces split in turn
/// from the state `st0`, then each half closed.
#[verifier::opaque]
pub open spec fn slice_rest(g: PieceV, plane: PlaneV, color: u32, interior: bool, st0: CutState, id: QuatV) -> Outcome<
    (PieceV, PieceV),
> {
    match faces_fold(plane, g.faces, g.faces.len(), st0) {
        Outcome::Err(k) => Outcome::Err(k),
        Outcome::Ok(acc) => Outcome::Ok(
            (
                piece_of(acc.1.verts, close_spec(acc.1.faces, acc.1.verts.len(), plane_neg(plane), color, true), id),
                piece_of(acc.2.verts, close_spec(acc.2.faces, acc.2.verts.len(), plane, color, interior), id),
            ),
        ),
    }
}

/// `slice_polygeometry(g, plane, color, interior)`: the piece whole in
/// front when no vertex is behind the plane, whole behind when none is in
/// front; else the two halves, the back one closed by a face of `plane`
/// (interior as asked) and the front one by a face of its negation
/// (interior), both in `color`. The halves are not turned.
pub open spec fn slice_spec(g: PieceV, plane: PlaneV, color: u32, interior: bool) -> Outcome<(PieceV, PieceV)> {
    match sides_spec(plane, g.vertices, g.vertices.len()) {
        Outcome::Err(k) => Outcome::Err(k),
        Outcome::Ok(ss) => match quat_identity() {
            Outcome::Err(k) => Outcome::Err(k),
            Outcome::Ok(id) => if forall|i: int| 0 <= i < ss.len() ==> ss[i] >= 0 {
                Outcome::Ok((g, piece_of(Seq::empty(), Seq::empty(), id)))
            } else if forall|i: int| 0 <= i < ss.len() ==> ss[i] <= 0 {
                Outcome::Ok((piece_of(Seq::empty(), Seq::empty(), id), g))
            } else {
                slice_rest(g, plane, color, interior, CutState { verts: g.vertices, sides: ss, cross: Seq::empty() }, id)
            },
        },
    }
}

/// The views of a list of signs.
pub open spec fn ints(v: Seq<i32>) -> Seq<int> {
    v.map_values(|x: i32| x as int)
}

/// Every vertex well formed.
pub open spec fn verts_wf(v: Seq<ExactVector3>) -> bool {
    forall|i: int| 0 <= i < v.len() ==> #[trigger] vec_wf(v[i]@)
}

/// The side of each vertex.
fn sides_exec(plane: &ExactPlane, verts: &Vec<ExactVector3>) -> (r: core::result::Result<Vec<i32>, Error>)
    requires
        plane_wf(plane@),
        verts_wf(verts@),
    ensures
        match r {
            Ok(v) => sides_spec(plane@, vertex_views(verts@), verts@.len()) == Outcome::Ok(ints(v@)),
            Err(e) => sides_spec(plane@, vertex_views(verts@), verts@.len()) == Outcome::<Seq<int>>::Err(
                e.spec_error_kind(),
            ),
        },
{
    let ghost vv = vertex_views(verts@);
    let mut out: Vec<i32> = Vec::new();
    let n = verts.len();
    let mut i: usize = 0;
    proof {
        assert(ints(out@) =~= Seq::<int>::empty());
    }
    while i < n
        invariant
            i <= n == verts@.len(),
            vv == vertex_views(verts@),
            plane_wf(plane@),
            verts_wf(verts@),
            sides_spec(plane@, vv, i as nat) == Outcome::Ok(ints(out@)),
        decreases n - i,
    {
        proof {
            assert(vv[i as int] == verts@[i as int]@);
            assert(vec_wf(verts@[i as int]@));
        }
        let x = match plane.side(&verts[i]) {
            Ok(x) => x,
            Err(e) => {
                proof {
                    lemma_sides_err(plane@, vv, (i + 1) as nat, n as nat);
                }
                return Err(e);
            },
        };
        let ghost before = ints(out@);
        out.push(x);
        proof {
            assert(ints(out@) =~= before.push(x as int));
        }
        i = i + 1;
    }
    Ok(out)
}

proof fn lemma_sides_len(plane: PlaneV, vs: Seq<VecV>, n: nat)
    ensures
        sides_spec(plane, vs, n) matches Outcome::Ok(ss) ==> ss.len() == n,
    decreases n,
{
    if n > 0 {
        lemma_sides_len(plane, vs, (n - 1) as nat);
    }
}

proof fn lemma_sides_err(plane: PlaneV, vs: Seq<VecV>, n: nat, n2: nat)
    requires
        n <= n2,
        sides_spec(plane, vs, n) is Err,
    ensures
        sides_spec(plane, vs, n2) == sides_spec(plane, vs, n),
    decreases n2 - n,
{
    if n < n2 {
        lemma_sides_err(plane, vs, n, (n2 - 1) as nat);
    }
}

/// The point already made on the edge `(a, b)`.
fn cross_find_exec(cross: &Vec<(usize, usize, usize)>, a: usize, b: usize) -> (r: Option<usize>)
    ensures
        r == cross_find(cross@, a, b, cross@.len()),
{
    let mut i: usize = 0;
    while i < cross.len()
        invariant
            i <= cross@.len(),
            cross_find(cross@, a, b, i as nat) is None,
        decreases cross@.len() - i,
    {
        if cross[i].0 == a && cross[i].1 == b {
            proof {
                lemma_cross_found(cross@, a, b, (i + 1) as nat, cross@.len());
            }
            return Some(cross[i].2);
        }
        i = i + 1;
    }
    None
}

proof fn lemma_cross_found(cross: Seq<(usize, usize, usize)>, a: usize, b: usize, n: nat, n2: nat)
    requires
        n <= n2,
        cross_find(cross, a, b, n) is Some,
    ensures
        cross_find(cross, a, b, n2) == cross_find(cross, a, b, n),
    decreases n2 - n,
{
    if n < n2 {
        lemma_cross_found(cross, a, b, n, (n2 - 1) as nat);
    }
}

/// What `cross_find` finds is one of the entries.
proof fn lemma_cross_mem(cross: Seq<(usize, usize, usize)>, a: usize, b: usize, n: nat)
    requires
        n <= cross.len(),
    ensures
        cross_find(cross, a, b, n) matches Some(c) ==> exists|i: int| 0 <= i < n && #[trigger] cross[i].2 == c,
    decreases n,
{
    if n > 0 {
        lemma_cross_mem(cross, a, b, (n - 1) as nat);
    }
}

/// The working state as a view.
pub open spec fn state_of(verts: Seq<ExactVector3>, sides: Seq<i32>, cross: Seq<(usize, usize, usize)>) -> CutState {
    CutState { verts: vertex_views(verts), sides: ints(sides), cross }
}

proof fn lemma_walk_err(plane: PlaneV, fvs: Seq<usize>, k: nat, k2: nat, st: CutState)
    requires
        k <= k2,
        walk_face(plane, fvs, k, st) is Err,
    ensures
        walk_face(plane, fvs, k2, st) == walk_face(plane, fvs, k, st),
    decreases k2 - k,
{
    if k < k2 {
        lemma_walk_err(plane, fvs, k, (k2 - 1) as nat, st);
    }
}

/// All entries below `n`.
pub open spec fn all_below(v: Seq<usize>, n: int) -> bool {
    forall|i: int| 0 <= i < v.len() ==> #[trigger] v[i] < n
}

/// Walk a face's corners, splitting them by side and making the crossing
/// points.
fn walk_face_exec(
    plane: &ExactPlane,
    fvs: &Vec<usize>,
    verts: &mut Vec<ExactVector3>,
    sides: &mut Vec<i32>,
    cross: &mut Vec<(usize, usize, usize)>,
) -> (r: core::result::Result<(Vec<usize>, Vec<usize>), Error>)
    requires
        plane_wf(plane@),
        fvs@.len() > 0,
        all_below(fvs@, old(verts)@.len() as int),
        old(sides)@.len() == old(verts)@.len(),
        verts_wf(old(verts)@),
        forall|i: int| 0 <= i < old(cross)@.len() ==> #[trigger] old(cross)@[i].2 < old(verts)@.len(),
    ensures
        match r {
            Ok(w) => walk_face(plane@, fvs@, fvs@.len(), state_of(old(verts)@, old(sides)@, old(cross)@))
                == Outcome::Ok((state_of(final(verts)@, final(sides)@, final(cross)@), w.0@, w.1@))
                && all_below(w.0@, final(verts)@.len() as int) && all_below(w.1@, final(verts)@.len() as int),
            Err(e) => walk_face(plane@, fvs@, fvs@.len(), state_of(old(verts)@, old(sides)@, old(cross)@))
                == Outcome::<(CutState, Seq<usize>, Seq<usize>)>::Err(e.spec_error_kind()),
        },
        final(sides)@.len() == final(verts)@.len(),
        final(verts)@.len() >= old(verts)@.len(),
        verts_wf(final(verts)@),
        forall|i: int| 0 <= i < final(cross)@.len() ==> #[trigger] final(cross)@[i].2 < final(verts)@.len(),
{
    let ghost st0 = state_of(verts@, sides@, cross@);
    let ghost n0 = verts@.len();
    let mut fp: Vec<usize> = Vec::new();
    let mut bp: Vec<usize> = Vec::new();
    let n = fvs.len();
    let mut k: usize = 0;
    while k < n
        invariant
            k <= n == fvs@.len(),
            n > 0,
            plane_wf(plane@),
            st0 == state_of(old(verts)@, old(sides)@, old(cross)@),
            n0 == old(verts)@.len(),
            all_below(fvs@, n0 as int),
            sides@.len() == verts@.len(),
            verts@.len() >= n0,
            forall|i: int| 0 <= i < cross@.len() ==> #[trigger] cross@[i].2 < verts@.len(),
            verts_wf(verts@),
            walk_face(plane@, fvs@, k as nat, st0) == Outcome::Ok((state_of(verts@, sides@, cross@), fp@, bp@)),
            all_below(fp@, verts@.len() as int),
            all_below(bp@, verts@.len() as int),
        decreases n - k,
    {
        let cur = fvs[k];
        let prev = if k == 0 {
            fvs[n - 1]
        } else {
            fvs[k - 1]
        };
        proof {
            assert(fvs@.last() == fvs@[n - 1]);
            assert(ints(sides@)[cur as int] == sides@[cur as int] as int);
            assert(ints(sides@)[prev as int] == sides@[prev as int] as int);
        }
        let sc = sides[cur];
        let sp = sides[prev];
        let ghost w_fp = fp@;
        let ghost w_bp = bp@;
        let ghost stv = state_of(verts@, sides@, cross@);
        if (sc < 0 && sp > 0) || (sc > 0 && sp < 0) {
            proof {
                assert((sc as int) * (sp as int) < 0) by (nonlinear_arith)
                    requires (sc < 0 && sp > 0) || (sc > 0 && sp < 0);
            }
            let (a, b) = if sc > 0 {
                (prev, cur)
            } else {
                (cur, prev)
            };
            match cross_find_exec(cross, a, b) {
                Some(c) => {
                    proof {
                        lemma_cross_mem(cross@, a, b, cross@.len());
                    }
                    fp.push(c);
                    bp.push(c);
                },
                None => {
                    proof {
                        assert(vertex_views(verts@)[prev as int] == verts@[prev as int]@);
                        assert(vertex_views(verts@)[cur as int] == verts@[cur as int]@);
                    }
                    let pt = match plane.intersect_line(&verts[prev], &verts[cur]) {
                        Ok(pt) => pt,
                        Err(e) => {
                            proof {
                                lemma_walk_err(plane@, fvs@, (k + 1) as nat, n as nat, st0);
                            }
                            return Err(e);
                        },
                    };
                    let c = verts.len();
                    let ghost vb = vertex_views(verts@);
                    let ghost sb = ints(sides@);
                    verts.push(pt);
                    sides.push(0);
                    cross.push((a, b, c));
                    proof {
                        assert(vertex_views(verts@) =~= vb.push(pt@));
                        assert(ints(sides@) =~= sb.push(0));
                    }
                    fp.push(c);
                    bp.push(c);
                },
            }
        } else {
            proof {
                assert(!((sc as int) * (sp as int) < 0)) by (nonlinear_arith)
                    requires !((sc < 0 && sp > 0) || (sc > 0 && sp < 0));
            }
        }
        if sc >= 0 {
            fp.push(cur);
        }
        if sc <= 0 {
            bp.push(cur);
        }
        k = k + 1;
    }
    Ok((fp, bp))
}

/// The number a vertex has in a half.
fn map_find_exec(map: &Vec<(usize, usize)>, v: usize) -> (r: Option<usize>)
    ensures
        r == map_find(map@, v, map@.len()),
{
    let mut i: usize = 0;
    while i < map.len()
        invariant
            i <= map@.len(),
            map_find(map@, v, i as nat) is None,
        decreases map@.len() - i,
    {
        if map[i].0 == v {
            proof {
                lemma_map_found(map@, v, (i + 1) as nat, map@.len());
            }
            return Some(map[i].1);
        }
        i = i + 1;
    }
    None
}

proof fn lemma_map_found(map: Seq<(usize, usize)>, v: usize, n: nat, n2: nat)
    requires
        n <= n2,
        map_find(map, v, n) is Some,
    ensures
        map_find(map, v, n2) == map_find(map, v, n),
    decreases n2 - n,
{
    if n < n2 {
        lemma_map_found(map, v, n, (n2 - 1) as nat);
    }
}

/// The views of a list of faces, as a half holds them.
pub open spec fn half_of(verts: Seq<ExactVector3>, faces: Seq<PolyFace>, map: Seq<(usize, usize)>) -> HalfV {
    HalfV { verts: vertex_views(verts), faces: face_views(faces), map }
}

/// Renumber points into a half.
fn remap_exec(
    pts: &Vec<usize>,
    verts: &Vec<ExactVector3>,
    hv: &mut Vec<ExactVector3>,
    hmap: &mut Vec<(usize, usize)>,
    hfaces: &Vec<PolyFace>,
) -> (r: Vec<usize>)
    requires
        all_below(pts@, verts@.len() as int),
        verts_wf(verts@),
        verts_wf(old(hv)@),
    ensures
        remap(pts@, pts@.len(), vertex_views(verts@), half_of(old(hv)@, hfaces@, old(hmap)@)) == (
            r@,
            half_of(final(hv)@, hfaces@, final(hmap)@),
        ),
        verts_wf(final(hv)@),
{
    let ghost h0 = half_of(hv@, hfaces@, hmap@);
    let ghost vv = vertex_views(verts@);
    let mut out: Vec<usize> = Vec::new();
    let n = pts.len();
    let mut k: usize = 0;
    while k < n
        invariant
            k <= n == pts@.len(),
            h0 == half_of(old(hv)@, hfaces@, old(hmap)@),
            vv == vertex_views(verts@),
            all_below(pts@, verts@.len() as int),
            verts_wf(verts@),
            verts_wf(hv@),
            remap(pts@, k as nat, vv, h0) == (out@, half_of(hv@, hfaces@, hmap@)),
        decreases n - k,
    {
        let v = pts[k];
        match map_find_exec(hmap, v) {
            Some(i) => {
                out.push(i);
            },
            None => {
                let i = hv.len();
                proof {
                    assert(vv[v as int] == verts@[v as int]@);
                    assert(vec_wf(verts@[v as int]@));
                }
                let ghost hb = vertex_views(hv@);
                let c = verts[v].copy();
                hv.push(c);
                hmap.push((v, i));
                out.push(i);
                proof {
                    assert(vertex_views(hv@) =~= hb.push(c@));
                }
            },
        }
        k = k + 1;
    }
    out
}

/// A copy of a list of corners.
fn copy_indices(v: &Vec<usize>) -> (r: Vec<usize>)
    ensures
        r@ == v@,
{
    let mut out: Vec<usize> = Vec::new();
    let mut i: usize = 0;
    while i < v.len()
        invariant
            i <= v@.len(),
            out@ == v@.take(i as int),
        decreases v@.len() - i,
    {
        out.push(v[i]);
        proof {
            assert(v@.take(i + 1) =~= v@.take(i as int).push(v@[i as int]));
        }
        i = i + 1;
    }
    proof {
        assert(v@.take(v@.len() as int) =~= v@);
    }
    out
}

/// Add a face's points to a half, when there are at least three.
fn add_face_exec(
    pts: &Vec<usize>,
    verts: &Vec<ExactVector3>,
    face: &PolyFace,
    hv: &mut Vec<ExactVector3>,
    hfaces: &mut Vec<PolyFace>,
    hmap: &mut Vec<(usize, usize)>,
)
    requires
        all_below(pts@, verts@.len() as int),
        verts_wf(verts@),
        verts_wf(old(hv)@),
        plane_wf(face@.plane),
        forall|f: int| 0 <= f < old(hfaces)@.len() ==> #[trigger] plane_wf(old(hfaces)@[f]@.plane),
        faces_nonempty(face_views(old(hfaces)@)),
    ensures
        faces_nonempty(face_views(final(hfaces)@)),
        add_face(pts@, vertex_views(verts@), face@, half_of(old(hv)@, old(hfaces)@, old(hmap)@)) == half_of(
            final(hv)@,
            final(hfaces)@,
            final(hmap)@,
        ),
        verts_wf(final(hv)@),
        forall|f: int| 0 <= f < final(hfaces)@.len() ==> #[trigger] plane_wf(final(hfaces)@[f]@.plane),
{
    if pts.len() >= 3 {
        let vs = remap_exec(pts, verts, hv, hmap, hfaces);
        let ghost fb = face_views(hfaces@);
        let nf = PolyFace { vertices: vs, plane: face.plane.copy(), color: face.color, interior: face.interior };
        proof {
            lemma_remap_len(pts@, pts@.len(), vertex_views(verts@), half_of(old(hv)@, old(hfaces)@, old(hmap)@));
        }
        hfaces.push(nf);
        proof {
            assert(face_views(hfaces@) =~= fb.push(nf@));
            assert forall|f: int| 0 <= f < face_views(hfaces@).len() implies (#[trigger] face_views(
                hfaces@,
            )[f]).vertices.len() > 0 by {
                if f < fb.len() {
                    assert(face_views(hfaces@)[f] == fb[f]);
                }
            }
        }
    }
}

/// The views of edge groups.
pub open spec fn groups_view(v: Seq<((usize, usize), Vec<(usize, usize)>)>) -> Seq<((usize, usize), Seq<(usize, usize)>)> {
    v.map_values(|e: ((usize, usize), Vec<(usize, usize)>)| (e.0, e.1@))
}

/// The views of a graph.
pub open spec fn graph_view(v: Seq<(usize, Vec<usize>)>) -> Seq<(usize, Seq<usize>)> {
    v.map_values(|e: (usize, Vec<usize>)| (e.0, e.1@))
}

/// Every face has a corner.
pub open spec fn faces_nonempty(faces: Seq<FaceV>) -> bool {
    forall|f: int| 0 <= f < faces.len() ==> (#[trigger] faces[f]).vertices.len() > 0
}

fn group_find_exec(g: &Vec<((usize, usize), Vec<(usize, usize)>)>, h: (usize, usize)) -> (r: Option<usize>)
    ensures
        match r {
            Some(i) => group_find(groups_view(g@), h, g@.len()) == Some(i as nat) && i < g@.len(),
            None => group_find(groups_view(g@), h, g@.len()) is None,
        },
{
    let ghost gv = groups_view(g@);
    let mut i: usize = 0;
    while i < g.len()
        invariant
            i <= g@.len(),
            gv == groups_view(g@),
            group_find(gv, h, i as nat) is None,
        decreases g@.len() - i,
    {
        proof {
            assert(gv[i as int].0 == g@[i as int].0);
        }
        if g[i].0.0 == h.0 && g[i].0.1 == h.1 {
            proof {
                lemma_group_found(gv, h, (i + 1) as nat, g@.len());
            }
            return Some(i);
        }
        i = i + 1;
    }
    None
}

proof fn lemma_group_found(g: Seq<((usize, usize), Seq<(usize, usize)>)>, h: (usize, usize), n: nat, n2: nat)
    requires
        n <= n2,
        group_find(g, h, n) is Some,
    ensures
        group_find(g, h, n2) == group_find(g, h, n),
    decreases n2 - n,
{
    if n < n2 {
        lemma_group_found(g, h, n, (n2 - 1) as nat);
    }
}

/// Add the edges of a face to the groups.
fn face_edges_exec(fvs: &Vec<usize>, g: &mut Vec<((usize, usize), Vec<(usize, usize)>)>)
    requires
        fvs@.len() > 0,
    ensures
        groups_view(final(g)@) == face_edges(fvs@, fvs@.len(), groups_view(old(g)@)),
{
    let ghost g0 = groups_view(g@);
    let n = fvs.len();
    let mut k: usize = 0;
    while k < n
        invariant
            k <= n == fvs@.len(),
            n > 0,
            g0 == groups_view(old(g)@),
            groups_view(g@) == face_edges(fvs@, k as nat, g0),
        decreases n - k,
    {
        let cur = fvs[k];
        let prev = if k == 0 {
            fvs[n - 1]
        } else {
            fvs[k - 1]
        };
        proof {
            assert(fvs@.last() == fvs@[n - 1]);
        }
        let h = if prev < cur {
            (prev, cur)
        } else {
            (cur, prev)
        };
        let ghost gb = groups_view(g@);
        match group_find_exec(g, h) {
            Some(i) => {
                let mut es = copy_edges(&g[i].1);
                es.push((prev, cur));
                let ghost esv = es@;
                g.set(i, (h, es));
                proof {
                    assert(groups_view(g@) =~= gb.update(i as int, (h, esv)));
                }
            },
            None => {
                let mut es: Vec<(usize, usize)> = Vec::new();
                es.push((prev, cur));
                g.push((h, es));
                proof {
                    assert(groups_view(g@) =~= gb.push((h, seq![(prev, cur)])));
                }
            },
        }
        k = k + 1;
    }
}

/// A copy of a list of edges.
fn copy_edges(v: &Vec<(usize, usize)>) -> (r: Vec<(usize, usize)>)
    ensures
        r@ == v@,
{
    let mut out: Vec<(usize, usize)> = Vec::new();
    let mut i: usize = 0;
    while i < v.len()
        invariant
            i <= v@.len(),
            out@ == v@.take(i as int),
        decreases v@.len() - i,
    {
        out.push(v[i]);
        proof {
            assert(v@.take(i + 1) =~= v@.take(i as int).push(v@[i as int]));
        }
        i = i + 1;
    }
    proof {
        assert(v@.take(v@.len() as int) =~= v@);
    }
    out
}

/// The edge groups of all faces.
fn edge_groups_exec(faces: &Vec<PolyFace>) -> (r: Vec<((usize, usize), Vec<(usize, usize)>)>)
    requires
        faces_nonempty(face_views(faces@)),
    ensures
        groups_view(r@) == edge_groups(face_views(faces@), faces@.len()),
{
    let ghost fv = face_views(faces@);
    let mut g: Vec<((usize, usize), Vec<(usize, usize)>)> = Vec::new();
    proof {
        assert(groups_view(g@) =~= Seq::<((usize, usize), Seq<(usize, usize)>)>::empty());
    }
    let mut f: usize = 0;
    while f < faces.len()
        invariant
            f <= faces@.len(),
            fv == face_views(faces@),
            faces_nonempty(fv),
            groups_view(g@) == edge_groups(fv, f as nat),
        decreases faces@.len() - f,
    {
        proof {
            assert(fv[f as int] == faces@[f as int]@);
            assert(fv[f as int].vertices.len() > 0);
        }
        face_edges_exec(&faces[f].vertices, &mut g);
        f = f + 1;
    }
    g
}

fn node_find_exec(g: &Vec<(usize, Vec<usize>)>, b: usize) -> (r: Option<usize>)
    ensures
        match r {
            Some(i) => node_find(graph_view(g@), b, g@.len()) == Some(i as nat) && i < g@.len(),
            None => node_find(graph_view(g@), b, g@.len()) is None,
        },
{
    let ghost gv = graph_view(g@);
    let mut i: usize = 0;
    while i < g.len()
        invariant
            i <= g@.len(),
            gv == graph_view(g@),
            node_find(gv, b, i as nat) is None,
        decreases g@.len() - i,
    {
        proof {
            assert(gv[i as int].0 == g@[i as int].0);
        }
        if g[i].0 == b {
            proof {
                lemma_node_found(gv, b, (i + 1) as nat, g@.len());
            }
            return Some(i);
        }
        i = i + 1;
    }
    None
}

proof fn lemma_node_found(g: Seq<(usize, Seq<usize>)>, b: usize, n: nat, n2: nat)
    requires
        n <= n2,
        node_find(g, b, n) is Some,
    ensures
        node_find(g, b, n2) == node_find(g, b, n),
    decreases n2 - n,
{
    if n < n2 {
        lemma_node_found(g, b, n, (n2 - 1) as nat);
    }
}

/// The graph of the edges met once.
fn cut_graph_exec(groups: &Vec<((usize, usize), Vec<(usize, usize)>)>) -> (r: Vec<(usize, Vec<usize>)>)
    ensures
        graph_view(r@) == cut_graph(groups_view(groups@), groups@.len()),
{
    let ghost gv = groups_view(groups@);
    let mut g: Vec<(usize, Vec<usize>)> = Vec::new();
    proof {
        assert(graph_view(g@) =~= Seq::<(usize, Seq<usize>)>::empty());
    }
    let mut n: usize = 0;
    while n < groups.len()
        invariant
            n <= groups@.len(),
            gv == groups_view(groups@),
            graph_view(g@) == cut_graph(gv, n as nat),
        decreases groups@.len() - n,
    {
        proof {
            assert(gv[n as int].1 == groups@[n as int].1@);
        }
        if groups[n].1.len() == 1 {
            let a = groups[n].1[0].0;
            let b = groups[n].1[0].1;
            let ghost gb = graph_view(g@);
            match node_find_exec(&g, b) {
                Some(i) => {
                    let mut ns = copy_indices(&g[i].1);
                    ns.push(a);
                    let ghost nsv = ns@;
                    g.set(i, (b, ns));
                    proof {
                        assert(graph_view(g@) =~= gb.update(i as int, (b, nsv)));
                    }
                },
                None => {
                    let mut ns: Vec<usize> = Vec::new();
                    ns.push(a);
                    g.push((b, ns));
                    proof {
                        assert(graph_view(g@) =~= gb.push((b, seq![a])));
                    }
                },
            }
        }
        n = n + 1;
    }
    g
}

/// Whether `x` is in the list.
fn holds(v: &Vec<usize>, x: usize) -> (r: bool)
    ensures
        r == v@.contains(x),
{
    let mut i: usize = 0;
    while i < v.len()
        invariant
            i <= v@.len(),
            forall|t: int| 0 <= t < i ==> v@[t] != x,
        decreases v@.len() - i,
    {
        if v[i] == x {
            proof {
                assert(v@[i as int] == x);
            }
            return true;
        }
        i = i + 1;
    }
    false
}

fn least_unvisited_exec(g: &Vec<(usize, Vec<usize>)>, visited: &Vec<usize>) -> (r: Option<usize>)
    ensures
        r == least_unvisited(graph_view(g@), visited@, g@.len()),
{
    let ghost gv = graph_view(g@);
    let mut best: Option<usize> = None;
    let mut n: usize = 0;
    while n < g.len()
        invariant
            n <= g@.len(),
            gv == graph_view(g@),
            best == least_unvisited(gv, visited@, n as nat),
        decreases g@.len() - n,
    {
        proof {
            assert(gv[n as int].0 == g@[n as int].0);
        }
        let b = g[n].0;
        if !holds(visited, b) {
            best = match best {
                Some(m) => if b < m {
                    Some(b)
                } else {
                    Some(m)
                },
                None => Some(b),
            };
        }
        n = n + 1;
    }
    best
}

fn first_unvisited_exec(ns: &Vec<usize>, visited: &Vec<usize>) -> (r: Option<usize>)
    ensures
        r == first_unvisited(ns@, visited@, ns@.len()),
{
    let mut i: usize = 0;
    while i < ns.len()
        invariant
            i <= ns@.len(),
            first_unvisited(ns@, visited@, i as nat) is None,
        decreases ns@.len() - i,
    {
        if !holds(visited, ns[i]) {
            proof {
                lemma_first_found(ns@, visited@, (i + 1) as nat, ns@.len());
            }
            return Some(ns[i]);
        }
        i = i + 1;
    }
    None
}

proof fn lemma_first_found(ns: Seq<usize>, visited: Seq<usize>, n: nat, n2: nat)
    requires
        n <= n2,
        first_unvisited(ns, visited, n) is Some,
    ensures
        first_unvisited(ns, visited, n2) == first_unvisited(ns, visited, n),
    decreases n2 - n,
{
    if n < n2 {
        lemma_first_found(ns, visited, n, (n2 - 1) as nat);
    }
}

/// Walk the graph from `cur`, at most `fuel` steps more.
fn walk_cut_exec(g: &Vec<(usize, Vec<usize>)>, visited: &mut Vec<usize>, cur: usize, fuel: usize) -> (r: Vec<usize>)
    ensures
        walk_cut(graph_view(g@), old(visited)@, cur, Seq::empty(), fuel as nat) == (r@, final(visited)@),
{
    let ghost gv = graph_view(g@);
    let ghost v0 = visited@;
    let mut pts: Vec<usize> = Vec::new();
    let mut c = cur;
    let mut f = fuel;
    loop
        invariant
            gv == graph_view(g@),
            v0 == old(visited)@,
            walk_cut(gv, v0, cur, Seq::empty(), fuel as nat) == walk_cut(gv, visited@, c, pts@, f as nat),
        decreases f,
    {
        pts.push(c);
        visited.push(c);
        if f == 0 {
            return pts;
        }
        match node_find_exec(g, c) {
            None => {
                return pts;
            },
            Some(i) => {
                proof {
                    assert(gv[i as int].1 == g@[i as int].1@);
                }
                match first_unvisited_exec(&g[i].1, visited) {
                    None => {
                        return pts;
                    },
                    Some(nx) => {
                        c = nx;
                        f = f - 1;
                    },
                }
            },
        }
    }
}

/// Add the faces that close a half.
fn close_exec(faces: &mut Vec<PolyFace>, nverts: usize, plane: &ExactPlane, color: u32, interior: bool)
    requires
        faces_nonempty(face_views(old(faces)@)),
        plane_wf(plane@),
        forall|f: int| 0 <= f < old(faces)@.len() ==> #[trigger] plane_wf(old(faces)@[f]@.plane),
    ensures
        face_views(final(faces)@) == close_spec(face_views(old(faces)@), nverts as nat, plane@, color, interior),
        forall|f: int| 0 <= f < final(faces)@.len() ==> #[trigger] plane_wf(final(faces)@[f]@.plane),
{
    let groups = edge_groups_exec(faces);
    let g = cut_graph_exec(&groups);
    let ghost gv = graph_view(g@);
    let mut visited: Vec<usize> = Vec::new();
    let mut rounds: usize = g.len();
    let ghost target = close_spec(face_views(faces@), nverts as nat, plane@, color, interior);
    proof {
        assert(gv.len() == g@.len());
    }
    while visited.len() < g.len() && rounds > 0
        invariant
            gv == graph_view(g@),
            plane_wf(plane@),
            forall|f: int| 0 <= f < faces@.len() ==> #[trigger] plane_wf(faces@[f]@.plane),
            target == close_rounds(gv, visited@, face_views(faces@), plane@, color, interior, nverts as nat, rounds as nat),
        ensures
            target == face_views(faces@),
            forall|f: int| 0 <= f < faces@.len() ==> #[trigger] plane_wf(faces@[f]@.plane),
        decreases rounds,
    {
        match least_unvisited_exec(&g, &visited) {
            None => {
                break;
            },
            Some(v) => {
                let pts = walk_cut_exec(&g, &mut visited, v, nverts);
                let ghost fb = face_views(faces@);
                let nf = PolyFace { vertices: pts, plane: plane.copy(), color, interior };
                faces.push(nf);
                proof {
                    assert(face_views(faces@) =~= fb.push(nf@));
                }
                rounds = rounds - 1;
            },
        }
    }
}

/// Renumbering keeps one point per point.
proof fn lemma_remap_len(pts: Seq<usize>, k: nat, verts: Seq<VecV>, h: HalfV)
    ensures
        remap(pts, k, verts, h).0.len() == k,
        remap(pts, k, verts, h).1.faces == h.faces,
    decreases k,
{
    if k > 0 {
        lemma_remap_len(pts, (k - 1) as nat, verts, h);
    }
}

/// Whether every sign is at least zero (`nonneg`) or at most zero.
fn all_sides(sides: &Vec<i32>, nonneg: bool) -> (r: bool)
    ensures
        r == (if nonneg {
            forall|i: int| 0 <= i < ints(sides@).len() ==> ints(sides@)[i] >= 0
        } else {
            forall|i: int| 0 <= i < ints(sides@).len() ==> ints(sides@)[i] <= 0
        }),
{
    let mut i: usize = 0;
    while i < sides.len()
        invariant
            i <= sides@.len(),
            nonneg ==> forall|t: int| 0 <= t < i ==> sides@[t] >= 0,
            !nonneg ==> forall|t: int| 0 <= t < i ==> sides@[t] <= 0,
        decreases sides@.len() - i,
    {
        if (nonneg && sides[i] < 0) || (!nonneg && sides[i] > 0) {
            proof {
                assert(ints(sides@)[i as int] == sides@[i as int] as int);
            }
            return false;
        }
        i = i + 1;
    }
    proof {
        assert forall|t: int| 0 <= t < ints(sides@).len() implies (if nonneg {
            ints(sides@)[t] >= 0
        } else {
            ints(sides@)[t] <= 0
        }) by {
            assert(ints(sides@)[t] == sides@[t] as int);
        }
    }
    true
}

/// A copy of a list of vertices.
fn copy_vertices(v: &Vec<ExactVector3>) -> (r: Vec<ExactVector3>)
    requires
        verts_wf(v@),
    ensures
        vertex_views(r@) == vertex_views(v@),
        verts_wf(r@),
{
    let mut out: Vec<ExactVector3> = Vec::new();
    let mut i: usize = 0;
    while i < v.len()
        invariant
            i <= v@.len(),
            verts_wf(v@),
            verts_wf(out@),
            vertex_views(out@) == vertex_views(v@).take(i as int),
        decreases v@.len() - i,
    {
        proof {
            assert(vec_wf(v@[i as int]@));
        }
        let c = v[i].copy();
        let ghost before = vertex_views(out@);
        out.push(c);
        proof {
            assert(vertex_views(out@) =~= before.push(c@));
            assert(vertex_views(v@).take(i + 1) =~= vertex_views(v@).take(i as int).push(v@[i as int]@));
        }
        i = i + 1;
    }
    proof {
        assert(vertex_views(v@).take(v@.len() as int) =~= vertex_views(v@));
    }
    out
}

/// A copy of a list of faces.
fn copy_faces(v: &Vec<PolyFace>) -> (r: Vec<PolyFace>)
    requires
        forall|f: int| 0 <= f < v@.len() ==> #[trigger] plane_wf(v@[f]@.plane),
    ensures
        face_views(r@) == face_views(v@),
{
    let mut out: Vec<PolyFace> = Vec::new();
    let mut i: usize = 0;
    while i < v.len()
        invariant
            i <= v@.len(),
            forall|f: int| 0 <= f < v@.len() ==> #[trigger] plane_wf(v@[f]@.plane),
            face_views(out@) == face_views(v@).take(i as int),
        decreases v@.len() - i,
    {
        proof {
            assert(plane_wf(v@[i as int]@.plane));
        }
        let c = PolyFace {
            vertices: copy_indices(&v[i].vertices),
            plane: v[i].plane.copy(),
            color: v[i].color,
            interior: v[i].interior,
        };
        let ghost before = face_views(out@);
        out.push(c);
        proof {
            assert(face_views(out@) =~= before.push(c@));
            assert(face_views(v@).take(i + 1) =~= face_views(v@).take(i as int).push(v@[i as int]@));
        }
        i = i + 1;
    }
    proof {
        assert(face_views(v@).take(v@.len() as int) =~= face_views(v@));
    }
    out
}

impl PolyGeometry {
    /// A copy of the piece.
    pub fn copy(&self) -> (r: PolyGeometry)
        requires
            piece_wf(self@),
        ensures
            r@ == self@,
    {
        proof {
            assert forall|f: int| 0 <= f < self.faces@.len() implies #[trigger] plane_wf(self.faces@[f]@.plane) by {
                assert(self@.faces[f] == self.faces@[f]@);
            }
            assert forall|i: int| 0 <= i < self.vertices@.len() implies #[trigger] vec_wf(self.vertices@[i]@) by {
                assert(self@.vertices[i] == self.vertices@[i]@);
            }
        }
        PolyGeometry {
            vertices: copy_vertices(&self.vertices),
            faces: copy_faces(&self.faces),
            rot: self.rot.copy(),
        }
    }
}

/// The halves of a piece the plane crosses, from its vertices, their
/// sides, and the rotation the halves get.
fn slice_halves(
    geometry: &PolyGeometry,
    plane: &ExactPlane,
    color: u32,
    interior: bool,
    verts0: Vec<ExactVector3>,
    sides0: Vec<i32>,
    id: ExactQuaternion,
) -> (r: core::result::Result<(PolyGeometry, PolyGeometry), Error>)
    requires
        piece_wf(geometry@),
        faces_ok(geometry@),
        plane_wf(plane@),
        quat_wf(id@),
        vertex_views(verts0@) == geometry@.vertices,
        verts_wf(verts0@),
        sides0@.len() == verts0@.len(),
        forall|t: int| 0 <= t < geometry.faces@.len() ==> #[trigger] plane_wf(geometry.faces@[t]@.plane),
    ensures
        match r {
            Ok(h) => slice_rest(geometry@, plane@, color, interior, state_of(verts0@, sides0@, Seq::empty()), id@)
                == Outcome::Ok((h.0@, h.1@)) && piece_wf(h.0@) && piece_wf(h.1@),
            Err(e) => slice_rest(geometry@, plane@, color, interior, state_of(verts0@, sides0@, Seq::empty()), id@)
                == Outcome::<(PieceV, PieceV)>::Err(e.spec_error_kind()),
        },
{
    proof {
        reveal(slice_rest);
    }
    let ghost g = geometry@;
    let ghost stin = state_of(verts0@, sides0@, Seq::empty());
    let mut verts = verts0;
    let mut sides = sides0;
    let mut cross: Vec<(usize, usize, usize)> = Vec::new();
    let mut fv: Vec<ExactVector3> = Vec::new();
    let mut ff: Vec<PolyFace> = Vec::new();
    let mut fm: Vec<(usize, usize)> = Vec::new();
    let mut bv: Vec<ExactVector3> = Vec::new();
    let mut bf: Vec<PolyFace> = Vec::new();
    let mut bm: Vec<(usize, usize)> = Vec::new();
    let ghost st0 = state_of(verts@, sides@, cross@);
    assert(st0 == state_of(verts@, sides@, Seq::empty()));
    proof {
        let e = HalfV { verts: Seq::empty(), faces: Seq::empty(), map: Seq::empty() };
        assert(vertex_views(fv@) =~= Seq::<VecV>::empty());
        assert(face_views(ff@) =~= Seq::<FaceV>::empty());
        assert(vertex_views(bv@) =~= Seq::<VecV>::empty());
        assert(face_views(bf@) =~= Seq::<FaceV>::empty());
        assert(half_of(fv@, ff@, fm@) == e);
        assert(half_of(bv@, bf@, bm@) == e);
        assert(st0 == CutState { verts: g.vertices, sides: st0.sides, cross: Seq::empty() });
    }
    let n = geometry.faces.len();
    let mut f: usize = 0;
    while f < n
        invariant
            f <= n == g.faces.len(),
            g == geometry@,
            st0 == stin,
            stin == state_of(verts0@, sides0@, Seq::empty()),
            faces_ok(g),
            plane_wf(plane@),
            forall|t: int| 0 <= t < geometry.faces@.len() ==> #[trigger] plane_wf(geometry.faces@[t]@.plane),
            verts@.len() >= g.vertices.len(),
            sides@.len() == verts@.len(),
            verts_wf(verts@),
            verts_wf(fv@),
            verts_wf(bv@),
            forall|i: int| 0 <= i < cross@.len() ==> #[trigger] cross@[i].2 < verts@.len(),
            forall|t: int| 0 <= t < ff@.len() ==> #[trigger] plane_wf(ff@[t]@.plane),
            forall|t: int| 0 <= t < bf@.len() ==> #[trigger] plane_wf(bf@[t]@.plane),
            faces_nonempty(face_views(ff@)),
            faces_nonempty(face_views(bf@)),
            faces_fold(plane@, g.faces, f as nat, st0) == Outcome::Ok(
                (state_of(verts@, sides@, cross@), half_of(fv@, ff@, fm@), half_of(bv@, bf@, bm@)),
            ),
        decreases n - f,
    {
        let face = &geometry.faces[f];
        proof {
            assert(g.faces[f as int] == face@);
            assert(face@.vertices.len() > 0);
            assert forall|t: int| 0 <= t < face.vertices@.len() implies #[trigger] face.vertices@[t] < verts@.len() by {
                assert(g.faces[f as int].vertices[t] < g.vertices.len());
            }
        }
        let (fp, bp) = match walk_face_exec(plane, &face.vertices, &mut verts, &mut sides, &mut cross) {
            Ok(w) => w,
            Err(e) => {
                proof {
                    lemma_faces_err(plane@, g.faces, (f + 1) as nat, n as nat, st0);
                    reveal(slice_rest);
                }
                return Err(e);
            },
        };
        add_face_exec(&fp, &verts, face, &mut fv, &mut ff, &mut fm);
        add_face_exec(&bp, &verts, face, &mut bv, &mut bf, &mut bm);
        f = f + 1;
    }
    let nb = bv.len();
    close_exec(&mut bf, nb, plane, color, interior);
    let np = plane.neg();
    let nfv = fv.len();
    close_exec(&mut ff, nfv, &np, color, true);
    let id2 = id.copy();
    let front = PolyGeometry { vertices: fv, faces: ff, rot: id2 };
    let back = PolyGeometry { vertices: bv, faces: bf, rot: id };
    proof {
        assert forall|t: int| 0 <= t < front@.faces.len() implies #[trigger] plane_wf(front@.faces[t].plane) by {
            assert(front@.faces[t] == front.faces@[t]@);
        }
        assert forall|t: int| 0 <= t < back@.faces.len() implies #[trigger] plane_wf(back@.faces[t].plane) by {
            assert(back@.faces[t] == back.faces@[t]@);
        }
        assert forall|t: int| 0 <= t < front@.vertices.len() implies #[trigger] vec_wf(front@.vertices[t]) by {
            assert(front@.vertices[t] == front.vertices@[t]@);
        }
        assert forall|t: int| 0 <= t < back@.vertices.len() implies #[trigger] vec_wf(back@.vertices[t]) by {
            assert(back@.vertices[t] == back.vertices@[t]@);
        }
    }
    Ok((front, back))
}

/// Slice a piece along a plane into `(front, back)`, where either may be
/// empty: each face split along the plane, and each half closed with a new
/// face in `color`; the one on the back half interior as asked, the one on
/// the front half interior always.
#[verifier::rlimit(40)]
pub fn slice_polygeometry(geometry: &PolyGeometry, plane: &ExactPlane, color: u32, interior: bool) -> (r:
    core::result::Result<(PolyGeometry, PolyGeometry), Error>)
    requires
        piece_wf(geometry@),
        faces_ok(geometry@),
        plane_wf(plane@),
    ensures
        match r {
            Ok(h) => slice_spec(geometry@, plane@, color, interior) == Outcome::Ok((h.0@, h.1@)) && piece_wf(h.0@)
                && piece_wf(h.1@),
            Err(e) => slice_spec(geometry@, plane@, color, interior) == Outcome::<(PieceV, PieceV)>::Err(
                e.spec_error_kind(),
            ),
        },
{
    let ghost g = geometry@;
    proof {
        assert forall|i: int| 0 <= i < geometry.vertices@.len() implies #[trigger] vec_wf(geometry.vertices@[i]@) by {
            assert(g.vertices[i] == geometry.vertices@[i]@);
        }
        assert forall|f: int| 0 <= f < geometry.faces@.len() implies #[trigger] plane_wf(geometry.faces@[f]@.plane) by {
            assert(g.faces[f] == geometry.faces@[f]@);
        }
    }
    let mut verts = copy_vertices(&geometry.vertices);
    let mut sides = sides_exec(plane, &verts)?;
    proof {
        lemma_sides_len(plane@, vertex_views(verts@), verts@.len());
        assert(ints(sides@).len() == sides@.len());
    }
    let id = ExactQuaternion::identity()?;
    if all_sides(&sides, true) {
        let whole = geometry.copy();
        let e = PolyGeometry { vertices: Vec::new(), faces: Vec::new(), rot: id };
        proof {
            assert(e@.vertices =~= Seq::<VecV>::empty());
            assert(e@.faces =~= Seq::<FaceV>::empty());
        }
        return Ok((whole, e));
    }
    if all_sides(&sides, false) {
        let whole = geometry.copy();
        let e = PolyGeometry { vertices: Vec::new(), faces: Vec::new(), rot: id };
        proof {
            assert(e@.vertices =~= Seq::<VecV>::empty());
            assert(e@.faces =~= Seq::<FaceV>::empty());
        }
        return Ok((e, whole));
    }
    proof {
        assert(state_of(verts@, sides@, Seq::empty()) == CutState { verts: g.vertices, sides: ints(sides@), cross: Seq::empty() });
    }
    slice_halves(geometry, plane, color, interior, verts, sides, id)
}

proof fn lemma_faces_err(plane: PlaneV, faces: Seq<FaceV>, n: nat, n2: nat, st0: CutState)
    requires
        n <= n2,
        faces_fold(plane, faces, n, st0) is Err,
    ensures
        faces_fold(plane, faces, n2, st0) == faces_fold(plane, faces, n, st0),
    decreases n2 - n,
{
    if n < n2 {
        lemma_faces_err(plane, faces, n, (n2 - 1) as nat, st0);
    }
}

} // verus!
