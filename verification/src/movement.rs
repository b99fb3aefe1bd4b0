//! Cuts and moves.
//!
//! A cut is a plane that no piece straddles, with the pieces in front of it
//! and behind it. The planes tried are the interior faces of the pieces as
//! they are turned now, each once, in the order they are first met.

use vstd::prelude::*;
use vstd::string::{StrSliceExecFns, StringExecFns};

use crate::error::Error;
use crate::exact::{number_compare_spec, number_neg_spec, number_text, number_wf, AlgebraicNumber};
use crate::math::{
    plane_canonical, plane_wf, qapply, qconj, qmul, qpseudo_normalize, quat_wf, vdot, vec_wf, ExactPlane,
    ExactQuaternion, ExactVector3, NumV, PlaneV, QuatV, VecV,
};
use crate::num::ring::Outcome;
use crate::piece::{piece_wf, FaceV, PieceV, PolyFace, PolyGeometry};

verus! {

/// The pieces, as the turning logic reads them.
pub struct Puzzle {
    pub pieces: Vec<PolyGeometry>,
}

/// The views of a list of pieces.
pub open spec fn piece_views(v: Seq<PolyGeometry>) -> Seq<PieceV> {
    v.map_values(|x: PolyGeometry| x@)
}

impl View for Puzzle {
    type V = Seq<PieceV>;

    open spec fn view(&self) -> Seq<PieceV> {
        piece_views(self.pieces@)
    }
}

/// Every piece well formed.
pub open spec fn pieces_wf(ps: Seq<PieceV>) -> bool {
    forall|i: int| 0 <= i < ps.len() ==> #[trigger] piece_wf(ps[i])
}

/// A plane with the pieces in front of it and those behind it.
pub struct Cut {
    pub plane: ExactPlane,
    pub front: Vec<usize>,
    pub back: Vec<usize>,
}

/// The mathematical form of a cut.
pub type CutV = (PlaneV, Seq<usize>, Seq<usize>);

impl View for Cut {
    type V = CutV;

    open spec fn view(&self) -> CutV {
        (self.plane@, self.front@, self.back@)
    }
}

/* ------------------------------------------------------------------------ */
/*  Which side of a plane a piece is on                                      */
/* ------------------------------------------------------------------------ */

/// `compare(a, b)`: the sign of `a - b`.
#[verifier::opaque]
pub open spec fn n_compare(a: NumV, b: NumV) -> Outcome<int> {
    number_compare_spec(a, b)
}

fn ncompare(a: &AlgebraicNumber, b: &AlgebraicNumber) -> (r: core::result::Result<i32, Error>)
    requires
        number_wf(a@),
        number_wf(b@),
    ensures
        match r {
            Ok(c) => n_compare(a@, b@) == Outcome::Ok(c as int),
            Err(e) => n_compare(a@, b@) == Outcome::<int>::Err(e.spec_error_kind()),
        },
{
    proof {
        reveal(n_compare);
    }
    a.compare(b)
}

/// The view of an optional number.
pub open spec fn opt_view(o: Option<AlgebraicNumber>) -> Option<NumV> {
    match o {
        Some(m) => Some(m@),
        None => None,
    }
}

/// An optional number, well formed when present.
pub open spec fn opt_wf(o: Option<AlgebraicNumber>) -> bool {
    o matches Some(m) ==> number_wf(m@)
}

/// One vertex more into the extent: the least and greatest values of the
/// axis over the vertices so far, a new one kept when it is strictly
/// beyond.
#[verifier::opaque]
pub open spec fn extent_step(acc: Outcome<(Option<NumV>, Option<NumV>)>, x: Outcome<NumV>) -> Outcome<
    (Option<NumV>, Option<NumV>),
> {
    match acc {
        Outcome::Err(k) => Outcome::Err(k),
        Outcome::Ok(mm) => match x {
            Outcome::Err(k) => Outcome::Err(k),
            Outcome::Ok(xv) => {
                let c1 = match mm.0 {
                    None => Outcome::Ok(-1int),
                    Some(m) => n_compare(xv, m),
                };
                match c1 {
                    Outcome::Err(k) => Outcome::Err(k),
                    Outcome::Ok(c) => {
                        let mn = if c < 0 {
                            Some(xv)
                        } else {
                            mm.0
                        };
                        let c2 = match mm.1 {
                            None => Outcome::Ok(1int),
                            Some(m) => n_compare(xv, m),
                        };
                        match c2 {
                            Outcome::Err(k) => Outcome::Err(k),
                            Outcome::Ok(d) => Outcome::Ok(
                                (
                                    mn,
                                    if d > 0 {
                                        Some(xv)
                                    } else {
                                        mm.1
                                    },
                                ),
                            ),
                        }
                    },
                }
            },
        },
    }
}

/// The extent of the first `n` vertices along `axis`.
pub open spec fn extent_fold(axis: VecV, vs: Seq<VecV>, n: nat) -> Outcome<(Option<NumV>, Option<NumV>)>
    decreases n,
{
    if n == 0 {
        Outcome::Ok((None, None))
    } else {
        extent_step(extent_fold(axis, vs, (n - 1) as nat), vdot(axis, vs[n - 1]))
    }
}

/// `get_side(piece, plane)`: `+1` when the whole piece is on or in front of
/// the plane, `-1` when on or behind it, `0` when it straddles it. The
/// normal is turned back by the piece's rotation rather than every vertex
/// forward.
pub open spec fn side_spec(p: PieceV, plane: PlaneV) -> Outcome<int> {
    match qapply(qconj(p.rot), plane.0) {
        Outcome::Err(k) => Outcome::Err(k),
        Outcome::Ok(axis) => match extent_fold(axis, p.vertices, p.vertices.len()) {
            Outcome::Err(k) => Outcome::Err(k),
            Outcome::Ok(mm) => {
                let d = number_neg_spec(plane.1);
                match n_compare(d, mm.0->0) {
                    Outcome::Err(k) => Outcome::Err(k),
                    Outcome::Ok(c) => if c <= 0 {
                        Outcome::Ok(1)
                    } else {
                        match n_compare(d, mm.1->0) {
                            Outcome::Err(k) => Outcome::Err(k),
                            Outcome::Ok(c2) => if c2 >= 0 {
                                Outcome::Ok(-1)
                            } else {
                                Outcome::Ok(0)
                            },
                        }
                    },
                }
            },
        },
    }
}

/// Once the extent fails, it fails the same way over more vertices.
proof fn lemma_extent_err(axis: VecV, vs: Seq<VecV>, j: nat, j2: nat)
    requires
        j <= j2,
        extent_fold(axis, vs, j) is Err,
    ensures
        extent_fold(axis, vs, j2) == extent_fold(axis, vs, j),
    decreases j2 - j,
{
    reveal(extent_step);
    if j < j2 {
        lemma_extent_err(axis, vs, j, (j2 - 1) as nat);
    }
}

/// One vertex more into the extent, given its value along the axis.
fn extent_step_exec(mn: Option<AlgebraicNumber>, mx: Option<AlgebraicNumber>, x: AlgebraicNumber) -> (r:
    core::result::Result<(Option<AlgebraicNumber>, Option<AlgebraicNumber>), Error>)
    requires
        opt_wf(mn),
        opt_wf(mx),
        number_wf(x@),
    ensures
        match r {
            Ok(m2) => extent_step(Outcome::Ok((opt_view(mn), opt_view(mx))), Outcome::Ok(x@)) == Outcome::Ok(
                (opt_view(m2.0), opt_view(m2.1)),
            ) && opt_wf(m2.0) && opt_wf(m2.1) && m2.0 is Some && m2.1 is Some,
            Err(e) => extent_step(Outcome::Ok((opt_view(mn), opt_view(mx))), Outcome::Ok(x@)) == Outcome::<
                (Option<NumV>, Option<NumV>),
            >::Err(e.spec_error_kind()),
        },
{
    proof {
        reveal(extent_step);
    }
    let c1: i32 = match &mn {
        None => -1,
        Some(m) => ncompare(&x, m)?,
    };
    let c2: i32 = match &mx {
        None => 1,
        Some(m) => ncompare(&x, m)?,
    };
    let lo = if c1 < 0 {
        Some(x.copy())
    } else {
        mn
    };
    let hi = if c2 > 0 {
        Some(x)
    } else {
        mx
    };
    Ok((lo, hi))
}

/// Which side of `plane` piece `p` lies on: +1 front, -1 back, 0 straddling.
pub fn get_side(p: &PolyGeometry, plane: &ExactPlane) -> (r: core::result::Result<i32, Error>)
    requires
        piece_wf(p@),
        plane_wf(plane@),
        p@.vertices.len() > 0,
    ensures
        match r {
            Ok(s) => side_spec(p@, plane@) == Outcome::Ok(s as int),
            Err(e) => side_spec(p@, plane@) == Outcome::<int>::Err(e.spec_error_kind()),
        },
{
    let back = p.rot.conj();
    let axis = back.apply(&plane.normal)?;
    let mut xmin: Option<AlgebraicNumber> = None;
    let mut xmax: Option<AlgebraicNumber> = None;
    let n = p.vertices.len();
    let mut i: usize = 0;
    while i < n
        invariant
            i <= n == p@.vertices.len(),
            piece_wf(p@),
            vec_wf(axis@),
            qapply(qconj(p@.rot), plane@.0) == Outcome::Ok(axis@),
            extent_fold(axis@, p@.vertices, i as nat) == Outcome::Ok((opt_view(xmin), opt_view(xmax))),
            opt_wf(xmin),
            opt_wf(xmax),
            i > 0 ==> xmin is Some && xmax is Some,
        decreases n - i,
    {
        proof {
            assert(p@.vertices[i as int] == p.vertices@[i as int]@);
            assert(vec_wf(p@.vertices[i as int]));
        }
        let x = match axis.dot(&p.vertices[i]) {
            Ok(x) => x,
            Err(e) => {
                proof {
                    reveal(extent_step);
                    lemma_extent_err(axis@, p@.vertices, (i + 1) as nat, n as nat);
                }
                return Err(e);
            },
        };
        let (lo, hi) = match extent_step_exec(xmin, xmax, x) {
            Ok(m) => m,
            Err(e) => {
                proof {
                    lemma_extent_err(axis@, p@.vertices, (i + 1) as nat, n as nat);
                }
                return Err(e);
            },
        };
        xmin = lo;
        xmax = hi;
        i = i + 1;
    }
    let lo = match xmin {
        Some(m) => m,
        None => {
            proof {
                assert(false);
            }
            return Err(Error::Other("a piece always has at least one vertex".to_owned()));
        },
    };
    let hi = match xmax {
        Some(m) => m,
        None => {
            proof {
                assert(false);
            }
            return Err(Error::Other("a piece always has at least one vertex".to_owned()));
        },
    };
    let d = plane.constant.neg();
    if ncompare(&d, &lo)? <= 0 {
        Ok(1)
    } else if ncompare(&d, &hi)? >= 0 {
        Ok(-1)
    } else {
        Ok(0)
    }
}

/* ------------------------------------------------------------------------ */
/*  Cuts                                                                     */
/* ------------------------------------------------------------------------ */

/// The name a plane is told apart by: the texts of its normal's components
/// and of its constant.
#[verifier::opaque]
pub open spec fn plane_key(p: PlaneV) -> Seq<char> {
    seq!['['] + number_text(p.0.0) + seq![','] + number_text(p.0.1) + seq![','] + number_text(p.0.2)
        + seq![';'] + number_text(p.1) + seq![']']
}

/// `l` with `p` added at the end, unless a plane of the same name is there.
pub open spec fn add_new(l: Seq<PlaneV>, p: PlaneV) -> Seq<PlaneV> {
    if exists|k: int| 0 <= k < l.len() && plane_key(#[trigger] l[k]) == plane_key(p) {
        l
    } else {
        l.push(p)
    }
}

/// The plane of a face, turned with its piece and made canonical.
#[verifier::opaque]
pub open spec fn face_plane(rot: QuatV, face: FaceV) -> Outcome<PlaneV> {
    match qapply(rot, face.plane.0) {
        Outcome::Err(k) => Outcome::Err(k),
        Outcome::Ok(nrm) => plane_canonical((nrm, face.plane.1)),
    }
}

/// The plane of a face, turned by `rot` and made canonical.
fn face_plane_exec(rot: &ExactQuaternion, face: &PolyFace) -> (r: core::result::Result<ExactPlane, Error>)
    requires
        quat_wf(rot@),
        plane_wf(face@.plane),
    ensures
        match r {
            Ok(pl) => face_plane(rot@, face@) == Outcome::Ok(pl@) && plane_wf(pl@),
            Err(e) => face_plane(rot@, face@) == Outcome::<PlaneV>::Err(e.spec_error_kind()),
        },
{
    proof {
        reveal(face_plane);
    }
    let nrm = rot.apply(&face.plane.normal)?;
    let cand = ExactPlane::new(nrm, face.plane.constant.copy());
    cand.canonicalize()
}

/// The planes of the first `f` faces of a piece added to `acc`: each
/// interior face's plane, turned with the piece and made canonical.
pub open spec fn piece_planes(p: PieceV, acc: Seq<PlaneV>, f: nat) -> Outcome<Seq<PlaneV>>
    decreases f,
{
    if f == 0 {
        Outcome::Ok(acc)
    } else {
        match piece_planes(p, acc, (f - 1) as nat) {
            Outcome::Err(k) => Outcome::Err(k),
            Outcome::Ok(l) => {
                let face = p.faces[f - 1];
                if !face.interior {
                    Outcome::Ok(l)
                } else {
                    match face_plane(p.rot, face) {
                        Outcome::Err(k) => Outcome::Err(k),
                        Outcome::Ok(pl) => Outcome::Ok(add_new(l, pl)),
                    }
                }
            },
        }
    }
}

/// The planes of the first `i` pieces, in the order first met.
pub open spec fn face_planes(ps: Seq<PieceV>, i: nat) -> Outcome<Seq<PlaneV>>
    decreases i,
{
    if i == 0 {
        Outcome::Ok(Seq::empty())
    } else {
        match face_planes(ps, (i - 1) as nat) {
            Outcome::Err(k) => Outcome::Err(k),
            Outcome::Ok(l) => piece_planes(ps[i - 1], l, ps[i - 1].faces.len()),
        }
    }
}

/// The first `j` of the pieces `nums` sorted to the front or the back of
/// `plane`; nothing once one of them straddles it.
pub open spec fn sides_fold(ps: Seq<PieceV>, plane: PlaneV, nums: Seq<usize>, j: nat) -> Outcome<
    Option<(Seq<usize>, Seq<usize>)>,
>
    decreases j,
{
    if j == 0 {
        Outcome::Ok(Some((Seq::empty(), Seq::empty())))
    } else {
        match sides_fold(ps, plane, nums, (j - 1) as nat) {
            Outcome::Err(k) => Outcome::Err(k),
            Outcome::Ok(None) => Outcome::Ok(None),
            Outcome::Ok(Some(fb)) => {
                let p = nums[j - 1];
                match side_spec(ps[p as int], plane) {
                    Outcome::Err(k) => Outcome::Err(k),
                    Outcome::Ok(s) => if s < 0 {
                        Outcome::Ok(Some((fb.0, fb.1.push(p))))
                    } else if s > 0 {
                        Outcome::Ok(Some((fb.0.push(p), fb.1)))
                    } else {
                        Outcome::Ok(None)
                    },
                }
            },
        }
    }
}

/// The cuts among the first `k` planes: those no piece of `nums`
/// straddles, with pieces on both sides.
pub open spec fn cuts_fold(ps: Seq<PieceV>, planes: Seq<PlaneV>, nums: Seq<usize>, k: nat) -> Outcome<Seq<CutV>>
    decreases k,
{
    if k == 0 {
        Outcome::Ok(Seq::empty())
    } else {
        match cuts_fold(ps, planes, nums, (k - 1) as nat) {
            Outcome::Err(e) => Outcome::Err(e),
            Outcome::Ok(cs) => match sides_fold(ps, planes[k - 1], nums, nums.len()) {
                Outcome::Err(e) => Outcome::Err(e),
                Outcome::Ok(None) => Outcome::Ok(cs),
                Outcome::Ok(Some(fb)) => if fb.0.len() > 0 && fb.1.len() > 0 {
                    Outcome::Ok(cs.push((planes[k - 1], fb.0, fb.1)))
                } else {
                    Outcome::Ok(cs)
                },
            },
        }
    }
}

/// The pieces a search covers: those given, or all of them.
pub open spec fn nums_of(count: nat, given: Option<Seq<usize>>) -> Seq<usize> {
    match given {
        Some(s) => s,
        None => Seq::new(count, |i: int| i as usize),
    }
}

/// `find_cuts(puzzle, nums)`: every plane of an interior face that no piece
/// of `nums` straddles and that has some of them on each side.
pub open spec fn find_cuts_spec(ps: Seq<PieceV>, nums: Seq<usize>) -> Outcome<Seq<CutV>> {
    match face_planes(ps, ps.len()) {
        Outcome::Err(k) => Outcome::Err(k),
        Outcome::Ok(planes) => cuts_fold(ps, planes, nums, planes.len()),
    }
}

/// The views of a list of planes.
pub open spec fn plane_views(v: Seq<ExactPlane>) -> Seq<PlaneV> {
    v.map_values(|x: ExactPlane| x@)
}

/// The views of a list of cuts.
pub open spec fn cut_views(v: Seq<Cut>) -> Seq<CutV> {
    v.map_values(|x: Cut| x@)
}

/// The name a plane is told apart by.
fn plane_key_exec(p: &ExactPlane) -> (r: String)
    requires
        plane_wf(p@),
    ensures
        r@ == plane_key(p@),
{
    proof {
        reveal_strlit("[");
        reveal_strlit(",");
        reveal_strlit(";");
        reveal_strlit("]");
        assert("["@ =~= seq!['[']);
        assert(","@ =~= seq![',']);
        assert(";"@ =~= seq![';']);
        assert("]"@ =~= seq![']']);
        reveal(plane_key);
    }
    let mut k = String::from_str("[");
    let t = p.normal.x.to_string();
    k.append(t.as_str());
    k.append(",");
    let t = p.normal.y.to_string();
    k.append(t.as_str());
    k.append(",");
    let t = p.normal.z.to_string();
    k.append(t.as_str());
    k.append(";");
    let t = p.constant.to_string();
    k.append(t.as_str());
    k.append("]");
    k
}

/// Whether two texts are the same.
fn same_text(a: &str, b: &str) -> (r: bool)
    ensures
        r == (a@ == b@),
{
    let n = a.unicode_len();
    if n != b.unicode_len() {
        return false;
    }
    let mut i: usize = 0;
    while i < n
        invariant
            i <= n == a@.len() == b@.len(),
            forall|j: int| 0 <= j < i ==> a@[j] == b@[j],
        decreases n - i,
    {
        if a.get_char(i) != b.get_char(i) {
            return false;
        }
        i = i + 1;
    }
    assert(a@ =~= b@);
    true
}

/// The texts of a list of strings.
pub open spec fn key_views(v: Seq<String>) -> Seq<Seq<char>> {
    v.map_values(|x: String| x@)
}

/// Add `pl` to the planes unless one of the same name is there.
fn add_new_exec(planes: &mut Vec<ExactPlane>, keys: &mut Vec<String>, pl: ExactPlane)
    requires
        plane_wf(pl@),
        old(keys)@.len() == old(planes)@.len(),
        forall|k: int| 0 <= k < old(keys)@.len() ==> #[trigger] old(keys)@[k]@ == plane_key(old(planes)@[k]@),
        forall|k: int| 0 <= k < old(planes)@.len() ==> #[trigger] plane_wf(old(planes)@[k]@),
    ensures
        plane_views(final(planes)@) == add_new(plane_views(old(planes)@), pl@),
        final(keys)@.len() == final(planes)@.len(),
        forall|k: int| 0 <= k < final(keys)@.len() ==> #[trigger] final(keys)@[k]@ == plane_key(final(planes)@[k]@),
        forall|k: int| 0 <= k < final(planes)@.len() ==> #[trigger] plane_wf(final(planes)@[k]@),
{
    let key = plane_key_exec(&pl);
    let ghost l = plane_views(planes@);
    let mut i: usize = 0;
    while i < keys.len()
        invariant
            i <= keys@.len() == planes@.len(),
            l == plane_views(planes@),
            key@ == plane_key(pl@),
            forall|k: int| 0 <= k < keys@.len() ==> #[trigger] keys@[k]@ == plane_key(planes@[k]@),
            forall|k: int| 0 <= k < planes@.len() ==> #[trigger] plane_wf(planes@[k]@),
            plane_wf(pl@),
            forall|k: int| 0 <= k < i ==> plane_key(#[trigger] l[k]) != plane_key(pl@),
        decreases keys@.len() - i,
    {
        if same_text(keys[i].as_str(), key.as_str()) {
            proof {
                assert(l[i as int] == planes@[i as int]@);
                assert(plane_key(l[i as int]) == plane_key(pl@));
            }
            return;
        }
        proof {
            assert(l[i as int] == planes@[i as int]@);
        }
        i = i + 1;
    }
    proof {
        assert(!(exists|k: int| 0 <= k < l.len() && plane_key(#[trigger] l[k]) == plane_key(pl@)));
    }
    keys.push(key);
    planes.push(pl);
    proof {
        assert(plane_views(planes@) =~= l.push(pl@));
    }
}

proof fn lemma_piece_planes_err(p: PieceV, acc: Seq<PlaneV>, f: nat, f2: nat)
    requires
        f <= f2,
        piece_planes(p, acc, f) is Err,
    ensures
        piece_planes(p, acc, f2) == piece_planes(p, acc, f),
    decreases f2 - f,
{
    if f < f2 {
        lemma_piece_planes_err(p, acc, f, (f2 - 1) as nat);
    }
}

proof fn lemma_face_planes_err(ps: Seq<PieceV>, i: nat, i2: nat)
    requires
        i <= i2,
        face_planes(ps, i) is Err,
    ensures
        face_planes(ps, i2) == face_planes(ps, i),
    decreases i2 - i,
{
    if i < i2 {
        lemma_face_planes_err(ps, i, (i2 - 1) as nat);
    }
}

/// Add the planes of a piece's interior faces.
fn add_piece_planes(p: &PolyGeometry, planes: &mut Vec<ExactPlane>, keys: &mut Vec<String>) -> (r:
    core::result::Result<(), Error>)
    requires
        piece_wf(p@),
        old(keys)@.len() == old(planes)@.len(),
        forall|k: int| 0 <= k < old(keys)@.len() ==> #[trigger] old(keys)@[k]@ == plane_key(old(planes)@[k]@),
        forall|k: int| 0 <= k < old(planes)@.len() ==> #[trigger] plane_wf(old(planes)@[k]@),
    ensures
        match r {
            Ok(_) => piece_planes(p@, plane_views(old(planes)@), p@.faces.len()) == Outcome::Ok(
                plane_views(final(planes)@),
            ),
            Err(e) => piece_planes(p@, plane_views(old(planes)@), p@.faces.len()) == Outcome::<
                Seq<PlaneV>,
            >::Err(e.spec_error_kind()),
        },
        final(keys)@.len() == final(planes)@.len(),
        forall|k: int| 0 <= k < final(keys)@.len() ==> #[trigger] final(keys)@[k]@ == plane_key(final(planes)@[k]@),
        forall|k: int| 0 <= k < final(planes)@.len() ==> #[trigger] plane_wf(final(planes)@[k]@),
{
    let ghost acc = plane_views(planes@);
    let n = p.faces.len();
    let mut f: usize = 0;
    while f < n
        invariant
            f <= n == p@.faces.len(),
            piece_wf(p@),
            acc == plane_views(old(planes)@),
            piece_planes(p@, acc, f as nat) == Outcome::Ok(plane_views(planes@)),
            keys@.len() == planes@.len(),
            forall|k: int| 0 <= k < keys@.len() ==> #[trigger] keys@[k]@ == plane_key(planes@[k]@),
            forall|k: int| 0 <= k < planes@.len() ==> #[trigger] plane_wf(planes@[k]@),
        decreases n - f,
    {
        let face = &p.faces[f];
        proof {
            assert(p@.faces[f as int] == face@);
            assert(plane_wf(face@.plane));
        }
        if face.interior {
            let pl = match face_plane_exec(&p.rot, face) {
                Ok(v) => v,
                Err(e) => {
                    proof {
                        lemma_piece_planes_err(p@, acc, (f + 1) as nat, n as nat);
                    }
                    return Err(e);
                },
            };
            add_new_exec(planes, keys, pl);
        }
        f = f + 1;
    }
    Ok(())
}

/// Every interior face's plane, turned with its piece, each once.
fn collect_planes(pieces: &Vec<PolyGeometry>) -> (r: core::result::Result<Vec<ExactPlane>, Error>)
    requires
        pieces_wf(piece_views(pieces@)),
    ensures
        match r {
            Ok(v) => face_planes(piece_views(pieces@), pieces@.len()) == Outcome::Ok(plane_views(v@))
                && forall|k: int| 0 <= k < v@.len() ==> #[trigger] plane_wf(v@[k]@),
            Err(e) => face_planes(piece_views(pieces@), pieces@.len()) == Outcome::<Seq<PlaneV>>::Err(
                e.spec_error_kind(),
            ),
        },
{
    let ghost ps = piece_views(pieces@);
    let mut planes: Vec<ExactPlane> = Vec::new();
    let mut keys: Vec<String> = Vec::new();
    proof {
        assert(plane_views(planes@) =~= Seq::<PlaneV>::empty());
    }
    let n = pieces.len();
    let mut i: usize = 0;
    while i < n
        invariant
            i <= n == pieces@.len(),
            ps == piece_views(pieces@),
            pieces_wf(ps),
            face_planes(ps, i as nat) == Outcome::Ok(plane_views(planes@)),
            keys@.len() == planes@.len(),
            forall|k: int| 0 <= k < keys@.len() ==> #[trigger] keys@[k]@ == plane_key(planes@[k]@),
            forall|k: int| 0 <= k < planes@.len() ==> #[trigger] plane_wf(planes@[k]@),
        decreases n - i,
    {
        proof {
            assert(ps[i as int] == pieces@[i as int]@);
            assert(piece_wf(ps[i as int]));
        }
        match add_piece_planes(&pieces[i], &mut planes, &mut keys) {
            Ok(_) => {},
            Err(e) => {
                proof {
                    lemma_face_planes_err(ps, (i + 1) as nat, n as nat);
                }
                return Err(e);
            },
        }
        i = i + 1;
    }
    Ok(planes)
}

/// The pieces `nums` a search may look at: each a piece of the puzzle, with
/// at least one vertex.
pub open spec fn nums_ok(ps: Seq<PieceV>, nums: Seq<usize>) -> bool {
    forall|j: int| 0 <= j < nums.len() ==> #[trigger] nums[j] < ps.len() && ps[nums[j] as int].vertices.len() > 0
}

/// Once the sorting fails or finds a straddling piece, it stays so.
proof fn lemma_sides_stop(ps: Seq<PieceV>, plane: PlaneV, nums: Seq<usize>, j: nat, j2: nat)
    requires
        j <= j2,
        sides_fold(ps, plane, nums, j) is Err || sides_fold(ps, plane, nums, j) == Outcome::<
            Option<(Seq<usize>, Seq<usize>)>,
        >::Ok(None),
    ensures
        sides_fold(ps, plane, nums, j2) == sides_fold(ps, plane, nums, j),
    decreases j2 - j,
{
    if j < j2 {
        lemma_sides_stop(ps, plane, nums, j, (j2 - 1) as nat);
    }
}

proof fn lemma_cuts_err(ps: Seq<PieceV>, planes: Seq<PlaneV>, nums: Seq<usize>, k: nat, k2: nat)
    requires
        k <= k2,
        cuts_fold(ps, planes, nums, k) is Err,
    ensures
        cuts_fold(ps, planes, nums, k2) == cuts_fold(ps, planes, nums, k),
    decreases k2 - k,
{
    if k < k2 {
        lemma_cuts_err(ps, planes, nums, k, (k2 - 1) as nat);
    }
}

/// Sort the pieces `nums` to the front or the back of `plane`; nothing once
/// one straddles it.
fn sides_exec(pieces: &Vec<PolyGeometry>, plane: &ExactPlane, nums: &Vec<usize>) -> (r: core::result::Result<
    Option<(Vec<usize>, Vec<usize>)>,
    Error,
>)
    requires
        pieces_wf(piece_views(pieces@)),
        plane_wf(plane@),
        nums_ok(piece_views(pieces@), nums@),
    ensures
        match r {
            Ok(o) => sides_fold(piece_views(pieces@), plane@, nums@, nums@.len()) == Outcome::Ok(
                match o {
                    Some(fb) => Some((fb.0@, fb.1@)),
                    None => None,
                },
            ),
            Err(e) => sides_fold(piece_views(pieces@), plane@, nums@, nums@.len()) == Outcome::<
                Option<(Seq<usize>, Seq<usize>)>,
            >::Err(e.spec_error_kind()),
        },
{
    let ghost ps = piece_views(pieces@);
    let mut front: Vec<usize> = Vec::new();
    let mut back: Vec<usize> = Vec::new();
    let n = nums.len();
    let mut j: usize = 0;
    while j < n
        invariant
            j <= n == nums@.len(),
            ps == piece_views(pieces@),
            pieces_wf(ps),
            plane_wf(plane@),
            nums_ok(ps, nums@),
            sides_fold(ps, plane@, nums@, j as nat) == Outcome::Ok(Some((front@, back@))),
        decreases n - j,
    {
        let p = nums[j];
        proof {
            assert(nums@[j as int] < ps.len());
            assert(ps[p as int] == pieces@[p as int]@);
            assert(piece_wf(ps[p as int]));
        }
        let side = match get_side(&pieces[p], plane) {
            Ok(s) => s,
            Err(e) => {
                proof {
                    lemma_sides_stop(ps, plane@, nums@, (j + 1) as nat, n as nat);
                }
                return Err(e);
            },
        };
        if side < 0 {
            back.push(p);
        } else if side > 0 {
            front.push(p);
        } else {
            proof {
                lemma_sides_stop(ps, plane@, nums@, (j + 1) as nat, n as nat);
            }
            return Ok(None);
        }
        j = j + 1;
    }
    Ok(Some((front, back)))
}

/// The pieces a search covers, as a list.
fn nums_exec(count: usize, given: Option<&[usize]>) -> (r: Vec<usize>)
    ensures
        r@ == nums_of(
            count as nat,
            match given {
                Some(s) => Some(s@),
                None => None,
            },
        ),
{
    let mut out: Vec<usize> = Vec::new();
    match given {
        Some(s) => {
            let mut i: usize = 0;
            while i < s.len()
                invariant
                    i <= s@.len(),
                    out@ == s@.take(i as int),
                decreases s@.len() - i,
            {
                out.push(s[i]);
                proof {
                    assert(s@.take(i + 1) =~= s@.take(i as int).push(s@[i as int]));
                }
                i = i + 1;
            }
            proof {
                assert(s@.take(s@.len() as int) =~= s@);
            }
        },
        None => {
            let mut i: usize = 0;
            while i < count
                invariant
                    i <= count,
                    out@ == Seq::new(i as nat, |k: int| k as usize),
                decreases count - i,
            {
                out.push(i);
                proof {
                    assert(out@ =~= Seq::new((i + 1) as nat, |k: int| k as usize));
                }
                i = i + 1;
            }
        },
    }
    out
}

/// Every plane that touches but does not intersect the given pieces (all
/// of them when none are given).
pub fn find_cuts(puzzle: &Puzzle, piece_nums: Option<&[usize]>) -> (r: core::result::Result<Vec<Cut>, Error>)
    requires
        pieces_wf(puzzle@),
        nums_ok(
            puzzle@,
            nums_of(
                puzzle@.len(),
                match piece_nums {
                    Some(s) => Some(s@),
                    None => None,
                },
            ),
        ),
    ensures
        match r {
            Ok(cs) => find_cuts_spec(
                puzzle@,
                nums_of(
                    puzzle@.len(),
                    match piece_nums {
                        Some(s) => Some(s@),
                        None => None,
                    },
                ),
            ) == Outcome::Ok(cut_views(cs@)),
            Err(e) => find_cuts_spec(
                puzzle@,
                nums_of(
                    puzzle@.len(),
                    match piece_nums {
                        Some(s) => Some(s@),
                        None => None,
                    },
                ),
            ) == Outcome::<Seq<CutV>>::Err(e.spec_error_kind()),
        },
        r matches Ok(cs) ==> forall|k: int| 0 <= k < cs@.len() ==> #[trigger] plane_wf(cs@[k]@.0),
        r matches Ok(cs) ==> forall|k: int|
            0 <= k < cs@.len() ==> nums_ok(puzzle@, (#[trigger] cs@[k])@.1) && nums_ok(puzzle@, cs@[k]@.2),
{
    let ghost ps = puzzle@;
    let nums = nums_exec(puzzle.pieces.len(), piece_nums);
    let planes = collect_planes(&puzzle.pieces)?;
    let ghost pv = plane_views(planes@);
    let mut cuts: Vec<Cut> = Vec::new();
    proof {
        assert(cut_views(cuts@) =~= Seq::<CutV>::empty());
    }
    let n = planes.len();
    let mut k: usize = 0;
    while k < n
        invariant
            k <= n == planes@.len(),
            ps == puzzle@,
            ps == piece_views(puzzle.pieces@),
            pieces_wf(ps),
            nums_ok(ps, nums@),
            pv == plane_views(planes@),
            nums@ == nums_of(
                puzzle@.len(),
                match piece_nums {
                    Some(s) => Some(s@),
                    None => None,
                },
            ),
            forall|i: int| 0 <= i < planes@.len() ==> #[trigger] plane_wf(planes@[i]@),
            face_planes(ps, ps.len()) == Outcome::Ok(pv),
            cuts_fold(ps, pv, nums@, k as nat) == Outcome::Ok(cut_views(cuts@)),
            forall|i: int| 0 <= i < cuts@.len() ==> #[trigger] plane_wf(cuts@[i]@.0),
            forall|i: int|
                0 <= i < cuts@.len() ==> nums_ok(ps, (#[trigger] cuts@[i])@.1) && nums_ok(ps, cuts@[i]@.2),
        decreases n - k,
    {
        proof {
            assert(pv[k as int] == planes@[k as int]@);
            assert(plane_wf(planes@[k as int]@));
        }
        let sides = match sides_exec(&puzzle.pieces, &planes[k], &nums) {
            Ok(o) => o,
            Err(e) => {
                proof {
                    lemma_cuts_err(ps, pv, nums@, (k + 1) as nat, n as nat);
                }
                return Err(e);
            },
        };
        match sides {
            Some((front, back)) => {
                if front.len() > 0 && back.len() > 0 {
                    proof {
                        lemma_sides_partition(ps, pv[k as int], nums@, nums@.len());
                        assert(nums@.subrange(0, nums@.len() as int) =~= nums@);
                        assert forall|j: int| 0 <= j < front@.len() implies #[trigger] front@[j] < ps.len()
                            && ps[front@[j] as int].vertices.len() > 0 by {
                            assert(nums@.contains(front@[j]));
                        }
                        assert forall|j: int| 0 <= j < back@.len() implies #[trigger] back@[j] < ps.len()
                            && ps[back@[j] as int].vertices.len() > 0 by {
                            assert(nums@.contains(back@[j]));
                        }
                    }
                    let ghost before = cut_views(cuts@);
                    let c = Cut { plane: planes[k].copy(), front, back };
                    cuts.push(c);
                    proof {
                        assert(cut_views(cuts@) =~= before.push(c@));
                    }
                }
            },
            None => {},
        }
        k = k + 1;
    }
    Ok(cuts)
}

/* ------------------------------------------------------------------------ */
/*  Moves                                                                    */
/* ------------------------------------------------------------------------ */

/// Whether the front of a cut holds piece 0, which stays put: a move of
/// that front turns the rest of the puzzle the other way instead.
pub open spec fn holds_anchor(c: CutV) -> bool {
    c.1.contains(0usize)
}

/// The pieces a move turns, and the rotation they turn by.
pub open spec fn move_plan(c: CutV, rot: QuatV) -> (Seq<usize>, QuatV) {
    if holds_anchor(c) {
        (c.2, qconj(rot))
    } else {
        (c.1, rot)
    }
}

/// A piece's new rotation: `r` times the old one, pseudo-normalized.
#[verifier::opaque]
pub open spec fn move_step(r: QuatV, rot: QuatV) -> Outcome<QuatV> {
    match qmul(r, rot) {
        Outcome::Err(k) => Outcome::Err(k),
        Outcome::Ok(m) => qpseudo_normalize(m),
    }
}

/// A piece's new rotation: `r` times the old one, pseudo-normalized.
fn move_step_exec(r: &ExactQuaternion, rot: &ExactQuaternion) -> (q: core::result::Result<ExactQuaternion, Error>)
    requires
        quat_wf(r@),
        quat_wf(rot@),
    ensures
        match q {
            Ok(v) => move_step(r@, rot@) == Outcome::Ok(v@) && quat_wf(v@),
            Err(e) => move_step(r@, rot@) == Outcome::<QuatV>::Err(e.spec_error_kind()),
        },
{
    proof {
        reveal(move_step);
    }
    let m = r.mul(rot)?;
    m.pseudo_normalize()
}

/// The pieces after the first `j` of `nums` are turned by `r`, each new
/// rotation `r` times the old one, pseudo-normalized; with the error that
/// stopped it, if one did, and the pieces as they stood then.
pub open spec fn move_state(ps: Seq<PieceV>, nums: Seq<usize>, r: QuatV, j: nat) -> (Seq<PieceV>, Option<
    crate::error::ErrorKind,
>)
    decreases j,
{
    if j == 0 {
        (ps, None)
    } else {
        let prev = move_state(ps, nums, r, (j - 1) as nat);
        if prev.1 is Some {
            prev
        } else {
            let p = nums[j - 1] as int;
            let qs = prev.0;
            match move_step(r, qs[p].rot) {
                Outcome::Err(k) => (qs, Some(k)),
                Outcome::Ok(nr) => (qs.update(p, PieceV { rot: nr, ..qs[p] }), None),
            }
        }
    }
}

/// Whether the front of the cut holds piece 0.
pub fn holds_anchor_exec(cut: &Cut) -> (r: bool)
    ensures
        r == holds_anchor(cut@),
{
    let mut i: usize = 0;
    while i < cut.front.len()
        invariant
            i <= cut.front@.len(),
            forall|k: int| 0 <= k < i ==> cut.front@[k] != 0,
        decreases cut.front@.len() - i,
    {
        if cut.front[i] == 0 {
            proof {
                assert(cut.front@[i as int] == 0usize);
            }
            return true;
        }
        i = i + 1;
    }
    false
}

/// Apply `rot` to the front half of `cut`.
///
/// Piece 0 is immovable: a move that would turn it turns the rest of the
/// puzzle the other way instead; what the whole puzzle is turned by is the
/// caller's to keep (see `holds_anchor_exec`).
pub fn make_move(puzzle: &mut Puzzle, cut: &Cut, rot: &ExactQuaternion) -> (r: core::result::Result<(), Error>)
    requires
        pieces_wf(old(puzzle)@),
        quat_wf(rot@),
        forall|j: int| 0 <= j < cut@.1.len() ==> #[trigger] cut@.1[j] < old(puzzle)@.len(),
        forall|j: int| 0 <= j < cut@.2.len() ==> #[trigger] cut@.2[j] < old(puzzle)@.len(),
    ensures
        ({
            let plan = move_plan(cut@, rot@);
            let st = move_state(old(puzzle)@, plan.0, plan.1, plan.0.len());
            &&& final(puzzle)@ == st.0
            &&& match r {
                Ok(_) => st.1 is None,
                Err(e) => st.1 == Some(e.spec_error_kind()),
            }
        }),
        pieces_wf(final(puzzle)@),
        final(puzzle)@.len() == old(puzzle)@.len(),
        forall|i: int| 0 <= i < old(puzzle)@.len() ==> (#[trigger] final(puzzle)@[i]).vertices == old(puzzle)@[i].vertices,
{
    let anchor = holds_anchor_exec(cut);
    let turn = if anchor {
        rot.conj()
    } else {
        rot.copy()
    };
    let nums = if anchor {
        &cut.back
    } else {
        &cut.front
    };
    let ghost plan = move_plan(cut@, rot@);
    let ghost ps0 = puzzle@;
    assert(nums@ == plan.0 && turn@ == plan.1);
    let n = nums.len();
    let mut j: usize = 0;
    while j < n
        invariant
            j <= n == nums@.len(),
            plan == move_plan(cut@, rot@),
            ps0 == old(puzzle)@,
            nums@ == plan.0,
            turn@ == plan.1,
            quat_wf(turn@),
            forall|k: int| 0 <= k < nums@.len() ==> #[trigger] nums@[k] < puzzle@.len(),
            pieces_wf(puzzle@),
            move_state(ps0, plan.0, plan.1, j as nat) == (puzzle@, Option::<crate::error::ErrorKind>::None),
            puzzle@.len() == ps0.len(),
            forall|i: int| 0 <= i < ps0.len() ==> (#[trigger] puzzle@[i]).vertices == ps0[i].vertices,
        decreases n - j,
    {
        let p = nums[j];
        proof {
            assert(nums@[j as int] < puzzle@.len());
            assert(puzzle@[p as int] == puzzle.pieces@[p as int]@);
            assert(piece_wf(puzzle@[p as int]));
        }
        let ghost before = puzzle@;
        let nr = match move_step_exec(&turn, &puzzle.pieces[p].rot) {
            Ok(v) => v,
            Err(e) => {
                proof {
                    lemma_move_stop(ps0, plan.0, plan.1, (j + 1) as nat, n as nat);
                }
                return Err(e);
            },
        };
        puzzle.pieces[p].rot = nr;
        proof {
            assert(puzzle@ =~= before.update(p as int, PieceV { rot: nr@, ..before[p as int] }));
            assert forall|i: int| 0 <= i < puzzle@.len() implies #[trigger] piece_wf(puzzle@[i]) by {
                if i != p as int {
                    assert(puzzle@[i] == before[i]);
                }
            }
            assert forall|i: int| 0 <= i < ps0.len() implies (#[trigger] puzzle@[i]).vertices == ps0[i].vertices by {
                assert(before[i].vertices == ps0[i].vertices);
                if i != p as int {
                    assert(puzzle@[i] == before[i]);
                }
            }
        }
        j = j + 1;
    }
    Ok(())
}

/// Once a move stops on an error, it stays stopped.
proof fn lemma_move_stop(ps: Seq<PieceV>, nums: Seq<usize>, r: QuatV, j: nat, j2: nat)
    requires
        j <= j2,
        move_state(ps, nums, r, j).1 is Some,
    ensures
        move_state(ps, nums, r, j2) == move_state(ps, nums, r, j),
    decreases j2 - j,
{
    if j < j2 {
        lemma_move_stop(ps, nums, r, j, (j2 - 1) as nat);
    }
}

/* ------------------------------------------------------------------------ */
/*  Stops                                                                    */
/* ------------------------------------------------------------------------ */

/// The name a rotation is told apart by: the texts of its four numbers.
#[verifier::opaque]
pub open spec fn quat_key(q: QuatV) -> Seq<char> {
    seq!['['] + number_text(q.0) + seq![','] + number_text(q.1) + seq![','] + number_text(q.2) + seq![',']
        + number_text(q.3) + seq![']']
}

/// The name a rotation is told apart by.
fn quat_key_exec(q: &ExactQuaternion) -> (r: String)
    requires
        quat_wf(q@),
    ensures
        r@ == quat_key(q@),
{
    proof {
        reveal_strlit("[");
        reveal_strlit(",");
        reveal_strlit("]");
        assert("["@ =~= seq!['[']);
        assert(","@ =~= seq![',']);
        assert("]"@ =~= seq![']']);
        reveal(quat_key);
    }
    let mut k = String::from_str("[");
    let t = q.x.to_string();
    k.append(t.as_str());
    k.append(",");
    let t = q.y.to_string();
    k.append(t.as_str());
    k.append(",");
    let t = q.z.to_string();
    k.append(t.as_str());
    k.append(",");
    let t = q.w.to_string();
    k.append(t.as_str());
    k.append("]");
    k
}

/// The first of the first `n` entries named `key`.
pub open spec fn key_index(l: Seq<QuatV>, key: Seq<char>, n: nat) -> Option<int>
    decreases n,
{
    if n == 0 {
        None
    } else {
        match key_index(l, key, (n - 1) as nat) {
            Some(i) => Some(i),
            None => if quat_key(l[n - 1]) == key {
                Some(n - 1)
            } else {
                None
            },
        }
    }
}

/// `l` with `q` stored under its name: in place of the entry of that name,
/// or at the end.
pub open spec fn stops_insert(l: Seq<QuatV>, q: QuatV) -> Seq<QuatV> {
    match key_index(l, quat_key(q), l.len()) {
        Some(i) => l.update(i, q),
        None => l.push(q),
    }
}

/// For a pair of half cuts: the heights `c·p1` and `c·p2` of the two
/// planes' normals along the cut's normal, and whether the first plane is
/// parallel to the cut (`(c·p1)² = (c·c)(p1·p1)`).
#[verifier::opaque]
pub open spec fn pair_heights(c: VecV, p1: VecV, p2: VecV) -> Outcome<(NumV, NumV, bool)> {
    match vdot(c, p1) {
        Outcome::Err(k) => Outcome::Err(k),
        Outcome::Ok(h1) => match vdot(c, p2) {
            Outcome::Err(k) => Outcome::Err(k),
            Outcome::Ok(h2) => match crate::math::n_mul(h1, h1) {
                Outcome::Err(k) => Outcome::Err(k),
                Outcome::Ok(hh) => match vdot(c, c) {
                    Outcome::Err(k) => Outcome::Err(k),
                    Outcome::Ok(cc) => match vdot(p1, p1) {
                        Outcome::Err(k) => Outcome::Err(k),
                        Outcome::Ok(pp) => match crate::math::n_mul(cc, pp) {
                            Outcome::Err(k) => Outcome::Err(k),
                            Outcome::Ok(ccpp) => Outcome::Ok((h1, h2, crate::exact::number_equals_spec(hh, ccpp))),
                        },
                    },
                },
            },
        },
    }
}

/// The rotation about `c` taking the plane `(p1, d1)` onto `(p2, d2)` when
/// their constants and heights match, then the one taking it onto the
/// negation of `(p2, d2)` when those match, each stored under its name.
#[verifier::opaque]
pub open spec fn matching_stops(
    c: VecV,
    p1: VecV,
    d1: NumV,
    p2: VecV,
    d2: NumV,
    h1: NumV,
    h2: NumV,
    l: Seq<QuatV>,
) -> Outcome<Seq<QuatV>> {
    let l1 = if crate::exact::number_equals_spec(d1, d2) && crate::exact::number_equals_spec(h1, h2) {
        match crate::math::qfrom_axis_points(c, p1, p2) {
            Outcome::Err(k) => Outcome::Err(k),
            Outcome::Ok(q) => Outcome::Ok(stops_insert(l, q)),
        }
    } else {
        Outcome::Ok(l)
    };
    match l1 {
        Outcome::Err(k) => Outcome::Err(k),
        Outcome::Ok(l1) => if crate::exact::number_equals_spec(number_neg_spec(d1), d2)
            && crate::exact::number_equals_spec(number_neg_spec(h1), h2) {
            match crate::math::qfrom_axis_points(c, p1, crate::math::vneg(p2)) {
                Outcome::Err(k) => Outcome::Err(k),
                Outcome::Ok(q) => Outcome::Ok(stops_insert(l1, q)),
            }
        } else {
            Outcome::Ok(l1)
        },
    }
}

/// What one pair of half cuts adds to the stops: nothing when the front
/// plane is parallel to the cut, else the matching rotations.
pub open spec fn pair_stops(c: VecV, h1c: CutV, h2c: CutV, l: Seq<QuatV>) -> Outcome<Seq<QuatV>> {
    match pair_heights(c, h1c.0.0, h2c.0.0) {
        Outcome::Err(k) => Outcome::Err(k),
        Outcome::Ok(hs) => if hs.2 {
            Outcome::Ok(l)
        } else {
            matching_stops(c, h1c.0.0, h1c.0.1, h2c.0.0, h2c.0.1, hs.0, hs.1, l)
        },
    }
}

/// The stops from one front half against the first `j` back halves, added
/// to `l`.
pub open spec fn front_fold(c: VecV, h1c: CutV, bc: Seq<CutV>, j: nat, l: Seq<QuatV>) -> Outcome<Seq<QuatV>>
    decreases j,
{
    if j == 0 {
        Outcome::Ok(l)
    } else {
        match front_fold(c, h1c, bc, (j - 1) as nat, l) {
            Outcome::Err(k) => Outcome::Err(k),
            Outcome::Ok(l2) => pair_stops(c, h1c, bc[j - 1], l2),
        }
    }
}

/// The stops from the first `i` front halves against every back half.
pub open spec fn stops_fold(c: VecV, fc: Seq<CutV>, bc: Seq<CutV>, i: nat) -> Outcome<Seq<QuatV>>
    decreases i,
{
    if i == 0 {
        Outcome::Ok(Seq::empty())
    } else {
        match stops_fold(c, fc, bc, (i - 1) as nat) {
            Outcome::Err(k) => Outcome::Err(k),
            Outcome::Ok(l) => front_fold(c, fc[i - 1], bc, bc.len(), l),
        }
    }
}

/// The pseudo-angle of a rotation.
#[verifier::opaque]
pub open spec fn angle_of(q: QuatV) -> Outcome<NumV> {
    crate::math::qpseudo_angle(q)
}

/// The pseudo-angle of a rotation.
fn angle_exec(q: &ExactQuaternion) -> (r: core::result::Result<AlgebraicNumber, Error>)
    requires
        quat_wf(q@),
    ensures
        crate::exact::number_result(r, angle_of(q@)),
{
    proof {
        reveal(angle_of);
    }
    q.pseudo_angle()
}

/// The stops with their pseudo-angles, in order.
pub open spec fn angles_fold(l: Seq<QuatV>, n: nat) -> Outcome<Seq<(NumV, QuatV)>>
    decreases n,
{
    if n == 0 {
        Outcome::Ok(Seq::empty())
    } else {
        match angles_fold(l, (n - 1) as nat) {
            Outcome::Err(k) => Outcome::Err(k),
            Outcome::Ok(a) => match angle_of(l[n - 1]) {
                Outcome::Err(k) => Outcome::Err(k),
                Outcome::Ok(t) => Outcome::Ok(a.push((t, l[n - 1]))),
            },
        }
    }
}

/// Where `x` goes among the first `j` entries of sorted `s`: after the last
/// one not greater than it, comparing from the end.
pub open spec fn insert_pos(s: Seq<(NumV, QuatV)>, x: (NumV, QuatV), j: nat) -> Outcome<nat>
    decreases j,
{
    if j == 0 {
        Outcome::Ok(0)
    } else {
        match n_compare(s[j - 1].0, x.0) {
            Outcome::Err(k) => Outcome::Err(k),
            Outcome::Ok(c) => if c > 0 {
                insert_pos(s, x, (j - 1) as nat)
            } else {
                Outcome::Ok(j)
            },
        }
    }
}

/// The first `n` entries sorted by angle, stably, by insertion.
pub open spec fn sort_fold(a: Seq<(NumV, QuatV)>, n: nat) -> Outcome<Seq<(NumV, QuatV)>>
    decreases n,
{
    if n == 0 {
        Outcome::Ok(Seq::empty())
    } else {
        match sort_fold(a, (n - 1) as nat) {
            Outcome::Err(k) => Outcome::Err(k),
            Outcome::Ok(s) => match insert_pos(s, a[n - 1], s.len()) {
                Outcome::Err(k) => Outcome::Err(k),
                Outcome::Ok(p) => Outcome::Ok(s.insert(p as int, a[n - 1])),
            },
        }
    }
}

/// The stops ordered by their pseudo-angles.
#[verifier::opaque]
pub open spec fn order_stops(l: Seq<QuatV>) -> Outcome<Seq<QuatV>> {
    match angles_fold(l, l.len()) {
        Outcome::Err(k) => Outcome::Err(k),
        Outcome::Ok(a) => match sort_fold(a, a.len()) {
            Outcome::Err(k) => Outcome::Err(k),
            Outcome::Ok(s) => Outcome::Ok(s.map_values(|e: (NumV, QuatV)| e.1)),
        },
    }
}

/// `find_stops(puzzle, cut)`: every rotation about the cut that leaves the
/// puzzle fully cut, ordered by increasing angle.
pub open spec fn find_stops_spec(ps: Seq<PieceV>, c: CutV) -> Outcome<Seq<QuatV>> {
    match find_cuts_spec(ps, c.1) {
        Outcome::Err(k) => Outcome::Err(k),
        Outcome::Ok(fc) => match find_cuts_spec(ps, c.2) {
            Outcome::Err(k) => Outcome::Err(k),
            Outcome::Ok(bc) => match stops_fold(c.0.0, fc, bc, fc.len()) {
                Outcome::Err(k) => Outcome::Err(k),
                Outcome::Ok(l) => order_stops(l),
            },
        },
    }
}

/// The views of a list of rotations.
pub open spec fn quat_views(v: Seq<ExactQuaternion>) -> Seq<QuatV> {
    v.map_values(|x: ExactQuaternion| x@)
}

/// The views of a list of rotations with their angles.
pub open spec fn angle_views(v: Seq<(AlgebraicNumber, ExactQuaternion)>) -> Seq<(NumV, QuatV)> {
    v.map_values(|x: (AlgebraicNumber, ExactQuaternion)| (x.0@, x.1@))
}

/// Each stop well formed, and named by the key beside it.
pub open spec fn stops_ok(stops: Seq<ExactQuaternion>, keys: Seq<String>) -> bool {
    &&& keys.len() == stops.len()
    &&& forall|k: int| 0 <= k < keys.len() ==> #[trigger] keys[k]@ == quat_key(stops[k]@)
    &&& forall|k: int| 0 <= k < stops.len() ==> #[trigger] quat_wf(stops[k]@)
}

/// Store `q` under its name.
fn stops_insert_exec(stops: &mut Vec<ExactQuaternion>, keys: &mut Vec<String>, q: ExactQuaternion)
    requires
        quat_wf(q@),
        stops_ok(old(stops)@, old(keys)@),
    ensures
        quat_views(final(stops)@) == stops_insert(quat_views(old(stops)@), q@),
        stops_ok(final(stops)@, final(keys)@),
{
    let key = quat_key_exec(&q);
    let ghost l = quat_views(stops@);
    let mut i: usize = 0;
    while i < keys.len()
        invariant
            i <= keys@.len() == stops@.len(),
            stops@ == old(stops)@,
            keys@ == old(keys)@,
            l == quat_views(stops@),
            key@ == quat_key(q@),
            quat_wf(q@),
            forall|k: int| 0 <= k < keys@.len() ==> #[trigger] keys@[k]@ == quat_key(stops@[k]@),
            forall|k: int| 0 <= k < stops@.len() ==> #[trigger] quat_wf(stops@[k]@),
            key_index(l, quat_key(q@), i as nat) is None,
        decreases keys@.len() - i,
    {
        proof {
            assert(l[i as int] == stops@[i as int]@);
            assert(keys@[i as int]@ == quat_key(l[i as int]));
        }
        if same_text(keys[i].as_str(), key.as_str()) {
            proof {
                assert(quat_key(l[i as int]) == quat_key(q@));
                assert(key_index(l, quat_key(q@), (i + 1) as nat) == Some(i as int));
                lemma_key_index_found(l, quat_key(q@), (i + 1) as nat, l.len());
            }
            let ghost before = quat_views(stops@);
            stops.set(i, q);
            proof {
                assert(quat_views(stops@) =~= before.update(i as int, q@));
                assert(stops_insert(l, q@) == l.update(i as int, q@));
            }
            return;
        }
        i = i + 1;
    }
    let ghost before = quat_views(stops@);
    keys.push(key);
    stops.push(q);
    proof {
        assert(quat_views(stops@) =~= before.push(q@));
    }
}

/// Once an entry of the name is found, later ones do not change it.
proof fn lemma_key_index_found(l: Seq<QuatV>, key: Seq<char>, n: nat, n2: nat)
    requires
        n <= n2,
        key_index(l, key, n) is Some,
    ensures
        key_index(l, key, n2) == key_index(l, key, n),
    decreases n2 - n,
{
    if n < n2 {
        lemma_key_index_found(l, key, n, (n2 - 1) as nat);
    }
}

/// The heights of the two planes' normals along `c`, and whether the first
/// is parallel to the cut.
fn pair_heights_exec(c: &ExactVector3, p1: &ExactVector3, p2: &ExactVector3) -> (r: core::result::Result<
    (AlgebraicNumber, AlgebraicNumber, bool),
    Error,
>)
    requires
        vec_wf(c@),
        vec_wf(p1@),
        vec_wf(p2@),
    ensures
        match r {
            Ok(t) => pair_heights(c@, p1@, p2@) == Outcome::Ok((t.0@, t.1@, t.2)) && number_wf(t.0@) && number_wf(
                t.1@,
            ),
            Err(e) => pair_heights(c@, p1@, p2@) == Outcome::<(NumV, NumV, bool)>::Err(e.spec_error_kind()),
        },
{
    proof {
        reveal(pair_heights);
        reveal(crate::math::n_mul);
    }
    let h1 = c.dot(p1)?;
    let h2 = c.dot(p2)?;
    let hh = h1.mul(&h1)?;
    let cc = c.dot(c)?;
    let pp = p1.dot(p1)?;
    let ccpp = cc.mul(&pp)?;
    let parallel = hh.equals(&ccpp);
    Ok((h1, h2, parallel))
}

/// Add the rotations that take one plane onto another or its negation.
fn matching_stops_exec(
    c: &ExactVector3,
    h1c: &Cut,
    h2c: &Cut,
    h1: &AlgebraicNumber,
    h2: &AlgebraicNumber,
    stops: &mut Vec<ExactQuaternion>,
    keys: &mut Vec<String>,
) -> (r: core::result::Result<(), Error>)
    requires
        vec_wf(c@),
        plane_wf(h1c@.0),
        plane_wf(h2c@.0),
        number_wf(h1@),
        number_wf(h2@),
        stops_ok(old(stops)@, old(keys)@),
    ensures
        match r {
            Ok(_) => matching_stops(c@, h1c@.0.0, h1c@.0.1, h2c@.0.0, h2c@.0.1, h1@, h2@, quat_views(old(stops)@))
                == Outcome::Ok(quat_views(final(stops)@)),
            Err(e) => matching_stops(c@, h1c@.0.0, h1c@.0.1, h2c@.0.0, h2c@.0.1, h1@, h2@, quat_views(old(stops)@))
                == Outcome::<Seq<QuatV>>::Err(e.spec_error_kind()),
        },
        stops_ok(final(stops)@, final(keys)@),
{
    proof {
        reveal(matching_stops);
    }
    let p1 = &h1c.plane.normal;
    let p2 = &h2c.plane.normal;
    let d1 = &h1c.plane.constant;
    let d2 = &h2c.plane.constant;
    if d1.equals(d2) && h1.equals(h2) {
        let q = ExactQuaternion::from_axis_points(c, p1, p2)?;
        stops_insert_exec(stops, keys, q);
    }
    let nd1 = d1.neg();
    let nh1 = h1.neg();
    if nd1.equals(d2) && nh1.equals(h2) {
        let np2 = p2.neg();
        let q = ExactQuaternion::from_axis_points(c, p1, &np2)?;
        stops_insert_exec(stops, keys, q);
    }
    Ok(())
}

/// Add what one pair of half cuts contributes to the stops.
fn pair_stops_exec(
    c: &ExactVector3,
    h1c: &Cut,
    h2c: &Cut,
    stops: &mut Vec<ExactQuaternion>,
    keys: &mut Vec<String>,
) -> (r: core::result::Result<(), Error>)
    requires
        vec_wf(c@),
        plane_wf(h1c@.0),
        plane_wf(h2c@.0),
        stops_ok(old(stops)@, old(keys)@),
    ensures
        match r {
            Ok(_) => pair_stops(c@, h1c@, h2c@, quat_views(old(stops)@)) == Outcome::Ok(quat_views(final(stops)@)),
            Err(e) => pair_stops(c@, h1c@, h2c@, quat_views(old(stops)@)) == Outcome::<Seq<QuatV>>::Err(
                e.spec_error_kind(),
            ),
        },
        stops_ok(final(stops)@, final(keys)@),
{
    let (h1, h2, parallel) = pair_heights_exec(c, &h1c.plane.normal, &h2c.plane.normal)?;
    if parallel {
        return Ok(());
    }
    matching_stops_exec(c, h1c, h2c, &h1, &h2, stops, keys)
}

proof fn lemma_front_err(c: VecV, h1c: CutV, bc: Seq<CutV>, j: nat, j2: nat, l: Seq<QuatV>)
    requires
        j <= j2,
        front_fold(c, h1c, bc, j, l) is Err,
    ensures
        front_fold(c, h1c, bc, j2, l) == front_fold(c, h1c, bc, j, l),
    decreases j2 - j,
{
    if j < j2 {
        lemma_front_err(c, h1c, bc, j, (j2 - 1) as nat, l);
    }
}

proof fn lemma_stops_err(c: VecV, fc: Seq<CutV>, bc: Seq<CutV>, i: nat, i2: nat)
    requires
        i <= i2,
        stops_fold(c, fc, bc, i) is Err,
    ensures
        stops_fold(c, fc, bc, i2) == stops_fold(c, fc, bc, i),
    decreases i2 - i,
{
    if i < i2 {
        lemma_stops_err(c, fc, bc, i, (i2 - 1) as nat);
    }
}

proof fn lemma_angles_err(l: Seq<QuatV>, n: nat, n2: nat)
    requires
        n <= n2,
        angles_fold(l, n) is Err,
    ensures
        angles_fold(l, n2) == angles_fold(l, n),
    decreases n2 - n,
{
    if n < n2 {
        lemma_angles_err(l, n, (n2 - 1) as nat);
    }
}

proof fn lemma_sort_err(a: Seq<(NumV, QuatV)>, n: nat, n2: nat)
    requires
        n <= n2,
        sort_fold(a, n) is Err,
    ensures
        sort_fold(a, n2) == sort_fold(a, n),
    decreases n2 - n,
{
    if n < n2 {
        lemma_sort_err(a, n, (n2 - 1) as nat);
    }
}

/// The cuts' planes are well formed.
pub open spec fn cuts_wf(v: Seq<Cut>) -> bool {
    forall|k: int| 0 <= k < v.len() ==> #[trigger] plane_wf(v[k]@.0)
}

/// The stops of one front half against every back half, added.
fn front_stops_exec(
    c: &ExactVector3,
    h1c: &Cut,
    back_cuts: &Vec<Cut>,
    stops: &mut Vec<ExactQuaternion>,
    keys: &mut Vec<String>,
) -> (r: core::result::Result<(), Error>)
    requires
        vec_wf(c@),
        plane_wf(h1c@.0),
        cuts_wf(back_cuts@),
        stops_ok(old(stops)@, old(keys)@),
    ensures
        match r {
            Ok(_) => front_fold(c@, h1c@, cut_views(back_cuts@), back_cuts@.len(), quat_views(old(stops)@))
                == Outcome::Ok(quat_views(final(stops)@)),
            Err(e) => front_fold(c@, h1c@, cut_views(back_cuts@), back_cuts@.len(), quat_views(old(stops)@))
                == Outcome::<Seq<QuatV>>::Err(e.spec_error_kind()),
        },
        stops_ok(final(stops)@, final(keys)@),
{
    let ghost bcv = cut_views(back_cuts@);
    let ghost l0 = quat_views(stops@);
    let nb = back_cuts.len();
    let mut j: usize = 0;
    while j < nb
        invariant
            j <= nb == bcv.len(),
            bcv == cut_views(back_cuts@),
            l0 == quat_views(old(stops)@),
            vec_wf(c@),
            plane_wf(h1c@.0),
            cuts_wf(back_cuts@),
            front_fold(c@, h1c@, bcv, j as nat, l0) == Outcome::Ok(quat_views(stops@)),
            stops_ok(stops@, keys@),
        decreases nb - j,
    {
        proof {
            assert(bcv[j as int] == back_cuts@[j as int]@);
            assert(plane_wf(back_cuts@[j as int]@.0));
        }
        match pair_stops_exec(c, h1c, &back_cuts[j], stops, keys) {
            Ok(_) => {},
            Err(e) => {
                proof {
                    lemma_front_err(c@, h1c@, bcv, (j + 1) as nat, nb as nat, l0);
                }
                return Err(e);
            },
        }
        j = j + 1;
    }
    Ok(())
}

/// Every stop of the front halves against the back halves.
fn collect_stops(c: &ExactVector3, front_cuts: &Vec<Cut>, back_cuts: &Vec<Cut>) -> (r: core::result::Result<
    Vec<ExactQuaternion>,
    Error,
>)
    requires
        vec_wf(c@),
        cuts_wf(front_cuts@),
        cuts_wf(back_cuts@),
    ensures
        match r {
            Ok(v) => stops_fold(c@, cut_views(front_cuts@), cut_views(back_cuts@), front_cuts@.len()) == Outcome::Ok(
                quat_views(v@),
            ) && forall|k: int| 0 <= k < v@.len() ==> #[trigger] quat_wf(v@[k]@),
            Err(e) => stops_fold(c@, cut_views(front_cuts@), cut_views(back_cuts@), front_cuts@.len())
                == Outcome::<Seq<QuatV>>::Err(e.spec_error_kind()),
        },
{
    let ghost fcv = cut_views(front_cuts@);
    let ghost bcv = cut_views(back_cuts@);
    let mut stops: Vec<ExactQuaternion> = Vec::new();
    let mut keys: Vec<String> = Vec::new();
    proof {
        assert(quat_views(stops@) =~= Seq::<QuatV>::empty());
    }
    let nf = front_cuts.len();
    let mut i: usize = 0;
    while i < nf
        invariant
            i <= nf == fcv.len(),
            fcv == cut_views(front_cuts@),
            bcv == cut_views(back_cuts@),
            vec_wf(c@),
            cuts_wf(front_cuts@),
            cuts_wf(back_cuts@),
            stops_fold(c@, fcv, bcv, i as nat) == Outcome::Ok(quat_views(stops@)),
            stops_ok(stops@, keys@),
        decreases nf - i,
    {
        proof {
            assert(fcv[i as int] == front_cuts@[i as int]@);
            assert(plane_wf(front_cuts@[i as int]@.0));
        }
        match front_stops_exec(c, &front_cuts[i], back_cuts, &mut stops, &mut keys) {
            Ok(_) => {},
            Err(e) => {
                proof {
                    lemma_stops_err(c@, fcv, bcv, (i + 1) as nat, nf as nat);
                }
                return Err(e);
            },
        }
        i = i + 1;
    }
    Ok(stops)
}

/// Each entry a well-formed angle and rotation.
pub open spec fn entries_wf(v: Seq<(AlgebraicNumber, ExactQuaternion)>) -> bool {
    forall|k: int| 0 <= k < v.len() ==> #[trigger] entry_wf(v[k])
}

/// A well-formed angle and rotation.
pub open spec fn entry_wf(e: (AlgebraicNumber, ExactQuaternion)) -> bool {
    number_wf(e.0@) && quat_wf(e.1@)
}

/// Insert `x` into the sorted list after the last entry not greater than it.
fn sorted_insert(s: &mut Vec<(AlgebraicNumber, ExactQuaternion)>, x: (AlgebraicNumber, ExactQuaternion)) -> (r:
    core::result::Result<(), Error>)
    requires
        entries_wf(old(s)@),
        entry_wf(x),
    ensures
        match r {
            Ok(_) => insert_pos(angle_views(old(s)@), (x.0@, x.1@), old(s)@.len()) matches Outcome::Ok(p) && angle_views(
                final(s)@,
            ) == angle_views(old(s)@).insert(p as int, (x.0@, x.1@)),
            Err(e) => insert_pos(angle_views(old(s)@), (x.0@, x.1@), old(s)@.len()) == Outcome::<nat>::Err(
                e.spec_error_kind(),
            ),
        },
        entries_wf(final(s)@),
{
    let ghost sv = angle_views(s@);
    let ghost xv = (x.0@, x.1@);
    let n = s.len();
    let mut j: usize = n;
    while j > 0
        invariant
            j <= n == s@.len(),
            sv == angle_views(s@),
            s@ == old(s)@,
            entry_wf(x),
            xv == (x.0@, x.1@),
            entries_wf(s@),
            insert_pos(sv, xv, n as nat) == insert_pos(sv, xv, j as nat),
        ensures
            j <= n == s@.len(),
            sv == angle_views(s@),
            s@ == old(s)@,
            entries_wf(s@),
            insert_pos(sv, xv, n as nat) == Outcome::<nat>::Ok(j as nat),
        decreases j,
    {
        proof {
            assert(sv[j - 1] == (s@[j - 1].0@, s@[j - 1].1@));
            assert(entry_wf(s@[j - 1]));
        }
        let c = ncompare(&s[j - 1].0, &x.0)?;
        if c > 0 {
            j = j - 1;
        } else {
            break;
        }
    }
    s.insert(j, x);
    proof {
        assert(angle_views(s@) =~= sv.insert(j as int, xv));
        assert forall|k: int| 0 <= k < s@.len() implies #[trigger] entry_wf(s@[k]) by {
            if k < j {
                assert(s@[k] == old(s)@[k]);
            } else if k > j {
                assert(s@[k] == old(s)@[k - 1]);
            }
        }
    }
    Ok(())
}

/// The rotations with their pseudo-angles.
fn angles_exec(stops: &Vec<ExactQuaternion>) -> (r: core::result::Result<Vec<(AlgebraicNumber, ExactQuaternion)>, Error>)
    requires
        forall|k: int| 0 <= k < stops@.len() ==> #[trigger] quat_wf(stops@[k]@),
    ensures
        match r {
            Ok(v) => angles_fold(quat_views(stops@), stops@.len()) == Outcome::Ok(angle_views(v@)) && entries_wf(v@),
            Err(e) => angles_fold(quat_views(stops@), stops@.len()) == Outcome::<Seq<(NumV, QuatV)>>::Err(
                e.spec_error_kind(),
            ),
        },
{
    let ghost lv = quat_views(stops@);
    let mut with_angles: Vec<(AlgebraicNumber, ExactQuaternion)> = Vec::new();
    proof {
        assert(angle_views(with_angles@) =~= Seq::<(NumV, QuatV)>::empty());
    }
    let ns = stops.len();
    let mut k: usize = 0;
    while k < ns
        invariant
            k <= ns == stops@.len(),
            lv == quat_views(stops@),
            forall|t: int| 0 <= t < stops@.len() ==> #[trigger] quat_wf(stops@[t]@),
            angles_fold(lv, k as nat) == Outcome::Ok(angle_views(with_angles@)),
            with_angles@.len() == k,
            entries_wf(with_angles@),
        decreases ns - k,
    {
        proof {
            assert(lv[k as int] == stops@[k as int]@);
        }
        let t = match angle_exec(&stops[k]) {
            Ok(t) => t,
            Err(e) => {
                proof {
                    lemma_angles_err(lv, (k + 1) as nat, ns as nat);
                }
                return Err(e);
            },
        };
        let ghost before = angle_views(with_angles@);
        let q = stops[k].copy();
        with_angles.push((t, q));
        proof {
            assert(angle_views(with_angles@) =~= before.push((t@, q@)));
            assert(entry_wf(with_angles@[k as int]));
        }
        k = k + 1;
    }
    Ok(with_angles)
}

/// The entries sorted by angle, stably, by insertion.
fn sort_exec(with_angles: &Vec<(AlgebraicNumber, ExactQuaternion)>) -> (r: core::result::Result<
    Vec<(AlgebraicNumber, ExactQuaternion)>,
    Error,
>)
    requires
        entries_wf(with_angles@),
    ensures
        match r {
            Ok(v) => sort_fold(angle_views(with_angles@), with_angles@.len()) == Outcome::Ok(angle_views(v@))
                && entries_wf(v@),
            Err(e) => sort_fold(angle_views(with_angles@), with_angles@.len()) == Outcome::<
                Seq<(NumV, QuatV)>,
            >::Err(e.spec_error_kind()),
        },
{
    let ghost av = angle_views(with_angles@);
    let mut sorted: Vec<(AlgebraicNumber, ExactQuaternion)> = Vec::new();
    proof {
        assert(angle_views(sorted@) =~= Seq::<(NumV, QuatV)>::empty());
    }
    let na = with_angles.len();
    let mut m: usize = 0;
    while m < na
        invariant
            m <= na == with_angles@.len(),
            av == angle_views(with_angles@),
            entries_wf(with_angles@),
            sort_fold(av, m as nat) == Outcome::Ok(angle_views(sorted@)),
            entries_wf(sorted@),
        decreases na - m,
    {
        proof {
            assert(av[m as int] == (with_angles@[m as int].0@, with_angles@[m as int].1@));
            assert(entry_wf(with_angles@[m as int]));
        }
        let e = (with_angles[m].0.copy(), with_angles[m].1.copy());
        match sorted_insert(&mut sorted, e) {
            Ok(_) => {},
            Err(err) => {
                proof {
                    lemma_sort_err(av, (m + 1) as nat, na as nat);
                }
                return Err(err);
            },
        }
        m = m + 1;
    }
    Ok(sorted)
}

/// The stops ordered by their pseudo-angles.
fn order_stops_exec(stops: &Vec<ExactQuaternion>) -> (r: core::result::Result<Vec<ExactQuaternion>, Error>)
    requires
        forall|k: int| 0 <= k < stops@.len() ==> #[trigger] quat_wf(stops@[k]@),
    ensures
        match r {
            Ok(v) => order_stops(quat_views(stops@)) == Outcome::Ok(quat_views(v@)),
            Err(e) => order_stops(quat_views(stops@)) == Outcome::<Seq<QuatV>>::Err(e.spec_error_kind()),
        },
        r matches Ok(v) ==> forall|k: int| 0 <= k < v@.len() ==> #[trigger] quat_wf(v@[k]@),
{
    proof {
        reveal(order_stops);
    }
    let with_angles = angles_exec(&stops)?;
    let sorted = sort_exec(&with_angles)?;
    let ghost sv = angle_views(sorted@);
    let mut out: Vec<ExactQuaternion> = Vec::new();
    let mut t: usize = 0;
    while t < sorted.len()
        invariant
            t <= sorted@.len(),
            sv == angle_views(sorted@),
            entries_wf(sorted@),
            quat_views(out@) == sv.take(t as int).map_values(|e: (NumV, QuatV)| e.1),
            out@.len() == t,
            forall|k: int| 0 <= k < out@.len() ==> #[trigger] quat_wf(out@[k]@),
        decreases sorted@.len() - t,
    {
        proof {
            assert(entry_wf(sorted@[t as int]));
        }
        let ghost before = quat_views(out@);
        let q = sorted[t].1.copy();
        out.push(q);
        proof {
            assert forall|k: int| 0 <= k < out@.len() implies #[trigger] quat_wf(out@[k]@) by {
                if k < t {
                    assert(out@[k] == out@.drop_last()[k]);
                }
            }
            assert(sv[t as int] == (sorted@[t as int].0@, sorted@[t as int].1@));
            assert(quat_views(out@) =~= before.push(q@));
            assert(sv.take(t + 1).map_values(|e: (NumV, QuatV)| e.1) =~= sv.take(t as int).map_values(
                |e: (NumV, QuatV)| e.1,
            ).push(sv[t as int].1));
        }
        t = t + 1;
    }
    proof {
        assert(sv.take(sv.len() as int) =~= sv);
    }
    Ok(out)
}

/// Every rotation about `cut` that leaves the puzzle in a fully cut state,
/// ordered by increasing angle.
pub fn find_stops(puzzle: &Puzzle, cut: &Cut) -> (r: core::result::Result<Vec<ExactQuaternion>, Error>)
    requires
        pieces_wf(puzzle@),
        plane_wf(cut@.0),
        nums_ok(puzzle@, cut@.1),
        nums_ok(puzzle@, cut@.2),
    ensures
        match r {
            Ok(v) => find_stops_spec(puzzle@, cut@) == Outcome::Ok(quat_views(v@)),
            Err(e) => find_stops_spec(puzzle@, cut@) == Outcome::<Seq<QuatV>>::Err(e.spec_error_kind()),
        },
        r matches Ok(v) ==> forall|k: int| 0 <= k < v@.len() ==> #[trigger] quat_wf(v@[k]@),
{
    let front_cuts = find_cuts(puzzle, Some(cut.front.as_slice()))?;
    let back_cuts = find_cuts(puzzle, Some(cut.back.as_slice()))?;
    let stops = collect_stops(&cut.plane.normal, &front_cuts, &back_cuts)?;
    order_stops_exec(&stops)
}

/* ------------------------------------------------------------------------ */
/*  Laws                                                                     */
/* ------------------------------------------------------------------------ */

/// A move changes only the rotations of the pieces it turns: every other
/// piece, and every piece's vertices and faces, stay as they were.
pub proof fn lemma_move_touches_only_turned(ps: Seq<PieceV>, nums: Seq<usize>, r: QuatV, j: nat, q: int)
    requires
        j <= nums.len(),
        forall|k: int| 0 <= k < nums.len() ==> #[trigger] nums[k] < ps.len(),
        0 <= q < ps.len(),
    ensures
        move_state(ps, nums, r, j).0.len() == ps.len(),
        move_state(ps, nums, r, j).0[q].vertices == ps[q].vertices,
        move_state(ps, nums, r, j).0[q].faces == ps[q].faces,
        (forall|k: int| 0 <= k < j ==> nums[k] != q) ==> move_state(ps, nums, r, j).0[q] == ps[q],
    decreases j,
{
    if j > 0 {
        lemma_move_touches_only_turned(ps, nums, r, (j - 1) as nat, q);
    }
}

/// Piece 0 never turns: for a cut whose two sides have no piece in common,
/// as `find_cuts` gives them, a move leaves piece 0 exactly as it was.
pub proof fn lemma_anchor_stays(ps: Seq<PieceV>, c: CutV, rot: QuatV)
    requires
        ps.len() > 0,
        forall|j: int| 0 <= j < c.1.len() ==> #[trigger] c.1[j] < ps.len(),
        forall|j: int| 0 <= j < c.2.len() ==> #[trigger] c.2[j] < ps.len(),
        forall|i: int, j: int| 0 <= i < c.1.len() && 0 <= j < c.2.len() ==> c.1[i] != c.2[j],
    ensures
        move_state(ps, move_plan(c, rot).0, move_plan(c, rot).1, move_plan(c, rot).0.len()).0[0] == ps[0],
{
    let plan = move_plan(c, rot);
    if holds_anchor(c) {
        let i = choose|i: int| 0 <= i < c.1.len() && c.1[i] == 0usize;
        assert forall|k: int| 0 <= k < plan.0.len() implies plan.0[k] != 0 by {
            assert(c.1[i] != c.2[k]);
        }
    } else {
        assert forall|k: int| 0 <= k < plan.0.len() implies plan.0[k] != 0 by {
            if plan.0[k] == 0 {
                assert(c.1.contains(0usize));
            }
        }
    }
    lemma_move_touches_only_turned(ps, plan.0, plan.1, plan.0.len(), 0);
}

/// Sorting pieces to the sides of a plane puts each of them on exactly one
/// side, in order: the two sides together are as many as the pieces.
pub proof fn lemma_sides_partition(ps: Seq<PieceV>, plane: PlaneV, nums: Seq<usize>, j: nat)
    requires
        j <= nums.len(),
    ensures
        sides_fold(ps, plane, nums, j) matches Outcome::Ok(Some(fb)) ==> {
            &&& fb.0.len() + fb.1.len() == j
            &&& forall|i: int| 0 <= i < fb.0.len() ==> #[trigger] nums.subrange(0, j as int).contains(fb.0[i])
            &&& forall|i: int| 0 <= i < fb.1.len() ==> #[trigger] nums.subrange(0, j as int).contains(fb.1[i])
        },
    decreases j,
{
    if j > 0 {
        lemma_sides_partition(ps, plane, nums, (j - 1) as nat);
        if let Outcome::Ok(Some(fb)) = sides_fold(ps, plane, nums, j) {
            let prev = sides_fold(ps, plane, nums, (j - 1) as nat);
            let sub = nums.subrange(0, j as int);
            let psub = nums.subrange(0, j - 1);
            assert(sub[j - 1] == nums[j - 1]);
            assert forall|x: usize| psub.contains(x) implies sub.contains(x) by {
                let k = choose|k: int| 0 <= k < psub.len() && psub[k] == x;
                assert(sub[k] == x);
            }
            assert(sub.contains(nums[j - 1]));
        }
    }
}

/// Every cut `find_cuts` returns has pieces on both sides, and each piece
/// searched lies on exactly one side of it.
pub proof fn lemma_cuts_split(ps: Seq<PieceV>, planes: Seq<PlaneV>, nums: Seq<usize>, k: nat)
    ensures
        cuts_fold(ps, planes, nums, k) matches Outcome::Ok(cs) ==> forall|i: int|
            0 <= i < cs.len() ==> {
                &&& (#[trigger] cs[i]).1.len() > 0
                &&& cs[i].2.len() > 0
                &&& cs[i].1.len() + cs[i].2.len() == nums.len()
            },
    decreases k,
{
    if k > 0 {
        lemma_cuts_split(ps, planes, nums, (k - 1) as nat);
        lemma_sides_partition(ps, planes[k - 1], nums, nums.len());
    }
}

/// Sorting pieces by side puts each piece in front of the plane to the
/// front and each piece behind it to the back.
proof fn lemma_sides_sorted(ps: Seq<PieceV>, plane: PlaneV, nums: Seq<usize>, j: nat)
    requires
        j <= nums.len(),
    ensures
        sides_fold(ps, plane, nums, j) matches Outcome::Ok(Some(fb)) ==> {
            &&& forall|i: int| 0 <= i < fb.0.len() ==> side_spec(ps[#[trigger] fb.0[i] as int], plane) == Outcome::Ok(1int)
            &&& forall|i: int| 0 <= i < fb.1.len() ==> side_spec(ps[#[trigger] fb.1[i] as int], plane) == Outcome::Ok(-1int)
        },
    decreases j,
{
    if j > 0 {
        lemma_sides_sorted(ps, plane, nums, (j - 1) as nat);
        if let Outcome::Ok(Some(fb)) = sides_fold(ps, plane, nums, j) {
            if let Outcome::Ok(Some(pfb)) = sides_fold(ps, plane, nums, (j - 1) as nat) {
                let p = nums[j - 1];
                if let Outcome::Ok(sd) = side_spec(ps[p as int], plane) {
                    assert(sd == 1 || sd == -1 || sd == 0) by {
                        reveal(side_spec);
                    }
                    assert forall|i: int| 0 <= i < fb.0.len() implies side_spec(ps[#[trigger] fb.0[i] as int], plane)
                        == Outcome::Ok(1int) by {
                        if i < pfb.0.len() {
                            assert(fb.0[i] == pfb.0[i]);
                        }
                    }
                    assert forall|i: int| 0 <= i < fb.1.len() implies side_spec(ps[#[trigger] fb.1[i] as int], plane)
                        == Outcome::Ok(-1int) by {
                        if i < pfb.1.len() {
                            assert(fb.1[i] == pfb.1[i]);
                        }
                    }
                }
            }
        }
    }
}

/// Every cut `find_cuts` returns has each piece of its front in front of its
/// plane and each piece of its back behind it.
pub proof fn lemma_cuts_sided(ps: Seq<PieceV>, planes: Seq<PlaneV>, nums: Seq<usize>, k: nat)
    requires
        k <= planes.len(),
    ensures
        cuts_fold(ps, planes, nums, k) matches Outcome::Ok(cs) ==> forall|c: int, i: int|
            0 <= c < cs.len() ==> {
                &&& (0 <= i < cs[c].1.len() ==> side_spec(ps[#[trigger] cs[c].1[i] as int], cs[c].0) == Outcome::Ok(1int))
                &&& (0 <= i < cs[c].2.len() ==> side_spec(ps[#[trigger] cs[c].2[i] as int], cs[c].0) == Outcome::Ok(-1int))
            },
    decreases k,
{
    if k > 0 {
        lemma_cuts_sided(ps, planes, nums, (k - 1) as nat);
        lemma_sides_sorted(ps, planes[k - 1], nums, nums.len());
        if let Outcome::Ok(cs) = cuts_fold(ps, planes, nums, k) {
            if let Outcome::Ok(pcs) = cuts_fold(ps, planes, nums, (k - 1) as nat) {
                assert forall|c: int, i: int| 0 <= c < cs.len() implies {
                    &&& (0 <= i < cs[c].1.len() ==> side_spec(ps[#[trigger] cs[c].1[i] as int], cs[c].0) == Outcome::Ok(1int))
                    &&& (0 <= i < cs[c].2.len() ==> side_spec(ps[#[trigger] cs[c].2[i] as int], cs[c].0) == Outcome::Ok(-1int))
                } by {
                    if c < pcs.len() {
                        assert(cs[c] == pcs[c]);
                    }
                }
            }
        }
    }
}

} // verus!
