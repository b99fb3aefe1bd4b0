//! The exact half of the interactive simulator: a puzzle, the grips it can
//! be turned by, the turns made so far, and what a turn does to them.
//!
//! Animating a turn, drawing and pointer handling work in floating point
//! and live with the application; a turn here picks its stop and applies it
//! exactly, and hands back the rotation for the animation to show.

use vstd::prelude::*;
use vstd::string::StringExecFns;

use crate::error::{Error, ErrorKind};
use crate::exact::{number_compare_spec, number_sign_spec, number_wf};
use crate::math::{
    plane_neg, plane_wf, qpseudo_angle, quat_identity, quat_result, quat_wf, ExactPlane, ExactQuaternion,
    PlaneV, QuatV,
};
use crate::movement::{
    cut_views, find_cuts, find_cuts_spec, find_stops, find_stops_spec, make_move, move_plan, move_state,
    nums_of, nums_ok, pieces_wf, quat_views, Cut, CutV, Puzzle,
};
use crate::num::digits::{decimal_digits, u64_decimal};
use crate::num::ring::Outcome;
use crate::piece::PieceV;
use crate::turning::Turn;

verus! {

/// The sign of a plane constant.
#[verifier::opaque]
pub open spec fn const_sign(a: crate::math::NumV) -> Outcome<int> {
    number_sign_spec(a)
}

/// `compare(a, b)`: the sign of `a - b`.
#[verifier::opaque]
pub open spec fn const_compare(a: crate::math::NumV, b: crate::math::NumV) -> Outcome<int> {
    number_compare_spec(a, b)
}

fn sign_exec(a: &crate::exact::AlgebraicNumber) -> (r: core::result::Result<i32, Error>)
    requires
        number_wf(a@),
    ensures
        match r {
            Ok(s) => const_sign(a@) == Outcome::Ok(s as int),
            Err(e) => const_sign(a@) == Outcome::<int>::Err(e.spec_error_kind()),
        },
{
    proof {
        reveal(const_sign);
    }
    a.sign()
}

fn compare_exec(a: &crate::exact::AlgebraicNumber, b: &crate::exact::AlgebraicNumber) -> (r: core::result::Result<
    i32,
    Error,
>)
    requires
        number_wf(a@),
        number_wf(b@),
    ensures
        match r {
            Ok(c) => const_compare(a@, b@) == Outcome::Ok(c as int),
            Err(e) => const_compare(a@, b@) == Outcome::<int>::Err(e.spec_error_kind()),
        },
{
    proof {
        reveal(const_compare);
    }
    a.compare(b)
}

/// The cut facing the other way: the plane negated, front and back swapped.
pub open spec fn cut_neg(c: CutV) -> CutV {
    (plane_neg(c.0), c.2, c.1)
}

/// The grips of the first `n` cuts: a cut through the center or on the far
/// side of it turns as it is, and one through the center or on the near
/// side turns the other way too.
pub open spec fn grip_candidates(cs: Seq<CutV>, n: nat) -> Outcome<Seq<CutV>>
    decreases n,
{
    if n == 0 {
        Outcome::Ok(Seq::empty())
    } else {
        match grip_candidates(cs, (n - 1) as nat) {
            Outcome::Err(k) => Outcome::Err(k),
            Outcome::Ok(g) => match const_sign(cs[n - 1].0.1) {
                Outcome::Err(k) => Outcome::Err(k),
                Outcome::Ok(s) => {
                    let g1 = if s <= 0 {
                        g.push(cs[n - 1])
                    } else {
                        g
                    };
                    Outcome::Ok(
                        if s >= 0 {
                            g1.push(cut_neg(cs[n - 1]))
                        } else {
                            g1
                        },
                    )
                },
            },
        }
    }
}

/// Where grip `x` goes among the first `j` of sorted `s`: after the last
/// one whose constant is not smaller, comparing from the end.
pub open spec fn grip_pos(s: Seq<CutV>, x: CutV, j: nat) -> Outcome<nat>
    decreases j,
{
    if j == 0 {
        Outcome::Ok(0)
    } else {
        match const_compare(x.0.1, s[j - 1].0.1) {
            Outcome::Err(k) => Outcome::Err(k),
            Outcome::Ok(c) => if c > 0 {
                grip_pos(s, x, (j - 1) as nat)
            } else {
                Outcome::Ok(j)
            },
        }
    }
}

/// The first `n` grips by decreasing plane constant, stably, by insertion.
pub open spec fn grip_sort(a: Seq<CutV>, n: nat) -> Outcome<Seq<CutV>>
    decreases n,
{
    if n == 0 {
        Outcome::Ok(Seq::empty())
    } else {
        match grip_sort(a, (n - 1) as nat) {
            Outcome::Err(k) => Outcome::Err(k),
            Outcome::Ok(s) => match grip_pos(s, a[n - 1], s.len()) {
                Outcome::Err(k) => Outcome::Err(k),
                Outcome::Ok(p) => Outcome::Ok(s.insert(p as int, a[n - 1])),
            },
        }
    }
}

/// `turnable_cuts(puzzle)`: every cut the puzzle can turn about, each way
/// it can turn, by decreasing plane constant.
pub open spec fn turnable_spec(ps: Seq<PieceV>) -> Outcome<Seq<CutV>> {
    match find_cuts_spec(ps, nums_of(ps.len(), None)) {
        Outcome::Err(k) => Outcome::Err(k),
        Outcome::Ok(cs) => match grip_candidates(cs, cs.len()) {
            Outcome::Err(k) => Outcome::Err(k),
            Outcome::Ok(g) => grip_sort(g, g.len()),
        },
    }
}

/// A grip a puzzle can be turned by: a well-formed plane, and pieces of the
/// puzzle on each side.
pub open spec fn grip_wf(ps: Seq<PieceV>, c: CutV) -> bool {
    plane_wf(c.0) && nums_ok(ps, c.1) && nums_ok(ps, c.2)
}

pub open spec fn grips_wf(ps: Seq<PieceV>, v: Seq<Cut>) -> bool {
    forall|k: int| 0 <= k < v.len() ==> #[trigger] grip_wf(ps, v[k]@)
}

proof fn lemma_candidates_err(cs: Seq<CutV>, n: nat, n2: nat)
    requires
        n <= n2,
        grip_candidates(cs, n) is Err,
    ensures
        grip_candidates(cs, n2) == grip_candidates(cs, n),
    decreases n2,
{
    if n2 > n {
        lemma_candidates_err(cs, n, (n2 - 1) as nat);
    }
}

proof fn lemma_grip_sort_err(a: Seq<CutV>, n: nat, n2: nat)
    requires
        n <= n2,
        grip_sort(a, n) is Err,
    ensures
        grip_sort(a, n2) == grip_sort(a, n),
    decreases n2,
{
    if n2 > n {
        lemma_grip_sort_err(a, n, (n2 - 1) as nat);
    }
}

fn copy_nums(v: &Vec<usize>) -> (r: Vec<usize>)
    ensures
        r@ == v@,
{
    let mut out: Vec<usize> = Vec::new();
    let mut i: usize = 0;
    while i < v.len()
        invariant
            i <= v@.len(),
            out@ == v@.take(i as int),
        decreases v.len() - i,
    {
        out.push(v[i]);
        i = i + 1;
        assert(out@ =~= v@.take(i as int));
    }
    assert(v@.take(v@.len() as int) =~= v@);
    out
}

/// A copy of a cut.
fn copy_cut(c: &Cut) -> (r: Cut)
    requires
        plane_wf(c@.0),
    ensures
        r@ == c@,
{
    Cut { plane: c.plane.copy(), front: copy_nums(&c.front), back: copy_nums(&c.back) }
}

/// The cut facing the other way.
fn neg_cut(c: &Cut) -> (r: Cut)
    requires
        plane_wf(c@.0),
    ensures
        r@ == cut_neg(c@),
        plane_wf(r@.0),
{
    Cut { plane: c.plane.neg(), front: copy_nums(&c.back), back: copy_nums(&c.front) }
}

/// Insert a grip into grips sorted by decreasing plane constant.
fn grip_insert(s: &mut Vec<Cut>, x: Cut, Ghost(ps): Ghost<Seq<PieceV>>) -> (r: core::result::Result<(), Error>)
    requires
        grips_wf(ps, old(s)@),
        grip_wf(ps, x@),
    ensures
        match r {
            Ok(_) => grip_pos(cut_views(old(s)@), x@, old(s)@.len()) matches Outcome::Ok(p) && cut_views(
                final(s)@,
            ) == cut_views(old(s)@).insert(p as int, x@),
            Err(e) => grip_pos(cut_views(old(s)@), x@, old(s)@.len()) == Outcome::<nat>::Err(
                e.spec_error_kind(),
            ),
        },
        grips_wf(ps, final(s)@),
{
    let ghost sv = cut_views(s@);
    let ghost xv = x@;
    let n = s.len();
    let mut j: usize = n;
    while j > 0
        invariant
            j <= n == s@.len(),
            sv == cut_views(s@),
            s@ == old(s)@,
            grip_wf(ps, x@),
            xv == x@,
            grips_wf(ps, s@),
            grip_pos(sv, xv, n as nat) == grip_pos(sv, xv, j as nat),
        ensures
            j <= n == s@.len(),
            sv == cut_views(s@),
            s@ == old(s)@,
            grips_wf(ps, s@),
            grip_pos(sv, xv, n as nat) == Outcome::<nat>::Ok(j as nat),
        decreases j,
    {
        proof {
            assert(sv[j - 1] == s@[j - 1]@);
            assert(grip_wf(ps, s@[j - 1]@));
        }
        let c = compare_exec(&x.plane.constant, &s[j - 1].plane.constant)?;
        if c > 0 {
            j = j - 1;
        } else {
            break;
        }
    }
    s.insert(j, x);
    proof {
        assert(cut_views(s@) =~= sv.insert(j as int, xv));
        assert forall|k: int| 0 <= k < s@.len() implies #[trigger] grip_wf(ps, s@[k]@) by {
            if k < j {
                assert(s@[k] == old(s)@[k]);
            } else if k > j {
                assert(s@[k] == old(s)@[k - 1]);
            }
        }
    }
    Ok(())
}

/// Every cut the puzzle can turn about, each way it can turn, by
/// decreasing plane constant: a cut that does not pass through the center
/// turns one way, and one that does turns both.
pub fn turnable_cuts(puzzle: &Puzzle) -> (r: core::result::Result<Vec<Cut>, Error>)
    requires
        pieces_wf(puzzle@),
        nums_ok(puzzle@, nums_of(puzzle@.len(), None)),
    ensures
        match r {
            Ok(g) => turnable_spec(puzzle@) == Outcome::Ok(cut_views(g@)) && grips_wf(puzzle@, g@),
            Err(e) => turnable_spec(puzzle@) == Outcome::<Seq<CutV>>::Err(e.spec_error_kind()),
        },
{
    let ghost ps = puzzle@;
    let cuts = find_cuts(puzzle, None)?;
    let ghost cv = cut_views(cuts@);
    assert(find_cuts_spec(ps, nums_of(ps.len(), None)) == Outcome::Ok(cv));
    let mut cand: Vec<Cut> = Vec::new();
    proof {
        assert(cut_views(cand@) =~= Seq::<CutV>::empty());
    }
    let n = cuts.len();
    let mut i: usize = 0;
    while i < n
        invariant
            i <= n == cuts@.len(),
            cv == cut_views(cuts@),
            ps == puzzle@,
            forall|k: int| 0 <= k < cuts@.len() ==> #[trigger] plane_wf(cuts@[k]@.0),
            forall|k: int|
                0 <= k < cuts@.len() ==> nums_ok(ps, (#[trigger] cuts@[k])@.1) && nums_ok(ps, cuts@[k]@.2),
            grip_candidates(cv, i as nat) == Outcome::Ok(cut_views(cand@)),
            grips_wf(ps, cand@),
            find_cuts_spec(ps, nums_of(ps.len(), None)) == Outcome::Ok(cv),
        decreases n - i,
    {
        proof {
            assert(cv[i as int] == cuts@[i as int]@);
            assert(plane_wf(cuts@[i as int]@.0));
        }
        let s = match sign_exec(&cuts[i].plane.constant) {
            Ok(s) => s,
            Err(e) => {
                proof {
                    lemma_candidates_err(cv, (i + 1) as nat, n as nat);
                }
                return Err(e);
            },
        };
        if s <= 0 {
            let ghost before = cut_views(cand@);
            let c = copy_cut(&cuts[i]);
            cand.push(c);
            proof {
                assert(cut_views(cand@) =~= before.push(c@));
                assert forall|k: int| 0 <= k < cand@.len() implies #[trigger] grip_wf(ps, cand@[k]@) by {
                    if k < cand@.len() - 1 {
                        assert(cand@[k] == cand@.drop_last()[k]);
                    }
                }
            }
        }
        if s >= 0 {
            let ghost before = cut_views(cand@);
            let c = neg_cut(&cuts[i]);
            cand.push(c);
            proof {
                assert(cut_views(cand@) =~= before.push(c@));
                assert forall|k: int| 0 <= k < cand@.len() implies #[trigger] grip_wf(ps, cand@[k]@) by {
                    if k < cand@.len() - 1 {
                        assert(cand@[k] == cand@.drop_last()[k]);
                    }
                }
            }
        }
        i = i + 1;
    }
    proof {
        assert(cv.len() == n);
    }
    let ghost av = cut_views(cand@);
    let mut sorted: Vec<Cut> = Vec::new();
    proof {
        assert(cut_views(sorted@) =~= Seq::<CutV>::empty());
    }
    let na = cand.len();
    let mut m: usize = 0;
    while m < na
        invariant
            m <= na == cand@.len(),
            av == cut_views(cand@),
            grips_wf(ps, cand@),
            grip_sort(av, m as nat) == Outcome::Ok(cut_views(sorted@)),
            grips_wf(ps, sorted@),
            ps == puzzle@,
            find_cuts_spec(ps, nums_of(ps.len(), None)) == Outcome::Ok(cv),
            grip_candidates(cv, cv.len()) == Outcome::Ok(av),
        decreases na - m,
    {
        proof {
            assert(av[m as int] == cand@[m as int]@);
            assert(grip_wf(ps, cand@[m as int]@));
        }
        let e = copy_cut(&cand[m]);
        match grip_insert(&mut sorted, e, Ghost(ps)) {
            Ok(_) => {},
            Err(err) => {
                proof {
                    lemma_grip_sort_err(av, (m + 1) as nat, na as nat);
                }
                return Err(err);
            },
        }
        m = m + 1;
    }
    Ok(sorted)
}

/// The exact state of a simulator: the puzzle, its grips in arrow order,
/// the plane and rotation of every turn made, newest last, and how many
/// turns have been made.
pub struct Simulator {
    pub puzzle: Puzzle,
    pub grips: Vec<Cut>,
    pub history: Vec<(ExactPlane, ExactQuaternion)>,
    pub move_count: u64,
}

/// The mathematical form of a simulator.
pub struct SimV {
    pub puzzle: Seq<PieceV>,
    pub grips: Seq<CutV>,
    pub history: Seq<(PlaneV, QuatV)>,
    pub moves: u64,
}

/// The views of a turn history.
pub open spec fn history_views(h: Seq<(ExactPlane, ExactQuaternion)>) -> Seq<(PlaneV, QuatV)> {
    h.map_values(|e: (ExactPlane, ExactQuaternion)| (e.0@, e.1@))
}

impl View for Simulator {
    type V = SimV;

    open spec fn view(&self) -> SimV {
        SimV {
            puzzle: self.puzzle@,
            grips: cut_views(self.grips@),
            history: history_views(self.history@),
            moves: self.move_count,
        }
    }
}

/// A puzzle a simulator can hold: well-formed pieces, each with a vertex.
pub open spec fn puzzle_ok(ps: Seq<PieceV>) -> bool {
    pieces_wf(ps) && nums_ok(ps, nums_of(ps.len(), None))
}

impl Simulator {
    /// The pieces are well formed and every grip is a grip of the puzzle.
    pub open spec fn wf(&self) -> bool {
        puzzle_ok(self.puzzle@) && grips_wf(self.puzzle@, self.grips@)
    }
}

/// Whether a rotation is the zero rotation, by its pseudo-angle.
#[verifier::opaque]
pub open spec fn zero_angle(q: QuatV) -> Outcome<bool> {
    match qpseudo_angle(q) {
        Outcome::Err(k) => Outcome::Err(k),
        Outcome::Ok(a) => Outcome::Ok(a.1.2 == -1),
    }
}

fn zero_angle_exec(q: &ExactQuaternion) -> (r: core::result::Result<bool, Error>)
    requires
        quat_wf(q@),
    ensures
        match r {
            Ok(z) => zero_angle(q@) == Outcome::Ok(z),
            Err(e) => zero_angle(q@) == Outcome::<bool>::Err(e.spec_error_kind()),
        },
{
    proof {
        reveal(zero_angle);
    }
    let a = q.pseudo_angle()?;
    Ok(a.is_zero())
}

/// From stop `zi` down, past zero rotations, stopping at the first stop.
pub open spec fn scan_down_spec(l: Seq<QuatV>, zi: int) -> Outcome<int>
    decreases zi,
{
    match zero_angle(l[zi]) {
        Outcome::Err(k) => Outcome::Err(k),
        Outcome::Ok(z) => if z && zi > 0 {
            scan_down_spec(l, zi - 1)
        } else {
            Outcome::Ok(zi)
        },
    }
}

/// From stop `zi` up, past zero rotations, stopping at the last stop.
pub open spec fn scan_up_spec(l: Seq<QuatV>, zi: int) -> Outcome<int>
    decreases l.len() - zi,
{
    match zero_angle(l[zi]) {
        Outcome::Err(k) => Outcome::Err(k),
        Outcome::Ok(z) => if z && zi < l.len() - 1 {
            scan_up_spec(l, zi + 1)
        } else {
            Outcome::Ok(zi)
        },
    }
}

/// The stop a turn lands on among the stops `l`: `Some(i)`, or `None` for a
/// grip with no stops, which turns by the identity.
pub open spec fn choose_spec(turn: Turn, l: Seq<QuatV>) -> Outcome<Option<int>> {
    match turn {
        Turn::Stop(k) => if k < l.len() {
            Outcome::Ok(Some(k as int))
        } else {
            Outcome::Err(ErrorKind::Range)
        },
        Turn::Direction(d) => if l.len() == 0 {
            Outcome::Ok(None)
        } else if d < 0 {
            match scan_down_spec(l, l.len() - 1) {
                Outcome::Err(k) => Outcome::Err(k),
                Outcome::Ok(i) => Outcome::Ok(Some(i)),
            }
        } else {
            match scan_up_spec(l, 0) {
                Outcome::Err(k) => Outcome::Err(k),
                Outcome::Ok(i) => Outcome::Ok(Some(i)),
            }
        },
    }
}

/// The grip and the rotation a turn of grip `ci` applies.
pub open spec fn plan_spec(s: SimV, ci: usize, turn: Turn) -> Outcome<(CutV, QuatV)> {
    if ci >= s.grips.len() {
        Outcome::Err(ErrorKind::Range)
    } else {
        let c = s.grips[ci as int];
        match find_stops_spec(s.puzzle, c) {
            Outcome::Err(k) => Outcome::Err(k),
            Outcome::Ok(l) => match choose_spec(turn, l) {
                Outcome::Err(k) => Outcome::Err(k),
                Outcome::Ok(Some(i)) => Outcome::Ok((c, l[i])),
                Outcome::Ok(None) => match quat_identity() {
                    Outcome::Err(k) => Outcome::Err(k),
                    Outcome::Ok(q) => Outcome::Ok((c, q)),
                },
            },
        }
    }
}

/// A turn about `c` by `rot` applied: the pieces moved, the turn counted
/// and recorded, and the grips found again.
pub open spec fn apply_spec(s: SimV, c: CutV, rot: QuatV) -> (SimV, Outcome<()>) {
    let plan = move_plan(c, rot);
    let st = move_state(s.puzzle, plan.0, plan.1, plan.0.len());
    match st.1 {
        Some(k) => (SimV { puzzle: st.0, ..s }, Outcome::Err(k)),
        None => {
            let s2 = SimV {
                puzzle: st.0,
                moves: (s.moves + 1) as u64,
                history: s.history.push((c.0, rot)),
                ..s
            };
            match turnable_spec(st.0) {
                Outcome::Err(k) => (s2, Outcome::Err(k)),
                Outcome::Ok(g) => (SimV { grips: g, ..s2 }, Outcome::Ok(())),
            }
        },
    }
}

/// `begin_turn(ci, turn)`: the state after the turn, and the rotation it
/// applied or why it failed.
pub open spec fn turn_spec(s: SimV, ci: usize, turn: Turn) -> (SimV, Outcome<QuatV>) {
    match plan_spec(s, ci, turn) {
        Outcome::Err(k) => (s, Outcome::Err(k)),
        Outcome::Ok(p) => {
            let a = apply_spec(s, p.0, p.1);
            (
                a.0,
                match a.1 {
                    Outcome::Err(k) => Outcome::Err(k),
                    Outcome::Ok(_) => Outcome::Ok(p.1),
                },
            )
        },
    }
}

/// What a simulator says of a grip number it does not have.
pub open spec fn no_such_grip(ci: nat, n: nat) -> Seq<char> {
    "grip index "@ + decimal_digits(ci) + " out of range (have "@ + decimal_digits(n) + ")"@
}

/// Picks survive a move that keeps the pieces' vertices.
proof fn lemma_nums_kept(ps: Seq<PieceV>, ps2: Seq<PieceV>, nums: Seq<usize>)
    requires
        nums_ok(ps, nums),
        ps2.len() == ps.len(),
        forall|i: int| 0 <= i < ps.len() ==> (#[trigger] ps2[i]).vertices == ps[i].vertices,
    ensures
        nums_ok(ps2, nums),
{
    assert forall|j: int| 0 <= j < nums.len() implies #[trigger] nums[j] < ps2.len() && ps2[nums[j] as int].vertices.len()
        > 0 by {
        assert(nums[j] < ps.len() && ps[nums[j] as int].vertices.len() > 0);
    }
}

proof fn lemma_grips_kept(ps: Seq<PieceV>, ps2: Seq<PieceV>, g: Seq<Cut>)
    requires
        grips_wf(ps, g),
        ps2.len() == ps.len(),
        forall|i: int| 0 <= i < ps.len() ==> (#[trigger] ps2[i]).vertices == ps[i].vertices,
    ensures
        grips_wf(ps2, g),
{
    assert forall|k: int| 0 <= k < g.len() implies #[trigger] grip_wf(ps2, g[k]@) by {
        assert(grip_wf(ps, g[k]@));
        lemma_nums_kept(ps, ps2, g[k]@.1);
        lemma_nums_kept(ps, ps2, g[k]@.2);
    }
}

impl Simulator {
    /// A simulator for a puzzle, with its grips found and no turns made.
    pub fn new(puzzle: Puzzle) -> (r: core::result::Result<Simulator, Error>)
        requires
            puzzle_ok(puzzle@),
        ensures
            match r {
                Ok(s) => turnable_spec(puzzle@) == Outcome::Ok(s@.grips) && s@.puzzle == puzzle@
                    && s@.history.len() == 0 && s@.moves == 0 && s.wf(),
                Err(e) => turnable_spec(puzzle@) == Outcome::<Seq<CutV>>::Err(e.spec_error_kind()),
            },
    {
        let grips = turnable_cuts(&puzzle)?;
        let history: Vec<(ExactPlane, ExactQuaternion)> = Vec::new();
        let s = Simulator { puzzle, grips, history, move_count: 0 };
        proof {
            assert(history_views(s.history@) =~= Seq::<(PlaneV, QuatV)>::empty());
        }
        Ok(s)
    }

    /// The grip and the rotation a turn of grip `ci` would apply: a named
    /// stop, or the nearest stop the way `turn` points that is not where the
    /// grip already sits; a grip with no stops turns by the identity.
    pub fn plan_turn(&self, ci: usize, turn: Turn) -> (r: core::result::Result<(Cut, ExactQuaternion), Error>)
        requires
            self.wf(),
        ensures
            match r {
                Ok(t) => plan_spec(self@, ci, turn) == Outcome::Ok((t.0@, t.1@)) && grip_wf(self@.puzzle, t.0@)
                    && quat_wf(t.1@),
                Err(e) => plan_spec(self@, ci, turn) == Outcome::<(CutV, QuatV)>::Err(e.spec_error_kind()),
            },
            ci >= self@.grips.len() ==> (r matches Err(e) && e.spec_message() == no_such_grip(
                ci as nat,
                self@.grips.len(),
            )),
    {
        if ci >= self.grips.len() {
            let mut m = String::from_str("grip index ");
            m.append(u64_decimal(ci as u64).as_str());
            m.append(" out of range (have ");
            m.append(u64_decimal(self.grips.len() as u64).as_str());
            m.append(")");
            return Err(Error::Range(m));
        }
        proof {
            assert(grip_wf(self@.puzzle, self.grips@[ci as int]@));
            assert(self@.grips[ci as int] == self.grips@[ci as int]@);
        }
        let cut = copy_cut(&self.grips[ci]);
        let rots = find_stops(&self.puzzle, &cut)?;
        let ghost l = quat_views(rots@);
        match turn {
            Turn::Stop(k) => {
                if k < rots.len() {
                    proof {
                        assert(l[k as int] == rots@[k as int]@);
                    }
                    let q = rots[k].copy();
                    Ok((cut, q))
                } else {
                    let mut m = String::from_str("stop index ");
                    m.append(u64_decimal(k as u64).as_str());
                    m.append(" out of range (grip ");
                    m.append(u64_decimal(ci as u64).as_str());
                    m.append(" has ");
                    m.append(u64_decimal(rots.len() as u64).as_str());
                    m.append(")");
                    Err(Error::Range(m))
                }
            },
            Turn::Direction(d) => {
                if rots.len() == 0 {
                    let q = ExactQuaternion::identity()?;
                    return Ok((cut, q));
                }
                let zi = if d < 0 {
                    Self::scan_down(&rots)?
                } else {
                    Self::scan_up(&rots)?
                };
                proof {
                    assert(l[zi as int] == rots@[zi as int]@);
                }
                let q = rots[zi].copy();
                Ok((cut, q))
            },
        }
    }

    fn scan_down(rots: &Vec<ExactQuaternion>) -> (r: core::result::Result<usize, Error>)
        requires
            rots@.len() > 0,
            forall|k: int| 0 <= k < rots@.len() ==> #[trigger] quat_wf(rots@[k]@),
        ensures
            match r {
                Ok(i) => scan_down_spec(quat_views(rots@), rots@.len() - 1) == Outcome::Ok(i as int) && i
                    < rots@.len(),
                Err(e) => scan_down_spec(quat_views(rots@), rots@.len() - 1) == Outcome::<int>::Err(
                    e.spec_error_kind(),
                ),
            },
    {
        let ghost l = quat_views(rots@);
        let mut zi = rots.len() - 1;
        loop
            invariant
                0 <= zi < rots@.len(),
                l == quat_views(rots@),
                forall|k: int| 0 <= k < rots@.len() ==> #[trigger] quat_wf(rots@[k]@),
                scan_down_spec(l, l.len() - 1) == scan_down_spec(l, zi as int),
            decreases zi,
        {
            proof {
                assert(l[zi as int] == rots@[zi as int]@);
            }
            let z = zero_angle_exec(&rots[zi])?;
            if z && zi > 0 {
                zi = zi - 1;
            } else {
                return Ok(zi);
            }
        }
    }

    fn scan_up(rots: &Vec<ExactQuaternion>) -> (r: core::result::Result<usize, Error>)
        requires
            rots@.len() > 0,
            forall|k: int| 0 <= k < rots@.len() ==> #[trigger] quat_wf(rots@[k]@),
        ensures
            match r {
                Ok(i) => scan_up_spec(quat_views(rots@), 0) == Outcome::Ok(i as int) && i < rots@.len(),
                Err(e) => scan_up_spec(quat_views(rots@), 0) == Outcome::<int>::Err(e.spec_error_kind()),
            },
    {
        let ghost l = quat_views(rots@);
        let mut zi: usize = 0;
        loop
            invariant
                0 <= zi < rots@.len(),
                l == quat_views(rots@),
                forall|k: int| 0 <= k < rots@.len() ==> #[trigger] quat_wf(rots@[k]@),
                scan_up_spec(l, 0) == scan_up_spec(l, zi as int),
            decreases rots@.len() - zi,
        {
            proof {
                assert(l[zi as int] == rots@[zi as int]@);
            }
            let z = zero_angle_exec(&rots[zi])?;
            if z && zi < rots.len() - 1 {
                zi = zi + 1;
            } else {
                return Ok(zi);
            }
        }
    }

    /// Every rotation grip `ci` can be turned to, by increasing angle.
    pub fn stops(&self, ci: usize) -> (r: core::result::Result<Vec<ExactQuaternion>, Error>)
        requires
            self.wf(),
        ensures
            ci >= self@.grips.len() ==> (r matches Err(e) && e.spec_error_kind() == ErrorKind::Range
                && e.spec_message() == no_such_grip(ci as nat, self@.grips.len())),
            ci < self@.grips.len() ==> match r {
                Ok(v) => find_stops_spec(self@.puzzle, self@.grips[ci as int]) == Outcome::Ok(quat_views(v@)),
                Err(e) => find_stops_spec(self@.puzzle, self@.grips[ci as int]) == Outcome::<Seq<QuatV>>::Err(
                    e.spec_error_kind(),
                ),
            },
    {
        if ci >= self.grips.len() {
            let mut m = String::from_str("grip index ");
            m.append(u64_decimal(ci as u64).as_str());
            m.append(" out of range (have ");
            m.append(u64_decimal(self.grips.len() as u64).as_str());
            m.append(")");
            return Err(Error::Range(m));
        }
        proof {
            assert(grip_wf(self@.puzzle, self.grips@[ci as int]@));
            assert(self@.grips[ci as int] == self.grips@[ci as int]@);
        }
        find_stops(&self.puzzle, &self.grips[ci])
    }

    /// How many turns have been made.
    pub fn moves_made(&self) -> (r: u64)
        ensures
            r == self@.moves,
    {
        self.move_count
    }

    /// How many turns are recorded.
    pub fn history_len(&self) -> (r: usize)
        ensures
            r == self@.history.len(),
    {
        self.history.len()
    }

    /// How many grips the puzzle has.
    pub fn grip_count(&self) -> (r: usize)
        ensures
            r == self@.grips.len(),
    {
        self.grips.len()
    }

    /// Turn the puzzle about `cut` by `rot`, count and record the turn, and
    /// find the grips again.
    pub fn apply_turn(&mut self, cut: &Cut, rot: &ExactQuaternion) -> (r: core::result::Result<(), Error>)
        requires
            old(self).wf(),
            grip_wf(old(self)@.puzzle, cut@),
            quat_wf(rot@),
            old(self)@.moves < u64::MAX,
        ensures
            apply_spec(old(self)@, cut@, rot@) == (
                final(self)@,
                match r {
                    Ok(_) => Outcome::<()>::Ok(()),
                    Err(e) => Outcome::<()>::Err(e.spec_error_kind()),
                },
            ),
            final(self).wf(),
    {
        let ghost s0 = self@;
        proof {
            assert forall|j: int| 0 <= j < cut@.1.len() implies #[trigger] cut@.1[j] < self.puzzle@.len() by {}
            assert forall|j: int| 0 <= j < cut@.2.len() implies #[trigger] cut@.2[j] < self.puzzle@.len() by {}
        }
        let moved = make_move(&mut self.puzzle, cut, rot);
        proof {
            lemma_nums_kept(s0.puzzle, self.puzzle@, nums_of(s0.puzzle.len(), None));
            assert(nums_of(s0.puzzle.len(), None) == nums_of(self.puzzle@.len(), None));
            lemma_grips_kept(s0.puzzle, self.puzzle@, self.grips@);
        }
        match moved {
            Ok(_) => {},
            Err(e) => {
                return Err(e);
            },
        }
        self.move_count = self.move_count + 1;
        let ghost h0 = history_views(self.history@);
        let entry = (cut.plane.copy(), rot.copy());
        self.history.push(entry);
        proof {
            assert(history_views(self.history@) =~= h0.push((cut@.0, rot@)));
        }
        let grips = turnable_cuts(&self.puzzle)?;
        self.grips = grips;
        Ok(())
    }

    /// Turn grip `ci` the way `turn` says: plan the turn, then apply it.
    /// The rotation applied comes back, for an animation to show.
    pub fn begin_turn(&mut self, ci: usize, turn: Turn) -> (r: core::result::Result<ExactQuaternion, Error>)
        requires
            old(self).wf(),
            old(self)@.moves < u64::MAX,
        ensures
            turn_spec(old(self)@, ci, turn) == (
                final(self)@,
                match r {
                    Ok(q) => Outcome::Ok(q@),
                    Err(e) => Outcome::<QuatV>::Err(e.spec_error_kind()),
                },
            ),
            final(self).wf(),
            ci >= old(self)@.grips.len() ==> r is Err && final(self)@ == old(self)@,
    {
        let (cut, rot) = self.plan_turn(ci, turn)?;
        self.apply_turn(&cut, &rot)?;
        Ok(rot)
    }
}

/// A turn that goes through counts one more move, records the grip's plane
/// and the rotation applied after the turns before it, and leaves the grips
/// as the turned puzzle has them; a turn refused before it moves anything
/// leaves the simulator as it was.
pub proof fn lemma_turn_records(s: SimV, ci: usize, turn: Turn)
    requires
        s.moves < u64::MAX,
    ensures
        turn_spec(s, ci, turn).1 matches Outcome::Ok(q) ==> {
            let t = turn_spec(s, ci, turn).0;
            &&& ci < s.grips.len()
            &&& t.moves == s.moves + 1
            &&& t.history == s.history.push((s.grips[ci as int].0, q))
            &&& turnable_spec(t.puzzle) == Outcome::Ok(t.grips)
        },
        plan_spec(s, ci, turn) is Err ==> turn_spec(s, ci, turn).0 == s,
        ci >= s.grips.len() ==> turn_spec(s, ci, turn) == (s, Outcome::<QuatV>::Err(ErrorKind::Range)),
{
}

/// Scanning up from `zi` passes only zero rotations and stops at the first
/// stop that is not one, or at the last stop.
proof fn lemma_scan_up(l: Seq<QuatV>, zi: int)
    requires
        0 <= zi < l.len(),
        forall|j: int| 0 <= j < l.len() ==> #[trigger] zero_angle(l[j]) is Ok,
    ensures
        scan_up_spec(l, zi) matches Outcome::Ok(i) && zi <= i < l.len() && (forall|j: int|
            zi <= j < i ==> #[trigger] zero_angle(l[j]) == Outcome::Ok(true)) && (i == l.len() - 1 || zero_angle(
            l[i],
        ) == Outcome::Ok(false)),
    decreases l.len() - zi,
{
    assert(zero_angle(l[zi]) is Ok);
    if zero_angle(l[zi]) == Outcome::Ok(true) && zi < l.len() - 1 {
        lemma_scan_up(l, zi + 1);
    }
}

/// Scanning down from `zi` passes only zero rotations and stops at the
/// first stop that is not one, or at the first stop of all.
proof fn lemma_scan_down(l: Seq<QuatV>, zi: int)
    requires
        0 <= zi < l.len(),
        forall|j: int| 0 <= j < l.len() ==> #[trigger] zero_angle(l[j]) is Ok,
    ensures
        scan_down_spec(l, zi) matches Outcome::Ok(i) && 0 <= i <= zi && (forall|j: int|
            i < j <= zi ==> #[trigger] zero_angle(l[j]) == Outcome::Ok(true)) && (i == 0 || zero_angle(l[i])
            == Outcome::Ok(false)),
    decreases zi,
{
    assert(zero_angle(l[zi]) is Ok);
    if zero_angle(l[zi]) == Outcome::Ok(true) && zi > 0 {
        lemma_scan_down(l, zi - 1);
    }
}

/// A directed turn of a grip lands on the nearest stop the way it points
/// that is not the zero rotation. The grip's stops come by increasing
/// angle; with `d >= 0` the turn goes to the first of them whose angle is
/// not zero, with `d < 0` to the last of them (the last or the first stop
/// when all are zero). The grip turned is grip `ci` itself.
pub proof fn lemma_direction_finds_nearest_stop(s: SimV, ci: usize, d: i32, l: Seq<QuatV>)
    requires
        ci < s.grips.len(),
        find_stops_spec(s.puzzle, s.grips[ci as int]) == Outcome::Ok(l),
        l.len() > 0,
        forall|j: int| 0 <= j < l.len() ==> #[trigger] zero_angle(l[j]) is Ok,
    ensures
        plan_spec(s, ci, Turn::Direction(d)) matches Outcome::Ok(t) && t.0 == s.grips[ci as int] && exists|
            i: int,
        |
            0 <= i < l.len() && t.1 == l[i] && (d >= 0 ==> (forall|j: int|
                0 <= j < i ==> #[trigger] zero_angle(l[j]) == Outcome::Ok(true)) && (i == l.len() - 1
                || zero_angle(l[i]) == Outcome::Ok(false))) && (d < 0 ==> (forall|j: int|
                i < j < l.len() ==> #[trigger] zero_angle(l[j]) == Outcome::Ok(true)) && (i == 0 || zero_angle(
                l[i],
            ) == Outcome::Ok(false))),
{
    if d < 0 {
        lemma_scan_down(l, l.len() - 1);
        let i = scan_down_spec(l, l.len() - 1)->Ok_0;
        assert(plan_spec(s, ci, Turn::Direction(d)) == Outcome::Ok((s.grips[ci as int], l[i])));
    } else {
        lemma_scan_up(l, 0);
        let i = scan_up_spec(l, 0)->Ok_0;
        assert(plan_spec(s, ci, Turn::Direction(d)) == Outcome::Ok((s.grips[ci as int], l[i])));
    }
}

/// Where a grip is inserted among sorted grips is within them.
proof fn lemma_grip_pos_le(s: Seq<CutV>, x: CutV, j: nat)
    ensures
        grip_pos(s, x, j) matches Outcome::Ok(p) ==> p <= j,
    decreases j,
{
    if j > 0 {
        lemma_grip_pos_le(s, x, (j - 1) as nat);
    }
}

/// Sorting the grips keeps every one of them.
proof fn lemma_grip_sort_keeps(a: Seq<CutV>, n: nat)
    requires
        n <= a.len(),
    ensures
        grip_sort(a, n) matches Outcome::Ok(s) ==> s.len() == n && forall|i: int|
            0 <= i < n ==> s.contains(#[trigger] a[i]),
    decreases n,
{
    if n > 0 {
        lemma_grip_sort_keeps(a, (n - 1) as nat);
        if let Outcome::Ok(s0) = grip_sort(a, (n - 1) as nat) {
            lemma_grip_pos_le(s0, a[n - 1], s0.len());
            if let Outcome::Ok(p) = grip_pos(s0, a[n - 1], s0.len()) {
                let s1 = s0.insert(p as int, a[n - 1]);
                assert(s1[p as int] == a[n - 1]);
                assert forall|i: int| 0 <= i < n implies s1.contains(#[trigger] a[i]) by {
                    if i < n - 1 {
                        assert(s0.contains(a[i]));
                        let k = choose|k: int| 0 <= k < s0.len() && s0[k] == a[i];
                        if k < p {
                            assert(s1[k] == a[i]);
                        } else {
                            assert(s1[k + 1] == a[i]);
                        }
                    }
                }
            }
        }
    }
}

/// The first `n` cuts each give their grips: the cut itself when its plane
/// constant is at most zero, the cut turned the other way when at least
/// zero.
proof fn lemma_candidates_keep(cs: Seq<CutV>, n: nat)
    requires
        n <= cs.len(),
    ensures
        grip_candidates(cs, n) matches Outcome::Ok(g) ==> forall|k: int|
            0 <= k < n ==> (number_sign_spec(#[trigger] cs[k].0.1) matches Outcome::Ok(sg) && (sg <= 0
                ==> g.contains(cs[k])) && (sg >= 0 ==> g.contains(cut_neg(cs[k])))),
    decreases n,
{
    reveal(const_sign);
    if n > 0 {
        lemma_candidates_keep(cs, (n - 1) as nat);
        if let Outcome::Ok(g0) = grip_candidates(cs, (n - 1) as nat) {
            if let Outcome::Ok(sg) = const_sign(cs[n - 1].0.1) {
                let g1 = if sg <= 0 {
                    g0.push(cs[n - 1])
                } else {
                    g0
                };
                let g2 = if sg >= 0 {
                    g1.push(cut_neg(cs[n - 1]))
                } else {
                    g1
                };
                assert(grip_candidates(cs, n) == Outcome::Ok(g2));
                assert forall|x: CutV| g0.contains(x) implies g2.contains(x) by {
                    let k = choose|k: int| 0 <= k < g0.len() && g0[k] == x;
                    assert(g1[k] == x);
                    assert(g2[k] == x);
                }
                if sg <= 0 {
                    assert(g1[g0.len() as int] == cs[n - 1]);
                    assert(g2[g0.len() as int] == cs[n - 1]);
                }
                if sg >= 0 {
                    assert(g2[g1.len() as int] == cut_neg(cs[n - 1]));
                }
            }
        }
    }
}

/// Every cut the puzzle has is a grip: the cut itself when its plane
/// constant is at most zero, and the cut turned the other way (plane
/// negated, front and back swapped) when at least zero. A cut through the
/// center, with constant zero, is a grip both ways.
pub proof fn lemma_grips_cover_cuts(ps: Seq<PieceV>)
    ensures
        turnable_spec(ps) matches Outcome::Ok(g) ==> (find_cuts_spec(ps, nums_of(ps.len(), None)) matches Outcome::Ok(
            cs,
        ) && forall|k: int|
            0 <= k < cs.len() ==> (number_sign_spec(#[trigger] cs[k].0.1) matches Outcome::Ok(sg) && (sg <= 0
                ==> g.contains(cs[k])) && (sg >= 0 ==> g.contains(cut_neg(cs[k]))))),
        turnable_spec(ps) matches Outcome::Ok(g) ==> (find_cuts_spec(ps, nums_of(ps.len(), None)) matches Outcome::Ok(
            cs,
        ) && forall|k: int|
            0 <= k < cs.len() && (#[trigger] cs[k].0.1).1.2 == -1 ==> g.contains(cs[k]) && g.contains(
                cut_neg(cs[k]),
            )),
{
    if let Outcome::Ok(cs) = find_cuts_spec(ps, nums_of(ps.len(), None)) {
        lemma_candidates_keep(cs, cs.len());
        if let Outcome::Ok(a) = grip_candidates(cs, cs.len()) {
            lemma_grip_sort_keeps(a, a.len());
            if let Outcome::Ok(g) = grip_sort(a, a.len()) {
                assert forall|x: CutV| a.contains(x) implies g.contains(x) by {
                    let k = choose|k: int| 0 <= k < a.len() && a[k] == x;
                    assert(g.contains(a[k]));
                }
            }
        }
    }
}

} // verus!
