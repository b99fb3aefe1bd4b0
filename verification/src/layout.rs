//! A puzzle's stickers numbered face by face, and the moves over them.
//!
//! A cube is read the way the literature reads one: six faces `U, D, L, R,
//! B, F`, each a grid read row by row, so a solved cube is
//! `0,0,0,...,1,1,1,...`. Every other puzzle keeps its own slot order, which
//! already groups slots by color. Moves are permutations of the facelets:
//! `moves[m][i] = j` means that after move `m`, facelet `i` holds what
//! facelet `j` held. A layout is then a complete engine for its puzzle: a
//! batch of states is stepped, walked and read with no simulator in sight.
//!
//! Where each sticker of a cube sits, and what a face turn does to the
//! facelets, is geometry; the numbering and everything done with it is here.

use vstd::prelude::*;
use vstd::string::{StrSliceExecFns, StringExecFns};

use crate::batch::{
    apply_moves, gather, lemma_uniform_flatten, mix, is_arrangement_spec, lemma_flatten_step, names_slot, next_below, next_below_spec,
};
use crate::error::{Error, ErrorKind};
use crate::num::digits::{decimal_digits, u64_decimal};
use crate::num::ring::Outcome;

verus! {

/// A cube's faces, in the order they are numbered.
pub open spec fn face_letter(f: int) -> char {
    if f == 0 {
        'U'
    } else if f == 1 {
        'D'
    } else if f == 2 {
        'L'
    } else if f == 3 {
        'R'
    } else if f == 4 {
        'B'
    } else {
        'F'
    }
}

/// The mathematical contents of a layout.
pub struct LayoutView {
    /// The puzzle, as a canonical query.
    pub recipe: Seq<char>,
    /// For a cube, how many facelets a face has along one side.
    pub size: Option<usize>,
    /// How many faces there are.
    pub face_count: nat,
    /// Where each slot sits in the face numbering, and back.
    pub facelet_of_slot: Seq<u32>,
    pub slot_of_facelet: Seq<u32>,
    /// The face each sticker color belongs to, and back.
    pub face_of_color: Seq<u16>,
    pub color_of_face: Seq<u16>,
    /// How many facelets each face carries, and what each face is called.
    pub face_sizes: Seq<u32>,
    pub face_names: Seq<Seq<char>>,
    /// The face each facelet belongs to when solved.
    pub goal: Seq<u32>,
    /// Every move as a permutation of the facelets, and its name.
    pub moves: Seq<Seq<u32>>,
    pub names: Seq<Seq<char>>,
    /// The puzzle's own action for each move, where it has one.
    pub actions: Seq<Option<u32>>,
    /// The move that undoes each move, where the layout has one.
    pub inverse: Seq<Option<u32>>,
}

/// Two numberings of `k` things that undo each other.
pub open spec fn mutual_inverse(a: Seq<u32>, b: Seq<u32>, k: nat) -> bool {
    &&& a.len() == k
    &&& b.len() == k
    &&& forall|s: int| 0 <= s < k ==> #[trigger] a[s] < k && b[a[s] as int] == s
    &&& forall|f: int| 0 <= f < k ==> #[trigger] b[f] < k && a[b[f] as int] == f
}

/// The move list of a layout: permutations of the facelets, each named, and
/// the inverses, when known, in range.
pub open spec fn moves_wf(v: LayoutView) -> bool {
    let k = v.goal.len();
    &&& v.moves.len() < u32::MAX
    &&& forall|m: int| 0 <= m < v.moves.len() ==> #[trigger] is_arrangement_spec(v.moves[m], k)
    &&& v.names.len() == v.moves.len()
    &&& v.actions.len() == v.moves.len()
    &&& v.inverse.len() == v.moves.len()
    &&& forall|m: int|
        0 <= m < v.inverse.len() && (#[trigger] v.inverse[m]) is Some ==> v.inverse[m]->0 < v.moves.len()
}

/// Whether a layout's parts fit together.
pub open spec fn layout_wf(v: LayoutView) -> bool {
    let k = v.goal.len();
    &&& k < u32::MAX
    &&& mutual_inverse(v.facelet_of_slot, v.slot_of_facelet, k)
    &&& v.color_of_face.len() == v.face_count
    &&& v.face_sizes.len() == v.face_count
    &&& v.face_names.len() == v.face_count
    &&& forall|i: int| 0 <= i < k ==> #[trigger] v.goal[i] < v.face_count
    &&& forall|f: int|
        0 <= f < v.face_count ==> (#[trigger] v.color_of_face[f]) < v.face_of_color.len()
            && v.face_of_color[v.color_of_face[f] as int] == f
    &&& moves_wf(v)
    &&& v.inverse == inverses_spec(v.moves)
}

/// The views of a list of strings.
pub open spec fn strs(v: Seq<String>) -> Seq<Seq<char>> {
    v.map_values(|s: String| s@)
}

/// The views of a list of rows.
pub open spec fn rows(v: Seq<Vec<u32>>) -> Seq<Seq<u32>> {
    v.map_values(|r: Vec<u32>| r@)
}

/// A puzzle's stickers, numbered face by face, and the moves over them.
pub struct Layout {
    recipe: String,
    size: Option<usize>,
    face_count: usize,
    facelet_of_slot: Vec<u32>,
    slot_of_facelet: Vec<u32>,
    face_of_color: Vec<u16>,
    color_of_face: Vec<u16>,
    face_sizes: Vec<u32>,
    face_names: Vec<String>,
    goal: Vec<u32>,
    moves: Vec<Vec<u32>>,
    names: Vec<String>,
    actions: Vec<Option<u32>>,
    inverse: Vec<Option<u32>>,
}

impl View for Layout {
    type V = LayoutView;

    closed spec fn view(&self) -> LayoutView {
        LayoutView {
            recipe: self.recipe@,
            size: self.size,
            face_count: self.face_count as nat,
            facelet_of_slot: self.facelet_of_slot@,
            slot_of_facelet: self.slot_of_facelet@,
            face_of_color: self.face_of_color@,
            color_of_face: self.color_of_face@,
            face_sizes: self.face_sizes@,
            face_names: strs(self.face_names@),
            goal: self.goal@,
            moves: rows(self.moves@),
            names: strs(self.names@),
            actions: self.actions@,
            inverse: self.inverse@,
        }
    }
}

/// `0, 1, ..., n - 1` as `u32`s.
pub open spec fn iota(n: nat) -> Seq<u32> {
    Seq::new(n, |i: int| i as u32)
}

/// How many of the first `j` entries of `s` equal `c`.
pub open spec fn count_of(s: Seq<u16>, c: int, j: nat) -> nat
    decreases j,
{
    if j == 0 {
        0
    } else {
        count_of(s, c, (j - 1) as nat) + if s[j - 1] as int == c {
            1nat
        } else {
            0nat
        }
    }
}

/// A count is at most the number of entries looked at.
proof fn lemma_count_le(s: Seq<u16>, c: int, j: nat)
    ensures
        count_of(s, c, j) <= j,
    decreases j,
{
    if j > 0 {
        lemma_count_le(s, c, (j - 1) as nat);
    }
}

/// The layout of a puzzle read in its own order.
pub open spec fn as_numbered_spec(count: nat, solved: Seq<u16>, colors: nat) -> LayoutView {
    LayoutView {
        recipe: Seq::empty(),
        size: None,
        face_count: colors,
        facelet_of_slot: iota(count),
        slot_of_facelet: iota(count),
        face_of_color: Seq::new(colors, |c: int| c as u16),
        color_of_face: Seq::new(colors, |c: int| c as u16),
        face_sizes: Seq::new(colors, |c: int| count_of(solved, c, solved.len()) as u32),
        face_names: Seq::new(colors, |c: int| decimal_digits(c as nat)),
        goal: solved.map_values(|c: u16| c as u32),
        moves: Seq::empty(),
        names: Seq::empty(),
        actions: Seq::empty(),
        inverse: Seq::empty(),
    }
}

impl Layout {
    /// Whether the parts fit together.
    pub open spec fn wf(&self) -> bool {
        layout_wf(self@)
    }

    /// The layout of a puzzle read in its own order: slots are already
    /// numbered in color order, so the mapping between orders is the identity and the
    /// faces are the colors.
    pub fn as_numbered(count: usize, solved: &[u16], colors: usize) -> (r: Layout)
        requires
            solved@.len() == count,
            count < u32::MAX,
            colors <= u16::MAX,
            forall|i: int| 0 <= i < solved@.len() ==> #[trigger] solved@[i] < colors,
        ensures
            r@ == as_numbered_spec(count as nat, solved@, colors as nat),
            r.wf(),
    {
        let mut face_sizes: Vec<u32> = Vec::new();
        let mut c: usize = 0;
        while c < colors
            invariant
                c <= colors,
                face_sizes@.len() == c,
                forall|j: int| 0 <= j < c ==> #[trigger] face_sizes@[j] == 0,
            decreases colors - c,
        {
            face_sizes.push(0);
            c = c + 1;
        }
        let mut i: usize = 0;
        while i < solved.len()
            invariant
                i <= solved@.len() == count < u32::MAX,
                face_sizes@.len() == colors,
                forall|j: int| 0 <= j < solved@.len() ==> #[trigger] solved@[j] < colors,
                forall|j: int| 0 <= j < colors ==> #[trigger] face_sizes@[j] == count_of(solved@, j, i as nat),
            decreases solved@.len() - i,
        {
            let c = solved[i] as usize;
            proof {
                lemma_count_le(solved@, c as int, i as nat);
            }
            let n = face_sizes[c];
            face_sizes.set(c, n + 1);
            i = i + 1;
        }
        let mut fos: Vec<u32> = Vec::new();
        let mut j: usize = 0;
        while j < count
            invariant
                j <= count < u32::MAX,
                fos@ == iota(j as nat),
            decreases count - j,
        {
            fos.push(j as u32);
            j = j + 1;
            proof {
                assert(fos@ =~= iota(j as nat));
            }
        }
        let sof = fos.clone();
        let mut foc: Vec<u16> = Vec::new();
        let mut names: Vec<String> = Vec::new();
        let mut c: usize = 0;
        while c < colors
            invariant
                c <= colors <= u16::MAX,
                foc@ == Seq::new(c as nat, |x: int| x as u16),
                strs(names@) == Seq::new(c as nat, |x: int| decimal_digits(x as nat)),
            decreases colors - c,
        {
            foc.push(c as u16);
            let ghost before = strs(names@);
            let s = u64_decimal(c as u64);
            names.push(s);
            c = c + 1;
            proof {
                assert(foc@ =~= Seq::new(c as nat, |x: int| x as u16));
                assert(strs(names@) =~= before.push(s@));
                assert(strs(names@) =~= Seq::new(c as nat, |x: int| decimal_digits(x as nat)));
            }
        }
        let cof = foc.clone();
        let mut goal: Vec<u32> = Vec::new();
        let mut i: usize = 0;
        while i < solved.len()
            invariant
                i <= solved@.len(),
                goal@ == solved@.take(i as int).map_values(|c: u16| c as u32),
            decreases solved@.len() - i,
        {
            goal.push(solved[i] as u32);
            i = i + 1;
            proof {
                assert(goal@ =~= solved@.take(i as int).map_values(|c: u16| c as u32));
            }
        }
        proof {
            assert(solved@.take(solved@.len() as int) =~= solved@);
            assert(face_sizes@ =~= Seq::new(
                colors as nat,
                |c: int| count_of(solved@, c, solved@.len()) as u32,
            ));
        }
        let r = Layout {
            recipe: String::new(),
            size: None,
            face_count: colors,
            facelet_of_slot: fos,
            slot_of_facelet: sof,
            face_of_color: foc,
            color_of_face: cof,
            face_sizes,
            face_names: names,
            goal,
            moves: Vec::new(),
            names: Vec::new(),
            actions: Vec::new(),
            inverse: Vec::new(),
        };
        proof {
            assert(strs(r.names@) =~= Seq::<Seq<char>>::empty());
            assert(rows(r.moves@) =~= Seq::<Seq<u32>>::empty());
            assert(r@.goal =~= as_numbered_spec(count as nat, solved@, colors as nat).goal);
            assert(inverses_spec(r@.moves) =~= r@.inverse);
        }
        r
    }
}


/// No slot or face yet.
pub const UNSET: u32 = u32::MAX;

/// No face yet, for a color.
pub const NO_FACE: u16 = u16::MAX;

/// The first `j` slots of a cube put on the facelets they were found on.
pub open spec fn place_spec(located: Seq<Option<usize>>, j: nat, k: nat) -> Outcome<(Seq<u32>, Seq<u32>)>
    decreases j,
{
    if j == 0 {
        Outcome::Ok((Seq::new(k, |i: int| UNSET), Seq::new(k, |i: int| UNSET)))
    } else {
        match place_spec(located, (j - 1) as nat, k) {
            Outcome::Err(e) => Outcome::Err(e),
            Outcome::Ok(pl) => match located[j - 1] {
                None => Outcome::Err(ErrorKind::State),
                Some(f) => if pl.1[f as int] != UNSET {
                    Outcome::Err(ErrorKind::State)
                } else {
                    Outcome::Ok((pl.0.update(j - 1, f as u32), pl.1.update(f as int, (j - 1) as u32)))
                },
            },
        }
    }
}

/// The faces of the first `j` slots' colors: each color on one face.
pub open spec fn paint_spec(solved: Seq<u16>, fos: Seq<u32>, per_face: nat, j: nat, colors: nat) -> Outcome<
    (Seq<u16>, Seq<u16>),
>
    decreases j,
{
    if j == 0 {
        Outcome::Ok((Seq::new(colors, |i: int| NO_FACE), Seq::new(6, |i: int| NO_FACE)))
    } else {
        match paint_spec(solved, fos, per_face, (j - 1) as nat, colors) {
            Outcome::Err(e) => Outcome::Err(e),
            Outcome::Ok(pc) => {
                let c = solved[j - 1];
                let face = (fos[j - 1] as int / per_face as int) as u16;
                let held = pc.0[c as int];
                if held != NO_FACE && held != face {
                    Outcome::Err(ErrorKind::State)
                } else {
                    Outcome::Ok((pc.0.update(c as int, face), pc.1.update(face as int, c)))
                }
            },
        }
    }
}

/// The layout of a cube whose slots were found on the given facelets.
pub open spec fn on_a_cube_spec(size: nat, located: Seq<Option<usize>>, solved: Seq<u16>, colors: nat) -> Outcome<
    LayoutView,
> {
    let k = located.len();
    let per_face = size * size;
    match place_spec(located, k, k) {
        Outcome::Err(e) => Outcome::Err(e),
        Outcome::Ok(pl) => if exists|f: int| 0 <= f < k && pl.1[f] == UNSET {
            Outcome::Err(ErrorKind::State)
        } else {
            match paint_spec(solved, pl.0, per_face, k, colors) {
                Outcome::Err(e) => Outcome::Err(e),
                Outcome::Ok(pc) => Outcome::Ok(
                    LayoutView {
                        recipe: Seq::empty(),
                        size: Some(size as usize),
                        face_count: 6,
                        facelet_of_slot: pl.0,
                        slot_of_facelet: pl.1,
                        face_of_color: pc.0,
                        color_of_face: pc.1,
                        face_sizes: Seq::new(6, |f: int| per_face as u32),
                        face_names: Seq::new(6, |f: int| seq![face_letter(f)]),
                        goal: Seq::new(k, |i: int| (i / per_face as int) as u32),
                        moves: Seq::empty(),
                        names: Seq::empty(),
                        actions: Seq::empty(),
                        inverse: Seq::empty(),
                    },
                ),
            }
        },
    }
}

/// A layout as the spec describes it.
pub open spec fn layout_outcome(r: core::result::Result<Layout, Error>) -> Outcome<LayoutView> {
    match r {
        Ok(l) => Outcome::Ok(l@),
        Err(e) => Outcome::Err(e.spec_error_kind()),
    }
}

/// The name of face `f` of a cube.
fn face_name(f: usize) -> (r: String)
    requires
        f < 6,
    ensures
        r@ == seq![face_letter(f as int)],
{
    proof {
        reveal_strlit("U");
        reveal_strlit("D");
        reveal_strlit("L");
        reveal_strlit("R");
        reveal_strlit("B");
        reveal_strlit("F");
    }
    let s = if f == 0 {
        "U"
    } else if f == 1 {
        "D"
    } else if f == 2 {
        "L"
    } else if f == 3 {
        "R"
    } else if f == 4 {
        "B"
    } else {
        "F"
    };
    let r = String::from_str(s);
    assert(r@ =~= seq![face_letter(f as int)]);
    r
}

/// Once the placing fails it stays failed.
proof fn lemma_place_err(located: Seq<Option<usize>>, j: nat, j2: nat, k: nat)
    requires
        j <= j2,
        place_spec(located, j, k) is Err,
    ensures
        place_spec(located, j2, k) == place_spec(located, j, k),
    decreases j2 - j,
{
    if j < j2 {
        lemma_place_err(located, j, (j2 - 1) as nat, k);
    }
}

/// Once the painting fails it stays failed.
proof fn lemma_paint_err(solved: Seq<u16>, fos: Seq<u32>, per_face: nat, j: nat, j2: nat, colors: nat)
    requires
        j <= j2,
        paint_spec(solved, fos, per_face, j, colors) is Err,
    ensures
        paint_spec(solved, fos, per_face, j2, colors) == paint_spec(solved, fos, per_face, j, colors),
    decreases j2 - j,
{
    if j < j2 {
        lemma_paint_err(solved, fos, per_face, j, (j2 - 1) as nat, colors);
    }
}

impl Layout {
    /// The layout of a cube of `size` facelets a side: `located[s]` is the
    /// facelet slot `s` was found on, where it was found on one. Each facelet
    /// must hold one sticker, and each color lie on one face.
    pub fn on_a_cube(size: usize, located: &[Option<usize>], solved: &[u16], colors: usize) -> (r:
        core::result::Result<Layout, Error>)
        requires
            located@.len() == solved@.len(),
            located@.len() == 6 * size * size,
            size >= 1,
            located@.len() < u32::MAX,
            colors <= u16::MAX,
            forall|i: int| 0 <= i < solved@.len() ==> #[trigger] solved@[i] < colors,
            forall|i: int|
                0 <= i < located@.len() && (#[trigger] located@[i]) is Some ==> located@[i]->0
                    < located@.len(),
        ensures
            layout_outcome(r) == on_a_cube_spec(size as nat, located@, solved@, colors as nat),
            r matches Ok(l) ==> l.wf(),
    {
        let count = located.len();
        proof {
            assert(size * size <= count) by (nonlinear_arith)
                requires
                    count == 6 * size * size,
            ;
            assert(size * size >= 1) by (nonlinear_arith)
                requires
                    size >= 1,
            ;
            assert(6 * size * size == 6 * (size * size)) by (nonlinear_arith);
        }
        let per_face = size * size;
        let mut fos: Vec<u32> = Vec::new();
        let mut sof: Vec<u32> = Vec::new();
        let mut i: usize = 0;
        while i < count
            invariant
                i <= count,
                fos@ == Seq::new(i as nat, |x: int| UNSET),
                sof@ == Seq::new(i as nat, |x: int| UNSET),
            decreases count - i,
        {
            fos.push(UNSET);
            sof.push(UNSET);
            i = i + 1;
            proof {
                assert(fos@ =~= Seq::new(i as nat, |x: int| UNSET));
                assert(sof@ =~= Seq::new(i as nat, |x: int| UNSET));
            }
        }
        let mut slot: usize = 0;
        while slot < count
            invariant
                slot <= count == located@.len() < u32::MAX,
                forall|i: int|
                    0 <= i < located@.len() && (#[trigger] located@[i]) is Some ==> located@[i]->0
                        < located@.len(),
                place_spec(located@, slot as nat, count as nat) == Outcome::<(Seq<u32>, Seq<u32>)>::Ok(
                    (fos@, sof@),
                ),
                fos@.len() == count,
                sof@.len() == count,
                forall|s: int| 0 <= s < slot ==> #[trigger] fos@[s] < count && sof@[fos@[s] as int] == s,
                forall|g: int|
                    0 <= g < count && #[trigger] sof@[g] != UNSET ==> sof@[g] < slot && fos@[sof@[g] as int]
                        == g,
            decreases count - slot,
        {
            let f = match located[slot] {
                Some(f) => f,
                None => {
                    proof {
                        lemma_place_err(located@, (slot + 1) as nat, count as nat, count as nat);
                    }
                    let mut m = String::from_str("sticker ");
                    m.append(u64_decimal(slot as u64).as_str());
                    m.append(" is not on the face of a cube");
                    return Err(Error::State(m));
                },
            };
            if sof[f] != UNSET {
                proof {
                    lemma_place_err(located@, (slot + 1) as nat, count as nat, count as nat);
                }
                let mut m = String::from_str("two stickers fall on facelet ");
                m.append(u64_decimal(f as u64).as_str());
                m.append(", so this is not a cube");
                return Err(Error::State(m));
            }
            fos.set(slot, f as u32);
            sof.set(f, slot as u32);
            slot = slot + 1;
        }
        let mut f: usize = 0;
        while f < count
            invariant
                f <= count == sof@.len() == located@.len(),
                forall|g: int| 0 <= g < f ==> #[trigger] sof@[g] != UNSET,
                place_spec(located@, count as nat, count as nat) == Outcome::<(Seq<u32>, Seq<u32>)>::Ok(
                    (fos@, sof@),
                ),
            decreases count - f,
        {
            if sof[f] == UNSET {
                proof {
                    assert(sof@[f as int] == UNSET);
                    assert(exists|g: int| 0 <= g < count && sof@[g] == UNSET);
                }
                let mut m = String::from_str("no sticker falls on facelet ");
                m.append(u64_decimal(f as u64).as_str());
                m.append(", so this is not a cube");
                return Err(Error::State(m));
            }
            f = f + 1;
        }
        proof {
            assert(mutual_inverse(fos@, sof@, count as nat));
            assert(!(exists|g: int| 0 <= g < count && sof@[g] == UNSET));
        }
        let mut foc: Vec<u16> = Vec::new();
        let mut c: usize = 0;
        while c < colors
            invariant
                c <= colors,
                foc@ == Seq::new(c as nat, |x: int| NO_FACE),
            decreases colors - c,
        {
            foc.push(NO_FACE);
            c = c + 1;
            proof {
                assert(foc@ =~= Seq::new(c as nat, |x: int| NO_FACE));
            }
        }
        let mut cof: Vec<u16> = vec![NO_FACE, NO_FACE, NO_FACE, NO_FACE, NO_FACE, NO_FACE];
        proof {
            assert(cof@ =~= Seq::new(6, |x: int| NO_FACE));
        }
        let mut slot: usize = 0;
        while slot < count
            invariant
                slot <= count == solved@.len() == fos@.len(),
                count == 6 * per_face,
                per_face == size * size,
                per_face >= 1,
                forall|i: int| 0 <= i < solved@.len() ==> #[trigger] solved@[i] < colors,
                mutual_inverse(fos@, sof@, count as nat),
                foc@.len() == colors,
                cof@.len() == 6,
                paint_spec(solved@, fos@, per_face as nat, slot as nat, colors as nat) == Outcome::<
                    (Seq<u16>, Seq<u16>),
                >::Ok((foc@, cof@)),
                count == located@.len(),
                place_spec(located@, count as nat, count as nat) == Outcome::<(Seq<u32>, Seq<u32>)>::Ok(
                    (fos@, sof@),
                ),
                !(exists|g: int| 0 <= g < count && sof@[g] == UNSET),
                colors <= u16::MAX,
                forall|f: int|
                    0 <= f < 6 && #[trigger] cof@[f] != NO_FACE ==> cof@[f] < colors && foc@[cof@[f] as int]
                        == f,
                forall|s: int|
                    0 <= s < slot ==> cof@[(#[trigger] fos@[s] as int / per_face as int)] != NO_FACE,
            decreases count - slot,
        {
            let c = solved[slot] as usize;
            let fl = fos[slot] as usize;
            proof {
                assert(fl < 6 * per_face);
                assert(fl / per_face < 6) by (nonlinear_arith)
                    requires
                        fl < 6 * per_face,
                        per_face >= 1,
                ;
            }
            let face = (fl / per_face) as u16;
            let held = foc[c];
            if held != NO_FACE && held != face {
                proof {
                    lemma_paint_err(
                        solved@,
                        fos@,
                        per_face as nat,
                        (slot + 1) as nat,
                        count as nat,
                        colors as nat,
                    );
                }
                let mut m = String::from_str("color ");
                m.append(u64_decimal(c as u64).as_str());
                m.append(" is on more than one face, so a face cannot stand for a color");
                return Err(Error::State(m));
            }
            let ghost foc0 = foc@;
            let ghost cof0 = cof@;
            foc.set(c, face);
            cof.set(face as usize, c as u16);
            proof {
                assert forall|g: int| 0 <= g < 6 && #[trigger] cof@[g] != NO_FACE implies cof@[g] < colors
                    && foc@[cof@[g] as int] == g by {
                    if g != face as int {
                        assert(cof@[g] == cof0[g]);
                        if cof0[g] as int == c as int {
                            assert(foc0[c as int] == g);
                        }
                    }
                }
                assert forall|s: int| 0 <= s < slot + 1 implies cof@[(#[trigger] fos@[s] as int / per_face as int)]
                    != NO_FACE by {
                    if s < slot {
                        let g = fos@[s] as int / per_face as int;
                        let q = fos@[s] as int;
                        assert(0 <= q / (per_face as int) && q / (per_face as int) < 6) by (nonlinear_arith)
                            requires
                                0 <= q < 6 * per_face,
                                per_face >= 1,
                        ;
                        if g != face as int {
                            assert(cof@[g] == cof0[g]);
                        }
                    }
                }
            }
            slot = slot + 1;
        }
        proof {
            assert forall|g: int| 0 <= g < 6 implies (#[trigger] cof@[g]) < foc@.len() && foc@[cof@[g] as int]
                == g by {
                let fl = g * per_face as int;
                assert(0 <= fl < count) by (nonlinear_arith)
                    requires
                        0 <= g < 6,
                        count == 6 * per_face,
                        per_face >= 1,
                        fl == g * per_face,
                ;
                assert(fl / per_face as int == g) by (nonlinear_arith)
                    requires
                        fl == g * per_face,
                        per_face >= 1,
                ;
                let sl = sof@[fl] as int;
                assert(0 <= sl < count && fos@[sl] == fl);
                assert(cof@[(fos@[sl] as int / per_face as int)] != NO_FACE);
            }
        }
        let mut sizes: Vec<u32> = Vec::new();
        let mut names: Vec<String> = Vec::new();
        let mut f: usize = 0;
        while f < 6
            invariant
                f <= 6,
                per_face == size * size,
                per_face < u32::MAX,
                sizes@ == Seq::new(f as nat, |x: int| per_face as u32),
                strs(names@) == Seq::new(f as nat, |x: int| seq![face_letter(x)]),
            decreases 6 - f,
        {
            sizes.push(per_face as u32);
            let ghost before = strs(names@);
            let n = face_name(f);
            names.push(n);
            f = f + 1;
            proof {
                assert(sizes@ =~= Seq::new(f as nat, |x: int| per_face as u32));
                assert(strs(names@) =~= before.push(n@));
                assert(strs(names@) =~= Seq::new(f as nat, |x: int| seq![face_letter(x)]));
            }
        }
        let mut goal: Vec<u32> = Vec::new();
        let mut i: usize = 0;
        while i < count
            invariant
                i <= count < u32::MAX,
                count == 6 * per_face,
                per_face >= 1,
                goal@ == Seq::new(i as nat, |x: int| (x / per_face as int) as u32),
                forall|x: int| 0 <= x < i ==> #[trigger] goal@[x] < 6,
            decreases count - i,
        {
            proof {
                assert(i / per_face < 6) by (nonlinear_arith)
                    requires
                        i < 6 * per_face,
                        per_face >= 1,
                ;
            }
            goal.push((i / per_face) as u32);
            i = i + 1;
            proof {
                assert(goal@ =~= Seq::new(i as nat, |x: int| (x / per_face as int) as u32));
            }
        }
        let r = Layout {
            recipe: String::new(),
            size: Some(size),
            face_count: 6,
            facelet_of_slot: fos,
            slot_of_facelet: sof,
            face_of_color: foc,
            color_of_face: cof,
            face_sizes: sizes,
            face_names: names,
            goal,
            moves: Vec::new(),
            names: Vec::new(),
            actions: Vec::new(),
            inverse: Vec::new(),
        };
        proof {
            assert(strs(r.names@) =~= Seq::<Seq<char>>::empty());
            assert(rows(r.moves@) =~= Seq::<Seq<u32>>::empty());
            assert(inverses_spec(r@.moves) =~= r@.inverse);
        }
        Ok(r)
    }
}


/// A permutation of slots rewritten as one of facelets.
pub open spec fn s2f(v: LayoutView, perm: Seq<u32>) -> Seq<u32> {
    Seq::new(perm.len(), |f: int| v.facelet_of_slot[perm[v.slot_of_facelet[f] as int] as int])
}

/// The names of a cube's quarter turns: `U-1`, `U1`, `D-1`, ..., `F1`.
pub open spec fn turn_name(m: int) -> Seq<char> {
    if m % 2 == 0 {
        seq![face_letter(m / 2), '-', '1']
    } else {
        seq![face_letter(m / 2), '1']
    }
}

/// The last of the first `j` converted actions equal to `perm`, if any.
pub open spec fn last_match(perm: Seq<u32>, conv: Seq<Seq<u32>>, j: nat) -> Option<u32>
    decreases j,
{
    if j == 0 {
        None
    } else if conv[j - 1] == perm {
        Some((j - 1) as u32)
    } else {
        last_match(perm, conv, (j - 1) as nat)
    }
}

/// Whether some move is the converted action `c`.
pub open spec fn is_taken(moves: Seq<Seq<u32>>, c: Seq<u32>) -> bool {
    exists|m: int| 0 <= m < moves.len() && moves[m] == c
}

/// The puzzle's own moves appended after the first `j` actions: those no
/// face turn already stands for, under the puzzle's name with `prefix`.
pub open spec fn own_moves(
    moves: Seq<Seq<u32>>,
    conv: Seq<Seq<u32>>,
    anames: Seq<Seq<char>>,
    prefix: Seq<char>,
    j: nat,
) -> (Seq<Seq<u32>>, Seq<Seq<char>>, Seq<Option<u32>>)
    decreases j,
{
    if j == 0 {
        (Seq::empty(), Seq::empty(), Seq::empty())
    } else {
        let prev = own_moves(moves, conv, anames, prefix, (j - 1) as nat);
        if is_taken(moves, conv[j - 1]) {
            prev
        } else {
            (prev.0.push(conv[j - 1]), prev.1.push(prefix + anames[j - 1]), prev.2.push(Some((j - 1) as u32)))
        }
    }
}

/// A table of slot permutations rewritten over the facelets.
pub open spec fn convert(v: LayoutView, t: Seq<Seq<u32>>) -> Seq<Seq<u32>> {
    Seq::new(t.len(), |a: int| s2f(v, t[a]))
}

/// The names of the first `n` quarter turns.
pub open spec fn turn_names(n: nat) -> Seq<Seq<char>> {
    Seq::new(n, |m: int| turn_name(m))
}

/// The action each of `base` is, matched against the converted table.
pub open spec fn base_actions(base: Seq<Seq<u32>>, conv: Seq<Seq<u32>>) -> Seq<Option<u32>> {
    Seq::new(base.len(), |m: int| last_match(base[m], conv, conv.len()))
}

/// Every move of a layout: a cube's quarter turns first, matched against the
/// puzzle's actions, then whatever else the puzzle can do, under its own
/// name (with a colon in front for a cube, whose faces are named too).
pub open spec fn derive_moves_spec(
    v: LayoutView,
    turns: Seq<Seq<u32>>,
    table: Option<Seq<Seq<u32>>>,
    anames: Seq<Seq<char>>,
) -> Outcome<LayoutView> {
    if v.size is None && table is None {
        Outcome::Err(ErrorKind::State)
    } else {
        let conv = convert(
            v,
            match table {
                Some(t) => t,
                None => Seq::empty(),
            },
        );
        let base = if v.size is Some {
            turns
        } else {
            Seq::empty()
        };
        let prefix = if v.size is Some {
            seq![':']
        } else {
            Seq::empty()
        };
        let own = own_moves(base, conv, anames, prefix, conv.len());
        Outcome::Ok(
            LayoutView {
                moves: base + own.0,
                names: turn_names(base.len()) + own.1,
                actions: base_actions(base, conv) + own.2,
                ..v
            },
        )
    }
}

/// Whether two rows hold the same values.
fn same_row(a: &Vec<u32>, b: &Vec<u32>) -> (r: bool)
    ensures
        r == (a@ == b@),
{
    if a.len() != b.len() {
        return false;
    }
    let mut i: usize = 0;
    while i < a.len()
        invariant
            i <= a@.len() == b@.len(),
            forall|j: int| 0 <= j < i ==> a@[j] == b@[j],
        decreases a@.len() - i,
    {
        if a[i] != b[i] {
            return false;
        }
        i = i + 1;
    }
    assert(a@ =~= b@);
    true
}

/// The name of quarter turn `m` of a cube.
fn turn_name_exec(m: usize) -> (r: String)
    requires
        m < 12,
    ensures
        r@ == turn_name(m as int),
{
    let mut r = face_name(m / 2);
    proof {
        reveal_strlit("-1");
        reveal_strlit("1");
    }
    if m % 2 == 0 {
        r.append("-1");
    } else {
        r.append("1");
    }
    assert(r@ =~= turn_name(m as int));
    r
}

/// Conjugating an arrangement by a numbering and its inverse gives an
/// arrangement.
proof fn lemma_s2f_arrangement(v: LayoutView, perm: Seq<u32>)
    requires
        layout_wf(v),
        is_arrangement_spec(perm, v.goal.len()),
    ensures
        is_arrangement_spec(s2f(v, perm), v.goal.len()),
{
    let k = v.goal.len();
    let r = s2f(v, perm);
    assert forall|i: int, j: int| 0 <= i < j < r.len() implies r[i] != r[j] by {
        let si = v.slot_of_facelet[i] as int;
        let sj = v.slot_of_facelet[j] as int;
        if si == sj {
            assert(v.facelet_of_slot[si] == i);
            assert(v.facelet_of_slot[sj] == j);
        }
        assert(perm[si] != perm[sj]) by {
            if si < sj {
            } else {
            }
        }
        assert(v.slot_of_facelet[v.facelet_of_slot[perm[si] as int] as int] == perm[si]);
        assert(v.slot_of_facelet[v.facelet_of_slot[perm[sj] as int] as int] == perm[sj]);
    }
    assert forall|g: int| 0 <= g < k implies #[trigger] names_slot(r, g) by {
        let s = v.slot_of_facelet[g] as int;
        assert(names_slot(perm, s));
        let x = choose|x: int| 0 <= x < perm.len() && perm[x] == s;
        let f = v.facelet_of_slot[x] as int;
        assert(v.slot_of_facelet[f] == x);
        assert(r[f] == g);
    }
}


/// The permutation that undoes `perm`: where each value was taken from.
pub open spec fn inv_perm(perm: Seq<u32>) -> Seq<u32> {
    Seq::new(perm.len(), |x: int| (choose|i: int| 0 <= i < perm.len() && perm[i] == x) as u32)
}

/// The first of the first `j` moves equal to `p`.
pub open spec fn first_index(moves: Seq<Seq<u32>>, p: Seq<u32>, j: nat) -> Option<u32>
    decreases j,
{
    if j == 0 {
        None
    } else {
        match first_index(moves, p, (j - 1) as nat) {
            Some(x) => Some(x),
            None => if moves[j - 1] == p {
                Some((j - 1) as u32)
            } else {
                None
            },
        }
    }
}

/// The move that undoes move `m`: itself when it undoes itself, else the
/// first move with the undoing permutation, if there is one.
pub open spec fn inverse_of(moves: Seq<Seq<u32>>, m: int) -> Option<u32> {
    let back = inv_perm(moves[m]);
    if back == moves[m] {
        Some(m as u32)
    } else {
        first_index(moves, back, moves.len())
    }
}

/// Every move's undoing move.
pub open spec fn inverses_spec(moves: Seq<Seq<u32>>) -> Seq<Option<u32>> {
    Seq::new(moves.len(), |m: int| inverse_of(moves, m))
}

/// A first index is an index of that permutation.
proof fn lemma_first_index(moves: Seq<Seq<u32>>, p: Seq<u32>, j: nat)
    requires
        j <= moves.len() < u32::MAX,
    ensures
        first_index(moves, p, j) matches Some(x) ==> x < j && moves[x as int] == p,
    decreases j,
{
    if j > 0 {
        lemma_first_index(moves, p, (j - 1) as nat);
    }
}

/// A first index, once found, stays the first.
proof fn lemma_first_index_stable(moves: Seq<Seq<u32>>, p: Seq<u32>, j: nat, j2: nat)
    requires
        j <= j2,
        first_index(moves, p, j) is Some,
    ensures
        first_index(moves, p, j2) == first_index(moves, p, j),
    decreases j2 - j,
{
    if j < j2 {
        lemma_first_index_stable(moves, p, j, (j2 - 1) as nat);
    }
}

/// The inverse of an arrangement, read entry by entry.
proof fn lemma_inv_perm(perm: Seq<u32>, back: Seq<u32>, k: nat)
    requires
        is_arrangement_spec(perm, k),
        back.len() == k,
        forall|i: int| 0 <= i < k ==> #[trigger] back[perm[i] as int] == i,
    ensures
        back == inv_perm(perm),
        is_arrangement_spec(back, k),
        forall|x: int| 0 <= x < k ==> #[trigger] perm[back[x] as int] == x,
{
    assert forall|x: int| 0 <= x < k implies #[trigger] perm[back[x] as int] == x by {
        assert(names_slot(perm, x));
        let i = choose|i: int| 0 <= i < perm.len() && perm[i] == x;
        assert(back[perm[i] as int] == i);
    }
    assert forall|x: int| 0 <= x < k implies back[x] == inv_perm(perm)[x] by {
        assert(names_slot(perm, x));
        let i = choose|i: int| 0 <= i < perm.len() && perm[i] == x;
        assert(back[perm[i] as int] == i);
    }
    assert(back =~= inv_perm(perm));
    assert forall|x: int, y: int| 0 <= x < y < back.len() implies back[x] != back[y] by {
        assert(perm[back[x] as int] == x);
        assert(perm[back[y] as int] == y);
    }
    assert forall|i: int| 0 <= i < k implies #[trigger] names_slot(back, i) by {
        assert(back[perm[i] as int] == i);
    }
    assert forall|x: int| 0 <= x < back.len() implies #[trigger] back[x] < k by {
        assert(names_slot(perm, x));
        let i = choose|i: int| 0 <= i < perm.len() && perm[i] == x;
        assert(back[perm[i] as int] == i);
    }
}

impl Layout {
    /// The position of the first move equal to `p`.
    fn find_move(&self, p: &Vec<u32>) -> (r: Option<u32>)
        requires
            self@.moves.len() < u32::MAX,
        ensures
            r == first_index(self@.moves, p@, self@.moves.len()),
    {
        let mut j: usize = 0;
        while j < self.moves.len()
            invariant
                j <= self.moves@.len(),
                self@.moves.len() == self.moves@.len() < u32::MAX,
                first_index(self@.moves, p@, j as nat) is None,
            decreases self.moves@.len() - j,
        {
            proof {
                assert(self@.moves[j as int] == self.moves@[j as int]@);
            }
            if same_row(&self.moves[j], p) {
                proof {
                    assert(first_index(self@.moves, p@, (j + 1) as nat) == Some(j as u32));
                    lemma_first_index_stable(self@.moves, p@, (j + 1) as nat, self@.moves.len());
                }
                return Some(j as u32);
            }
            j = j + 1;
        }
        None
    }

    /// Which move undoes which, worked out from the permutations.
    fn derive_inverses(&mut self)
        requires
            old(self)@.moves.len() < u32::MAX,
            forall|m: int|
                0 <= m < old(self)@.moves.len() ==> #[trigger] is_arrangement_spec(
                    old(self)@.moves[m],
                    old(self)@.goal.len(),
                ),
            old(self)@.goal.len() < u32::MAX,
        ensures
            final(self)@ == (LayoutView { inverse: inverses_spec(old(self)@.moves), ..old(self)@ }),
    {
        let k = self.goal.len();
        let mut back: Vec<u32> = Vec::new();
        let mut i: usize = 0;
        while i < k
            invariant
                i <= k,
                back@.len() == i,
            decreases k - i,
        {
            back.push(0);
            i = i + 1;
        }
        let mut inv: Vec<Option<u32>> = Vec::new();
        let mut m: usize = 0;
        while m < self.moves.len()
            invariant
                m <= self.moves@.len(),
                self@.moves.len() == self.moves@.len() < u32::MAX,
                k == self@.goal.len() < u32::MAX,
                back@.len() == k,
                forall|x: int|
                    0 <= x < self@.moves.len() ==> #[trigger] is_arrangement_spec(self@.moves[x], k as nat),
                inv@ == inverses_spec(self@.moves).take(m as int),
                self@ == old(self)@,
            decreases self.moves@.len() - m,
        {
            proof {
                assert(self@.moves[m as int] == self.moves@[m as int]@);
                assert(is_arrangement_spec(self@.moves[m as int], k as nat));
            }
            let perm = &self.moves[m];
            let mut i: usize = 0;
            while i < k
                invariant
                    i <= k == perm@.len() == back@.len(),
                    k < u32::MAX,
                    is_arrangement_spec(perm@, k as nat),
                    forall|t: int| 0 <= t < i ==> #[trigger] back@[perm@[t] as int] == t,
                decreases k - i,
            {
                let from = perm[i] as usize;
                proof {
                    assert forall|t: int| 0 <= t < i implies perm@[t] != from by {
                    }
                }
                back.set(from, i as u32);
                i = i + 1;
            }
            proof {
                lemma_inv_perm(perm@, back@, k as nat);
            }
            let answer = if same_row(&back, perm) {
                Some(m as u32)
            } else {
                self.find_move(&back)
            };
            inv.push(answer);
            m = m + 1;
            proof {
                assert(inv@ =~= inverses_spec(self@.moves).take(m as int));
            }
        }
        proof {
            assert(inverses_spec(self@.moves).take(m as int) =~= inverses_spec(self@.moves));
        }
        self.inverse = inv;
    }
}


/// The rows of an optional table.
pub open spec fn opt_rows(t: Option<&Vec<Vec<u32>>>) -> Option<Seq<Seq<u32>>> {
    match t {
        Some(v) => Some(rows(v@)),
        None => None,
    }
}

/// Every move, and then which move undoes which.
pub open spec fn moves_spec(
    v: LayoutView,
    turns: Seq<Seq<u32>>,
    table: Option<Seq<Seq<u32>>>,
    anames: Seq<Seq<char>>,
) -> Outcome<LayoutView> {
    match derive_moves_spec(v, turns, table, anames) {
        Outcome::Err(e) => Outcome::Err(e),
        Outcome::Ok(w) => Outcome::Ok(LayoutView { inverse: inverses_spec(w.moves), ..w }),
    }
}

/// A copy of a row.
fn copy_row(a: &Vec<u32>) -> (r: Vec<u32>)
    ensures
        r@ == a@,
{
    let mut r: Vec<u32> = Vec::new();
    let mut i: usize = 0;
    while i < a.len()
        invariant
            i <= a@.len(),
            r@ == a@.take(i as int),
        decreases a@.len() - i,
    {
        r.push(a[i]);
        i = i + 1;
        proof {
            assert(r@ =~= a@.take(i as int));
        }
    }
    assert(a@.take(a@.len() as int) =~= a@);
    r
}

impl Layout {
    /// A permutation of slots, rewritten as one of facelets.
    fn slots_to_facelets(&self, perm: &Vec<u32>) -> (r: Vec<u32>)
        requires
            self.wf(),
            is_arrangement_spec(perm@, self@.goal.len()),
        ensures
            r@ == s2f(self@, perm@),
            is_arrangement_spec(r@, self@.goal.len()),
    {
        let mut out: Vec<u32> = Vec::new();
        let mut f: usize = 0;
        while f < perm.len()
            invariant
                self.wf(),
                is_arrangement_spec(perm@, self@.goal.len()),
                f <= perm@.len(),
                out@ == s2f(self@, perm@).take(f as int),
            decreases perm@.len() - f,
        {
            let slot = self.slot_of_facelet[f] as usize;
            let x = self.facelet_of_slot[perm[slot] as usize];
            out.push(x);
            f = f + 1;
            proof {
                assert(out@ =~= s2f(self@, perm@).take(f as int));
            }
        }
        proof {
            assert(s2f(self@, perm@).take(f as int) =~= s2f(self@, perm@));
            lemma_s2f_arrangement(self@, perm@);
        }
        out
    }

    /// Every move, as a permutation of the facelets: for a cube its twelve
    /// quarter turns first (`turns`, worked out from the geometry, face by
    /// face, counterclockwise then clockwise), matched against the puzzle's
    /// own actions; then every action of the puzzle no quarter turn stands
    /// for. Then which move undoes which.
    pub fn derive_moves(
        &mut self,
        turns: &Vec<Vec<u32>>,
        table: Option<&Vec<Vec<u32>>>,
        anames: &Vec<String>,
    ) -> (r: core::result::Result<(), Error>)
        requires
            old(self).wf(),
            old(self)@.moves.len() == 0,
            old(self)@.size is Some ==> turns@.len() == 12,
            turns@.len() <= 12,
            forall|t: int|
                0 <= t < turns@.len() ==> #[trigger] is_arrangement_spec(turns@[t]@, old(self)@.goal.len()),
            table matches Some(t) ==> {
                &&& t@.len() == anames@.len()
                &&& t@.len() < u32::MAX - 12
                &&& forall|a: int|
                    0 <= a < t@.len() ==> #[trigger] is_arrangement_spec(t@[a]@, old(self)@.goal.len())
            },
        ensures
            match r {
                Ok(_) => moves_spec(old(self)@, rows(turns@), opt_rows(table), strs(anames@)) == Outcome::<
                    LayoutView,
                >::Ok(final(self)@) && final(self).wf(),
                Err(e) => moves_spec(old(self)@, rows(turns@), opt_rows(table), strs(anames@))
                    == Outcome::<LayoutView>::Err(e.spec_error_kind()) && final(self)@ == old(self)@,
            },
    {
        let ghost v0 = self@;
        let ghost k = self@.goal.len();
        let cube = self.size.is_some();
        if !cube && table.is_none() {
            return Err(
                Error::State(
                    "this puzzle's moves are not fixed permutations of its stickers (it jumbles, or a layer of it locks), so there is nothing to number face by face".to_owned(),
                ),
            );
        }
        let mut conv: Vec<Vec<u32>> = Vec::new();
        let ghost tv: Seq<Seq<u32>> = match table {
            Some(t) => rows(t@),
            None => Seq::empty(),
        };
        let ghost cv = convert(v0, tv);
        match table {
            Some(t) => {
                let mut a: usize = 0;
                while a < t.len()
                    invariant
                        self@ == v0,
                        self.wf(),
                        k == v0.goal.len(),
                        tv == rows(t@),
                        cv == convert(v0, tv),
                        a <= t@.len(),
                        forall|b: int| 0 <= b < t@.len() ==> #[trigger] is_arrangement_spec(t@[b]@, k),
                        rows(conv@) == cv.take(a as int),
                        forall|b: int| 0 <= b < conv@.len() ==> #[trigger] is_arrangement_spec(conv@[b]@, k),
                    decreases t@.len() - a,
                {
                    let c = self.slots_to_facelets(&t[a]);
                    let ghost before = rows(conv@);
                    conv.push(c);
                    a = a + 1;
                    proof {
                        assert(rows(conv@) =~= before.push(c@));
                        assert(rows(conv@) =~= cv.take(a as int));
                    }
                }
                proof {
                    assert(cv.take(a as int) =~= cv);
                }
            },
            None => {
                proof {
                    assert(rows(conv@) =~= cv);
                }
            },
        }
        let mut moves: Vec<Vec<u32>> = Vec::new();
        let mut names: Vec<String> = Vec::new();
        let mut actions: Vec<Option<u32>> = Vec::new();
        let ghost base: Seq<Seq<u32>> = if cube {
            rows(turns@)
        } else {
            Seq::empty()
        };
        if cube {
            let mut m: usize = 0;
            while m < turns.len()
                invariant
                    cube,
                    turns@.len() <= 12,
                    base == rows(turns@),
                    m <= turns@.len(),
                    rows(conv@) == cv,
                    conv@.len() < u32::MAX,
                    rows(moves@) == base.take(m as int),
                    strs(names@) == turn_names(m as nat),
                    actions@ == base_actions(base, cv).take(m as int),
                decreases turns@.len() - m,
            {
                let row = copy_row(&turns[m]);
                let mut act: Option<u32> = None;
                let mut a: usize = 0;
                while a < conv.len()
                    invariant
                        a <= conv@.len() < u32::MAX,
                        rows(conv@) == cv,
                        row@ == turns@[m as int]@,
                        act == last_match(row@, cv, a as nat),
                    decreases conv@.len() - a,
                {
                    proof {
                        assert(cv[a as int] == conv@[a as int]@);
                    }
                    if same_row(&conv[a], &row) {
                        act = Some(a as u32);
                    }
                    a = a + 1;
                }
                let ghost bm = rows(moves@);
                let ghost bn = strs(names@);
                let nm = turn_name_exec(m);
                moves.push(row);
                names.push(nm);
                actions.push(act);
                m = m + 1;
                proof {
                    assert(rows(moves@) =~= bm.push(turns@[m - 1]@));
                    assert(rows(moves@) =~= base.take(m as int));
                    assert(strs(names@) =~= bn.push(nm@));
                    assert(strs(names@) =~= turn_names(m as nat));
                    assert(actions@ =~= base_actions(base, cv).take(m as int));
                }
            }
            proof {
                assert(base.take(m as int) =~= base);
                assert(base_actions(base, cv).take(m as int) =~= base_actions(base, cv));
            }
        } else {
            proof {
                assert(rows(moves@) =~= base);
                assert(strs(names@) =~= turn_names(0));
                assert(actions@ =~= base_actions(base, cv));
            }
        }
        let ghost n0 = strs(names@);
        let ghost a0 = actions@;
        proof {
            assert(rows(turns@).len() == turns@.len());
        }
        let ghost prefix: Seq<char> = if cube {
            seq![':']
        } else {
            Seq::empty()
        };
        proof {
            reveal_strlit(":");
            reveal_strlit("");
        }
        let mut a: usize = 0;
        while a < conv.len()
            invariant
                a <= conv@.len() < u32::MAX - 12,
                rows(conv@) == cv,
                conv@.len() <= anames@.len(),
                base.len() <= 12,
                cube == (v0.size is Some),
                !cube ==> table is Some,
                base == (if cube {
                    rows(turns@)
                } else {
                    Seq::<Seq<u32>>::empty()
                }),
                base.len() == (if cube {
                    turns@.len()
                } else {
                    0
                }),
                tv == (match table {
                    Some(t) => rows(t@),
                    None => Seq::<Seq<u32>>::empty(),
                }),
                cv == convert(v0, tv),
                n0 == turn_names(base.len()),
                a0 == base_actions(base, cv),
                prefix == (if cube {
                    seq![':']
                } else {
                    Seq::<char>::empty()
                }),
                rows(moves@) == base + own_moves(base, cv, strs(anames@), prefix, a as nat).0,
                strs(names@) == n0 + own_moves(base, cv, strs(anames@), prefix, a as nat).1,
                actions@ == a0 + own_moves(base, cv, strs(anames@), prefix, a as nat).2,
            decreases conv@.len() - a,
        {
            proof {
                assert(cv[a as int] == conv@[a as int]@);
            }
            proof {
                reveal_strlit(":");
                assert(rows(moves@).len() == moves@.len());
                assert forall|x: int| 0 <= x < base.len() implies #[trigger] moves@[x]@ == base[x] by {
                    assert(rows(moves@)[x] == moves@[x]@);
                    assert((base + own_moves(base, cv, strs(anames@), prefix, a as nat).0)[x] == base[x]);
                }
            }
            let mut taken = false;
            let mut m: usize = 0;
            while m < base_len(&moves, cube, turns)
                invariant
                    m <= base.len(),
                    base.len() <= 12,
                    base.len() == (if cube {
                        turns@.len()
                    } else {
                        0
                    }),
                    moves@.len() >= base.len(),
                    forall|x: int| 0 <= x < base.len() ==> #[trigger] moves@[x]@ == base[x],
                    rows(conv@) == cv,
                    a < conv@.len(),
                    taken == (exists|x: int| 0 <= x < m && base[x] == cv[a as int]),
                decreases base.len() - m,
            {
                proof {
                    assert(moves@[m as int]@ == base[m as int]);
                    assert(conv@[a as int]@ == cv[a as int]);
                }
                if same_row(&moves[m], &conv[a]) {
                    taken = true;
                }
                m = m + 1;
            }
            if !taken {
                let ghost bm = rows(moves@);
                let ghost bn = strs(names@);
                let row = copy_row(&conv[a]);
                let mut nm = if cube {
                    String::from_str(":")
                } else {
                    String::new()
                };
                nm.append(anames[a].as_str());
                proof {
                    assert(":"@ =~= seq![':']);
                    assert(strs(anames@)[a as int] == anames@[a as int]@);
                    assert(nm@ =~= prefix + strs(anames@)[a as int]);
                }
                moves.push(row);
                names.push(nm);
                actions.push(Some(a as u32));
                proof {
                    assert(rows(moves@) =~= bm.push(cv[a as int]));
                    assert(strs(names@) =~= bn.push(prefix + strs(anames@)[a as int]));
                }
            }
            a = a + 1;
        }
        proof {
            lemma_own_moves(base, cv, strs(anames@), prefix, cv.len(), k);
            assert(derive_moves_spec(v0, rows(turns@), opt_rows(table), strs(anames@)) == Outcome::<
                LayoutView,
            >::Ok(
                LayoutView {
                    moves: rows(moves@),
                    names: strs(names@),
                    actions: actions@,
                    ..v0
                },
            ));
            assert forall|m: int| 0 <= m < rows(moves@).len() implies #[trigger] is_arrangement_spec(
                rows(moves@)[m],
                k,
            ) by {
                if m < base.len() {
                    assert(rows(moves@)[m] == base[m]);
                    assert(base[m] == turns@[m]@);
                } else {
                    assert(rows(moves@)[m] == own_moves(base, cv, strs(anames@), prefix, cv.len()).0[m
                        - base.len()]);
                }
            }
        }
        self.moves = moves;
        self.names = names;
        self.actions = actions;
        self.derive_inverses();
        proof {
            let w = self@;
            assert forall|m: int| 0 <= m < w.inverse.len() && (#[trigger] w.inverse[m]) is Some implies w.inverse[m]->0
                < w.moves.len() by {
                lemma_first_index(w.moves, inv_perm(w.moves[m]), w.moves.len());
            }
        }
        Ok(())
    }
}

/// The moves a puzzle adds are whole, named, and arrangements when its
/// actions are.
proof fn lemma_own_moves(
    base: Seq<Seq<u32>>,
    cv: Seq<Seq<u32>>,
    anames: Seq<Seq<char>>,
    prefix: Seq<char>,
    j: nat,
    k: nat,
)
    requires
        j <= cv.len(),
        forall|b: int| 0 <= b < cv.len() ==> #[trigger] is_arrangement_spec(cv[b], k),
    ensures
        own_moves(base, cv, anames, prefix, j).0.len() == own_moves(base, cv, anames, prefix, j).1.len(),
        own_moves(base, cv, anames, prefix, j).0.len() == own_moves(base, cv, anames, prefix, j).2.len(),
        own_moves(base, cv, anames, prefix, j).0.len() <= j,
        forall|i: int|
            0 <= i < own_moves(base, cv, anames, prefix, j).0.len() ==> #[trigger] is_arrangement_spec(
                own_moves(base, cv, anames, prefix, j).0[i],
                k,
            ),
    decreases j,
{
    if j > 0 {
        lemma_own_moves(base, cv, anames, prefix, (j - 1) as nat, k);
        let prev = own_moves(base, cv, anames, prefix, (j - 1) as nat);
        if !is_taken(base, cv[j - 1]) {
            let cur = own_moves(base, cv, anames, prefix, j);
            assert forall|i: int| 0 <= i < cur.0.len() implies #[trigger] is_arrangement_spec(cur.0[i], k) by {
                if i < prev.0.len() {
                    assert(cur.0[i] == prev.0[i]);
                } else {
                    assert(cur.0[i] == cv[j - 1]);
                }
            }
        }
    }
}

/// How many of `moves` are a cube's quarter turns.
fn base_len(moves: &Vec<Vec<u32>>, cube: bool, turns: &Vec<Vec<u32>>) -> (r: usize)
    ensures
        r == (if cube {
            turns@.len()
        } else {
            0
        }),
{
    if cube {
        turns.len()
    } else {
        0
    }
}


/// The moves named by `parts`, composed first to last into one
/// permutation, starting from the identity on `k` facelets.
pub open spec fn compose(moves: Seq<Seq<u32>>, parts: Seq<u32>, k: nat) -> Seq<u32>
    decreases parts.len(),
{
    if parts.len() == 0 {
        iota(k)
    } else {
        gather(compose(moves, parts.drop_last(), k), moves[parts.last() as int])
    }
}

/// The names of `parts`, separated by spaces; `.` for no move at all.
pub open spec fn compose_name(names: Seq<Seq<char>>, parts: Seq<u32>) -> Seq<char>
    decreases parts.len(),
{
    if parts.len() == 0 {
        Seq::empty()
    } else if parts.len() == 1 {
        names[parts[0] as int]
    } else {
        compose_name(names, parts.drop_last()) + seq![' '] + names[parts.last() as int]
    }
}

/// Every part of every sequence names a move.
pub open spec fn parts_in_range(seqs: Seq<Seq<u32>>, count: nat) -> bool {
    forall|s: int, j: int| 0 <= s < seqs.len() && 0 <= j < seqs[s].len() ==> #[trigger] seqs[s][j] < count
}

/// What `with_moves` gives: the same layout with each sequence composed
/// into one move.
pub open spec fn with_moves_spec(v: LayoutView, seqs: Seq<Seq<u32>>) -> Outcome<LayoutView> {
    if seqs.len() == 0 || !parts_in_range(seqs, v.moves.len()) {
        Outcome::Err(ErrorKind::Range)
    } else {
        let moves = Seq::new(seqs.len(), |s: int| compose(v.moves, seqs[s], v.goal.len()));
        Outcome::Ok(
            LayoutView {
                moves: moves,
                names: Seq::new(
                    seqs.len(),
                    |s: int|
                        if seqs[s].len() == 0 {
                            seq!['.']
                        } else {
                            compose_name(v.names, seqs[s])
                        },
                ),
                actions: Seq::new(seqs.len(), |s: int| None),
                inverse: inverses_spec(moves),
                ..v
            },
        )
    }
}

/// A move applied to an arrangement gives an arrangement.
proof fn lemma_gather_arrangement(row: Seq<u32>, perm: Seq<u32>, k: nat)
    requires
        is_arrangement_spec(row, k),
        is_arrangement_spec(perm, k),
    ensures
        is_arrangement_spec(gather(row, perm), k),
{
    let g = gather(row, perm);
    assert forall|i: int, j: int| 0 <= i < j < g.len() implies g[i] != g[j] by {
        assert(perm[i] != perm[j]);
        if perm[i] < perm[j] {
        } else {
        }
    }
    assert forall|x: int| 0 <= x < k implies #[trigger] names_slot(g, x) by {
        assert(names_slot(row, x));
        let y = choose|y: int| 0 <= y < row.len() && row[y] == x;
        assert(names_slot(perm, y));
        let i = choose|i: int| 0 <= i < perm.len() && perm[i] == y;
        assert(g[i] == x);
    }
}

/// The identity is an arrangement.
proof fn lemma_iota_arrangement(k: nat)
    requires
        k <= u32::MAX,
    ensures
        is_arrangement_spec(iota(k), k),
{
    assert forall|x: int| 0 <= x < k implies #[trigger] names_slot(iota(k), x) by {
        assert(iota(k)[x] == x);
    }
}

impl Layout {
    /// The same layout with a different set of moves: each of `sequences`
    /// composed into one permutation, named by the moves it is made of.
    pub fn with_moves(&self, sequences: &Vec<Vec<u32>>) -> (r: core::result::Result<Layout, Error>)
        requires
            self.wf(),
            sequences@.len() < u32::MAX,
        ensures
            sequences@.len() == 0 ==> (r matches Err(e) && e.spec_message() == "a layout needs at least one move"@),
            layout_outcome(r) == with_moves_spec(self@, rows(sequences@)),
            r matches Ok(l) ==> l.wf(),
    {
        if sequences.len() == 0 {
            return Err(Error::Range("a layout needs at least one move".to_owned()));
        }
        let k = self.goal.len();
        let ghost seqs = rows(sequences@);
        let ghost v = self@;
        let mut moves: Vec<Vec<u32>> = Vec::new();
        let mut names: Vec<String> = Vec::new();
        let mut actions: Vec<Option<u32>> = Vec::new();
        let mut si: usize = 0;
        while si < sequences.len()
            invariant
                self.wf(),
                v == self@,
                k == v.goal.len(),
                seqs == rows(sequences@),
                si <= sequences@.len(),
                parts_in_range(seqs.take(si as int), v.moves.len()),
                rows(moves@) == Seq::new(si as nat, |s: int| compose(v.moves, seqs[s], k as nat)),
                strs(names@) == Seq::new(
                    si as nat,
                    |s: int|
                        if seqs[s].len() == 0 {
                            seq!['.']
                        } else {
                            compose_name(v.names, seqs[s])
                        },
                ),
                actions@ == Seq::new(si as nat, |s: int| None::<u32>),
                forall|s: int| 0 <= s < si ==> #[trigger] is_arrangement_spec(rows(moves@)[s], k as nat),
            decreases sequences@.len() - si,
        {
            let parts = &sequences[si];
            proof {
                assert(seqs[si as int] == parts@);
                lemma_iota_arrangement(k as nat);
            }
            let mut perm: Vec<u32> = Vec::new();
            let mut i: usize = 0;
            while i < k
                invariant
                    i <= k < u32::MAX,
                    perm@ == iota(i as nat),
                decreases k - i,
            {
                perm.push(i as u32);
                i = i + 1;
                proof {
                    assert(perm@ =~= iota(i as nat));
                }
            }
            let mut name = String::new();
            let mut j: usize = 0;
            while j < parts.len()
                invariant
                    self.wf(),
                    v == self@,
                    k == v.goal.len(),
                    j <= parts@.len(),
                    seqs == rows(sequences@),
                    si < sequences@.len(),
                    seqs[si as int] == parts@,
                    forall|t: int| 0 <= t < j ==> #[trigger] parts@[t] < v.moves.len(),
                    perm@ == compose(v.moves, parts@.take(j as int), k as nat),
                    is_arrangement_spec(perm@, k as nat),
                    name@ == compose_name(v.names, parts@.take(j as int)),
                decreases parts@.len() - j,
            {
                let m = parts[j];
                if m as usize >= self.moves.len() {
                    proof {
                        assert(seqs[si as int][j as int] == m);
                        assert(!parts_in_range(seqs, v.moves.len()));
                    }
                    let mut msg = String::from_str("move ");
                    msg.append(u64_decimal(m as u64).as_str());
                    msg.append(" out of range");
                    return Err(Error::Range(msg));
                }
                let step = &self.moves[m as usize];
                proof {
                    assert(v.moves[m as int] == step@);
                    assert(is_arrangement_spec(v.moves[m as int], k as nat));
                }
                let mut next: Vec<u32> = Vec::new();
                let mut t: usize = 0;
                while t < step.len()
                    invariant
                        t <= step@.len() == k,
                        perm@.len() == k,
                        forall|x: int| 0 <= x < step@.len() ==> #[trigger] step@[x] < k,
                        next@ == gather(perm@, step@).take(t as int),
                    decreases step@.len() - t,
                {
                    next.push(perm[step[t] as usize]);
                    t = t + 1;
                    proof {
                        assert(next@ =~= gather(perm@, step@).take(t as int));
                    }
                }
                proof {
                    assert(gather(perm@, step@).take(t as int) =~= gather(perm@, step@));
                    assert(parts@.take(j + 1).drop_last() =~= parts@.take(j as int));
                    lemma_gather_arrangement(perm@, step@, k as nat);
                    assert(v.names[m as int] == self.names@[m as int]@);
                }
                perm = next;
                if j > 0 {
                    name.append(" ");
                }
                name.append(self.names[m as usize].as_str());
                proof {
                    reveal_strlit(" ");
                    if j == 0 {
                        assert(parts@.take(1) =~= seq![m]);
                        assert(name@ =~= compose_name(v.names, parts@.take(1)));
                    } else {
                        assert(name@ =~= compose_name(v.names, parts@.take(j + 1)));
                    }
                }
                j = j + 1;
            }
            proof {
                assert(parts@.take(j as int) =~= parts@);
                assert(parts_in_range(seqs.take(si + 1), v.moves.len())) by {
                    assert forall|a: int, b: int|
                        0 <= a < seqs.take(si + 1).len() && 0 <= b < seqs.take(si + 1)[a].len() implies #[trigger] seqs.take(
                        si + 1,
                    )[a][b] < v.moves.len() by {
                        if a < si {
                            assert(seqs.take(si + 1)[a] == seqs.take(si as int)[a]);
                        } else {
                            assert(seqs.take(si + 1)[a] == parts@);
                        }
                    }
                }
            }
            proof {
                reveal_strlit(".");
                assert("."@ =~= seq!['.']);
            }
            let nm = if parts.len() == 0 {
                String::from_str(".")
            } else {
                name
            };
            let ghost bm = rows(moves@);
            let ghost bn = strs(names@);
            let ghost pv = perm@;
            moves.push(perm);
            names.push(nm);
            actions.push(None);
            si = si + 1;
            proof {
                assert(rows(moves@) =~= bm.push(pv));
                assert(rows(moves@) =~= Seq::new(si as nat, |s: int| compose(v.moves, seqs[s], k as nat)));
                assert(strs(names@) =~= bn.push(nm@));
                assert(strs(names@) =~= Seq::new(
                    si as nat,
                    |s: int|
                        if seqs[s].len() == 0 {
                            seq!['.']
                        } else {
                            compose_name(v.names, seqs[s])
                        },
                ));
                assert(actions@ =~= Seq::new(si as nat, |s: int| None::<u32>));
            }
        }
        proof {
            assert(seqs.take(si as int) =~= seqs);
        }
        let mut next = Layout {
            recipe: self.recipe.clone(),
            size: self.size,
            face_count: self.face_count,
            facelet_of_slot: copy_row(&self.facelet_of_slot),
            slot_of_facelet: copy_row(&self.slot_of_facelet),
            face_of_color: copy_u16(&self.face_of_color),
            color_of_face: copy_u16(&self.color_of_face),
            face_sizes: copy_row(&self.face_sizes),
            face_names: copy_strings(&self.face_names),
            goal: copy_row(&self.goal),
            moves: moves,
            names: names,
            actions: actions,
            inverse: Vec::new(),
        };
        next.derive_inverses();
        proof {
            let w = next@;
            assert forall|m: int| 0 <= m < w.inverse.len() && (#[trigger] w.inverse[m]) is Some implies w.inverse[m]->0
                < w.moves.len() by {
                lemma_first_index(w.moves, inv_perm(w.moves[m]), w.moves.len());
            }
        }
        Ok(next)
    }
}

/// A copy of a list of `u16`s.
fn copy_u16(a: &Vec<u16>) -> (r: Vec<u16>)
    ensures
        r@ == a@,
{
    let mut r: Vec<u16> = Vec::new();
    let mut i: usize = 0;
    while i < a.len()
        invariant
            i <= a@.len(),
            r@ == a@.take(i as int),
        decreases a@.len() - i,
    {
        r.push(a[i]);
        i = i + 1;
        proof {
            assert(r@ =~= a@.take(i as int));
        }
    }
    assert(a@.take(a@.len() as int) =~= a@);
    r
}

/// A copy of a list of strings.
fn copy_strings(a: &Vec<String>) -> (r: Vec<String>)
    ensures
        strs(r@) == strs(a@),
{
    let mut r: Vec<String> = Vec::new();
    let mut i: usize = 0;
    while i < a.len()
        invariant
            i <= a@.len(),
            strs(r@) == strs(a@).take(i as int),
        decreases a@.len() - i,
    {
        let ghost before = strs(r@);
        let c = a[i].clone();
        r.push(c);
        i = i + 1;
        proof {
            assert(strs(r@) =~= before.push(c@));
            assert(strs(r@) =~= strs(a@).take(i as int));
        }
    }
    assert(strs(a@).take(a@.len() as int) =~= strs(a@));
    r
}


/// Where flat index `i` of rows of `k` lies: row `i / k`, column `i % k`.
proof fn lemma_split(i: int, r: int, f: int, k: int)
    requires
        k > 0,
        0 <= f < k,
        r >= 0,
        i == r * k + f,
    ensures
        i / k == r,
        i % k == f,
{
    assert(i == k * r + f) by (nonlinear_arith)
        requires
            i == r * k + f,
    ;
    vstd::arithmetic::div_mod::lemma_fundamental_div_mod_converse(i, k, r, f);
}

/// A length that is a whole number of rows of `k`.
proof fn lemma_rows(len: int, k: int)
    requires
        k > 0,
        len >= 0,
        len % k == 0,
    ensures
        len == (len / k) * k,
        len / k >= 0,
{
    vstd::arithmetic::div_mod::lemma_fundamental_div_mod(len, k);
    assert(len == (len / k) * k) by (nonlinear_arith)
        requires
            len == k * (len / k) + len % k,
            len % k == 0,
    ;
    vstd::arithmetic::div_mod::lemma_div_pos_is_pos(len, k);
}

/// Row `r`, column `f` of rows of `k` lies inside `rows * k`.
proof fn lemma_in_rows(r: int, f: int, rows: int, k: int)
    requires
        0 <= r < rows,
        0 <= f < k,
    ensures
        0 <= r * k + f < rows * k,
        r * k + k <= rows * k,
        0 <= r * k,
{
    assert(0 <= r * k + f < rows * k && r * k + k <= rows * k && 0 <= r * k) by (nonlinear_arith)
        requires
            0 <= r < rows,
            0 <= f < k,
    ;
}

/// Whether `len` is a whole number of states of `k` facelets.
pub open spec fn whole_rows(len: nat, k: nat) -> bool {
    k > 0 && len % k == 0
}

/// A state in slot order, in face order with colors as faces.
pub open spec fn to_facelets_spec(v: LayoutView, s: Seq<u32>) -> Seq<u32> {
    let k = v.goal.len() as int;
    Seq::new(
        s.len(),
        |i: int| v.face_of_color[s[(i / k) * k + v.slot_of_facelet[i % k] as int] as int] as u32,
    )
}

/// Sticker identities in slot order, in face order.
pub open spec fn to_facelet_ids_spec(v: LayoutView, s: Seq<u32>) -> Seq<u32> {
    let k = v.goal.len() as int;
    Seq::new(
        s.len(),
        |i: int| v.facelet_of_slot[s[(i / k) * k + v.slot_of_facelet[i % k] as int] as int],
    )
}

/// States in face order, back in slot order with the puzzle's colors.
pub open spec fn from_facelets_spec(v: LayoutView, s: Seq<u32>) -> Seq<u32> {
    let k = v.goal.len() as int;
    Seq::new(
        s.len(),
        |i: int| v.color_of_face[s[(i / k) * k + v.facelet_of_slot[i % k] as int] as int] as u32,
    )
}

/// Each row turned by its move.
pub open spec fn next_states_spec(v: LayoutView, s: Seq<u32>, ms: Seq<u32>) -> Seq<u32> {
    let k = v.goal.len() as int;
    Seq::new(s.len(), |i: int| s[(i / k) * k + v.moves[ms[i / k] as int][i % k] as int])
}

impl Layout {
    /// Refuse a length that is not a whole number of states.
    fn check(len: usize, k: usize) -> (r: core::result::Result<(), Error>)
        ensures
            r is Ok <==> whole_rows(len as nat, k as nat),
            r matches Err(e) ==> e.spec_error_kind() == ErrorKind::Range,
    {
        if k == 0 || len % k != 0 {
            let mut m = String::from_str("a state of this puzzle is ");
            m.append(u64_decimal(k as u64).as_str());
            m.append(" values, and ");
            m.append(u64_decimal(len as u64).as_str());
            m.append(" is not a whole number of them");
            return Err(Error::Range(m));
        }
        Ok(())
    }

    /// Rewrite states from the puzzle's slot order into face order, with
    /// each color replaced by the face it belongs to.
    pub fn to_facelets(&self, states: &[u32]) -> (r: core::result::Result<Vec<u32>, Error>)
        requires
            self.wf(),
        ensures
            r is Ok <==> whole_rows(states@.len(), self@.goal.len()) && forall|i: int|
                0 <= i < states@.len() ==> #[trigger] states@[i] < self@.face_of_color.len(),
            r matches Ok(out) ==> out@ == to_facelets_spec(self@, states@),
            r matches Err(e) ==> e.spec_error_kind() == ErrorKind::Range,
    {
        let k = self.goal.len();
        Self::check(states.len(), k)?;
        let colors = self.face_of_color.len();
        let mut i: usize = 0;
        while i < states.len()
            invariant
                i <= states@.len(),
                colors == self@.face_of_color.len(),
                forall|j: int| 0 <= j < i ==> #[trigger] states@[j] < colors,
            decreases states@.len() - i,
        {
            if states[i] as usize >= colors {
                let mut m = u64_decimal(states[i] as u64);
                m.append(" is not one of this puzzle's ");
                m.append(u64_decimal(colors as u64).as_str());
                m.append(" colors");
                return Err(Error::Range(m));
            }
            i = i + 1;
        }
        let rows = states.len() / k;
        proof {
            lemma_rows(states@.len() as int, k as int);
        }
        let mut out: Vec<u32> = Vec::new();
        let mut r: usize = 0;
        while r < rows
            invariant
                self.wf(),
                k == self@.goal.len() > 0,
                rows * k == states@.len() <= usize::MAX,
                colors == self@.face_of_color.len(),
                forall|j: int| 0 <= j < states@.len() ==> #[trigger] states@[j] < colors,
                r <= rows,
                out@.len() == r * k,
                forall|j: int| 0 <= j < out@.len() ==> #[trigger] out@[j] == to_facelets_spec(self@, states@)[j],
            decreases rows - r,
        {
            let mut f: usize = 0;
            while f < k
                invariant
                    self.wf(),
                    k == self@.goal.len() > 0,
                    rows * k == states@.len() <= usize::MAX,
                    colors == self@.face_of_color.len(),
                    forall|j: int| 0 <= j < states@.len() ==> #[trigger] states@[j] < colors,
                    r < rows,
                    f <= k,
                    out@.len() == r * k + f,
                    forall|j: int|
                        0 <= j < out@.len() ==> #[trigger] out@[j] == to_facelets_spec(self@, states@)[j],
                decreases k - f,
            {
                proof {
                    lemma_in_rows(r as int, f as int, rows as int, k as int);
                    lemma_split(r * k + f, r as int, f as int, k as int);
                }
                let slot = self.slot_of_facelet[f] as usize;
                proof {
                    assert(self@.slot_of_facelet[f as int] == slot);
                    assert(slot < k);
                    lemma_in_rows(r as int, slot as int, rows as int, k as int);
                }
                let c = states[r * k + slot] as usize;
                let x = self.face_of_color[c] as u32;
                out.push(x);
                f = f + 1;
            }
            r = r + 1;
            proof {
                assert(out@.len() == r * k) by (nonlinear_arith)
                    requires
                        out@.len() == (r - 1) * k + k,
                ;
            }
        }
        proof {
            assert(out@ =~= to_facelets_spec(self@, states@));
        }
        Ok(out)
    }

    /// Rewrite sticker identities from slot order into face order, each
    /// identity named by the facelet it belongs to.
    pub fn to_facelet_ids(&self, states: &[u32]) -> (r: core::result::Result<Vec<u32>, Error>)
        requires
            self.wf(),
        ensures
            r is Ok <==> whole_rows(states@.len(), self@.goal.len()) && forall|i: int|
                0 <= i < states@.len() ==> #[trigger] states@[i] < self@.goal.len(),
            r matches Ok(out) ==> out@ == to_facelet_ids_spec(self@, states@),
            r matches Err(e) ==> e.spec_error_kind() == ErrorKind::Range,
    {
        let k = self.goal.len();
        Self::check(states.len(), k)?;
        let colors = k;
        let mut i: usize = 0;
        while i < states.len()
            invariant
                i <= states@.len(),
                colors == self@.goal.len(),
                forall|j: int| 0 <= j < i ==> #[trigger] states@[j] < colors,
            decreases states@.len() - i,
        {
            if states[i] as usize >= colors {
                let mut m = u64_decimal(states[i] as u64);
                m.append(" is not one of this puzzle's ");
                m.append(u64_decimal(colors as u64).as_str());
                m.append(" slots");
                return Err(Error::Range(m));
            }
            i = i + 1;
        }
        let rows = states.len() / k;
        proof {
            lemma_rows(states@.len() as int, k as int);
        }
        let mut out: Vec<u32> = Vec::new();
        let mut r: usize = 0;
        while r < rows
            invariant
                self.wf(),
                k == self@.goal.len() > 0,
                rows * k == states@.len() <= usize::MAX,
                colors == self@.goal.len(),
                forall|j: int| 0 <= j < states@.len() ==> #[trigger] states@[j] < colors,
                r <= rows,
                out@.len() == r * k,
                forall|j: int| 0 <= j < out@.len() ==> #[trigger] out@[j] == to_facelet_ids_spec(self@, states@)[j],
            decreases rows - r,
        {
            let mut f: usize = 0;
            while f < k
                invariant
                    self.wf(),
                    k == self@.goal.len() > 0,
                    rows * k == states@.len() <= usize::MAX,
                    colors == self@.goal.len(),
                    forall|j: int| 0 <= j < states@.len() ==> #[trigger] states@[j] < colors,
                    r < rows,
                    f <= k,
                    out@.len() == r * k + f,
                    forall|j: int|
                        0 <= j < out@.len() ==> #[trigger] out@[j] == to_facelet_ids_spec(self@, states@)[j],
                decreases k - f,
            {
                proof {
                    lemma_in_rows(r as int, f as int, rows as int, k as int);
                    lemma_split(r * k + f, r as int, f as int, k as int);
                }
                let slot = self.slot_of_facelet[f] as usize;
                proof {
                    assert(self@.slot_of_facelet[f as int] == slot);
                    assert(slot < k);
                    lemma_in_rows(r as int, slot as int, rows as int, k as int);
                }
                let c = states[r * k + slot] as usize;
                proof {
                    assert(self@.facelet_of_slot[c as int] < k);
                }
                let x = self.facelet_of_slot[c];
                out.push(x);
                f = f + 1;
            }
            r = r + 1;
            proof {
                assert(out@.len() == r * k) by (nonlinear_arith)
                    requires
                        out@.len() == (r - 1) * k + k,
                ;
            }
        }
        proof {
            assert(out@ =~= to_facelet_ids_spec(self@, states@));
        }
        Ok(out)
    }

    /// Rewrite states in face order back into the puzzle's slot order and
    /// its own colors.
    pub fn from_facelets(&self, states: &[u32]) -> (r: core::result::Result<Vec<u32>, Error>)
        requires
            self.wf(),
        ensures
            r is Ok <==> whole_rows(states@.len(), self@.goal.len()) && forall|i: int|
                0 <= i < states@.len() ==> #[trigger] states@[i] < self@.face_count,
            r matches Ok(out) ==> out@ == from_facelets_spec(self@, states@),
            r matches Err(e) ==> e.spec_error_kind() == ErrorKind::Range,
    {
        let k = self.goal.len();
        Self::check(states.len(), k)?;
        let colors = self.face_count;
        let mut i: usize = 0;
        while i < states.len()
            invariant
                i <= states@.len(),
                colors == self@.face_count,
                forall|j: int| 0 <= j < i ==> #[trigger] states@[j] < colors,
            decreases states@.len() - i,
        {
            if states[i] as usize >= colors {
                let mut m = u64_decimal(states[i] as u64);
                m.append(" is not one of this puzzle's ");
                m.append(u64_decimal(colors as u64).as_str());
                m.append(" faces");
                return Err(Error::Range(m));
            }
            i = i + 1;
        }
        let rows = states.len() / k;
        proof {
            lemma_rows(states@.len() as int, k as int);
        }
        let mut out: Vec<u32> = Vec::new();
        let mut r: usize = 0;
        while r < rows
            invariant
                self.wf(),
                k == self@.goal.len() > 0,
                rows * k == states@.len() <= usize::MAX,
                colors == self@.face_count,
                forall|j: int| 0 <= j < states@.len() ==> #[trigger] states@[j] < colors,
                r <= rows,
                out@.len() == r * k,
                forall|j: int| 0 <= j < out@.len() ==> #[trigger] out@[j] == from_facelets_spec(self@, states@)[j],
            decreases rows - r,
        {
            let mut f: usize = 0;
            while f < k
                invariant
                    self.wf(),
                    k == self@.goal.len() > 0,
                    rows * k == states@.len() <= usize::MAX,
                    colors == self@.face_count,
                    forall|j: int| 0 <= j < states@.len() ==> #[trigger] states@[j] < colors,
                    r < rows,
                    f <= k,
                    out@.len() == r * k + f,
                    forall|j: int|
                        0 <= j < out@.len() ==> #[trigger] out@[j] == from_facelets_spec(self@, states@)[j],
                decreases k - f,
            {
                proof {
                    lemma_in_rows(r as int, f as int, rows as int, k as int);
                    lemma_split(r * k + f, r as int, f as int, k as int);
                }
                let slot = self.facelet_of_slot[f] as usize;
                proof {
                    assert(self@.facelet_of_slot[f as int] == slot);
                    assert(slot < k);
                    lemma_in_rows(r as int, slot as int, rows as int, k as int);
                }
                let c = states[r * k + slot] as usize;
                let x = self.color_of_face[c] as u32;
                out.push(x);
                f = f + 1;
            }
            r = r + 1;
            proof {
                assert(out@.len() == r * k) by (nonlinear_arith)
                    requires
                        out@.len() == (r - 1) * k + k,
                ;
            }
        }
        proof {
            assert(out@ =~= from_facelets_spec(self@, states@));
        }
        Ok(out)
    }
}


/// What `inverse_moves` gives: each move's undoing move, when every move is
/// in range and has one.
pub open spec fn inverse_moves_ok(v: LayoutView, ms: Seq<u32>) -> bool {
    forall|j: int| 0 <= j < ms.len() ==> #[trigger] ms[j] < v.moves.len() && v.inverse[ms[j] as int] is Some
}

/// Whether each state is solved: every facelet holding its own face.
pub open spec fn solved_spec(v: LayoutView, s: Seq<u32>) -> Seq<bool> {
    let k = v.goal.len() as int;
    Seq::new((s.len() / k as nat) as nat, |r: int| forall|i: int| 0 <= i < k ==> #[trigger] s[r * k + i] == v.goal[i])
}

/// A batch of states as indicator bytes: byte `i * c + f` is one when
/// facelet `i` holds face `f`.
pub open spec fn one_hot_spec(v: LayoutView, s: Seq<u32>) -> Seq<u8> {
    let c = v.face_count as int;
    Seq::new(
        (s.len() * v.face_count) as nat,
        |j: int|
            if s[j / c] as int == j % c {
                1u8
            } else {
                0u8
            },
    )
}

impl Layout {
    /// Turn a batch of states, one move each, entirely in the array.
    pub fn next_states(&self, states: &[u32], moves: &[u32]) -> (r: core::result::Result<Vec<u32>, Error>)
        requires
            self.wf(),
        ensures
            r is Ok <==> whole_rows(states@.len(), self@.goal.len()) && moves@.len() * self@.goal.len()
                == states@.len() && forall|j: int| 0 <= j < moves@.len() ==> #[trigger] moves@[j] < self@.moves.len(),
            r matches Ok(out) ==> out@ == next_states_spec(self@, states@, moves@),
            r matches Err(e) ==> e.spec_error_kind() == ErrorKind::Range,
    {
        let k = self.goal.len();
        Self::check(states.len(), k)?;
        let rows = states.len() / k;
        proof {
            lemma_rows(states@.len() as int, k as int);
        }
        if moves.len() != rows {
            proof {
                if moves@.len() * k == states@.len() {
                    vstd::arithmetic::div_mod::lemma_div_multiples_vanish(moves@.len() as int, k as int);
                    assert(moves@.len() * k == k * moves@.len()) by (nonlinear_arith);
                }
            }
            let mut m = String::from_str("got ");
            m.append(u64_decimal(moves.len() as u64).as_str());
            m.append(" moves for ");
            m.append(u64_decimal(rows as u64).as_str());
            m.append(" states");
            return Err(Error::Range(m));
        }
        let mut j: usize = 0;
        while j < moves.len()
            invariant
                j <= moves@.len(),
                self.wf(),
                forall|t: int| 0 <= t < j ==> #[trigger] moves@[t] < self@.moves.len(),
            decreases moves@.len() - j,
        {
            if moves[j] as usize >= self.moves.len() {
                let mut m = String::from_str("move ");
                m.append(u64_decimal(moves[j] as u64).as_str());
                m.append(" out of range");
                return Err(Error::Range(m));
            }
            j = j + 1;
        }
        let mut out: Vec<u32> = Vec::new();
        let mut r: usize = 0;
        while r < rows
            invariant
                self.wf(),
                k == self@.goal.len() > 0,
                rows * k == states@.len() <= usize::MAX,
                moves@.len() == rows,
                forall|t: int| 0 <= t < moves@.len() ==> #[trigger] moves@[t] < self@.moves.len(),
                r <= rows,
                out@.len() == r * k,
                forall|t: int| 0 <= t < out@.len() ==> #[trigger] out@[t] == next_states_spec(self@, states@, moves@)[t],
            decreases rows - r,
        {
            let m = moves[r] as usize;
            let perm = &self.moves[m];
            proof {
                assert(self@.moves[m as int] == perm@);
                assert(is_arrangement_spec(self@.moves[m as int], k as nat));
            }
            let mut f: usize = 0;
            while f < k
                invariant
                    self.wf(),
                    k == self@.goal.len() > 0,
                    rows * k == states@.len() <= usize::MAX,
                    moves@.len() == rows,
                    r < rows,
                    m == moves@[r as int],
                    perm@ == self@.moves[m as int],
                    is_arrangement_spec(perm@, k as nat),
                    f <= k,
                    out@.len() == r * k + f,
                    forall|t: int|
                        0 <= t < out@.len() ==> #[trigger] out@[t] == next_states_spec(self@, states@, moves@)[t],
                decreases k - f,
            {
                proof {
                    lemma_in_rows(r as int, f as int, rows as int, k as int);
                    lemma_split(r * k + f, r as int, f as int, k as int);
                }
                let from = perm[f] as usize;
                proof {
                    lemma_in_rows(r as int, from as int, rows as int, k as int);
                }
                out.push(states[r * k + from]);
                f = f + 1;
            }
            r = r + 1;
            proof {
                assert(out@.len() == r * k) by (nonlinear_arith)
                    requires
                        out@.len() == (r - 1) * k + k,
                ;
            }
        }
        proof {
            assert(out@ =~= next_states_spec(self@, states@, moves@));
            assert(moves@.len() * k == states@.len());
        }
        Ok(out)
    }

    /// The face each facelet belongs to when solved.
    pub fn goal_colors(&self) -> (r: Vec<u32>)
        ensures
            r@ == self@.goal,
    {
        copy_row(&self.goal)
    }

    /// The sticker each facelet holds when solved: the facelet itself.
    pub fn goal_ids(&self) -> (r: Vec<u32>)
        requires
            self.wf(),
        ensures
            r@ == iota(self@.goal.len()),
    {
        let k = self.goal.len();
        let mut r: Vec<u32> = Vec::new();
        let mut i: usize = 0;
        while i < k
            invariant
                i <= k < u32::MAX,
                r@ == iota(i as nat),
            decreases k - i,
        {
            r.push(i as u32);
            i = i + 1;
            proof {
                assert(r@ =~= iota(i as nat));
            }
        }
        r
    }

    /// The undoing move of each of `moves`.
    pub fn inverse_moves(&self, moves: &[u32]) -> (r: core::result::Result<Vec<u32>, Error>)
        requires
            self.wf(),
        ensures
            r is Ok <==> inverse_moves_ok(self@, moves@),
            r matches Ok(out) ==> out@ == moves@.map_values(|m: u32| self@.inverse[m as int]->0),
            r matches Err(e) ==> e.spec_error_kind() == ErrorKind::Range,
    {
        let mut out: Vec<u32> = Vec::new();
        let mut j: usize = 0;
        while j < moves.len()
            invariant
                self.wf(),
                j <= moves@.len(),
                inverse_moves_ok(self@, moves@.take(j as int)),
                out@ == moves@.take(j as int).map_values(|m: u32| self@.inverse[m as int]->0),
            decreases moves@.len() - j,
        {
            let m = moves[j];
            if m as usize >= self.inverse.len() {
                proof {
                    assert(!(moves@[j as int] < self@.moves.len()));
                }
                let mut msg = String::from_str("move ");
                msg.append(u64_decimal(m as u64).as_str());
                msg.append(" out of range");
                return Err(Error::Range(msg));
            }
            match self.inverse[m as usize] {
                Some(x) => {
                    out.push(x);
                },
                None => {
                    let mut msg = String::from_str("nothing in this layout undoes ");
                    msg.append(self.names[m as usize].as_str());
                    return Err(Error::Range(msg));
                },
            }
            j = j + 1;
            proof {
                assert(moves@.take(j as int).drop_last() =~= moves@.take(j - 1));
                assert(out@ =~= moves@.take(j as int).map_values(|m: u32| self@.inverse[m as int]->0));
                assert forall|t: int| 0 <= t < moves@.take(j as int).len() implies #[trigger] moves@.take(
                    j as int,
                )[t] < self@.moves.len() && self@.inverse[moves@.take(j as int)[t] as int] is Some by {
                    if t < j - 1 {
                        assert(moves@.take(j as int)[t] == moves@.take(j - 1)[t]);
                    }
                }
            }
        }
        proof {
            assert(moves@.take(j as int) =~= moves@);
        }
        Ok(out)
    }

    /// Whether each state is solved: every facelet holding its own face.
    pub fn solved(&self, facelets: &[u32]) -> (r: core::result::Result<Vec<bool>, Error>)
        requires
            self.wf(),
        ensures
            r is Ok <==> whole_rows(facelets@.len(), self@.goal.len()),
            r matches Ok(out) ==> out@ == solved_spec(self@, facelets@),
            r matches Err(e) ==> e.spec_error_kind() == ErrorKind::Range,
    {
        let k = self.goal.len();
        Self::check(facelets.len(), k)?;
        let rows = facelets.len() / k;
        proof {
            lemma_rows(facelets@.len() as int, k as int);
        }
        let mut out: Vec<bool> = Vec::new();
        let mut r: usize = 0;
        while r < rows
            invariant
                self.wf(),
                k == self@.goal.len() > 0,
                rows * k == facelets@.len() <= usize::MAX,
                rows == facelets@.len() / k as nat,
                r <= rows,
                out@ == solved_spec(self@, facelets@).take(r as int),
            decreases rows - r,
        {
            let mut all = true;
            let mut i: usize = 0;
            while i < k
                invariant
                    k == self@.goal.len() > 0,
                    rows * k == facelets@.len() <= usize::MAX,
                    r < rows,
                    i <= k,
                    all == (forall|t: int| 0 <= t < i ==> #[trigger] facelets@[r * k + t] == self@.goal[t]),
                decreases k - i,
            {
                proof {
                    lemma_in_rows(r as int, i as int, rows as int, k as int);
                }
                if facelets[r * k + i] != self.goal[i] {
                    all = false;
                }
                i = i + 1;
            }
            out.push(all);
            r = r + 1;
            proof {
                assert(out@ =~= solved_spec(self@, facelets@).take(r as int));
            }
        }
        proof {
            assert(solved_spec(self@, facelets@).take(r as int) =~= solved_spec(self@, facelets@));
        }
        Ok(out)
    }
}


/// A random move that does not undo the move before it: the move that
/// would is looked up, and a clash nudged to the next move.
pub open spec fn lpick_spec(state: u64, count: nat, last: u32, inverse: Seq<Option<u32>>) -> (u64, nat) {
    let (s, a) = next_below_spec(state, count);
    let undo = if last == u32::MAX {
        None
    } else {
        inverse[last as int]
    };
    if count > 2 && undo == Some(a as u32) {
        (s, (a + 1) % count)
    } else {
        (s, a)
    }
}

/// The moves of a random walk of `depth` steps, and the generator after it.
pub open spec fn lwalk_spec(state: u64, last: u32, count: nat, inverse: Seq<Option<u32>>, depth: nat) -> (
    Seq<u32>,
    u64,
)
    decreases depth,
{
    if depth == 0 {
        (seq![], state)
    } else {
        let (s1, a) = lpick_spec(state, count, last, inverse);
        let (rest, s2) = lwalk_spec(s1, a as u32, count, inverse, (depth - 1) as nat);
        (seq![a as u32] + rest, s2)
    }
}

/// Where a row's walk starts, from the seed and which row it is.
pub open spec fn start_of_spec(seed: u64, row: int) -> u64 {
    vstd::wrapping::u64_specs::wrapping_mul(
        vstd::wrapping::u64_specs::wrapping_add(seed, row as u64),
        0x9E37_79B9_7F4A_7C15u64,
    ) | 1u64
}

/// The moves row `r` of a walk makes.
pub open spec fn row_walk(v: LayoutView, steps: Seq<u32>, seed: u64, r: int) -> Seq<u32> {
    lwalk_spec(start_of_spec(seed, r), u32::MAX, v.moves.len(), v.inverse, steps[r] as nat).0
}

/// Where each row's walk ends, rows one after another.
pub open spec fn walk_states(v: LayoutView, steps: Seq<u32>, seed: u64) -> Seq<u32> {
    Seq::new(steps.len(), |r: int| apply_moves(v.goal, row_walk(v, steps, seed, r), v.moves)).flatten_alt()
}

/// The most steps any row takes.
pub open spec fn longest(steps: Seq<u32>) -> nat
    decreases steps.len(),
{
    if steps.len() == 0 {
        0
    } else {
        let l = longest(steps.drop_last());
        if steps.last() as nat > l {
            steps.last() as nat
        } else {
            l
        }
    }
}

/// The states along a walk `ms` of `depth` moves: after each of `0..=n`
/// turns, standing still once the walk is over.
pub open spec fn path_blocks(v: LayoutView, ms: Seq<u32>, depth: int, n: nat) -> Seq<Seq<u32>> {
    Seq::new(
        n + 1,
        |t: int|
            apply_moves(
                v.goal,
                ms.take(
                    if t < depth {
                        t
                    } else {
                        depth
                    },
                ),
                v.moves,
            ),
    )
}

/// The moves of a walk `ms` of `depth` moves, padded with the move count to
/// `w`.
pub open spec fn padded_moves(v: LayoutView, ms: Seq<u32>, depth: int, w: nat) -> Seq<u32> {
    Seq::new(
        w,
        |t: int|
            if t < depth {
                ms[t]
            } else {
                v.moves.len() as u32
            },
    )
}

/// Row `r`'s path, flattened.
pub open spec fn path_states(v: LayoutView, steps: Seq<u32>, seed: u64, r: int, n: nat) -> Seq<u32> {
    path_blocks(v, row_walk(v, steps, seed, r), steps[r] as int, n).flatten_alt()
}

/// Row `r`'s moves, padded with the move count once its walk is over.
pub open spec fn path_moves(v: LayoutView, steps: Seq<u32>, seed: u64, r: int, w: nat) -> Seq<u32> {
    padded_moves(v, row_walk(v, steps, seed, r), steps[r] as int, w)
}

/// The whole block of paths, and of moves.
pub open spec fn traj_spec(v: LayoutView, steps: Seq<u32>, seed: u64) -> (Seq<u32>, Seq<u32>) {
    let n = longest(steps);
    let w = if n > 0 {
        n
    } else {
        1
    };
    (
        Seq::new(steps.len(), |r: int| path_states(v, steps, seed, r, n)).flatten_alt(),
        Seq::new(steps.len(), |r: int| path_moves(v, steps, seed, r, w)).flatten_alt(),
    )
}

/// A walk of fewer steps is a prefix of a longer one.
proof fn lemma_lwalk_len(state: u64, last: u32, count: nat, inverse: Seq<Option<u32>>, depth: nat)
    ensures
        lwalk_spec(state, last, count, inverse, depth).0.len() == depth,
    decreases depth,
{
    if depth > 0 {
        let (s1, a) = lpick_spec(state, count, last, inverse);
        lemma_lwalk_len(s1, a as u32, count, inverse, (depth - 1) as nat);
    }
}

/// A walk, split after its first move.
proof fn lemma_lwalk_step(state: u64, last: u32, count: nat, inverse: Seq<Option<u32>>, depth: nat)
    requires
        depth > 0,
    ensures
        ({
            let (s1, a) = lpick_spec(state, count, last, inverse);
            lwalk_spec(state, last, count, inverse, depth).0 == seq![a as u32] + lwalk_spec(
                s1,
                a as u32,
                count,
                inverse,
                (depth - 1) as nat,
            ).0
        }),
{
}

/// A longest walk is at least every row's.
proof fn lemma_longest(steps: Seq<u32>)
    ensures
        forall|r: int| 0 <= r < steps.len() ==> #[trigger] steps[r] <= longest(steps),
        longest(steps) <= u32::MAX,
    decreases steps.len(),
{
    if steps.len() > 0 {
        lemma_longest(steps.drop_last());
        assert forall|r: int| 0 <= r < steps.len() implies #[trigger] steps[r] <= longest(steps) by {
            if r < steps.len() - 1 {
                assert(steps[r] == steps.drop_last()[r]);
            }
        }
    }
}

impl Layout {
    /// Select a move that does not undo the preceding move.
    fn pick(&self, state: &mut u64, last: u32) -> (r: usize)
        requires
            self.wf(),
            self@.moves.len() > 0,
            last == u32::MAX || last < self@.moves.len(),
        ensures
            (*final(state), r as nat) == lpick_spec(*old(state), self@.moves.len(), last, self@.inverse),
            r < self@.moves.len(),
    {
        let count = self.moves.len();
        let a = next_below(state, count);
        proof {
            reveal(next_below_spec);
        }
        let undo = if last == u32::MAX {
            None
        } else {
            self.inverse[last as usize]
        };
        if count > 2 && undo == Some(a as u32) {
            (a + 1) % count
        } else {
            a
        }
    }

    /// Walk one row from solved, `depth` random turns; the state it ends in.
    fn walk_one(&self, depth: u32, rng0: u64) -> (r: Vec<u32>)
        requires
            self.wf(),
            self@.moves.len() > 0,
        ensures
            r@ == apply_moves(
                self@.goal,
                lwalk_spec(rng0, u32::MAX, self@.moves.len(), self@.inverse, depth as nat).0,
                self@.moves,
            ),
    {
        let ghost count = self@.moves.len();
        let ghost full = lwalk_spec(rng0, u32::MAX, count, self@.inverse, depth as nat).0;
        let mut state = copy_row(&self.goal);
        let mut rng = rng0;
        let mut last = u32::MAX;
        let mut t: u32 = 0;
        let ghost mut done: Seq<u32> = seq![];
        proof {
            lemma_lwalk_len(rng0, u32::MAX, count, self@.inverse, depth as nat);
            assert(full =~= done + lwalk_spec(rng, last, count, self@.inverse, depth as nat).0);
        }
        while t < depth
            invariant
                self.wf(),
                count == self@.moves.len() > 0,
                t <= depth,
                last == u32::MAX || last < count,
                done.len() == t,
                full == done + lwalk_spec(rng, last, count, self@.inverse, (depth - t) as nat).0,
                state@ == apply_moves(self@.goal, done, self@.moves),
                state@.len() == self@.goal.len(),
            decreases depth - t,
        {
            let ghost rng_before = rng;
            let ghost last_before = last;
            let m = self.pick(&mut rng, last);
            proof {
                lemma_lwalk_step(rng_before, last_before, count, self@.inverse, (depth - t) as nat);
                assert(self@.moves[m as int] == self.moves@[m as int]@);
                assert(is_arrangement_spec(self@.moves[m as int], self@.goal.len()));
            }
            let perm = &self.moves[m];
            let mut next: Vec<u32> = Vec::new();
            let mut i: usize = 0;
            while i < perm.len()
                invariant
                    i <= perm@.len() == state@.len(),
                    forall|x: int| 0 <= x < perm@.len() ==> #[trigger] perm@[x] < state@.len(),
                    next@ == gather(state@, perm@).take(i as int),
                decreases perm@.len() - i,
            {
                next.push(state[perm[i] as usize]);
                i = i + 1;
                proof {
                    assert(next@ =~= gather(state@, perm@).take(i as int));
                }
            }
            proof {
                assert(gather(state@, perm@).take(i as int) =~= gather(state@, perm@));
                let d2 = done.push(m as u32);
                assert(d2.drop_last() =~= done);
                assert(full =~= d2 + lwalk_spec(rng, m as u32, count, self@.inverse, (depth - t - 1) as nat).0);
                done = d2;
            }
            state = next;
            last = m as u32;
            t = t + 1;
        }
        proof {
            assert(full =~= done);
        }
        state
    }

    /// Walk states away from solved, keeping only where each ends up.
    pub fn walk(&self, steps: &[u32], seed: u64) -> (r: core::result::Result<Vec<u32>, Error>)
        requires
            self.wf(),
            steps@.len() * self@.goal.len() <= usize::MAX,
        ensures
            r is Ok <==> self@.moves.len() > 0 || forall|j: int| 0 <= j < steps@.len() ==> #[trigger] steps@[j] == 0,
            r matches Ok(out) ==> out@ == walk_states(self@, steps@, seed),
            r matches Err(e) ==> e.spec_message() == "this puzzle has no moves, so there is nowhere to walk to"@,
            r matches Err(e) ==> e.spec_error_kind() == ErrorKind::Range,
    {
        let count = self.moves.len();
        let mut j: usize = 0;
        while j < steps.len()
            invariant
                j <= steps@.len(),
                count == self@.moves.len(),
                count == 0 ==> forall|t: int| 0 <= t < j ==> #[trigger] steps@[t] == 0,
            decreases steps@.len() - j,
        {
            if count == 0 && steps[j] > 0 {
                return Err(Error::Range("this puzzle has no moves, so there is nowhere to walk to".to_owned()));
            }
            j = j + 1;
        }
        let ghost rows_v = Seq::new(
            steps@.len(),
            |r: int| apply_moves(self@.goal, row_walk(self@, steps@, seed, r), self@.moves),
        );
        let mut out: Vec<u32> = Vec::new();
        let mut r: usize = 0;
        while r < steps.len()
            invariant
                self.wf(),
                count == self@.moves.len(),
                count == 0 ==> forall|t: int| 0 <= t < steps@.len() ==> #[trigger] steps@[t] == 0,
                r <= steps@.len(),
                rows_v == Seq::new(
                    steps@.len(),
                    |r: int| apply_moves(self@.goal, row_walk(self@, steps@, seed, r), self@.moves),
                ),
                out@ == rows_v.take(r as int).flatten_alt(),
            decreases steps@.len() - r,
        {
            let row = if count == 0 {
                proof {
                    assert(steps@[r as int] == 0);
                    assert(row_walk(self@, steps@, seed, r as int) =~= Seq::<u32>::empty());
                }
                self.goal_colors()
            } else {
                let rng = seed.wrapping_add(r as u64).wrapping_mul(0x9E37_79B9_7F4A_7C15) | 1;
                self.walk_one(steps[r], rng)
            };
            proof {
                lemma_flatten_step(rows_v, r as int);
                assert(row@ == rows_v[r as int]);
            }
            let mut i: usize = 0;
            let ghost before = out@;
            while i < row.len()
                invariant
                    i <= row@.len(),
                    out@ == before + row@.take(i as int),
                decreases row@.len() - i,
            {
                out.push(row[i]);
                i = i + 1;
                proof {
                    assert(out@ =~= before + row@.take(i as int));
                }
            }
            proof {
                assert(row@.take(i as int) =~= row@);
            }
            r = r + 1;
        }
        proof {
            assert(rows_v.take(r as int) =~= rows_v);
        }
        Ok(out)
    }
}


/// Append all of `src` to `out`.
fn append_all(out: &mut Vec<u32>, src: &Vec<u32>)
    ensures
        final(out)@ == old(out)@ + src@,
{
    let ghost before = out@;
    let mut i: usize = 0;
    while i < src.len()
        invariant
            i <= src@.len(),
            out@ == before + src@.take(i as int),
        decreases src@.len() - i,
    {
        out.push(src[i]);
        i = i + 1;
        proof {
            assert(out@ =~= before + src@.take(i as int));
        }
    }
    assert(src@.take(i as int) =~= src@);
}

/// Appending a block to a flattened prefix.
proof fn lemma_append_block(out: Seq<u32>, blocks: Seq<Seq<u32>>, t: int, row: Seq<u32>)
    requires
        0 <= t < blocks.len(),
        out == blocks.take(t).flatten_alt(),
        row == blocks[t],
    ensures
        out + row == blocks.take(t + 1).flatten_alt(),
{
    lemma_flatten_step(blocks, t);
}

impl Layout {
    /// One row's path: the state after each of `0..=n` turns, the walk
    /// stopping after `depth` of them, and the moves, padded with the move
    /// count to `w`.
    fn path_one(&self, depth: u32, rng0: u64, n: usize, w: usize) -> (r: (Vec<u32>, Vec<u32>))
        requires
            self.wf(),
            self@.moves.len() > 0 || depth == 0,
            depth <= n,
            n <= w,
            n <= u32::MAX,
            n + 1 <= usize::MAX,
            w >= 1,
            (n + 1) * self@.goal.len() <= usize::MAX,
        ensures
            r.0@ == path_blocks(
                self@,
                lwalk_spec(rng0, u32::MAX, self@.moves.len(), self@.inverse, depth as nat).0,
                depth as int,
                n as nat,
            ).flatten_alt(),
            r.1@ == padded_moves(
                self@,
                lwalk_spec(rng0, u32::MAX, self@.moves.len(), self@.inverse, depth as nat).0,
                depth as int,
                w as nat,
            ),
    {
        let ghost count = self@.moves.len();
        let ghost full = lwalk_spec(rng0, u32::MAX, count, self@.inverse, depth as nat).0;
        let ghost blocks = path_blocks(self@, full, depth as int, n as nat);
        let ghost picks_v = padded_moves(self@, full, depth as int, w as nat);
        let mut picks: Vec<u32> = Vec::new();
        let mut t: usize = 0;
        while t < w
            invariant
                t <= w,
                count == self@.moves.len(),
                count < u32::MAX,
                picks@ == Seq::new(t as nat, |x: int| count as u32),
            decreases w - t,
        {
            picks.push(self.moves.len() as u32);
            t = t + 1;
            proof {
                assert(picks@ =~= Seq::new(t as nat, |x: int| count as u32));
            }
        }
        let mut state = copy_row(&self.goal);
        let mut path: Vec<u32> = Vec::new();
        let mut rng = rng0;
        let mut last = u32::MAX;
        let ghost mut done: Seq<u32> = seq![];
        proof {
            lemma_lwalk_len(rng0, u32::MAX, count, self@.inverse, depth as nat);
            assert(full =~= done + lwalk_spec(rng, last, count, self@.inverse, depth as nat).0);
            assert(full.take(0) =~= done);
        }
        let mut t: usize = 0;
        while t <= n
            invariant
                self.wf(),
                count == self@.moves.len(),
                count > 0 || depth == 0,
                depth <= n,
                n <= w,
                t <= n + 1,
                (n + 1) * self@.goal.len() <= usize::MAX,
                full.len() == depth,
                done == full.take(
                    if t < depth {
                        t as int
                    } else {
                        depth as int
                    },
                ),
                last == u32::MAX || last < count,
                t <= depth ==> full == done + lwalk_spec(rng, last, count, self@.inverse, (depth - t) as nat).0,
                state@ == apply_moves(self@.goal, done, self@.moves),
                state@.len() == self@.goal.len(),
                n <= u32::MAX,
                n + 1 <= usize::MAX,
                path@ == blocks.take(t as int).flatten_alt(),
                blocks == path_blocks(self@, full, depth as int, n as nat),
                picks@.len() == w,
                forall|x: int| 0 <= x < w ==> #[trigger] picks@[x] == (if x < depth && x < t {
                    full[x]
                } else {
                    count as u32
                }),
            decreases n + 1 - t,
        {
            proof {
                assert(blocks[t as int] == state@);
                lemma_append_block(path@, blocks, t as int, state@);
                assert(t * self@.goal.len() + self@.goal.len() <= usize::MAX) by (nonlinear_arith)
                    requires
                        t <= n,
                        (n + 1) * self@.goal.len() <= usize::MAX,
                ;
            }
            let mut i: usize = 0;
            let ghost before = path@;
            while i < state.len()
                invariant
                    i <= state@.len(),
                    path@ == before + state@.take(i as int),
                decreases state@.len() - i,
            {
                path.push(state[i]);
                i = i + 1;
                proof {
                    assert(path@ =~= before + state@.take(i as int));
                }
            }
            proof {
                assert(state@.take(i as int) =~= state@);
            }
            if t < n && t < depth as usize {
                let ghost rng_before = rng;
                let ghost last_before = last;
                let m = self.pick(&mut rng, last);
                proof {
                    lemma_lwalk_step(rng_before, last_before, count, self@.inverse, (depth - t) as nat);
                    assert(self@.moves[m as int] == self.moves@[m as int]@);
                    assert(is_arrangement_spec(self@.moves[m as int], self@.goal.len()));
                }
                let perm = &self.moves[m];
                let mut next: Vec<u32> = Vec::new();
                let mut i: usize = 0;
                while i < perm.len()
                    invariant
                        i <= perm@.len() == state@.len(),
                        forall|x: int| 0 <= x < perm@.len() ==> #[trigger] perm@[x] < state@.len(),
                        next@ == gather(state@, perm@).take(i as int),
                    decreases perm@.len() - i,
                {
                    next.push(state[perm[i] as usize]);
                    i = i + 1;
                    proof {
                        assert(next@ =~= gather(state@, perm@).take(i as int));
                    }
                }
                proof {
                    assert(gather(state@, perm@).take(i as int) =~= gather(state@, perm@));
                    let d2 = done.push(m as u32);
                    assert(d2.drop_last() =~= done);
                    assert(full =~= d2 + lwalk_spec(rng, m as u32, count, self@.inverse, (depth - t - 1) as nat).0);
                    assert(full.take(t + 1) =~= d2);
                    done = d2;
                }
                picks.set(t, m as u32);
                state = next;
                last = m as u32;
            } else {
                proof {
                    assert(t >= depth || t == n);
                }
            }
            t = t + 1;
        }
        proof {
            assert(blocks.take(t as int) =~= blocks);
            assert(picks@ =~= picks_v);
        }
        (path, picks)
    }

    /// Walk `steps.len()` states away from solved and keep the whole path:
    /// for each row the state after every turn, solved first, and the moves
    /// that produced them. Rows asked for fewer steps than the longest
    /// stand still, with the move count in place of a move.
    pub fn trajectories(&self, steps: &[u32], seed: u64) -> (r: core::result::Result<(Vec<u32>, Vec<u32>), Error>)
        requires
            self.wf(),
            steps@.len() * (longest(steps@) + 1) * self@.goal.len() <= usize::MAX,
            steps@.len() * (longest(steps@) + 1) <= usize::MAX,
        ensures
            r is Ok <==> self@.moves.len() > 0 || longest(steps@) == 0,
            r matches Ok(t) ==> (t.0@, t.1@) == traj_spec(self@, steps@, seed),
            r matches Err(e) ==> e.spec_message() == "this puzzle has no moves, so there is nowhere to walk to"@,
            r matches Err(e) ==> e.spec_error_kind() == ErrorKind::Range,
    {
        let mut n: usize = 0;
        let mut j: usize = 0;
        proof {
            lemma_longest(steps@);
        }
        while j < steps.len()
            invariant
                j <= steps@.len(),
                n == longest(steps@.take(j as int)),
                n <= u32::MAX,
            decreases steps@.len() - j,
        {
            proof {
                assert(steps@.take(j + 1).drop_last() =~= steps@.take(j as int));
            }
            if steps[j] as usize > n {
                n = steps[j] as usize;
            }
            j = j + 1;
        }
        proof {
            assert(steps@.take(j as int) =~= steps@);
            lemma_longest(steps@);
        }
        let count = self.moves.len();
        if count == 0 && n > 0 {
            return Err(Error::Range("this puzzle has no moves, so there is nowhere to walk to".to_owned()));
        }
        let w: usize = if n > 0 {
            n
        } else {
            1
        };
        let ghost sb = Seq::new(steps@.len(), |r: int| path_states(self@, steps@, seed, r, n as nat));
        let ghost mb = Seq::new(steps@.len(), |r: int| path_moves(self@, steps@, seed, r, w as nat));
        let mut states: Vec<u32> = Vec::new();
        let mut taken: Vec<u32> = Vec::new();
        let mut r: usize = 0;
        while r < steps.len()
            invariant
                self.wf(),
                count == self@.moves.len(),
                count > 0 || n == 0,
                n == longest(steps@),
                n <= u32::MAX,
                forall|x: int| 0 <= x < steps@.len() ==> #[trigger] steps@[x] <= n,
                w == (if n > 0 {
                    n
                } else {
                    1
                }),
                steps@.len() * (n + 1) * self@.goal.len() <= usize::MAX,
                steps@.len() * (n + 1) <= usize::MAX,
                r <= steps@.len(),
                sb == Seq::new(steps@.len(), |r: int| path_states(self@, steps@, seed, r, n as nat)),
                mb == Seq::new(steps@.len(), |r: int| path_moves(self@, steps@, seed, r, w as nat)),
                states@ == sb.take(r as int).flatten_alt(),
                taken@ == mb.take(r as int).flatten_alt(),
            decreases steps@.len() - r,
        {
            proof {
                assert((n + 1) * self@.goal.len() <= usize::MAX) by (nonlinear_arith)
                    requires
                        steps@.len() * (n + 1) * self@.goal.len() <= usize::MAX,
                        r < steps@.len(),
                ;
                assert(n + 1 <= usize::MAX) by (nonlinear_arith)
                    requires
                        steps@.len() * (n + 1) <= usize::MAX,
                        r < steps@.len(),
                ;
            }
            let rng = seed.wrapping_add(r as u64).wrapping_mul(0x9E37_79B9_7F4A_7C15) | 1;
            let (path, picks) = self.path_one(steps[r], rng, n, w);
            proof {
                assert(path@ =~= sb[r as int]);
                assert(picks@ =~= mb[r as int]);
                lemma_flatten_step(sb, r as int);
                lemma_flatten_step(mb, r as int);
            }
            append_all(&mut states, &path);
            append_all(&mut taken, &picks);
            r = r + 1;
        }
        proof {
            assert(sb.take(r as int) =~= sb);
            assert(mb.take(r as int) =~= mb);
        }
        Ok((states, taken))
    }
}


impl Layout {
    /// Name the puzzle this describes, as a canonical query.
    pub fn set_recipe(&mut self, recipe: String)
        ensures
            final(self)@ == (LayoutView { recipe: recipe@, ..old(self)@ }),
    {
        self.recipe = recipe;
    }

    /// How many facelets a face has along one side, for a cube.
    pub fn size(&self) -> (r: Option<usize>)
        ensures
            r == self@.size,
    {
        self.size
    }

    /// The puzzle this describes, as a canonical query string.
    pub fn recipe(&self) -> (r: &str)
        ensures
            r@ == self@.recipe,
    {
        self.recipe.as_str()
    }

    /// Whether this is a cube, read by the conventions cubes are read by.
    pub fn is_cube(&self) -> (r: bool)
        ensures
            r == self@.size is Some,
    {
        self.size.is_some()
    }

    /// How many facelets there are, which is how long a state is.
    pub fn facelet_count(&self) -> (r: usize)
        ensures
            r == self@.goal.len(),
    {
        self.goal.len()
    }

    /// How many faces there are.
    pub fn face_count(&self) -> (r: usize)
        ensures
            r == self@.face_count,
    {
        self.face_count
    }

    /// How many colors the puzzle has.
    pub fn color_count(&self) -> (r: usize)
        ensures
            r == self@.face_of_color.len(),
    {
        self.face_of_color.len()
    }

    /// How many facelets each face carries.
    pub fn face_sizes(&self) -> (r: &[u32])
        ensures
            r@ == self@.face_sizes,
    {
        self.face_sizes.as_slice()
    }

    /// What each face is called.
    pub fn face_names(&self) -> (r: &[String])
        ensures
            strs(r@) == self@.face_names,
    {
        self.face_names.as_slice()
    }

    /// How many moves there are.
    pub fn move_count(&self) -> (r: usize)
        ensures
            r == self@.moves.len(),
    {
        self.moves.len()
    }

    /// Every move's name, in move order.
    pub fn move_names(&self) -> (r: &[String])
        ensures
            strs(r@) == self@.names,
    {
        self.names.as_slice()
    }

    /// Every move, as a permutation of the facelets.
    pub fn moves(&self) -> (r: &[Vec<u32>])
        ensures
            rows(r@) == self@.moves,
    {
        self.moves.as_slice()
    }

    /// The puzzle's own action for each move, where it has one.
    pub fn actions(&self) -> (r: &[Option<u32>])
        ensures
            r@ == self@.actions,
    {
        self.actions.as_slice()
    }

    /// Where each of the puzzle's slots sits in the face numbering.
    pub fn facelet_of_slot(&self) -> (r: &[u32])
        ensures
            r@ == self@.facelet_of_slot,
    {
        self.facelet_of_slot.as_slice()
    }

    /// Which slot each facelet is.
    pub fn slot_of_facelet(&self) -> (r: &[u32])
        ensures
            r@ == self@.slot_of_facelet,
    {
        self.slot_of_facelet.as_slice()
    }

    /// The move that undoes each move, where the layout has one.
    pub fn inverses(&self) -> (r: &[Option<u32>])
        ensures
            r@ == self@.inverse,
    {
        self.inverse.as_slice()
    }

    /// A batch of states as indicator bytes, `rows * facelet_count *
    /// face_count` of them.
    pub fn one_hot(&self, facelets: &[u32]) -> (r: core::result::Result<Vec<u8>, Error>)
        requires
            self.wf(),
            facelets@.len() * self@.face_count <= usize::MAX,
        ensures
            r is Ok <==> whole_rows(facelets@.len(), self@.goal.len()),
            r matches Ok(out) ==> out@ == one_hot_spec(self@, facelets@),
            r matches Err(e) ==> e.spec_error_kind() == ErrorKind::Range,
    {
        let k = self.goal.len();
        Self::check(facelets.len(), k)?;
        let c = self.face_count;
        proof {
            assert(self@.goal[0] < self@.face_count);
        }
        let n = facelets.len();
        let mut out: Vec<u8> = Vec::new();
        let mut i: usize = 0;
        while i < n
            invariant
                c == self@.face_count > 0,
                n == facelets@.len(),
                n * c <= usize::MAX,
                i <= n,
                out@.len() == i * c,
                forall|j: int| 0 <= j < out@.len() ==> #[trigger] out@[j] == one_hot_spec(self@, facelets@)[j],
            decreases n - i,
        {
            let face = facelets[i] as usize;
            let mut f: usize = 0;
            while f < c
                invariant
                    c == self@.face_count > 0,
                    n == facelets@.len(),
                    n * c <= usize::MAX,
                    i < n,
                    face == facelets@[i as int],
                    f <= c,
                    out@.len() == i * c + f,
                    forall|j: int|
                        0 <= j < out@.len() ==> #[trigger] out@[j] == one_hot_spec(self@, facelets@)[j],
                decreases c - f,
            {
                proof {
                    lemma_in_rows(i as int, f as int, n as int, c as int);
                    lemma_split(i * c + f, i as int, f as int, c as int);
                }
                out.push(if face == f {
                    1u8
                } else {
                    0u8
                });
                f = f + 1;
            }
            i = i + 1;
            proof {
                assert(out@.len() == i * c) by (nonlinear_arith)
                    requires
                        out@.len() == (i - 1) * c + c,
                ;
            }
        }
        proof {
            assert(out@ =~= one_hot_spec(self@, facelets@));
        }
        Ok(out)
    }
}


/// The flat index of row `i / k`, column `c`.
proof fn lemma_same_row(i: int, c: int, k: int)
    requires
        k > 0,
        0 <= i,
        0 <= c < k,
    ensures
        ((i / k) * k + c) / k == i / k,
        ((i / k) * k + c) % k == c,
        (i / k) * k + i % k == i,
        i / k >= 0,
{
    vstd::arithmetic::div_mod::lemma_div_pos_is_pos(i, k);
    lemma_split((i / k) * k + c, i / k, c, k);
    vstd::arithmetic::div_mod::lemma_fundamental_div_mod(i, k);
    assert((i / k) * k + i % k == i) by (nonlinear_arith)
        requires
            i == k * (i / k) + i % k,
    ;
}

/// A row index inside a whole number of rows.
proof fn lemma_row_inside(i: int, c: int, k: int, len: int)
    requires
        k > 0,
        0 <= i < len,
        len % k == 0,
        0 <= c < k,
    ensures
        0 <= (i / k) * k + c < len,
{
    lemma_rows(len, k);
    vstd::arithmetic::div_mod::lemma_div_pos_is_pos(i, k);
    vstd::arithmetic::div_mod::lemma_div_is_ordered(i, len - 1, k);
    assert((len - 1) / k < len / k) by {
        vstd::arithmetic::div_mod::lemma_div_by_multiple(len / k, k);
        vstd::arithmetic::div_mod::lemma_fundamental_div_mod(len - 1, k);
        assert(len == (len / k) * k);
        if (len - 1) / k >= len / k {
            assert(((len - 1) / k) * k >= (len / k) * k) by (nonlinear_arith)
                requires
                    (len - 1) / k >= len / k,
                    k > 0,
            ;
            vstd::arithmetic::div_mod::lemma_mod_bound(len - 1, k);
            assert(len - 1 == k * ((len - 1) / k) + (len - 1) % k);
            assert(k * ((len - 1) / k) == ((len - 1) / k) * k) by (nonlinear_arith);
        }
    }
    lemma_in_rows(i / k, c, len / k, k);
}

/// The move that undoes another, read as a permutation, is its inverse.
proof fn lemma_inverse_perm(v: LayoutView, m: int)
    requires
        layout_wf(v),
        0 <= m < v.moves.len(),
        v.inverse[m] is Some,
    ensures
        v.moves[v.inverse[m]->0 as int] == inv_perm(v.moves[m]),
        v.inverse[m]->0 < v.moves.len(),
{
    let back = inv_perm(v.moves[m]);
    if back != v.moves[m] {
        lemma_first_index(v.moves, back, v.moves.len());
    }
}

/// Turning every state by a move and then by the move that undoes it gives
/// back the states: `next_states` by `inverse_moves(moves)` undoes
/// `next_states` by `moves`.
pub proof fn lemma_inverse_undoes(v: LayoutView, s: Seq<u32>, ms: Seq<u32>)
    requires
        layout_wf(v),
        whole_rows(s.len(), v.goal.len()),
        ms.len() * v.goal.len() == s.len(),
        inverse_moves_ok(v, ms),
    ensures
        next_states_spec(v, next_states_spec(v, s, ms), ms.map_values(|m: u32| v.inverse[m as int]->0)) == s,
{
    let k = v.goal.len() as int;
    let x = next_states_spec(v, s, ms);
    let inv = ms.map_values(|m: u32| v.inverse[m as int]->0);
    let y = next_states_spec(v, x, inv);
    lemma_rows(s.len() as int, k);
    assert forall|i: int| 0 <= i < s.len() implies #[trigger] y[i] == s[i] by {
        let r = i / k;
        let c = i % k;
        vstd::arithmetic::div_mod::lemma_mod_bound(i, k);
        lemma_same_row(i, c, k);
        assert(r < ms.len()) by {
            vstd::arithmetic::div_mod::lemma_div_by_multiple(ms.len() as int, k);
            vstd::arithmetic::div_mod::lemma_div_is_ordered(i, s.len() - 1, k);
            lemma_row_inside(i, 0, k, s.len() as int);
            if r >= ms.len() {
                assert(r * k >= ms.len() * k) by (nonlinear_arith)
                    requires
                        r >= ms.len(),
                        k > 0,
                ;
            }
        }
        let m = ms[r];
        assert(m < v.moves.len() && v.inverse[m as int] is Some);
        lemma_inverse_perm(v, m as int);
        let p = v.moves[m as int];
        let b = v.moves[inv[r] as int];
        assert(b == inv_perm(p));
        assert(is_arrangement_spec(p, k as nat));
        assert(names_slot(p, c));
        let t = choose|t: int| 0 <= t < p.len() && p[t] == c;
        assert(b[c] == t as u32);
        let j = r * k + t;
        lemma_same_row(i, t, k);
        lemma_row_inside(i, t, k, s.len() as int);
        assert(y[i] == x[j]);
        assert(j / k == r);
        assert(j % k == t);
        assert(x[j] == s[r * k + p[t] as int]);
        assert(r * k + c == i);
    }
    assert(y =~= s);
}

/// Rewriting states into face order and back gives them back, when each
/// color in them is the color of its own face.
pub proof fn lemma_facelets_round_trip(v: LayoutView, s: Seq<u32>)
    requires
        layout_wf(v),
        whole_rows(s.len(), v.goal.len()),
        forall|i: int| 0 <= i < s.len() ==> #[trigger] s[i] < v.face_of_color.len(),
        forall|i: int|
            0 <= i < s.len() ==> v.color_of_face[v.face_of_color[#[trigger] s[i] as int] as int] == s[i],
        forall|c: int| 0 <= c < v.face_of_color.len() ==> #[trigger] v.face_of_color[c] < v.face_count,
    ensures
        from_facelets_spec(v, to_facelets_spec(v, s)) == s,
{
    let k = v.goal.len() as int;
    let y = to_facelets_spec(v, s);
    let z = from_facelets_spec(v, y);
    assert forall|i: int| 0 <= i < s.len() implies #[trigger] z[i] == s[i] by {
        let c = i % k;
        vstd::arithmetic::div_mod::lemma_mod_bound(i, k);
        let f = v.facelet_of_slot[c] as int;
        lemma_same_row(i, f, k);
        lemma_row_inside(i, f, k, s.len() as int);
        let j = (i / k) * k + f;
        assert(z[i] == v.color_of_face[y[j] as int] as u32);
        assert(j / k == i / k);
        assert(j % k == f);
        assert(v.slot_of_facelet[f] == c);
        lemma_same_row(i, c, k);
        assert((i / k) * k + c == i);
        assert(y[j] == v.face_of_color[s[i] as int] as u32);
    }
    assert(z =~= s);
}

/// Rewriting face-order states into slot order and back gives them back.
pub proof fn lemma_facelets_round_trip_back(v: LayoutView, x: Seq<u32>)
    requires
        layout_wf(v),
        whole_rows(x.len(), v.goal.len()),
        forall|i: int| 0 <= i < x.len() ==> #[trigger] x[i] < v.color_of_face.len(),
    ensures
        to_facelets_spec(v, from_facelets_spec(v, x)) == x,
{
    let k = v.goal.len() as int;
    let y = from_facelets_spec(v, x);
    let z = to_facelets_spec(v, y);
    assert forall|i: int| 0 <= i < x.len() implies #[trigger] z[i] == x[i] by {
        let f = i % k;
        vstd::arithmetic::div_mod::lemma_mod_bound(i, k);
        let c = v.slot_of_facelet[f] as int;
        lemma_same_row(i, c, k);
        lemma_row_inside(i, c, k, x.len() as int);
        let j = (i / k) * k + c;
        assert(z[i] == v.face_of_color[y[j] as int] as u32);
        assert(j / k == i / k);
        assert(j % k == c);
        assert(v.facelet_of_slot[c] == f);
        lemma_same_row(i, f, k);
        assert((i / k) * k + f == i);
        assert(y[j] == v.color_of_face[x[i] as int] as u32);
    }
    assert(z =~= x);
}

/// A walk ends where the matching trajectory ends: the same seed and
/// depths give the same states from `walk` as the last of each row of
/// `trajectories`.
pub proof fn lemma_walk_ends_trajectory(v: LayoutView, steps: Seq<u32>, seed: u64, r: int)
    requires
        0 <= r < steps.len(),
    ensures
        path_blocks(v, row_walk(v, steps, seed, r), steps[r] as int, longest(steps))[longest(steps) as int]
            == apply_moves(v.goal, row_walk(v, steps, seed, r), v.moves),
{
    lemma_longest(steps);
    lemma_lwalk_len(start_of_spec(seed, r), u32::MAX, v.moves.len(), v.inverse, steps[r] as nat);
    let ms = row_walk(v, steps, seed, r);
    assert(ms.take(steps[r] as int) =~= ms);
}


/// Every row of `s` turned by each move of `parts` in turn, first to last.
pub open spec fn turn_by_each(v: LayoutView, s: Seq<u32>, parts: Seq<u32>, rows: nat) -> Seq<u32>
    decreases parts.len(),
{
    if parts.len() == 0 {
        s
    } else {
        next_states_spec(
            v,
            turn_by_each(v, s, parts.drop_last(), rows),
            Seq::new(rows, |r: int| parts.last()),
        )
    }
}

/// A composed move is an arrangement of the facelets.
proof fn lemma_compose_in_range(v: LayoutView, parts: Seq<u32>)
    requires
        layout_wf(v),
        forall|j: int| 0 <= j < parts.len() ==> #[trigger] parts[j] < v.moves.len(),
    ensures
        compose(v.moves, parts, v.goal.len()).len() == v.goal.len(),
        forall|c: int|
            0 <= c < v.goal.len() ==> #[trigger] compose(v.moves, parts, v.goal.len())[c] < v.goal.len(),
    decreases parts.len(),
{
    let k = v.goal.len();
    if parts.len() > 0 {
        let dl = parts.drop_last();
        assert forall|j: int| 0 <= j < dl.len() implies #[trigger] dl[j] < v.moves.len() by {
            assert(dl[j] == parts[j]);
        }
        lemma_compose_in_range(v, dl);
        let m = v.moves[parts.last() as int];
        assert(parts.last() == parts[parts.len() - 1]);
        assert(is_arrangement_spec(m, k));
        assert forall|c: int| 0 <= c < k implies #[trigger] compose(v.moves, parts, k)[c] < k by {
            assert(m[c] < k);
        }
    }
}

/// Turning by each part in turn moves every facelet as the composed move does.
proof fn lemma_turn_by_each(v: LayoutView, s: Seq<u32>, parts: Seq<u32>, rows: nat)
    requires
        layout_wf(v),
        v.goal.len() > 0,
        s.len() == rows * v.goal.len(),
        forall|j: int| 0 <= j < parts.len() ==> #[trigger] parts[j] < v.moves.len(),
    ensures
        turn_by_each(v, s, parts, rows).len() == s.len(),
        forall|x: int|
            0 <= x < s.len() ==> #[trigger] turn_by_each(v, s, parts, rows)[x] == s[(x / v.goal.len() as int)
                * v.goal.len() + compose(v.moves, parts, v.goal.len())[x % v.goal.len() as int] as int],
    decreases parts.len(),
{
    let k = v.goal.len() as int;
    lemma_compose_in_range(v, parts);
    if parts.len() == 0 {
        assert forall|x: int| 0 <= x < s.len() implies #[trigger] turn_by_each(v, s, parts, rows)[x] == s[(x / k)
            * k + compose(v.moves, parts, k as nat)[x % k] as int] by {
            vstd::arithmetic::div_mod::lemma_mod_bound(x, k);
            lemma_same_row(x, x % k, k);
        }
    } else {
        let dl = parts.drop_last();
        assert forall|j: int| 0 <= j < dl.len() implies #[trigger] dl[j] < v.moves.len() by {
            assert(dl[j] == parts[j]);
        }
        lemma_turn_by_each(v, s, dl, rows);
        lemma_compose_in_range(v, dl);
        let prev = turn_by_each(v, s, dl, rows);
        let ms = Seq::new(rows, |r: int| parts.last());
        let m = v.moves[parts.last() as int];
        assert(parts.last() == parts[parts.len() - 1]);
        assert(is_arrangement_spec(m, k as nat));
        let cp = compose(v.moves, dl, k as nat);
        assert((s.len() as int) % k == 0) by {
            vstd::arithmetic::div_mod::lemma_mod_multiples_basic(rows as int, k);
        }
        assert forall|x: int| 0 <= x < s.len() implies #[trigger] turn_by_each(v, s, parts, rows)[x] == s[(x / k)
            * k + compose(v.moves, parts, k as nat)[x % k] as int] by {
            let r = x / k;
            let c = x % k;
            vstd::arithmetic::div_mod::lemma_mod_bound(x, k);
            lemma_same_row(x, c, k);
            assert(r < rows) by {
                vstd::arithmetic::div_mod::lemma_div_is_ordered(x, s.len() - 1, k);
                lemma_row_inside(x, 0, k, s.len() as int);
                if r >= rows {
                    assert(r * k >= rows * k) by (nonlinear_arith)
                        requires
                            r >= rows,
                            k > 0,
                    ;
                }
            }
            assert(ms[r] == parts.last());
            let mc = m[c] as int;
            assert(0 <= mc < k);
            lemma_same_row(x, mc, k);
            lemma_row_inside(x, mc, k, s.len() as int);
            let y = r * k + mc;
            assert(turn_by_each(v, s, parts, rows)[x] == prev[y]);
            assert(prev[y] == s[(y / k) * k + cp[y % k] as int]);
            assert(compose(v.moves, parts, k as nat)[c] == cp[mc]);
        }
    }
}

/// Turning by a move that `with_moves` composed from a sequence turns every
/// row as the moves of that sequence would, one after another; there is one
/// new move per sequence, named by the names of its moves joined by spaces
/// (`.` for an empty sequence), over the same facelets.
pub proof fn lemma_with_moves_composes(
    v: LayoutView,
    seqs: Seq<Seq<u32>>,
    s: Seq<u32>,
    i: int,
    rows: nat,
)
    requires
        layout_wf(v),
        v.goal.len() > 0,
        0 <= i < seqs.len(),
        seqs.len() <= u32::MAX,
        s.len() == rows * v.goal.len(),
    ensures
        with_moves_spec(v, seqs) matches Ok(n) ==> next_states_spec(n, s, Seq::new(rows, |r: int| i as u32))
            == turn_by_each(v, s, seqs[i], rows),
        with_moves_spec(v, seqs) matches Ok(n) ==> (n.moves.len() == seqs.len() && n.goal == v.goal
            && n.names[i] == (if seqs[i].len() == 0 {
                seq!['.']
            } else {
                compose_name(v.names, seqs[i])
            })),
{
    if with_moves_spec(v, seqs) is Ok {
        let n = with_moves_spec(v, seqs)->Ok_0;
        let k = v.goal.len() as int;
        let parts = seqs[i];
        assert forall|j: int| 0 <= j < parts.len() implies #[trigger] parts[j] < v.moves.len() by {
            assert(seqs[i][j] < v.moves.len());
        }
        lemma_turn_by_each(v, s, parts, rows);
        let lhs = next_states_spec(n, s, Seq::new(rows, |r: int| i as u32));
        let rhs = turn_by_each(v, s, parts, rows);
        assert(n.goal == v.goal);
        assert(n.moves[i] == compose(v.moves, parts, k as nat));
        assert((s.len() as int) % k == 0) by {
            vstd::arithmetic::div_mod::lemma_mod_multiples_basic(rows as int, k);
        }
        let ms = Seq::new(rows, |r: int| i as u32);
        assert forall|x: int| 0 <= x < s.len() implies #[trigger] lhs[x] == rhs[x] by {
            let r = x / k;
            lemma_same_row(x, 0, k);
            vstd::arithmetic::div_mod::lemma_mod_bound(x, k);
            assert(r < rows) by {
                vstd::arithmetic::div_mod::lemma_div_is_ordered(x, s.len() - 1, k);
                lemma_row_inside(x, 0, k, s.len() as int);
                if r >= rows {
                    assert(r * k >= rows * k) by (nonlinear_arith)
                        requires
                            r >= rows,
                            k > 0,
                    ;
                }
            }
            assert(ms[r] == i as u32);
            assert((i as u32) as int == i);
            assert(lhs[x] == s[r * k + n.moves[i][x % k] as int]);
        }
        assert(lhs =~= rhs);
    }
}

/// A pick names a move there is.
proof fn lemma_lpick_range(state: u64, count: nat, last: u32, inverse: Seq<Option<u32>>)
    requires
        0 < count,
    ensures
        lpick_spec(state, count, last, inverse).1 < count,
{
    let s0 = vstd::wrapping::u64_specs::wrapping_add(state, 0x9E37_79B9_7F4A_7C15u64);
    let x = (mix(s0) as usize) as nat;
    let a0 = next_below_spec(state, count).1;
    reveal(next_below_spec);
    assert(a0 == x % count);
    vstd::arithmetic::div_mod::lemma_mod_bound(x as int, count as int);
    vstd::arithmetic::div_mod::lemma_mod_bound(a0 + 1int, count as int);
}

/// A walk only names moves there are.
proof fn lemma_lwalk_range(state: u64, last: u32, count: nat, inverse: Seq<Option<u32>>, depth: nat)
    requires
        0 < count < u32::MAX,
    ensures
        forall|j: int|
            0 <= j < lwalk_spec(state, last, count, inverse, depth).0.len() ==> #[trigger] lwalk_spec(
                state,
                last,
                count,
                inverse,
                depth,
            ).0[j] < count,
    decreases depth,
{
    if depth > 0 {
        let (s1, a) = lpick_spec(state, count, last, inverse);
        lemma_lwalk_range(s1, a as u32, count, inverse, (depth - 1) as nat);
        let rest = lwalk_spec(s1, a as u32, count, inverse, (depth - 1) as nat).0;
        let whole = lwalk_spec(state, last, count, inverse, depth).0;
        lemma_lpick_range(state, count, last, inverse);
        assert(a < count);
        assert forall|j: int| 0 <= j < whole.len() implies #[trigger] whole[j] < count by {
            if j > 0 {
                assert(whole[j] == rest[j - 1]);
            }
        }
    }
}

/// Moves applied to the goal give a state of the goal's length.
proof fn lemma_apply_len(v: LayoutView, ms: Seq<u32>)
    requires
        layout_wf(v),
        forall|j: int| 0 <= j < ms.len() ==> #[trigger] ms[j] < v.moves.len(),
    ensures
        apply_moves(v.goal, ms, v.moves).len() == v.goal.len(),
    decreases ms.len(),
{
    if ms.len() > 0 {
        let dl = ms.drop_last();
        assert forall|j: int| 0 <= j < dl.len() implies #[trigger] dl[j] < v.moves.len() by {
            assert(dl[j] == ms[j]);
        }
        lemma_apply_len(v, dl);
        assert(ms.last() == ms[ms.len() - 1]);
        assert(is_arrangement_spec(v.moves[ms.last() as int], v.goal.len()));
    }
}

/// The moves of row `r`'s walk, in range, and as many as its depth.
proof fn lemma_row_walk(v: LayoutView, steps: Seq<u32>, seed: u64, r: int)
    requires
        layout_wf(v),
        0 <= r < steps.len(),
        v.moves.len() > 0 || steps[r] == 0,
    ensures
        row_walk(v, steps, seed, r).len() == steps[r],
        forall|j: int|
            0 <= j < row_walk(v, steps, seed, r).len() ==> #[trigger] row_walk(v, steps, seed, r)[j]
                < v.moves.len(),
{
    lemma_lwalk_len(start_of_spec(seed, r), u32::MAX, v.moves.len(), v.inverse, steps[r] as nat);
    if v.moves.len() > 0 {
        lemma_lwalk_range(start_of_spec(seed, r), u32::MAX, v.moves.len(), v.inverse, steps[r] as nat);
    }
}

/// The `t`-th state of row `r` in a flat block of paths of `n + 1` states each.
pub open spec fn path_state_at(flat: Seq<u32>, k: nat, n: nat, r: int, t: int) -> Seq<u32> {
    flat.subrange(r * ((n + 1) * k) + t * k, r * ((n + 1) * k) + (t + 1) * k)
}

/// The blocks of a path each hold one state.
proof fn lemma_path_blocks_len(v: LayoutView, ms: Seq<u32>, d: int, n: nat)
    requires
        layout_wf(v),
        0 <= d <= ms.len(),
        forall|j: int| 0 <= j < ms.len() ==> #[trigger] ms[j] < v.moves.len(),
    ensures
        forall|b: int| 0 <= b < path_blocks(v, ms, d, n).len() ==> (#[trigger] path_blocks(v, ms, d, n)[b]).len()
            == v.goal.len(),
{
    let blocks = path_blocks(v, ms, d, n);
    assert forall|b: int| 0 <= b < blocks.len() implies (#[trigger] blocks[b]).len() == v.goal.len() by {
        let m = if b < d {
            b
        } else {
            d
        };
        assert forall|j: int| 0 <= j < ms.take(m).len() implies #[trigger] ms.take(m)[j] < v.moves.len() by {
            assert(ms.take(m)[j] == ms[j]);
        }
        lemma_apply_len(v, ms.take(m));
    }
}

/// Along a path, each state is the one before turned by the next move of
/// the walk, while the walk lasts, and the same state after it.
proof fn lemma_path_blocks_step(v: LayoutView, ms: Seq<u32>, d: int, n: nat, t: int)
    requires
        layout_wf(v),
        0 <= d <= ms.len(),
        forall|j: int| 0 <= j < ms.len() ==> #[trigger] ms[j] < v.moves.len(),
        0 <= t < n,
    ensures
        path_blocks(v, ms, d, n)[0] == v.goal,
        t < d ==> path_blocks(v, ms, d, n)[t + 1] == next_states_spec(
            v,
            path_blocks(v, ms, d, n)[t],
            seq![ms[t]],
        ),
        d <= t ==> path_blocks(v, ms, d, n)[t + 1] == path_blocks(v, ms, d, n)[t],
{
    let blocks = path_blocks(v, ms, d, n);
    let k = v.goal.len();
    assert(ms.take(0) =~= Seq::<u32>::empty());
    lemma_path_blocks_len(v, ms, d, n);
    if t < d {
        let m = ms[t];
        let x = blocks[t];
        assert(x.len() == k);
        assert(ms.take(t + 1).drop_last() =~= ms.take(t));
        assert(ms.take(t + 1).last() == m);
        assert(blocks[t + 1] == gather(x, v.moves[m as int]));
        assert(is_arrangement_spec(v.moves[m as int], k));
        let y = next_states_spec(v, x, seq![m]);
        assert forall|i: int| 0 <= i < k implies #[trigger] y[i] == gather(x, v.moves[m as int])[i] by {
            vstd::arithmetic::div_mod::lemma_small_mod(i as nat, k);
            vstd::arithmetic::div_mod::lemma_basic_div(i, k as int);
        }
        assert(y =~= gather(x, v.moves[m as int]));
    }
}

/// Row `r` of the flat block of paths holds the blocks of its own path.
#[verifier::rlimit(40)]
proof fn lemma_traj_rows(v: LayoutView, steps: Seq<u32>, seed: u64, r: int)
    requires
        layout_wf(v),
        v.moves.len() > 0 || longest(steps) == 0,
        0 <= r < steps.len(),
    ensures
        ({
            let st = traj_spec(v, steps, seed).0;
            let n = longest(steps);
            let k = v.goal.len();
            &&& st.len() == steps.len() * ((n + 1) * k)
            &&& forall|b: int|
                0 <= b <= n ==> #[trigger] path_state_at(st, k, n, r, b) == path_blocks(
                    v,
                    row_walk(v, steps, seed, r),
                    steps[r] as int,
                    n,
                )[b]
        }),
{
    let st = traj_spec(v, steps, seed).0;
    let n = longest(steps);
    let k = v.goal.len();
    lemma_longest(steps);
    let rowsb = Seq::new(steps.len(), |q: int| path_states(v, steps, seed, q, n));
    assert forall|q: int| 0 <= q < steps.len() implies (#[trigger] rowsb[q]).len() == (n + 1) * k by {
        lemma_row_walk(v, steps, seed, q);
        let ms = row_walk(v, steps, seed, q);
        lemma_path_blocks_len(v, ms, steps[q] as int, n);
        lemma_uniform_flatten(path_blocks(v, ms, steps[q] as int, n), k);
    }
    lemma_uniform_flatten(rowsb, (n + 1) * k);
    lemma_row_walk(v, steps, seed, r);
    let ms = row_walk(v, steps, seed, r);
    let blocks = path_blocks(v, ms, steps[r] as int, n);
    lemma_path_blocks_len(v, ms, steps[r] as int, n);
    lemma_uniform_flatten(blocks, k);
    let row = rowsb[r];
    assert(row == blocks.flatten_alt());
    assert forall|b: int| 0 <= b <= n implies #[trigger] path_state_at(st, k, n, r, b) == blocks[b] by {
        let lo = r * ((n + 1) * k) + b * k;
        assert((b + 1) * k == b * k + k) by (nonlinear_arith);
        assert(r * ((n + 1) * k) + (b + 1) * k <= steps.len() * ((n + 1) * k)) by (nonlinear_arith)
            requires
                0 <= r < steps.len(),
                0 <= b <= n,
        ;
        assert(0 <= lo) by (nonlinear_arith)
            requires
                0 <= r,
                0 <= b,
                lo == r * ((n + 1) * k) + b * k,
        ;
        let ps = path_state_at(st, k, n, r, b);
        assert(ps.len() == k);
        assert forall|j: int| 0 <= j < k implies ps[j] == blocks[b][j] by {
            assert(b * k + j < (n + 1) * k) by (nonlinear_arith)
                requires
                    0 <= b <= n,
                    0 <= j < k,
            ;
            assert(ps[j] == st[lo + j]);
            assert(st[r * ((n + 1) * k) + (b * k + j)] == rowsb[r][b * k + j]);
            assert(row[b * k + j] == blocks[b][j]);
        }
        assert(ps =~= blocks[b]);
    }
}

/// Each row of `trajectories` starts at the goal; while the row's walk
/// lasts, each state is the one before turned by the recorded move, and
/// after it the move recorded is the move count and the state stays.
pub proof fn lemma_trajectory_steps(v: LayoutView, steps: Seq<u32>, seed: u64, r: int, t: int)
    requires
        layout_wf(v),
        v.moves.len() > 0 || longest(steps) == 0,
        0 <= r < steps.len(),
        0 <= t <= longest(steps),
    ensures
        ({
            let (st, mv) = traj_spec(v, steps, seed);
            let n = longest(steps);
            let k = v.goal.len();
            let w = if n > 0 {
                n
            } else {
                1
            };
            &&& st.len() == steps.len() * ((n + 1) * k)
            &&& mv.len() == steps.len() * w
            &&& path_state_at(st, k, n, r, 0) == v.goal
            &&& forall|b: int|
                0 <= b <= n ==> #[trigger] path_state_at(st, k, n, r, b) == path_blocks(
                    v,
                    row_walk(v, steps, seed, r),
                    steps[r] as int,
                    n,
                )[b]
            &&& t < n && t < steps[r] ==> {
                &&& mv[r * w + t] < v.moves.len()
                &&& path_state_at(st, k, n, r, t + 1) == next_states_spec(
                    v,
                    path_state_at(st, k, n, r, t),
                    seq![mv[r * w + t]],
                )
            }
            &&& t < n && steps[r] <= t ==> {
                &&& mv[r * w + t] == v.moves.len()
                &&& path_state_at(st, k, n, r, t + 1) == path_state_at(st, k, n, r, t)
            }
        }),
{
    let (st, mv) = traj_spec(v, steps, seed);
    let n = longest(steps);
    let k = v.goal.len();
    let w: nat = if n > 0 {
        n
    } else {
        1
    };
    lemma_longest(steps);
    lemma_traj_rows(v, steps, seed, r);
    let rowsm = Seq::new(steps.len(), |q: int| path_moves(v, steps, seed, q, w));
    lemma_uniform_flatten(rowsm, w);
    lemma_row_walk(v, steps, seed, r);
    let ms = row_walk(v, steps, seed, r);
    let d = steps[r] as int;
    let blocks = path_blocks(v, ms, d, n);
    assert(path_state_at(st, k, n, r, 0) == blocks[0]);
    if t < n {
        lemma_path_blocks_step(v, ms, d, n, t);
        let pm = path_moves(v, steps, seed, r, w);
        assert(mv[r * w + t] == rowsm[r][t]);
        assert(rowsm[r] == pm);
        assert(path_state_at(st, k, n, r, t) == blocks[t]);
        assert(path_state_at(st, k, n, r, t + 1) == blocks[t + 1]);
        if t < d {
            assert(pm[t] == ms[t]);
        } else {
            assert(pm[t] == v.moves.len() as u32);
        }
    } else {
        lemma_path_blocks_step(v, ms, d, n + 1, 0);
        assert(blocks[0] == path_blocks(v, ms, d, n + 1)[0]);
    }
}

/// A walk ends where the matching trajectory ends, read on the flat
/// outputs: row `r` of `walk` is the last state of row `r` of
/// `trajectories`, for the same seed and depths.
pub proof fn lemma_walk_matches_trajectories(v: LayoutView, steps: Seq<u32>, seed: u64, r: int)
    requires
        layout_wf(v),
        v.moves.len() > 0 || longest(steps) == 0,
        0 <= r < steps.len(),
    ensures
        ({
            let k = v.goal.len();
            let n = longest(steps);
            walk_states(v, steps, seed).subrange(r * k, (r + 1) * k) == path_state_at(
                traj_spec(v, steps, seed).0,
                k,
                n,
                r,
                n as int,
            )
        }),
{
    let k = v.goal.len();
    let n = longest(steps);
    lemma_trajectory_steps(v, steps, seed, r, n as int);
    lemma_walk_ends_trajectory(v, steps, seed, r);
    lemma_longest(steps);
    let rows = Seq::new(steps.len(), |q: int| apply_moves(v.goal, row_walk(v, steps, seed, q), v.moves));
    assert forall|q: int| 0 <= q < rows.len() implies (#[trigger] rows[q]).len() == k by {
        lemma_row_walk(v, steps, seed, q);
        lemma_apply_len(v, row_walk(v, steps, seed, q));
    }
    lemma_uniform_flatten(rows, k);
    let ws = walk_states(v, steps, seed);
    let ms = row_walk(v, steps, seed, r);
    let blocks = path_blocks(v, ms, steps[r] as int, n);
    assert((r + 1) * k == r * k + k) by (nonlinear_arith);
    assert(r * k + k <= steps.len() * k) by (nonlinear_arith)
        requires
            0 <= r < steps.len(),
    ;
    assert(0 <= r * k) by (nonlinear_arith)
        requires
            0 <= r,
    ;
    assert forall|j: int| 0 <= j < k implies ws.subrange(r * k, (r + 1) * k)[j] == rows[r][j] by {
        assert(ws.subrange(r * k, (r + 1) * k)[j] == ws[r * k + j]);
        assert(ws[r * k + j] == rows[r][j]);
    }
    assert(blocks[n as int] == rows[r]);
    assert(ws.subrange(r * k, (r + 1) * k) =~= rows[r]);
}

/// Whether `c` is white space, as Unicode's `White_Space` property says.
pub open spec fn is_space(c: char) -> bool {
    let x = c as u32;
    ||| 0x9 <= x <= 0xD
    ||| x == 0x20
    ||| x == 0x85
    ||| x == 0xA0
    ||| x == 0x1680
    ||| 0x2000 <= x <= 0x200A
    ||| x == 0x2028
    ||| x == 0x2029
    ||| x == 0x202F
    ||| x == 0x205F
    ||| x == 0x3000
}

/// `s` without its leading white space.
pub open spec fn trim_start(s: Seq<char>) -> Seq<char>
    decreases s.len(),
{
    if s.len() > 0 && is_space(s[0]) {
        trim_start(s.skip(1))
    } else {
        s
    }
}

/// `s` without its trailing white space.
pub open spec fn trim_end(s: Seq<char>) -> Seq<char>
    decreases s.len(),
{
    if s.len() > 0 && is_space(s.last()) {
        trim_end(s.drop_last())
    } else {
        s
    }
}

/// `s` without white space at either end.
pub open spec fn trim_spec(s: Seq<char>) -> Seq<char> {
    trim_end(trim_start(s))
}

/// The face a letter names, for a cube.
pub open spec fn face_of_letter(c: char) -> Option<int> {
    if c == 'U' {
        Some(0)
    } else if c == 'D' {
        Some(1)
    } else if c == 'L' {
        Some(2)
    } else if c == 'R' {
        Some(3)
    } else if c == 'B' {
        Some(4)
    } else if c == 'F' {
        Some(5)
    } else {
        None
    }
}

/// The first of the first `j` names equal to `n`.
pub open spec fn first_name(names: Seq<Seq<char>>, n: Seq<char>, j: nat) -> Option<nat>
    decreases j,
{
    if j == 0 {
        None
    } else {
        match first_name(names, n, (j - 1) as nat) {
            Some(x) => Some(x),
            None => if names[j - 1] == n {
                Some((j - 1) as nat)
            } else {
                None
            },
        }
    }
}

/// The move a name stands for: a move listed under it; for a cube also a
/// face letter alone or followed by `1`, `+1` (clockwise seen from outside)
/// or `'`, `-1` (counterclockwise).
pub open spec fn move_index_spec(v: LayoutView, name: Seq<char>) -> Option<usize> {
    let n = trim_spec(name);
    match first_name(v.names, n, v.names.len()) {
        Some(i) => Some(i as usize),
        None => if v.size is None || n.len() == 0 {
            None
        } else {
            match face_of_letter(n[0]) {
                None => None,
                Some(f) => {
                    let rest = n.skip(1);
                    if rest == Seq::<char>::empty() || rest == seq!['1'] || rest == seq!['+', '1'] {
                        Some((f * 2 + 1) as usize)
                    } else if rest == seq!['\''] || rest == seq!['-', '1'] {
                        Some((f * 2) as usize)
                    } else {
                        None
                    }
                },
            }
        },
    }
}

/// Whether `c` is white space.
fn is_space_exec(c: char) -> (r: bool)
    ensures
        r == is_space(c),
{
    let x = c as u32;
    (0x9 <= x && x <= 0xD) || x == 0x20 || x == 0x85 || x == 0xA0 || x == 0x1680 || (0x2000 <= x && x
        <= 0x200A) || x == 0x2028 || x == 0x2029 || x == 0x202F || x == 0x205F || x == 0x3000
}

/// Dropping leading white space one character at a time.
proof fn lemma_trim_start_skip(s: Seq<char>, i: int)
    requires
        0 <= i <= s.len(),
        forall|j: int| 0 <= j < i ==> is_space(#[trigger] s[j]),
    ensures
        trim_start(s) == trim_start(s.skip(i)),
    decreases i,
{
    if i > 0 {
        assert(s.skip(1).skip(i - 1) =~= s.skip(i));
        lemma_trim_start_skip(s.skip(1), i - 1);
    } else {
        assert(s.skip(0) =~= s);
    }
}

/// Dropping trailing white space one character at a time.
proof fn lemma_trim_end_take(s: Seq<char>, b: int)
    requires
        0 <= b <= s.len(),
        forall|j: int| b <= j < s.len() ==> is_space(#[trigger] s[j]),
    ensures
        trim_end(s) == trim_end(s.take(b)),
    decreases s.len() - b,
{
    if b < s.len() {
        assert(s.drop_last().take(b) =~= s.take(b));
        lemma_trim_end_take(s.drop_last(), b);
    } else {
        assert(s.take(b) =~= s);
    }
}

/// `s` without white space at either end.
pub fn trim(s: &str) -> (r: &str)
    ensures
        r@ == trim_spec(s@),
{
    let n = s.unicode_len();
    let mut a: usize = 0;
    while a < n && is_space_exec(s.get_char(a))
        invariant
            a <= n == s@.len(),
            forall|j: int| 0 <= j < a ==> is_space(#[trigger] s@[j]),
        decreases n - a,
    {
        a = a + 1;
    }
    proof {
        lemma_trim_start_skip(s@, a as int);
        if a < n {
            assert(s@.skip(a as int)[0] == s@[a as int]);
        }
    }
    let mut b: usize = n;
    while b > a && is_space_exec(s.get_char(b - 1))
        invariant
            a <= b <= n == s@.len(),
            forall|j: int| b <= j < n ==> is_space(#[trigger] s@[j]),
        decreases b,
    {
        b = b - 1;
    }
    proof {
        let t = s@.skip(a as int);
        assert forall|j: int| b - a <= j < t.len() implies is_space(#[trigger] t[j]) by {
            assert(t[j] == s@[a + j]);
        }
        lemma_trim_end_take(t, b - a);
        assert(t.take(b - a) =~= s@.subrange(a as int, b as int));
        if b > a {
            assert(s@.subrange(a as int, b as int).last() == s@[b - 1]);
        }
    }
    s.substring_char(a, b)
}

/// Whether two texts are the same.
fn same_text(a: &str, b: &str) -> (r: bool)
    ensures
        r == (a@ == b@),
{
    let n = a.unicode_len();
    if n != b.unicode_len() {
        return false;
    }
    let mut i: usize = 0;
    while i < n
        invariant
            i <= n == a@.len() == b@.len(),
            forall|j: int| 0 <= j < i ==> a@[j] == b@[j],
        decreases n - i,
    {
        if a.get_char(i) != b.get_char(i) {
            return false;
        }
        i = i + 1;
    }
    assert(a@ =~= b@);
    true
}

impl Layout {
    /// The move a name stands for. A cube's faces answer to `"U1"`, `"U-1"`,
    /// `"U"` and `"U'"`, where `U` and `U1` are the clockwise quarter turn
    /// seen from outside the face; every other move to the name it is listed
    /// under.
    pub fn move_index(&self, name: &str) -> (r: Option<usize>)
        ensures
            r == move_index_spec(self@, name@),
    {
        let t = trim(name);
        let mut i: usize = 0;
        while i < self.names.len()
            invariant
                i <= self.names@.len(),
                self@.names.len() == self.names@.len(),
                t@ == trim_spec(name@),
                first_name(self@.names, t@, i as nat) is None,
            decreases self.names@.len() - i,
        {
            proof {
                assert(self@.names[i as int] == self.names@[i as int]@);
            }
            if same_text(self.names[i].as_str(), t) {
                proof {
                    assert(first_name(self@.names, t@, (i + 1) as nat) == Some(i as nat));
                    lemma_first_name_stable(self@.names, t@, (i + 1) as nat, self@.names.len());
                }
                return Some(i);
            }
            i = i + 1;
        }
        if self.size.is_none() {
            return None;
        }
        let n = t.unicode_len();
        if n == 0 {
            return None;
        }
        let c = t.get_char(0);
        let f: usize = if c == 'U' {
            0
        } else if c == 'D' {
            1
        } else if c == 'L' {
            2
        } else if c == 'R' {
            3
        } else if c == 'B' {
            4
        } else if c == 'F' {
            5
        } else {
            return None;
        };
        let rest = t.substring_char(1, n);
        proof {
            reveal_strlit("");
            reveal_strlit("1");
            reveal_strlit("+1");
            reveal_strlit("'");
            reveal_strlit("-1");
            assert(rest@ =~= t@.skip(1));
            assert(""@ =~= Seq::<char>::empty());
            assert("1"@ =~= seq!['1']);
            assert("+1"@ =~= seq!['+', '1']);
            assert("'"@ =~= seq!['\'']);
            assert("-1"@ =~= seq!['-', '1']);
        }
        if same_text(rest, "") || same_text(rest, "1") || same_text(rest, "+1") {
            Some(f * 2 + 1)
        } else if same_text(rest, "'") || same_text(rest, "-1") {
            Some(f * 2)
        } else {
            None
        }
    }
}

/// A first name, once found, stays the first.
proof fn lemma_first_name_stable(names: Seq<Seq<char>>, n: Seq<char>, j: nat, j2: nat)
    requires
        j <= j2,
        first_name(names, n, j) is Some,
    ensures
        first_name(names, n, j2) == first_name(names, n, j),
    decreases j2 - j,
{
    if j < j2 {
        lemma_first_name_stable(names, n, j, (j2 - 1) as nat);
    }
}

/* ------------------------------------------------------------------------ */
/*  A state written out                                                      */
/* ------------------------------------------------------------------------ */

/// The letters a cube's faces are drawn with, in face order.
pub const FACE_LETTERS: &'static str = "UDLRBF";

/// The characters the faces of any other puzzle are drawn with.
pub const GLYPHS: &'static str = "0123456789ABCDEFGHIJKLMNOPQRSTUVWXYZabcdefghijklmnopqrstuvwxyz";

/// The character face `v` is drawn with: a cube's face letter, or a glyph
/// for any other puzzle; `?` past the end of the table.
pub open spec fn glyph_spec(cube: bool, v: int) -> char {
    let table = if cube {
        FACE_LETTERS@
    } else {
        GLYPHS@
    };
    if 0 <= v < table.len() {
        table[v]
    } else {
        '?'
    }
}

/// The face a state gives facelet `k`; the largest `usize` past its end.
pub open spec fn cell_value(facelets: Seq<u32>, k: int) -> int {
    if 0 <= k < facelets.len() {
        facelets[k] as int
    } else {
        usize::MAX as int
    }
}

/// How many facelets a row of a face has: a cube's side, else unbounded.
pub open spec fn row_width(l: LayoutView) -> int {
    match l.size {
        Some(g) => g as int,
        None => usize::MAX as int,
    }
}

/// The first facelet of face `f`: the sizes of the faces before it.
pub open spec fn face_start(sizes: Seq<u32>, f: int) -> int
    decreases f,
{
    if f <= 0 {
        0
    } else {
        face_start(sizes, f - 1) + sizes[f - 1]
    }
}

/// The first `n` facelets of a face that starts at `at`, a `/` before each
/// new row.
pub open spec fn cells_text(l: LayoutView, facelets: Seq<u32>, at: int, n: int) -> Seq<char>
    decreases n,
{
    if n <= 0 {
        Seq::empty()
    } else {
        cells_text(l, facelets, at, n - 1) + (if n - 1 > 0 && (n - 1) % row_width(l) == 0 {
            seq!['/']
        } else {
            Seq::empty()
        }) + seq![glyph_spec(l.size is Some, cell_value(facelets, at + n - 1))]
    }
}

/// The lines of the first `f` faces: each its name, a space and its
/// facelets, with a newline between two lines.
pub open spec fn faces_text(l: LayoutView, facelets: Seq<u32>, f: int) -> Seq<char>
    decreases f,
{
    if f <= 0 {
        Seq::empty()
    } else {
        faces_text(l, facelets, f - 1) + (if f > 1 {
            seq!['\n']
        } else {
            Seq::empty()
        }) + l.face_names[f - 1] + seq![' '] + cells_text(
            l,
            facelets,
            face_start(l.face_sizes, f - 1),
            l.face_sizes[f - 1] as int,
        )
    }
}

/// `text(facelets)`: one line per face.
pub open spec fn layout_text(l: LayoutView, facelets: Seq<u32>) -> Seq<char> {
    faces_text(l, facelets, l.face_names.len() as int)
}

/// The character face `v` is drawn with, as text.
fn glyph_text(cube: bool, v: usize) -> (r: &'static str)
    ensures
        r@ == seq![glyph_spec(cube, v as int)],
{
    let table = if cube {
        FACE_LETTERS
    } else {
        GLYPHS
    };
    let n = table.unicode_len();
    if v < n {
        let g = table.substring_char(v, v + 1);
        assert(g@ =~= seq![table@[v as int]]);
        g
    } else {
        proof {
            reveal_strlit("?");
            assert("?"@ =~= seq!['?']);
        }
        "?"
    }
}

impl Layout {
    /// One state written out, a line per face, as a net would read.
    pub fn text(&self, facelets: &[u32]) -> (r: String)
        requires
            layout_wf(self@),
            self@.size == Some(0usize) ==> forall|f: int|
                0 <= f < self@.face_sizes.len() ==> #[trigger] self@.face_sizes[f] <= 1,
        ensures
            r@ == layout_text(self@, facelets@),
    {
        let ghost l = self@;
        let cube = self.size.is_some();
        let width: usize = match self.size {
            Some(g) => g,
            None => usize::MAX,
        };
        proof {
            reveal_strlit("\n");
            reveal_strlit(" ");
            reveal_strlit("/");
            assert("\n"@ =~= seq!['\n']);
            assert(" "@ =~= seq![' ']);
            assert("/"@ =~= seq!['/']);
        }
        let mut out = String::new();
        let mut at: usize = 0;
        let mut face: usize = 0;
        let nf = self.face_names.len();
        while face < nf
            invariant
                face <= nf == l.face_names.len() == l.face_sizes.len(),
                l == self@,
                nf == self.face_names@.len(),
                l.face_sizes == self.face_sizes@,
                l.face_names == strs(self.face_names@),
                cube == (l.size is Some),
                width == row_width(l),
                l.size == Some(0usize) ==> forall|f: int|
                    0 <= f < l.face_sizes.len() ==> #[trigger] l.face_sizes[f] <= 1,
                "\n"@ == seq!['\n'],
                " "@ == seq![' '],
                "/"@ == seq!['/'],
                out@ == faces_text(l, facelets@, face as int),
                at == (if face_start(l.face_sizes, face as int) < usize::MAX {
                    face_start(l.face_sizes, face as int)
                } else {
                    usize::MAX as int
                }),
                face_start(l.face_sizes, face as int) >= 0,
            decreases nf - face,
        {
            let ghost before = out@;
            if face > 0 {
                out.append("\n");
            }
            out.append(self.face_names[face].as_str());
            out.append(" ");
            proof {
                assert(strs(self.face_names@)[face as int] == self.face_names@[face as int]@);
            }
            let ghost prefix = out@;
            let ghost start = face_start(l.face_sizes, face as int);
            let size = self.face_sizes[face] as usize;
            let mut i: usize = 0;
            while i < size
                invariant
                    i <= size == l.face_sizes[face as int],
                    face < l.face_sizes.len(),
                    cube == (l.size is Some),
                    width == row_width(l),
                    l.size == Some(0usize) ==> forall|f: int|
                        0 <= f < l.face_sizes.len() ==> #[trigger] l.face_sizes[f] <= 1,
                    "/"@ == seq!['/'],
                    start >= 0,
                    at == (if start < usize::MAX {
                        start
                    } else {
                        usize::MAX as int
                    }),
                    out@ == prefix + cells_text(l, facelets@, start, i as int),
                decreases size - i,
            {
                let ghost mid = out@;
                if i > 0 && i % width == 0 {
                    out.append("/");
                }
                let k = at.saturating_add(i);
                let v: usize = if k < facelets.len() {
                    facelets[k] as usize
                } else {
                    usize::MAX
                };
                assert(v as int == cell_value(facelets@, start + i));
                let g = glyph_text(cube, v);
                out.append(g);
                proof {
                    assert(out@ =~= prefix + cells_text(l, facelets@, start, i + 1));
                }
                i = i + 1;
            }
            at = at.saturating_add(size);
            proof {
                assert(out@ =~= faces_text(l, facelets@, face + 1));
            }
            face = face + 1;
        }
        out
    }
}

} // verus!
