//! Many states of one puzzle, stepped together.
//!
//! For a puzzle whose moves are fixed permutations of its slots, a state is
//! an array of slot numbers and a move is a gather: `new[i] = old[perm[i]]`.
//! A batch keeps one such array per row, the permutations once for all rows,
//! and for every row the moves it has made since it was last solved, so a
//! move can be undone by reading its permutation backward.

use vstd::prelude::*;

use crate::error::{Error, ErrorKind};
use crate::num::digits::{decimal_digits, u64_decimal};

verus! {

/// No action yet, in the slot where one would be recorded.
pub const NONE: u32 = u32::MAX;

/// What one step did to one puzzle.
#[derive(Clone, Copy, Debug, PartialEq, Eq)]
pub struct StepOutcome {
    /// Whether the move could be made at all.
    pub applied: bool,
    /// Whether the puzzle is now solved.
    pub solved: bool,
}

/// The mathematical contents of a batch.
pub struct BatchView {
    /// One permutation of the slots per action.
    pub perms: Seq<Seq<u32>>,
    /// The color in each slot when the puzzle is solved.
    pub solved: Seq<u16>,
    pub color_count: nat,
    /// For each row, the slot the sticker now in each slot started in.
    pub states: Seq<Seq<u32>>,
    /// Each row's random generator state.
    pub rng: Seq<u64>,
    /// The last action each row took, or `NONE`.
    pub last: Seq<u32>,
    /// Every move each row has made since it was last solved.
    pub history: Seq<Seq<u32>>,
}

/// Whether slot `s` appears in `row`.
pub open spec fn names_slot(row: Seq<u32>, s: int) -> bool {
    exists|i: int| 0 <= i < row.len() && row[i] == s
}

/// Whether `row` names every slot `0..k` exactly once.
pub open spec fn is_arrangement_spec(row: Seq<u32>, k: nat) -> bool {
    &&& row.len() == k
    &&& forall|i: int| 0 <= i < row.len() ==> #[trigger] row[i] < k
    &&& forall|i: int, j: int| 0 <= i < j < row.len() ==> row[i] != row[j]
    &&& forall|s: int| 0 <= s < k ==> #[trigger] names_slot(row, s)
}

/// A move applied to a state: `new[i] = old[perm[i]]`.
pub open spec fn gather(row: Seq<u32>, perm: Seq<u32>) -> Seq<u32> {
    Seq::new(perm.len(), |i: int| row[perm[i] as int])
}

/// A move read backward: `new[perm[i]] = old[i]` for every `i`.
pub open spec fn scattered(new: Seq<u32>, old: Seq<u32>, perm: Seq<u32>) -> bool {
    &&& new.len() == old.len()
    &&& forall|i: int| 0 <= i < perm.len() ==> #[trigger] new[perm[i] as int] == old[i]
}

/// The identity arrangement of `k` slots: the solved state.
pub open spec fn identity(k: nat) -> Seq<u32> {
    Seq::new(k, |i: int| i as u32)
}

/// Whether every sticker of a row is the color it should be.
pub open spec fn is_home_spec(row: Seq<u32>, solved: Seq<u16>) -> bool {
    forall|i: int| 0 <= i < row.len() ==> #[trigger] solved[row[i] as int] == solved[i]
}

/// Whether a batch's parts fit together.
pub open spec fn batch_wf(v: BatchView) -> bool {
    let k = v.solved.len();
    let n = v.states.len();
    &&& 1 <= k <= u32::MAX
    &&& 1 <= n
    &&& v.perms.len() < u32::MAX
    &&& n * v.perms.len() <= usize::MAX
    &&& forall|a: int| 0 <= a < v.perms.len() ==> #[trigger] is_arrangement_spec(v.perms[a], k)
    &&& forall|i: int| 0 <= i < k ==> #[trigger] v.solved[i] < v.color_count
    &&& v.rng.len() == n
    &&& v.last.len() == n
    &&& v.history.len() == n
    &&& forall|r: int| 0 <= r < n ==> (#[trigger] v.states[r]).len() == k
    &&& forall|r: int, j: int| 0 <= r < n && 0 <= j < k ==> #[trigger] v.states[r][j] < k
    &&& forall|r: int, j: int|
        0 <= r < n && 0 <= j < v.history[r].len() ==> #[trigger] v.history[r][j] < v.perms.len()
    &&& n * k * (v.color_count + 1) <= usize::MAX
}

/// The views of a vector of rows.
pub open spec fn rows_u32(v: Seq<Vec<u32>>) -> Seq<Seq<u32>> {
    v.map_values(|row: Vec<u32>| row@)
}

/// Many states of one puzzle, stepped together.
pub struct PuzzleBatch {
    perms: Vec<Vec<u32>>,
    solved: Vec<u16>,
    color_count: usize,
    states: Vec<Vec<u32>>,
    rng: Vec<u64>,
    last: Vec<u32>,
    history: Vec<Vec<u32>>,
}

impl View for PuzzleBatch {
    type V = BatchView;

    closed spec fn view(&self) -> BatchView {
        BatchView {
            perms: rows_u32(self.perms@),
            solved: self.solved@,
            color_count: self.color_count as nat,
            states: rows_u32(self.states@),
            rng: self.rng@,
            last: self.last@,
            history: rows_u32(self.history@),
        }
    }
}

/// What `step` does to a batch when every action is in range.
pub open spec fn step_spec(v0: BatchView, actions: Seq<u32>, v1: BatchView) -> bool {
    &&& v1.perms == v0.perms
    &&& v1.solved == v0.solved
    &&& v1.color_count == v0.color_count
    &&& v1.rng == v0.rng
    &&& v1.last == actions
    &&& v1.states.len() == v0.states.len()
    &&& v1.history.len() == v0.history.len()
    &&& forall|r: int|
        0 <= r < v0.states.len() ==> #[trigger] v1.states[r] == gather(
            v0.states[r],
            v0.perms[actions[r] as int],
        )
    &&& forall|r: int|
        0 <= r < v0.history.len() ==> #[trigger] v1.history[r] == v0.history[r].push(actions[r])
}

/// What `undo` does to a batch: every selected row with a move to undo has
/// its last move read backward and dropped from its history.
pub open spec fn undo_spec(v0: BatchView, which: Seq<bool>, v1: BatchView, undone: Seq<bool>) -> bool {
    &&& v1.perms == v0.perms
    &&& v1.solved == v0.solved
    &&& v1.color_count == v0.color_count
    &&& v1.rng == v0.rng
    &&& v1.states.len() == v0.states.len()
    &&& v1.history.len() == v0.history.len()
    &&& v1.last.len() == v0.last.len()
    &&& undone.len() == v0.states.len()
    &&& forall|r: int|
        0 <= r < v0.states.len() ==> (#[trigger] undone[r] <==> (which[r] && v0.history[r].len()
            > 0))
    &&& forall|r: int|
        0 <= r < v0.states.len() && !undone[r] ==> {
            &&& #[trigger] v1.states[r] == v0.states[r]
            &&& v1.history[r] == v0.history[r]
            &&& v1.last[r] == v0.last[r]
        }
    &&& forall|r: int|
        0 <= r < v0.states.len() && #[trigger] undone[r] ==> {
            &&& scattered(v1.states[r], v0.states[r], v0.perms[v0.history[r].last() as int])
            &&& v1.history[r] == v0.history[r].drop_last()
            &&& v1.last[r] == if v1.history[r].len() > 0 {
                v1.history[r].last()
            } else {
                NONE
            }
        }
}

impl PuzzleBatch {
    /// Whether the batch's parts fit together.
    pub open spec fn wf(&self) -> bool {
        batch_wf(self@)
    }

    /// How many puzzles the batch holds.
    pub fn len(&self) -> (r: usize)
        requires
            self.wf(),
        ensures
            r == self@.states.len(),
    {
        self.rng.len()
    }

    pub fn is_empty(&self) -> (r: bool)
        requires
            self.wf(),
        ensures
            r == (self@.states.len() == 0),
    {
        self.rng.len() == 0
    }

    /// Slots per state.
    pub fn sticker_count(&self) -> (r: usize)
        ensures
            r == self@.solved.len(),
    {
        self.solved.len()
    }

    /// How many moves there are.
    pub fn action_count(&self) -> (r: usize)
        ensures
            r == self@.perms.len(),
    {
        proof {
            assert(self@.perms.len() == self.perms@.len());
        }
        self.perms.len()
    }

    pub fn color_count(&self) -> (r: usize)
        ensures
            r == self@.color_count,
    {
        self.color_count
    }

    /// The color in each slot when the puzzle is solved.
    pub fn solved_colors(&self) -> (r: &[u16])
        ensures
            r@ == self@.solved,
    {
        self.solved.as_slice()
    }
}


/// A move read backward undoes it: scattering a gathered row through the
/// same permutation gives the row back.
pub proof fn lemma_scatter_gather(before: Seq<u32>, perm: Seq<u32>, after: Seq<u32>, k: nat)
    requires
        is_arrangement_spec(perm, k),
        before.len() == k,
        scattered(after, gather(before, perm), perm),
    ensures
        after == before,
{
    assert forall|j: int| 0 <= j < k implies #[trigger] after[j] == before[j] by {
        assert(names_slot(perm, j));
        let i = choose|i: int| 0 <= i < perm.len() && perm[i] == j;
        assert(after[perm[i] as int] == gather(before, perm)[i]);
    }
    assert(after =~= before);
}

/// Undoing every row right after a step gives back the states and the
/// histories that the step started from.
pub proof fn lemma_undo_after_step(
    v0: BatchView,
    actions: Seq<u32>,
    v1: BatchView,
    v2: BatchView,
    undone: Seq<bool>,
)
    requires
        batch_wf(v0),
        actions.len() == v0.states.len(),
        forall|r: int| 0 <= r < actions.len() ==> #[trigger] actions[r] < v0.perms.len(),
        step_spec(v0, actions, v1),
        undo_spec(v1, Seq::new(v0.states.len(), |r: int| true), v2, undone),
    ensures
        v2.states == v0.states,
        v2.history == v0.history,
        forall|r: int| 0 <= r < v0.states.len() ==> #[trigger] undone[r],
{
    let n = v0.states.len();
    let all = Seq::new(n, |r: int| true);
    assert forall|r: int|
        #![trigger v2.states[r]]
        #![trigger v2.history[r]]
        #![trigger undone[r]]
        0 <= r < n implies v2.states[r] == v0.states[r] && v2.history[r] == v0.history[r]
            && undone[r] by {
        assert(v1.history[r] == v0.history[r].push(actions[r]));
        assert(all[r]);
        assert(undone[r]);
        assert(v1.history[r].last() == actions[r]);
        lemma_scatter_gather(
            v0.states[r],
            v0.perms[actions[r] as int],
            v2.states[r],
            v0.solved.len(),
        );
        assert(v2.history[r] =~= v0.history[r]);
    }
    assert(v2.states =~= v0.states);
    assert(v2.history =~= v0.history);
}

/// One move applied to one row.
fn gather_row(row: &Vec<u32>, perm: &Vec<u32>) -> (r: Vec<u32>)
    requires
        forall|i: int| 0 <= i < perm@.len() ==> #[trigger] perm@[i] < row@.len(),
    ensures
        r@ == gather(row@, perm@),
{
    let mut out: Vec<u32> = Vec::new();
    let mut i: usize = 0;
    while i < perm.len()
        invariant
            i <= perm.len(),
            forall|j: int| 0 <= j < perm@.len() ==> #[trigger] perm@[j] < row@.len(),
            out@.len() == i,
            forall|j: int| 0 <= j < i ==> #[trigger] out@[j] == row@[perm@[j] as int],
        decreases perm.len() - i,
    {
        out.push(row[perm[i] as usize]);
        i = i + 1;
    }
    assert(out@ =~= gather(row@, perm@));
    out
}

/// One move read backward on one row: `new[perm[i]] = old[i]`.
fn scatter_row(row: &mut Vec<u32>, perm: &Vec<u32>)
    requires
        is_arrangement_spec(perm@, old(row)@.len()),
    ensures
        scattered(final(row)@, old(row)@, perm@),
{
    let k = row.len();
    let mut scratch: Vec<u32> = Vec::new();
    let mut i: usize = 0;
    while i < k
        invariant
            i <= k == row@.len(),
            row@ == old(row)@,
            scratch@ == old(row)@.take(i as int),
        decreases k - i,
    {
        scratch.push(row[i]);
        i = i + 1;
        assert(scratch@ =~= old(row)@.take(i as int));
    }
    assert(scratch@ =~= old(row)@);
    let mut i: usize = 0;
    while i < k
        invariant
            i <= k == row@.len() == perm@.len(),
            scratch@ == old(row)@,
            scratch@.len() == k,
            is_arrangement_spec(perm@, k as nat),
            forall|j: int| 0 <= j < i ==> #[trigger] row@[perm@[j] as int] == scratch@[j],
        decreases k - i,
    {
        assert(perm@[i as int] < k);
        let to = perm[i] as usize;
        row.set(to, scratch[i]);
        proof {
            assert forall|j: int| 0 <= j < i + 1 implies #[trigger] row@[perm@[j] as int]
                == scratch@[j] by {
                if j < i {
                    assert(perm@[j] != perm@[i as int]);
                }
            }
        }
        i = i + 1;
    }
}

/// Whether every sticker of one row is the color it should be.
fn is_home(row: &Vec<u32>, solved: &Vec<u16>) -> (r: bool)
    requires
        forall|i: int| 0 <= i < row@.len() ==> #[trigger] row@[i] < solved@.len(),
        row@.len() <= solved@.len(),
    ensures
        r == is_home_spec(row@, solved@),
{
    let mut i: usize = 0;
    while i < row.len()
        invariant
            i <= row.len(),
            row@.len() <= solved@.len(),
            forall|j: int| 0 <= j < row@.len() ==> #[trigger] row@[j] < solved@.len(),
            forall|j: int| 0 <= j < i ==> #[trigger] solved@[row@[j] as int] == solved@[j],
        decreases row.len() - i,
    {
        if solved[row[i] as usize] != solved[i] {
            return false;
        }
        i = i + 1;
    }
    true
}

/// What a batch says of a list of the wrong length.
pub open spec fn wrong_count(got: nat, what: Seq<char>, n: nat) -> Seq<char> {
    "got "@ + decimal_digits(got) + " "@ + what + " for "@ + decimal_digits(n) + " puzzles"@
}

fn wrong_count_error(got: usize, what: &str, n: usize) -> (e: Error)
    ensures
        e.spec_error_kind() == ErrorKind::Range,
        e.spec_message() == wrong_count(got as nat, what@, n as nat),
{
    let mut m = String::from_str("got ");
    m.append(u64_decimal(got as u64).as_str());
    m.append(" ");
    m.append(what);
    m.append(" for ");
    m.append(u64_decimal(n as u64).as_str());
    m.append(" puzzles");
    Error::Range(m)
}

fn not_whole_error(k: usize, unit: &str, n: usize, len: usize) -> (e: Error)
    ensures
        e.spec_error_kind() == ErrorKind::Range,
{
    let mut m = String::from_str("a state of this puzzle is ");
    m.append(u64_decimal(k as u64).as_str());
    m.append(" ");
    m.append(unit);
    m.append(" and this batch holds ");
    m.append(u64_decimal(n as u64).as_str());
    m.append(" of them, so ");
    m.append(u64_decimal(len as u64).as_str());
    m.append(" values is not a state each");
    Error::Range(m)
}

fn not_arrangement_error(row: usize, k: usize) -> (e: Error)
    ensures
        e.spec_error_kind() == ErrorKind::Range,
{
    let mut m = String::from_str("row ");
    m.append(u64_decimal(row as u64).as_str());
    m.append(" is not an arrangement of this puzzle's ");
    m.append(u64_decimal(k as u64).as_str());
    m.append(" stickers");
    Error::Range(m)
}

fn wrong_colors_error(row: usize) -> (e: Error)
    ensures
        e.spec_error_kind() == ErrorKind::Range,
{
    let mut m = String::from_str("row ");
    m.append(u64_decimal(row as u64).as_str());
    m.append(
        " does not have the colors of this puzzle: every state of it has as many stickers of each color as the solved one",
    );
    Error::Range(m)
}

/// What a batch says of colors too many for a 4-byte observation.
pub open spec fn too_many_colors(c: nat) -> Seq<char> {
    "this puzzle has "@ + decimal_digits(c) + " colors, which do not fit the 4294967296 values a 4-byte observation has room for"@
}

fn too_many_colors_error(c: usize) -> (e: Error)
    ensures
        e.spec_error_kind() == ErrorKind::Range,
        e.spec_message() == too_many_colors(c as nat),
{
    let mut m = String::from_str("this puzzle has ");
    m.append(u64_decimal(c as u64).as_str());
    m.append(" colors, which do not fit the 4294967296 values a 4-byte observation has room for");
    Error::Range(m)
}

/// What a batch says of a puzzle number it does not have.
pub open spec fn no_such_puzzle(i: nat, n: nat) -> Seq<char> {
    "puzzle "@ + decimal_digits(i) + " out of range (have "@ + decimal_digits(n) + ")"@
}

fn no_such_puzzle_error(i: usize, n: usize) -> (e: Error)
    ensures
        e.spec_error_kind() == ErrorKind::Range,
        e.spec_message() == no_such_puzzle(i as nat, n as nat),
{
    let mut m = String::from_str("puzzle ");
    m.append(u64_decimal(i as u64).as_str());
    m.append(" out of range (have ");
    m.append(u64_decimal(n as u64).as_str());
    m.append(")");
    Error::Range(m)
}

impl PuzzleBatch {
    /// Turn every puzzle once: `actions[i]` is the move puzzle `i` makes.
    pub fn step(&mut self, actions: &[u32]) -> (r: core::result::Result<Vec<StepOutcome>, Error>)
        requires
            old(self).wf(),
        ensures
            final(self).wf(),
            r is Err <==> (actions@.len() != old(self)@.states.len() || exists|i: int|
                0 <= i < actions@.len() && #[trigger] actions@[i] >= old(self)@.perms.len()),
            r matches Err(e) ==> e.spec_error_kind() == ErrorKind::Range && final(self)@ == old(
                self,
            )@,
            r matches Err(e) ==> (actions@.len() != old(self)@.states.len() ==> e.spec_message() == "got "@
                + decimal_digits(actions@.len()) + " actions for "@ + decimal_digits(old(self)@.states.len())
                + " puzzles"@),
            r matches Err(e) ==> (actions@.len() == old(self)@.states.len() ==> exists|j: int|
                0 <= j < actions@.len() && actions@[j] >= old(self)@.perms.len() && (forall|i: int|
                    0 <= i < j ==> #[trigger] actions@[i] < old(self)@.perms.len()) && e.spec_message()
                    == "action "@ + decimal_digits(actions@[j] as nat) + " out of range (have "@
                    + decimal_digits(old(self)@.perms.len()) + ")"@),
            r matches Ok(out) ==> {
                &&& step_spec(old(self)@, actions@, final(self)@)
                &&& out@.len() == old(self)@.states.len()
                &&& forall|i: int|
                    0 <= i < out@.len() ==> #[trigger] out@[i] == (StepOutcome {
                        applied: true,
                        solved: is_home_spec(final(self)@.states[i], final(self)@.solved),
                    })
            },
    {
        let n = self.rng.len();
        if actions.len() != n {
            let mut m = String::from_str("got ");
            m.append(u64_decimal(actions.len() as u64).as_str());
            m.append(" actions for ");
            m.append(u64_decimal(n as u64).as_str());
            m.append(" puzzles");
            return Err(Error::Range(m));
        }
        let count = self.perms.len();
        let mut i: usize = 0;
        while i < actions.len()
            invariant
                i <= actions.len(),
                actions@.len() == old(self)@.states.len(),
                count == self@.perms.len(),
                self@ == old(self)@,
                batch_wf(old(self)@),
                forall|j: int| 0 <= j < i ==> #[trigger] actions@[j] < count,
            decreases actions.len() - i,
        {
            if actions[i] as usize >= count {
                let mut m = String::from_str("action ");
                m.append(u64_decimal(actions[i] as u64).as_str());
                m.append(" out of range (have ");
                m.append(u64_decimal(count as u64).as_str());
                m.append(")");
                return Err(Error::Range(m));
            }
            i = i + 1;
        }
        let mut last: Vec<u32> = Vec::new();
        let mut j: usize = 0;
        while j < n
            invariant
                j <= n == actions@.len(),
                last@ == actions@.take(j as int),
            decreases n - j,
        {
            last.push(actions[j]);
            j = j + 1;
            assert(last@ =~= actions@.take(j as int));
        }
        assert(last@ =~= actions@);
        let ghost v0 = self@;
        let k = self.solved.len();
        let mut r: usize = 0;
        while r < n
            invariant
                r <= n == v0.states.len() == actions@.len(),
                batch_wf(v0),
                k == v0.solved.len(),
                count == v0.perms.len(),
                forall|j: int| 0 <= j < n ==> #[trigger] actions@[j] < count,
                self.perms@ == old(self).perms@,
                self.solved@ == v0.solved,
                self.color_count == v0.color_count,
                self.rng@ == v0.rng,
                self.last@ == v0.last,
                self@.perms == v0.perms,
                self.states@.len() == n,
                self.history@.len() == n,
                forall|j: int| 0 <= j < r ==> #[trigger] self@.states[j] == gather(
                    v0.states[j],
                    v0.perms[actions@[j] as int],
                ),
                forall|j: int| r <= j < n ==> #[trigger] self@.states[j] == v0.states[j],
                forall|j: int| 0 <= j < r ==> #[trigger] self@.history[j] == v0.history[j].push(
                    actions@[j],
                ),
                forall|j: int| r <= j < n ==> #[trigger] self@.history[j] == v0.history[j],
                last@ == actions@,
            decreases n - r,
        {
            let a = actions[r] as usize;
            proof {
                assert(is_arrangement_spec(v0.perms[a as int], k as nat));
                assert(self.perms@[a as int]@ == self@.perms[a as int]);
                assert(self@.states[r as int] == self.states@[r as int]@);
                assert(self@.history[r as int] == self.history@[r as int]@);
            }
            let new_row = gather_row(&self.states[r], &self.perms[a]);
            let ghost before_states = self.states@;
            self.states.set(r, new_row);
            proof {
                assert(self@.states =~= rows_u32(before_states).update(r as int, new_row@));
            }
            let ghost before_hist = self.history@;
            let mut h = self.history[r].clone();
            h.push(actions[r]);
            self.history.set(r, h);
            proof {
                assert(self@.history =~= rows_u32(before_hist).update(r as int, h@));
            }
            r = r + 1;
        }
        proof {
            assert forall|t: int| 0 <= t < n implies (#[trigger] self@.states[t]).len() == k by {
                assert(self@.states[t] == gather(v0.states[t], v0.perms[actions@[t] as int]));
                assert(is_arrangement_spec(v0.perms[actions@[t] as int], k as nat));
            }
            assert forall|t: int, c: int| 0 <= t < n && 0 <= c < k implies #[trigger] self@.states[t][c]
                < k by {
                let p = v0.perms[actions@[t] as int];
                assert(self@.states[t] == gather(v0.states[t], p));
                assert(is_arrangement_spec(p, k as nat));
                assert(p[c] < k);
            }
            assert forall|t: int, c: int|
                0 <= t < n && 0 <= c < self@.history[t].len() implies #[trigger] self@.history[t][c]
                < self@.perms.len() by {
                assert(self@.history[t] == v0.history[t].push(actions@[t]));
                if c < v0.history[t].len() {
                    assert(self@.history[t][c] == v0.history[t][c]);
                }
            }
        }
        let ghost mid = self@;
        self.last = last;
        proof {
            assert(self@ == BatchView { last: actions@, ..mid });
            assert(batch_wf(self@));
        }
        let mut out: Vec<StepOutcome> = Vec::new();
        let mut j: usize = 0;
        while j < n
            invariant
                j <= n == self@.states.len(),
                batch_wf(v0),
                k == v0.solved.len(),
                self@.solved == v0.solved,
                forall|t: int| 0 <= t < n ==> (#[trigger] self@.states[t]).len() == k,
                forall|t: int, c: int| 0 <= t < n && 0 <= c < k ==> #[trigger] self@.states[t][c] < k,
                out@.len() == j,
                forall|t: int| 0 <= t < j ==> #[trigger] out@[t] == (StepOutcome {
                    applied: true,
                    solved: is_home_spec(self@.states[t], self@.solved),
                }),
            decreases n - j,
        {
            proof {
                assert(self.states@[j as int]@ == self@.states[j as int]);
            }
            let home = is_home(&self.states[j], &self.solved);
            out.push(StepOutcome { applied: true, solved: home });
            j = j + 1;
        }
        Ok(out)
    }
}


/// A row scattered through a permutation holds only values of the row it
/// came from.
proof fn lemma_scattered_range(new: Seq<u32>, old: Seq<u32>, perm: Seq<u32>, k: nat)
    requires
        is_arrangement_spec(perm, k),
        old.len() == k,
        forall|j: int| 0 <= j < k ==> #[trigger] old[j] < k,
        scattered(new, old, perm),
    ensures
        forall|j: int| 0 <= j < k ==> #[trigger] new[j] < k,
{
    assert forall|j: int| 0 <= j < k implies #[trigger] new[j] < k by {
        assert(names_slot(perm, j));
        let i = choose|i: int| 0 <= i < perm.len() && perm[i] == j;
        assert(new[perm[i] as int] == old[i]);
    }
}

impl PuzzleBatch {
    /// Undo the last move of the rows `which` selects, reading its
    /// permutation backward. Returns whether each row had a move to undo.
    pub fn undo(&mut self, which: &[bool]) -> (r: core::result::Result<Vec<bool>, Error>)
        requires
            old(self).wf(),
        ensures
            final(self).wf(),
            r is Err <==> which@.len() != old(self)@.states.len(),
            r matches Err(e) ==> e.spec_message() == wrong_count(which@.len(), "flags"@, old(self)@.states.len()),
            r matches Err(e) ==> e.spec_error_kind() == ErrorKind::Range && final(self)@ == old(
                self,
            )@,
            r matches Ok(undone) ==> undo_spec(old(self)@, which@, final(self)@, undone@),
    {
        let n = self.rng.len();
        if which.len() != n {
            return Err(wrong_count_error(which.len(), "flags", n));
        }
        let ghost v0 = self@;
        let k = self.solved.len();
        let mut undone: Vec<bool> = Vec::new();
        let mut r: usize = 0;
        while r < n
            invariant
                r <= n == v0.states.len() == which@.len(),
                batch_wf(v0),
                k == v0.solved.len(),
                self@.perms == v0.perms,
                self.perms@ == old(self).perms@,
                self@.solved == v0.solved,
                self@.color_count == v0.color_count,
                self@.rng == v0.rng,
                self@.states.len() == n,
                self@.history.len() == n,
                self@.last.len() == n,
                undone@.len() == r,
                forall|j: int|
                    0 <= j < r ==> (#[trigger] undone@[j] <==> (which@[j] && v0.history[j].len()
                        > 0)),
                forall|j: int|
                    #![trigger self@.states[j]]
                    #![trigger self@.history[j]]
                    #![trigger self@.last[j]]
                    0 <= j < r && !undone@[j] ==> {
                        &&& self@.states[j] == v0.states[j]
                        &&& self@.history[j] == v0.history[j]
                        &&& self@.last[j] == v0.last[j]
                    },
                forall|j: int|
                    0 <= j < r && #[trigger] undone@[j] ==> {
                        &&& scattered(self@.states[j], v0.states[j], v0.perms[v0.history[j].last() as int])
                        &&& self@.history[j] == v0.history[j].drop_last()
                        &&& self@.last[j] == if self@.history[j].len() > 0 {
                            self@.history[j].last()
                        } else {
                            NONE
                        }
                    },
                forall|j: int|
                    #![trigger self@.states[j]]
                    #![trigger self@.history[j]]
                    #![trigger self@.last[j]]
                    r <= j < n ==> {
                        &&& self@.states[j] == v0.states[j]
                        &&& self@.history[j] == v0.history[j]
                        &&& self@.last[j] == v0.last[j]
                    },
                forall|t: int| 0 <= t < n ==> (#[trigger] self@.states[t]).len() == k,
                forall|t: int, c: int| 0 <= t < n && 0 <= c < k ==> #[trigger] self@.states[t][c] < k,
                forall|t: int, c: int|
                    0 <= t < n && 0 <= c < self@.history[t].len() ==> #[trigger] self@.history[t][c]
                        < self@.perms.len(),
            decreases n - r,
        {
            proof {
                assert(self@.states[r as int] == self.states@[r as int]@);
                assert(self@.history[r as int] == self.history@[r as int]@);
            }
            if which[r] && self.history[r].len() > 0 {
                let mut h = self.history[r].clone();
                let a = h.pop().unwrap();
                proof {
                    assert(a == v0.history[r as int].last());
                    assert(a < v0.perms.len());
                    assert(self.perms@[a as int]@ == v0.perms[a as int]);
                    assert(is_arrangement_spec(v0.perms[a as int], k as nat));
                }
                let mut row = self.states[r].clone();
                scatter_row(&mut row, &self.perms[a as usize]);
                proof {
                    lemma_scattered_range(row@, v0.states[r as int], v0.perms[a as int], k as nat);
                }
                let prev = if h.len() > 0 {
                    h[h.len() - 1]
                } else {
                    NONE
                };
                let ghost s_before = self.states@;
                let ghost h_before = self.history@;
                let ghost l_before = self.last@;
                self.states.set(r, row);
                self.last.set(r, prev);
                self.history.set(r, h);
                proof {
                    assert(self@.states =~= rows_u32(s_before).update(r as int, row@));
                    assert(self@.history =~= rows_u32(h_before).update(r as int, h@));
                    assert(self@.last =~= l_before.update(r as int, prev));
                    assert(h@ =~= v0.history[r as int].drop_last());
                    assert forall|c: int| 0 <= c < h@.len() implies #[trigger] h@[c] < v0.perms.len() by {
                        assert(h@[c] == v0.history[r as int][c]);
                    }
                }
                let ghost u_before = undone@;
                undone.push(true);
                assert(undone@ =~= u_before.push(true));
            } else {
                let ghost u_before = undone@;
                undone.push(false);
                assert(undone@ =~= u_before.push(false));
            }
            r = r + 1;
        }
        Ok(undone)
    }
}


/// The SplitMix64 output function.
pub open spec fn mix(z: u64) -> u64 {
    let z1 = vstd::wrapping::u64_specs::wrapping_mul(z ^ (z >> 30u64), 0xBF58_476D_1CE4_E5B9u64);
    let z2 = vstd::wrapping::u64_specs::wrapping_mul(z1 ^ (z1 >> 27u64), 0x94D0_49BB_1331_11EBu64);
    z2 ^ (z2 >> 31u64)
}

/// SplitMix64, advanced once: the next state, and a number below `n`
/// from it.
#[verifier::opaque]
pub open spec fn next_below_spec(state: u64, n: nat) -> (u64, nat) {
    let s = vstd::wrapping::u64_specs::wrapping_add(state, 0x9E37_79B9_7F4A_7C15u64);
    (s, (mix(s) as usize) as nat % n)
}

/// A random action that does not invert the preceding move: action `2k`
/// and `2k + 1` turn one grip opposite ways, so `a ^ 1` undoes `a`, and a
/// clash is nudged to the next grip rather than drawn again.
pub open spec fn pick_spec(state: u64, count: nat, last: u32) -> (u64, nat) {
    let (s, a) = next_below_spec(state, count);
    if count > 2 && last != NONE && a as u32 == (last ^ 1u32) {
        (s, (a + 2) % count)
    } else {
        (s, a)
    }
}

/// The moves of a random walk of `depth` steps, and the generator after it.
pub open spec fn walk_spec(state: u64, last: u32, count: nat, depth: nat) -> (Seq<u32>, u64)
    decreases depth,
{
    if depth == 0 {
        (seq![], state)
    } else {
        let (s1, a) = pick_spec(state, count, last);
        let (rest, s2) = walk_spec(s1, a as u32, count, (depth - 1) as nat);
        (seq![a as u32] + rest, s2)
    }
}

/// A state after a sequence of moves, the first move first.
pub open spec fn apply_moves(row: Seq<u32>, moves: Seq<u32>, perms: Seq<Seq<u32>>) -> Seq<u32>
    decreases moves.len(),
{
    if moves.len() == 0 {
        row
    } else {
        gather(apply_moves(row, moves.drop_last(), perms), perms[moves.last() as int])
    }
}

/// What `scramble` does to a batch: each row walks its own random walk.
pub open spec fn scramble_spec(v0: BatchView, depths: Seq<u32>, v1: BatchView) -> bool {
    &&& v1.perms == v0.perms
    &&& v1.solved == v0.solved
    &&& v1.color_count == v0.color_count
    &&& v1.states.len() == v0.states.len()
    &&& v1.history.len() == v0.history.len()
    &&& v1.rng.len() == v0.rng.len()
    &&& v1.last.len() == v0.last.len()
    &&& forall|r: int|
        #![trigger v1.states[r]]
        #![trigger v1.history[r]]
        #![trigger v1.rng[r]]
        #![trigger v1.last[r]]
        0 <= r < v0.states.len() ==> {
            let (w, s) = walk_spec(v0.rng[r], v0.last[r], v0.perms.len(), depths[r] as nat);
            &&& v1.states[r] == apply_moves(v0.states[r], w, v0.perms)
            &&& v1.history[r] == v0.history[r] + w
            &&& v1.rng[r] == s
            &&& v1.last[r] == if w.len() > 0 {
                w.last()
            } else {
                v0.last[r]
            }
        }
}

/// SplitMix64, advanced in place.
pub(crate) fn next_below(state: &mut u64, n: usize) -> (r: usize)
    requires
        n > 0,
    ensures
        (*final(state), r as nat) == next_below_spec(*old(state), n as nat),
{
    reveal(next_below_spec);
    *state = state.wrapping_add(0x9E37_79B9_7F4A_7C15);
    let mut z = *state;
    z = (z ^ (z >> 30)).wrapping_mul(0xBF58_476D_1CE4_E5B9);
    z = (z ^ (z >> 27)).wrapping_mul(0x94D0_49BB_1331_11EB);
    ((z ^ (z >> 31)) as usize) % n
}

/// Select an action that does not invert the preceding move.
fn pick(state: &mut u64, count: usize, last: u32) -> (r: usize)
    requires
        0 < count < u32::MAX,
    ensures
        (*final(state), r as nat) == pick_spec(*old(state), count as nat, last),
        r < count,
{
    reveal(next_below_spec);
    let a = next_below(state, count);
    if count > 2 && last != NONE && a as u32 == (last ^ 1) {
        (a + 2) % count
    } else {
        a
    }
}

/// A picked action is in range and, when there is a choice, does not undo
/// the move before it.
proof fn lemma_pick(state: u64, count: nat, last: u32)
    requires
        2 < count < u32::MAX,
    ensures
        pick_spec(state, count, last).1 < count,
        last != NONE ==> pick_spec(state, count, last).1 as u32 != (last ^ 1u32),
{
    reveal(next_below_spec);
    let (s, a0) = next_below_spec(state, count);
    let a = pick_spec(state, count, last).1;
    assert(a0 < count);
    if last != NONE && a0 as u32 == (last ^ 1u32) {
        assert(a == (a0 + 2) % count);
        if a0 + 2 < count {
            vstd::arithmetic::div_mod::lemma_small_mod((a0 + 2) as nat, count);
        } else {
            vstd::arithmetic::div_mod::lemma_fundamental_div_mod_converse(
                (a0 + 2) as int,
                count as int,
                1,
                a0 + 2 - count,
            );
        }
        assert(a != a0);
        assert(a as u32 != a0 as u32);
    }
}

/// A walk never steps straight back: no move is followed by the one that
/// would undo it, and the first does not undo the move before the walk.
pub proof fn lemma_walk_never_backtracks(state: u64, last: u32, count: nat, depth: nat)
    requires
        2 < count < u32::MAX,
    ensures
        ({
            let w = walk_spec(state, last, count, depth).0;
            &&& w.len() == depth
            &&& forall|i: int| 0 <= i < w.len() ==> #[trigger] w[i] < count
            &&& depth > 0 && last != NONE ==> w[0] != (last ^ 1u32)
            &&& forall|i: int| 0 <= i < w.len() - 1 ==> #[trigger] w[i + 1] != (w[i] ^ 1u32)
        }),
    decreases depth,
{
    if depth > 0 {
        let p = pick_spec(state, count, last);
        let s1 = p.0;
        let a = p.1;
        lemma_pick(state, count, last);
        lemma_walk_never_backtracks(s1, a as u32, count, (depth - 1) as nat);
        let rest = walk_spec(s1, a as u32, count, (depth - 1) as nat).0;
        let w = walk_spec(state, last, count, depth).0;
        assert(w == seq![a as u32] + rest);
        assert forall|i: int| 0 <= i < w.len() - 1 implies #[trigger] w[i + 1] != (w[i] ^ 1u32) by {
            if i > 0 {
                assert(w[i] == rest[i - 1]);
                assert(w[i + 1] == rest[i]);
                assert(rest[(i - 1) + 1] != (rest[i - 1] ^ 1u32));
            } else {
                assert(a as u32 != NONE);
                assert(w[0] == a as u32);
                assert(w[1] == rest[0]);
            }
        }
        assert forall|i: int| 0 <= i < w.len() implies #[trigger] w[i] < count by {
            if i > 0 {
                assert(w[i] == rest[i - 1]);
            }
        }
    }
}

impl PuzzleBatch {
    /// Walk each puzzle `depths[i]` random turns from wherever it stands.
    pub fn scramble(&mut self, depths: &[u32]) -> (r: core::result::Result<(), Error>)
        requires
            old(self).wf(),
        ensures
            final(self).wf(),
            r is Err <==> depths@.len() != old(self)@.states.len(),
            r matches Err(e) ==> e.spec_message() == wrong_count(depths@.len(), "depths"@, old(self)@.states.len()),
            r matches Err(e) ==> e.spec_error_kind() == ErrorKind::Range && final(self)@ == old(
                self,
            )@,
            r is Ok && old(self)@.perms.len() == 0 ==> final(self)@ == old(self)@,
            r is Ok && old(self)@.perms.len() > 0 ==> scramble_spec(old(self)@, depths@, final(self)@),
    {
        let n = self.rng.len();
        if depths.len() != n {
            return Err(wrong_count_error(depths.len(), "depths", n));
        }
        let count = self.perms.len();
        if count == 0 {
            return Ok(());
        }
        let ghost v0 = self@;
        let k = self.solved.len();
        let mut r: usize = 0;
        while r < n
            invariant
                r <= n == v0.states.len() == depths@.len(),
                batch_wf(v0),
                k == v0.solved.len(),
                count == v0.perms.len(),
                0 < count,
                self@.perms == v0.perms,
                self.perms@ == old(self).perms@,
                self@.solved == v0.solved,
                self@.color_count == v0.color_count,
                self@.states.len() == n,
                self@.history.len() == n,
                self@.last.len() == n,
                self@.rng.len() == n,
                forall|j: int|
                    #![trigger self@.states[j]]
                    #![trigger self@.history[j]]
                    #![trigger self@.rng[j]]
                    #![trigger self@.last[j]]
                    0 <= j < r ==> {
                        let (w, s) = walk_spec(v0.rng[j], v0.last[j], v0.perms.len(), depths@[j] as nat);
                        &&& self@.states[j] == apply_moves(v0.states[j], w, v0.perms)
                        &&& self@.history[j] == v0.history[j] + w
                        &&& self@.rng[j] == s
                        &&& self@.last[j] == if w.len() > 0 {
                            w.last()
                        } else {
                            v0.last[j]
                        }
                    },
                forall|j: int|
                    #![trigger self@.states[j]]
                    #![trigger self@.history[j]]
                    #![trigger self@.rng[j]]
                    #![trigger self@.last[j]]
                    r <= j < n ==> {
                        &&& self@.states[j] == v0.states[j]
                        &&& self@.history[j] == v0.history[j]
                        &&& self@.rng[j] == v0.rng[j]
                        &&& self@.last[j] == v0.last[j]
                    },
                forall|t: int| 0 <= t < n ==> (#[trigger] self@.states[t]).len() == k,
                forall|t: int, c: int| 0 <= t < n && 0 <= c < k ==> #[trigger] self@.states[t][c] < k,
                forall|t: int, c: int|
                    0 <= t < n && 0 <= c < self@.history[t].len() ==> #[trigger] self@.history[t][c]
                        < self@.perms.len(),
            decreases n - r,
        {
            proof {
                assert(self@.states[r as int] == self.states@[r as int]@);
                assert(self@.history[r as int] == self.history@[r as int]@);
            }
            let mut row = self.states[r].clone();
            let mut hist = self.history[r].clone();
            let mut rng = self.rng[r];
            let mut last = self.last[r];
            let depth = depths[r];
            let ghost target = walk_spec(rng, last, count as nat, depth as nat);
            let ghost mut moves: Seq<u32> = seq![];
            let mut i: u32 = 0;
            while i < depth
                invariant
                    i <= depth,
                    0 < count < u32::MAX,
                    count == v0.perms.len(),
                    k == v0.solved.len(),
                    batch_wf(v0),
                    self.perms@ == old(self).perms@,
                    self@.perms == v0.perms,
                    moves.len() == i,
                    moves + walk_spec(rng, last, count as nat, (depth - i) as nat).0 == target.0,
                    walk_spec(rng, last, count as nat, (depth - i) as nat).1 == target.1,
                    row@ == apply_moves(v0.states[r as int], moves, v0.perms),
                    hist@ == v0.history[r as int] + moves,
                    i > 0 ==> last == moves.last(),
                    i == 0 ==> last == v0.last[r as int],
                    row@.len() == k,
                    forall|c: int| 0 <= c < k ==> #[trigger] row@[c] < k,
                    forall|c: int| 0 <= c < hist@.len() ==> #[trigger] hist@[c] < count,
                    target == walk_spec(v0.rng[r as int], v0.last[r as int], count as nat, depth as nat),
                decreases depth - i,
            {
                let ghost rng0 = rng;
                let ghost last0 = last;
                let a = pick(&mut rng, count, last);
                proof {
                    assert(self.perms@[a as int]@ == v0.perms[a as int]);
                    assert(is_arrangement_spec(v0.perms[a as int], k as nat));
                }
                let new_row = gather_row(&row, &self.perms[a]);
                proof {
                    let rest = walk_spec(rng, a as u32, count as nat, (depth - i - 1) as nat);
                    assert(walk_spec(rng0, last0, count as nat, (depth - i) as nat).0 == seq![a as u32]
                        + rest.0);
                    assert(moves.push(a as u32) + rest.0 =~= moves + (seq![a as u32] + rest.0));
                    assert(moves.push(a as u32).drop_last() =~= moves);
                    let p = v0.perms[a as int];
                    assert forall|c: int| 0 <= c < k implies #[trigger] new_row@[c] < k by {
                        assert(p[c] < k);
                    }
                    moves = moves.push(a as u32);
                }
                row = new_row;
                hist.push(a as u32);
                last = a as u32;
                i = i + 1;
                proof {
                    assert(hist@ =~= v0.history[r as int] + moves);
                }
            }
            proof {
                assert(moves =~= target.0);
            }
            let ghost s_before = self.states@;
            let ghost h_before = self.history@;
            self.states.set(r, row);
            self.history.set(r, hist);
            self.rng.set(r, rng);
            self.last.set(r, last);
            proof {
                assert(self@.states =~= rows_u32(s_before).update(r as int, row@));
                assert(self@.history =~= rows_u32(h_before).update(r as int, hist@));
            }
            r = r + 1;
        }
        Ok(())
    }
}


/// Row `r` of a flat array of rows of `k` values.
pub open spec fn chunk(ids: Seq<u32>, k: nat, r: int) -> Seq<u32> {
    ids.subrange(r * k, r * k + k)
}

/// A batch with the rows `which` selects solved and their histories
/// forgotten.
pub open spec fn solve_where_view(v: BatchView, which: Seq<bool>) -> BatchView {
    BatchView {
        states: Seq::new(
            v.states.len(),
            |r: int|
                if which[r] {
                    identity(v.solved.len())
                } else {
                    v.states[r]
                },
        ),
        history: Seq::new(
            v.history.len(),
            |r: int|
                if which[r] {
                    Seq::<u32>::empty()
                } else {
                    v.history[r]
                },
        ),
        last: Seq::new(
            v.last.len(),
            |r: int|
                if which[r] {
                    NONE
                } else {
                    v.last[r]
                },
        ),
        ..v
    }
}

/// The walk lengths that `reset_where` asks of each row.
pub open spec fn reset_depths(which: Seq<bool>, depth: u32) -> Seq<u32> {
    Seq::new(
        which.len(),
        |r: int|
            if which[r] {
                depth
            } else {
                0u32
            },
    )
}

/// A row's colors, slot by slot.
pub open spec fn colors_of(row: Seq<u32>, solved: Seq<u16>) -> Seq<u32> {
    Seq::new(row.len(), |j: int| solved[row[j] as int] as u32)
}

/// `r * k + j` stays below `n * k` for a row below `n` and a column below
/// `k`.
proof fn lemma_flat_index(r: int, j: int, n: int, k: int)
    requires
        0 <= r < n,
        0 <= j < k,
    ensures
        0 <= r * k + j < n * k,
        r * k + k <= n * k,
{
    assert(0 <= r * k + j < n * k && r * k + k <= n * k) by (nonlinear_arith)
        requires
            0 <= r < n,
            0 <= j < k,
    ;
}

/// Whether a row names every slot of the puzzle exactly once.
fn is_arrangement(ids: &[u32], start: usize, k: usize) -> (r: bool)
    requires
        start + k <= ids@.len(),
    ensures
        r == is_arrangement_spec(ids@.subrange(start as int, start + k), k as nat),
{
    let ghost row = ids@.subrange(start as int, start + k);
    let len = ids.len();
    let mut seen: Vec<bool> = Vec::new();
    let mut t: usize = 0;
    while t < k
        invariant
            t <= k,
            seen@.len() == t,
            forall|j: int| 0 <= j < t ==> !#[trigger] seen@[j],
        decreases k - t,
    {
        seen.push(false);
        t = t + 1;
    }
    let mut i: usize = 0;
    while i < k
        invariant
            i <= k,
            start + k <= ids@.len() == len,
            row == ids@.subrange(start as int, start + k),
            seen@.len() == k,
            forall|j: int| 0 <= j < i ==> #[trigger] row[j] < k,
            forall|a: int, b: int| 0 <= a < b < i ==> row[a] != row[b],
            forall|s: int| 0 <= s < k ==> (#[trigger] seen@[s] <==> exists|j: int| 0 <= j < i && row[j] == s),
        decreases k - i,
    {
        assert(start + i < ids@.len());
        let v = ids[start + i];
        assert(v == row[i as int]);
        if v as usize >= k {
            return false;
        }
        if seen[v as usize] {
            proof {
                let j = choose|j: int| 0 <= j < i && row[j] == v;
                assert(row[j] == row[i as int]);
            }
            return false;
        }
        seen.set(v as usize, true);
        proof {
            assert forall|s: int| 0 <= s < k implies (#[trigger] seen@[s] <==> exists|j: int|
                0 <= j < i + 1 && row[j] == s) by {
                if s == v {
                    assert(row[i as int] == s);
                }
            }
        }
        i = i + 1;
    }
    let mut s: usize = 0;
    while s < k
        invariant
            s <= k,
            seen@.len() == k,
            forall|t: int| 0 <= t < k ==> (#[trigger] seen@[t] <==> exists|j: int| 0 <= j < k && row[j] == t),
            forall|t: int| 0 <= t < s ==> #[trigger] names_slot(row, t),
            row.len() == k,
            row == ids@.subrange(start as int, start + k),
            forall|j: int| 0 <= j < k ==> #[trigger] row[j] < k,
            forall|a: int, b: int| 0 <= a < b < k ==> row[a] != row[b],
        decreases k - s,
    {
        if !seen[s] {
            proof {
                assert(!names_slot(row, s as int));
                assert(!is_arrangement_spec(row, k as nat));
            }
            return false;
        }
        assert(names_slot(row, s as int));
        s = s + 1;
    }
    true
}

impl PuzzleBatch {
    /// A batch of `count` solved copies of a puzzle whose moves are the
    /// given permutations of its slots, with `solved[i]` the color of slot
    /// `i` when solved.
    pub fn from_table(perms: Vec<Vec<u32>>, solved: Vec<u16>, color_count: usize, count: usize) -> (r: core::result::Result<
        PuzzleBatch,
        Error,
    >)
        ensures
            r is Ok <==> {
                &&& count >= 1
                &&& solved@.len() >= 1
                &&& solved@.len() <= u32::MAX
                &&& perms@.len() < u32::MAX
                &&& forall|a: int|
                    0 <= a < perms@.len() ==> #[trigger] is_arrangement_spec(perms@[a]@, solved@.len())
                &&& forall|i: int| 0 <= i < solved@.len() ==> #[trigger] solved@[i] < color_count
                &&& count * solved@.len() * (color_count + 1) <= usize::MAX
                &&& count * perms@.len() <= usize::MAX
            },
            r matches Err(e) ==> e.spec_error_kind() == ErrorKind::Range,
            r matches Ok(b) ==> {
                &&& b.wf()
                &&& b@.perms == rows_u32(perms@)
                &&& b@.solved == solved@
                &&& b@.color_count == color_count
                &&& b@.states == Seq::new(count as nat, |r: int| identity(solved@.len()))
                &&& b@.rng == Seq::new(count as nat, |i: int| 0x2545_F491_4F6C_DD1Du64 ^ (i as u64))
                &&& b@.last == Seq::new(count as nat, |i: int| NONE)
                &&& b@.history == Seq::new(count as nat, |i: int| Seq::<u32>::empty())
            },
    {
        if count == 0 {
            return Err(Error::Range("a batch needs at least one puzzle".to_owned()));
        }
        let k = solved.len();
        if k == 0 || k > u32::MAX as usize {
            return Err(Error::Range("a puzzle needs between one and 2^32 - 1 stickers".to_owned()));
        }
        if perms.len() >= u32::MAX as usize {
            return Err(Error::Range("too many actions".to_owned()));
        }
        let mut a: usize = 0;
        while a < perms.len()
            invariant
                a <= perms.len(),
                k == solved@.len(),
                forall|b: int| 0 <= b < a ==> #[trigger] is_arrangement_spec(perms@[b]@, k as nat),
            decreases perms.len() - a,
        {
            if perms[a].len() != k || !is_arrangement(perms[a].as_slice(), 0, k) {
                proof {
                    if perms@[a as int]@.len() == k {
                        assert(perms@[a as int]@.subrange(0, k as int) =~= perms@[a as int]@);
                    }
                    assert(!is_arrangement_spec(perms@[a as int]@, k as nat));
                }
                return Err(Error::Range("an action is not a permutation of the slots".to_owned()));
            }
            proof {
                assert(perms@[a as int]@.subrange(0, k as int) =~= perms@[a as int]@);
            }
            a = a + 1;
        }
        let mut i: usize = 0;
        while i < k
            invariant
                i <= k == solved@.len(),
                forall|j: int| 0 <= j < i ==> #[trigger] solved@[j] < color_count,
            decreases k - i,
        {
            if solved[i] as usize >= color_count {
                return Err(Error::Range("a solved color is out of range".to_owned()));
            }
            i = i + 1;
        }
        let size = match count.checked_mul(k) {
            Some(nk) => match color_count.checked_add(1) {
                Some(c1) => nk.checked_mul(c1),
                None => None,
            },
            None => None,
        };
        if size.is_none() {
            proof {
                let nk = count * k;
                let c1 = color_count + 1;
                assert(nk >= 1) by (nonlinear_arith)
                    requires
                        count >= 1,
                        k >= 1,
                        nk == count * k,
                ;
                assert(nk <= nk * c1 && c1 <= nk * c1) by (nonlinear_arith)
                    requires
                        nk >= 1,
                        c1 >= 1,
                ;
                assert(count * k * (color_count + 1) == nk * c1);
            }
            return Err(Error::Range("the batch is too large".to_owned()));
        }
        if count.checked_mul(perms.len()).is_none() {
            return Err(Error::Range("the batch is too large".to_owned()));
        }
        let mut states: Vec<Vec<u32>> = Vec::new();
        let mut rng: Vec<u64> = Vec::new();
        let mut last: Vec<u32> = Vec::new();
        let mut history: Vec<Vec<u32>> = Vec::new();
        let mut r: usize = 0;
        while r < count
            invariant
                r <= count,
                1 <= k <= u32::MAX,
                states@.len() == r,
                rng@.len() == r,
                last@.len() == r,
                history@.len() == r,
                forall|j: int| 0 <= j < r ==> #[trigger] states@[j]@ == identity(k as nat),
                forall|j: int| 0 <= j < r ==> #[trigger] rng@[j] == 0x2545_F491_4F6C_DD1Du64 ^ (j as u64),
                forall|j: int| 0 <= j < r ==> #[trigger] last@[j] == NONE,
                forall|j: int| 0 <= j < r ==> #[trigger] history@[j]@ == Seq::<u32>::empty(),
            decreases count - r,
        {
            let row = identity_row(k);
            states.push(row);
            rng.push(0x2545_F491_4F6C_DD1D ^ r as u64);
            last.push(NONE);
            history.push(Vec::new());
            r = r + 1;
        }
        let b = PuzzleBatch { perms, solved, color_count, states, rng, last, history };
        proof {
            assert(b@.states =~= Seq::new(count as nat, |r: int| identity(k as nat)));
            assert(b@.rng =~= Seq::new(count as nat, |i: int| 0x2545_F491_4F6C_DD1Du64 ^ (i as u64)));
            assert(b@.last =~= Seq::new(count as nat, |i: int| NONE));
            assert(b@.history =~= Seq::new(count as nat, |i: int| Seq::<u32>::empty()));
            assert forall|a: int| 0 <= a < b@.perms.len() implies #[trigger] is_arrangement_spec(
                b@.perms[a],
                k as nat,
            ) by {
                assert(b@.perms[a] == b.perms@[a]@);
            }
            assert(count * k * (color_count + 1) <= usize::MAX);
        }
        Ok(b)
    }
}

/// The solved state of `k` slots.
fn identity_row(k: usize) -> (r: Vec<u32>)
    requires
        k <= u32::MAX,
    ensures
        r@ == identity(k as nat),
{
    let mut row: Vec<u32> = Vec::new();
    let mut i: usize = 0;
    while i < k
        invariant
            i <= k <= u32::MAX,
            row@.len() == i,
            forall|j: int| 0 <= j < i ==> #[trigger] row@[j] == j as u32,
        decreases k - i,
    {
        row.push(i as u32);
        i = i + 1;
    }
    assert(row@ =~= identity(k as nat));
    row
}


/// Flattening one more row appends it.
pub(crate) proof fn lemma_flatten_step<A>(rows: Seq<Seq<A>>, r: int)
    requires
        0 <= r < rows.len(),
    ensures
        rows.take(r + 1).flatten_alt() == rows.take(r).flatten_alt() + rows[r],
{
    assert(rows.take(r + 1).drop_last() =~= rows.take(r));
}

/// A row's colors as indicator bytes: for each slot, one byte per color,
/// set for the slot's color.
pub open spec fn one_hot_row(row: Seq<u32>, solved: Seq<u16>, c: nat) -> Seq<u8> {
    Seq::new(
        row.len(),
        |i: int|
            Seq::new(
                c,
                |j: int|
                    if solved[row[i] as int] == j {
                        1u8
                    } else {
                        0u8
                    },
            ),
    ).flatten_alt()
}

impl PuzzleBatch {
    /// Solve the rows `which` selects and forget their moves.
    pub fn solve_where(&mut self, which: &[bool]) -> (r: core::result::Result<(), Error>)
        requires
            old(self).wf(),
        ensures
            final(self).wf(),
            r is Err <==> which@.len() != old(self)@.states.len(),
            r matches Err(e) ==> e.spec_message() == wrong_count(which@.len(), "flags"@, old(self)@.states.len()),
            r matches Err(e) ==> e.spec_error_kind() == ErrorKind::Range && final(self)@ == old(
                self,
            )@,
            r is Ok ==> final(self)@ == solve_where_view(old(self)@, which@),
    {
        let n = self.rng.len();
        if which.len() != n {
            return Err(wrong_count_error(which.len(), "flags", n));
        }
        let ghost v0 = self@;
        let ghost target = solve_where_view(v0, which@);
        let k = self.solved.len();
        let mut r: usize = 0;
        while r < n
            invariant
                r <= n == v0.states.len() == which@.len(),
                batch_wf(v0),
                k == v0.solved.len(),
                target == solve_where_view(v0, which@),
                self@.perms == v0.perms,
                self@.solved == v0.solved,
                self@.color_count == v0.color_count,
                self@.rng == v0.rng,
                self@.states.len() == n,
                self@.history.len() == n,
                self@.last.len() == n,
                forall|j: int|
                    #![trigger self@.states[j]]
                    #![trigger self@.history[j]]
                    #![trigger self@.last[j]]
                    0 <= j < r ==> self@.states[j] == target.states[j] && self@.history[j]
                        == target.history[j] && self@.last[j] == target.last[j],
                forall|j: int|
                    #![trigger self@.states[j]]
                    #![trigger self@.history[j]]
                    #![trigger self@.last[j]]
                    r <= j < n ==> self@.states[j] == v0.states[j] && self@.history[j]
                        == v0.history[j] && self@.last[j] == v0.last[j],
            decreases n - r,
        {
            if which[r] {
                let ghost s_before = self.states@;
                let ghost h_before = self.history@;
                let ghost l_before = self.last@;
                let row = identity_row(k);
                self.states.set(r, row);
                self.history.set(r, Vec::new());
                self.last.set(r, NONE);
                proof {
                    assert(self@.states =~= rows_u32(s_before).update(r as int, row@));
                    assert(self@.history =~= rows_u32(h_before).update(r as int, Seq::<u32>::empty()));
                    assert(self@.last =~= l_before.update(r as int, NONE));
                }
            }
            r = r + 1;
        }
        proof {
            assert(self@.states =~= target.states);
            assert(self@.history =~= target.history);
            assert(self@.last =~= target.last);
            assert forall|t: int, c: int| 0 <= t < n && 0 <= c < k implies #[trigger] self@.states[t][c]
                < k by {
                if which@[t] {
                    assert(self@.states[t] == identity(k as nat));
                }
            }
            assert forall|t: int, c: int|
                0 <= t < n && 0 <= c < self@.history[t].len() implies #[trigger] self@.history[t][c]
                < self@.perms.len() by {
                if !which@[t] {
                    assert(self@.history[t] == v0.history[t]);
                }
            }
        }
        Ok(())
    }

    /// Solve every puzzle, without scrambling it again.
    pub fn solve(&mut self) -> (r: core::result::Result<(), Error>)
        requires
            old(self).wf(),
        ensures
            final(self).wf(),
            r is Ok,
            final(self)@ == solve_where_view(
                old(self)@,
                Seq::new(old(self)@.states.len(), |i: int| true),
            ),
    {
        let which = all_flags(self.rng.len(), true);
        self.solve_where(which.as_slice())
    }

    /// Solve the rows `which` selects and walk each `depth` turns away.
    pub fn reset_where(&mut self, which: &[bool], depth: u32) -> (r: core::result::Result<(), Error>)
        requires
            old(self).wf(),
        ensures
            r matches Err(e) ==> e.spec_message() == wrong_count(which@.len(), "flags"@, old(self)@.states.len()),
            final(self).wf(),
            r is Err <==> which@.len() != old(self)@.states.len(),
            r matches Err(e) ==> e.spec_error_kind() == ErrorKind::Range && final(self)@ == old(
                self,
            )@,
            r is Ok && old(self)@.perms.len() == 0 ==> final(self)@ == solve_where_view(
                old(self)@,
                which@,
            ),
            r is Ok && old(self)@.perms.len() > 0 ==> scramble_spec(
                solve_where_view(old(self)@, which@),
                reset_depths(which@, depth),
                final(self)@,
            ),
    {
        self.solve_where(which)?;
        let mut depths: Vec<u32> = Vec::new();
        let mut i: usize = 0;
        while i < which.len()
            invariant
                i <= which.len(),
                depths@.len() == i,
                forall|j: int| 0 <= j < i ==> #[trigger] depths@[j] == reset_depths(which@, depth)[j],
            decreases which.len() - i,
        {
            depths.push(
                if which[i] {
                    depth
                } else {
                    0
                },
            );
            i = i + 1;
        }
        assert(depths@ =~= reset_depths(which@, depth));
        self.scramble(depths.as_slice())
    }

    /// Solve every puzzle and walk each `depth` random turns away again.
    pub fn reset(&mut self, depth: u32) -> (r: core::result::Result<(), Error>)
        requires
            old(self).wf(),
        ensures
            final(self).wf(),
            r is Ok,
            old(self)@.perms.len() > 0 ==> scramble_spec(
                solve_where_view(old(self)@, Seq::new(old(self)@.states.len(), |i: int| true)),
                reset_depths(Seq::new(old(self)@.states.len(), |i: int| true), depth),
                final(self)@,
            ),
    {
        let which = all_flags(self.rng.len(), true);
        self.reset_where(which.as_slice(), depth)
    }

    /// Solve one puzzle and scramble just that one, leaving the rest alone.
    pub fn reset_one(&mut self, i: usize, depth: u32) -> (r: core::result::Result<(), Error>)
        requires
            old(self).wf(),
        ensures
            r matches Err(e) ==> e.spec_message() == no_such_puzzle(i as nat, old(self)@.states.len()),
            final(self).wf(),
            r is Err <==> i >= old(self)@.states.len(),
            r matches Err(e) ==> e.spec_error_kind() == ErrorKind::Range && final(self)@ == old(
                self,
            )@,
            r is Ok && old(self)@.perms.len() > 0 ==> scramble_spec(
                solve_where_view(old(self)@, Seq::new(old(self)@.states.len(), |j: int| j == i)),
                reset_depths(Seq::new(old(self)@.states.len(), |j: int| j == i), depth),
                final(self)@,
            ),
    {
        let n = self.rng.len();
        if i >= n {
            return Err(no_such_puzzle_error(i, n));
        }
        let mut which = all_flags(n, false);
        which.set(i, true);
        assert(which@ =~= Seq::new(n as nat, |j: int| j == i));
        self.reset_where(which.as_slice(), depth)
    }

    /// Seed row `i`'s scrambler.
    pub fn seed(&mut self, i: usize, seed: u64) -> (r: core::result::Result<(), Error>)
        requires
            old(self).wf(),
        ensures
            r matches Err(e) ==> e.spec_message() == no_such_puzzle(i as nat, old(self)@.states.len()),
            final(self).wf(),
            r is Err <==> i >= old(self)@.states.len(),
            r matches Err(e) ==> e.spec_error_kind() == ErrorKind::Range && final(self)@ == old(
                self,
            )@,
            r is Ok ==> final(self)@ == (BatchView {
                rng: old(self)@.rng.update(i as int, seed),
                last: old(self)@.last.update(i as int, NONE),
                ..old(self)@
            }),
    {
        let n = self.rng.len();
        if i >= n {
            return Err(no_such_puzzle_error(i, n));
        }
        self.rng.set(i, seed);
        self.last.set(i, NONE);
        Ok(())
    }

    /// Seed every row, giving row `i` `seed + i` so that one number fixes
    /// the whole batch while no two rows walk together.
    pub fn seed_all(&mut self, seed: u64)
        requires
            old(self).wf(),
        ensures
            final(self).wf(),
            final(self)@ == (BatchView {
                rng: Seq::new(
                    old(self)@.states.len(),
                    |i: int| vstd::wrapping::u64_specs::wrapping_add(seed, i as u64),
                ),
                last: Seq::new(old(self)@.states.len(), |i: int| NONE),
                ..old(self)@
            }),
    {
        let n = self.rng.len();
        let ghost v0 = self@;
        let mut i: usize = 0;
        while i < n
            invariant
                i <= n == v0.states.len(),
                batch_wf(v0),
                self@.perms == v0.perms,
                self@.solved == v0.solved,
                self@.color_count == v0.color_count,
                self@.states == v0.states,
                self@.history == v0.history,
                self@.rng.len() == n,
                self@.last.len() == n,
                forall|j: int|
                    0 <= j < i ==> #[trigger] self@.rng[j] == vstd::wrapping::u64_specs::wrapping_add(
                        seed,
                        j as u64,
                    ),
                forall|j: int| 0 <= j < i ==> #[trigger] self@.last[j] == NONE,
            decreases n - i,
        {
            self.rng.set(i, seed.wrapping_add(i as u64));
            self.last.set(i, NONE);
            i = i + 1;
        }
        proof {
            assert(self@.rng =~= Seq::new(
                n as nat,
                |i: int| vstd::wrapping::u64_specs::wrapping_add(seed, i as u64),
            ));
            assert(self@.last =~= Seq::new(n as nat, |i: int| NONE));
        }
    }

    /// The moves one row has made since it was last solved.
    pub fn history(&self, i: usize) -> (r: core::result::Result<&[u32], Error>)
        requires
            self.wf(),
        ensures
            r matches Err(e) ==> e.spec_message() == no_such_puzzle(i as nat, self@.states.len()),
            r is Err <==> i >= self@.states.len(),
            r matches Err(e) ==> e.spec_error_kind() == ErrorKind::Range,
            r matches Ok(h) ==> h@ == self@.history[i as int],
    {
        if i >= self.history.len() {
            return Err(no_such_puzzle_error(i, self.history.len()));
        }
        Ok(self.history[i].as_slice())
    }

    /// How many moves each row has made since it was last solved.
    pub fn move_counts(&self) -> (r: Vec<usize>)
        requires
            self.wf(),
        ensures
            r@.len() == self@.history.len(),
            forall|i: int| 0 <= i < r@.len() ==> #[trigger] r@[i] == self@.history[i].len(),
    {
        let mut out: Vec<usize> = Vec::new();
        let mut i: usize = 0;
        while i < self.history.len()
            invariant
                i <= self.history@.len(),
                out@.len() == i,
                forall|j: int| 0 <= j < i ==> #[trigger] out@[j] == self@.history[j].len(),
            decreases self.history.len() - i,
        {
            out.push(self.history[i].len());
            i = i + 1;
        }
        out
    }

    /// Every move as a permutation of the sticker slots, one after another.
    pub fn permutations(&self) -> (r: Option<Vec<u32>>)
        requires
            self.wf(),
        ensures
            r matches Some(v) && v@ == self@.perms.flatten_alt(),
    {
        let mut out: Vec<u32> = Vec::new();
        let mut a: usize = 0;
        while a < self.perms.len()
            invariant
                a <= self.perms@.len(),
                out@ == self@.perms.take(a as int).flatten_alt(),
            decreases self.perms.len() - a,
        {
            let mut row = self.perms[a].clone();
            proof {
                lemma_flatten_step(self@.perms, a as int);
                assert(row@ == self@.perms[a as int]);
            }
            out.append(&mut row);
            a = a + 1;
        }
        assert(self@.perms.take(self@.perms.len() as int) =~= self@.perms);
        Some(out)
    }

    /// Every puzzle's sticker colors, one state after another.
    pub fn observations(&self) -> (r: core::result::Result<Vec<u32>, Error>)
        requires
            self.wf(),
        ensures
            r is Err <==> self@.color_count > 0x1_0000_0000,
            r matches Err(e) ==> e.spec_error_kind() == ErrorKind::Range,
            r matches Err(e) ==> e.spec_message() == too_many_colors(self@.color_count as nat),
            r matches Ok(v) ==> v@ == Seq::new(
                self@.states.len(),
                |i: int| colors_of(self@.states[i], self@.solved),
            ).flatten_alt(),
    {
        if self.color_count as u64 > 0x1_0000_0000u64 {
            return Err(too_many_colors_error(self.color_count));
        }
        let ghost rows = Seq::new(self@.states.len(), |i: int| colors_of(self@.states[i], self@.solved));
        let n = self.states.len();
        let k = self.solved.len();
        let mut out: Vec<u32> = Vec::new();
        let mut r: usize = 0;
        while r < n
            invariant
                r <= n == self@.states.len(),
                k == self@.solved.len(),
                batch_wf(self@),
                rows == Seq::new(self@.states.len(), |i: int| colors_of(self@.states[i], self@.solved)),
                out@ == rows.take(r as int).flatten_alt(),
            decreases n - r,
        {
            proof {
                assert(self@.states[r as int] == self.states@[r as int]@);
            }
            let mut row: Vec<u32> = Vec::new();
            let mut j: usize = 0;
            while j < k
                invariant
                    j <= k == self@.solved.len(),
                    r < n == self@.states.len(),
                    batch_wf(self@),
                    self@.states[r as int] == self.states@[r as int]@,
                    row@.len() == j,
                    forall|t: int| 0 <= t < j ==> #[trigger] row@[t] == colors_of(
                        self@.states[r as int],
                        self@.solved,
                    )[t],
                decreases k - j,
            {
                let id = self.states[r][j] as usize;
                row.push(self.solved[id] as u32);
                j = j + 1;
            }
            proof {
                assert(row@ =~= rows[r as int]);
                lemma_flatten_step(rows, r as int);
            }
            out.append(&mut row);
            r = r + 1;
        }
        assert(rows.take(n as int) =~= rows);
        Ok(out)
    }

    /// Where the sticker in each slot of each puzzle started, one state
    /// after another.
    pub fn sticker_ids(&self) -> (r: core::result::Result<Vec<u32>, Error>)
        requires
            self.wf(),
        ensures
            r matches Ok(v) && v@ == self@.states.flatten_alt(),
    {
        let n = self.states.len();
        let mut out: Vec<u32> = Vec::new();
        let mut r: usize = 0;
        while r < n
            invariant
                r <= n == self@.states.len(),
                out@ == self@.states.take(r as int).flatten_alt(),
            decreases n - r,
        {
            let mut row = self.states[r].clone();
            proof {
                lemma_flatten_step(self@.states, r as int);
                assert(row@ == self@.states[r as int]);
            }
            out.append(&mut row);
            r = r + 1;
        }
        assert(self@.states.take(n as int) =~= self@.states);
        Ok(out)
    }

    /// Whether each puzzle is solved: every sticker the color it should be.
    pub fn solved(&self) -> (r: core::result::Result<Vec<bool>, Error>)
        requires
            self.wf(),
        ensures
            r matches Ok(v) && v@.len() == self@.states.len() && forall|i: int|
                0 <= i < v@.len() ==> #[trigger] v@[i] == is_home_spec(self@.states[i], self@.solved),
    {
        let n = self.states.len();
        let mut out: Vec<bool> = Vec::new();
        let mut r: usize = 0;
        while r < n
            invariant
                r <= n == self@.states.len(),
                batch_wf(self@),
                out@.len() == r,
                forall|i: int| 0 <= i < r ==> #[trigger] out@[i] == is_home_spec(self@.states[i], self@.solved),
            decreases n - r,
        {
            proof {
                assert(self@.states[r as int] == self.states@[r as int]@);
            }
            out.push(is_home(&self.states[r], &self.solved));
            r = r + 1;
        }
        Ok(out)
    }

    /// Which moves each puzzle can make: every move, since every layer of a
    /// puzzle with a permutation table turns.
    pub fn action_masks(&self) -> (r: core::result::Result<Vec<bool>, Error>)
        requires
            self.wf(),
        ensures
            r matches Ok(v) && v@ == Seq::new(self@.states.len() * self@.perms.len(), |i: int| true),
    {
        proof {
            assert(self@.perms.len() == self.perms@.len());
        }
        let v = all_flags(self.states.len() * self.perms.len(), true);
        Ok(v)
    }

    /// Every puzzle's state as indicator bytes, one per (slot, color) pair.
    pub fn one_hot(&self) -> (r: core::result::Result<Vec<u8>, Error>)
        requires
            self.wf(),
        ensures
            r is Err <==> self@.color_count > 0x1_0000_0000,
            r matches Err(e) ==> e.spec_error_kind() == ErrorKind::Range,
            r matches Err(e) ==> e.spec_message() == too_many_colors(self@.color_count as nat),
            r matches Ok(v) ==> v@ == Seq::new(
                self@.states.len(),
                |i: int| one_hot_row(self@.states[i], self@.solved, self@.color_count),
            ).flatten_alt(),
    {
        if self.color_count as u64 > 0x1_0000_0000u64 {
            return Err(too_many_colors_error(self.color_count));
        }
        let c = self.color_count;
        let ghost rows = Seq::new(
            self@.states.len(),
            |i: int| one_hot_row(self@.states[i], self@.solved, self@.color_count),
        );
        let n = self.states.len();
        let k = self.solved.len();
        let mut out: Vec<u8> = Vec::new();
        let mut r: usize = 0;
        while r < n
            invariant
                r <= n == self@.states.len(),
                k == self@.solved.len(),
                c == self@.color_count,
                batch_wf(self@),
                rows == Seq::new(
                    self@.states.len(),
                    |i: int| one_hot_row(self@.states[i], self@.solved, self@.color_count),
                ),
                out@ == rows.take(r as int).flatten_alt(),
            decreases n - r,
        {
            proof {
                assert(self@.states[r as int] == self.states@[r as int]@);
            }
            let ghost blocks = Seq::new(
                k as nat,
                |i: int|
                    Seq::new(
                        c as nat,
                        |j: int|
                            if self@.solved[self@.states[r as int][i] as int] == j {
                                1u8
                            } else {
                                0u8
                            },
                    ),
            );
            let mut row: Vec<u8> = Vec::new();
            let mut i: usize = 0;
            while i < k
                invariant
                    i <= k == self@.solved.len(),
                    r < n == self@.states.len(),
                    c == self@.color_count,
                    batch_wf(self@),
                    self@.states[r as int] == self.states@[r as int]@,
                    blocks == Seq::new(
                        k as nat,
                        |i: int|
                            Seq::new(
                                c as nat,
                                |j: int|
                                    if self@.solved[self@.states[r as int][i] as int] == j {
                                        1u8
                                    } else {
                                        0u8
                                    },
                            ),
                    ),
                    row@ == blocks.take(i as int).flatten_alt(),
                decreases k - i,
            {
                let color = self.solved[self.states[r][i] as usize] as usize;
                let mut block: Vec<u8> = Vec::new();
                let mut j: usize = 0;
                while j < c
                    invariant
                        j <= c,
                        i < k,
                        blocks[i as int].len() == c,
                        block@.len() == j,
                        color == self@.solved[self@.states[r as int][i as int] as int],
                        blocks == Seq::new(
                            k as nat,
                            |i: int|
                                Seq::new(
                                    c as nat,
                                    |j: int|
                                        if self@.solved[self@.states[r as int][i] as int] == j {
                                            1u8
                                        } else {
                                            0u8
                                        },
                                ),
                        ),
                        forall|t: int| 0 <= t < j ==> #[trigger] block@[t] == blocks[i as int][t],
                    decreases c - j,
                {
                    block.push(
                        if color == j {
                            1u8
                        } else {
                            0u8
                        },
                    );
                    j = j + 1;
                }
                proof {
                    assert(block@ =~= blocks[i as int]);
                    lemma_flatten_step(blocks, i as int);
                }
                row.append(&mut block);
                i = i + 1;
            }
            proof {
                assert(blocks.take(k as int) =~= blocks);
                assert(row@ == rows[r as int]);
                lemma_flatten_step(rows, r as int);
            }
            out.append(&mut row);
            r = r + 1;
        }
        assert(rows.take(n as int) =~= rows);
        Ok(out)
    }
}

/// `n` copies of one flag.
fn all_flags(n: usize, flag: bool) -> (r: Vec<bool>)
    ensures
        r@ == Seq::new(n as nat, |i: int| flag),
{
    let mut v: Vec<bool> = Vec::new();
    let mut i: usize = 0;
    while i < n
        invariant
            i <= n,
            v@ == Seq::new(i as nat, |j: int| flag),
        decreases n - i,
    {
        v.push(flag);
        i = i + 1;
        assert(v@ =~= Seq::new(i as nat, |j: int| flag));
    }
    v
}


/// Whether every row of a flat array is an arrangement of `k` slots.
pub open spec fn all_arrangements(ids: Seq<u32>, n: nat, k: nat) -> bool {
    forall|r: int| 0 <= r < n ==> #[trigger] is_arrangement_spec(chunk(ids, k, r), k)
}

/// A batch whose rows are the rows of a flat array, with every history
/// forgotten.
pub open spec fn set_states_view(v: BatchView, ids: Seq<u32>) -> BatchView {
    BatchView {
        states: Seq::new(v.states.len(), |r: int| chunk(ids, v.solved.len(), r)),
        history: Seq::new(v.states.len(), |r: int| Seq::<u32>::empty()),
        last: Seq::new(v.states.len(), |r: int| NONE),
        ..v
    }
}

/// What `set_states` does: rows that are all arrangements replace the
/// states; anything else is refused and changes nothing.
pub open spec fn set_states_spec(v0: BatchView, ids: Seq<u32>, v1: BatchView, ok: bool) -> bool {
    let n = v0.states.len();
    let k = v0.solved.len();
    &&& ok <==> (ids.len() == n * k && all_arrangements(ids, n, k))
    &&& ok ==> v1 == set_states_view(v0, ids)
    &&& !ok ==> v1 == v0
}

impl PuzzleBatch {
    /// Put states that did not come from this batch into it: for each row,
    /// the slot the sticker now in each slot started in. Each row must be an
    /// arrangement of the stickers. The histories are forgotten.
    pub fn set_states(&mut self, ids: &[u32]) -> (r: core::result::Result<(), Error>)
        requires
            old(self).wf(),
        ensures
            final(self).wf(),
            set_states_spec(old(self)@, ids@, final(self)@, r is Ok),
            r matches Err(e) ==> e.spec_error_kind() == ErrorKind::Range,
    {
        let n = self.rng.len();
        let k = self.solved.len();
        proof {
            let c = self@.color_count;
            assert(n * k <= n * k * (c + 1)) by (nonlinear_arith)
                requires
                    n >= 1,
                    k >= 1,
            ;
        }
        assert(n * k <= usize::MAX);
        if k == 0 || ids.len() != n * k {
            return Err(not_whole_error(k, "slots", n, ids.len()));
        }
        let mut r: usize = 0;
        while r < n
            invariant
                r <= n,
                ids@.len() == n * k,
                n * k <= usize::MAX,
                k >= 1,
                self@ == old(self)@,
                batch_wf(old(self)@),
                n == old(self)@.states.len(),
                k == old(self)@.solved.len(),
                forall|t: int| 0 <= t < r ==> #[trigger] is_arrangement_spec(chunk(ids@, k as nat, t), k as nat),
            decreases n - r,
        {
            proof {
                lemma_flat_index(r as int, 0, n as int, k as int);
            }
            if !is_arrangement(ids, r * k, k) {
                proof {
                    assert(!is_arrangement_spec(chunk(ids@, k as nat, r as int), k as nat));
                    assert(!all_arrangements(ids@, n as nat, k as nat));
                    assert(self@.states.len() == n && self@.solved.len() == k);
                }
                return Err(not_arrangement_error(r, k));
            }
            r = r + 1;
        }
        let ghost v0 = self@;
        let ghost target = set_states_view(v0, ids@);
        let mut r: usize = 0;
        while r < n
            invariant
                r <= n == v0.states.len(),
                k == v0.solved.len(),
                ids@.len() == n * k,
                n * k <= usize::MAX,
                batch_wf(v0),
                all_arrangements(ids@, n as nat, k as nat),
                target == set_states_view(v0, ids@),
                self@.perms == v0.perms,
                self@.solved == v0.solved,
                self@.color_count == v0.color_count,
                self@.rng == v0.rng,
                self@.states.len() == n,
                self@.history.len() == n,
                self@.last.len() == n,
                forall|j: int|
                    #![trigger self@.states[j]]
                    #![trigger self@.history[j]]
                    #![trigger self@.last[j]]
                    0 <= j < r ==> self@.states[j] == target.states[j] && self@.history[j]
                        == target.history[j] && self@.last[j] == target.last[j],
            decreases n - r,
        {
            proof {
                lemma_flat_index(r as int, 0, n as int, k as int);
            }
            let start = r * k;
            let mut row: Vec<u32> = Vec::new();
            let mut j: usize = 0;
            while j < k
                invariant
                    j <= k,
                    r < n,
                    ids@.len() == n * k,
                    n * k <= usize::MAX,
                    start == r * k,
                    start + k <= n * k,
                    row@ == ids@.subrange(start as int, start + j),
                decreases k - j,
            {
                proof {
                    lemma_flat_index(r as int, j as int, n as int, k as int);
                }
                row.push(ids[start + j]);
                j = j + 1;
                assert(row@ =~= ids@.subrange(start as int, start + j));
            }
            let ghost s_before = self.states@;
            let ghost h_before = self.history@;
            let ghost l_before = self.last@;
            self.states.set(r, row);
            self.history.set(r, Vec::new());
            self.last.set(r, NONE);
            proof {
                assert(self@.states =~= rows_u32(s_before).update(r as int, row@));
                assert(self@.history =~= rows_u32(h_before).update(r as int, Seq::<u32>::empty()));
                assert(self@.last =~= l_before.update(r as int, NONE));
            }
            r = r + 1;
        }
        proof {
            assert(self@.states =~= target.states);
            assert(self@.history =~= target.history);
            assert(self@.last =~= target.last);
            assert forall|t: int| 0 <= t < n implies (#[trigger] self@.states[t]).len() == k by {
                assert(is_arrangement_spec(chunk(ids@, k as nat, t), k as nat));
            }
            assert forall|t: int, c: int| 0 <= t < n && 0 <= c < k implies #[trigger] self@.states[t][c]
                < k by {
                assert(is_arrangement_spec(chunk(ids@, k as nat, t), k as nat));
            }
        }
        Ok(())
    }
}


/// The slots whose solved color is `c`, among the first `upto`, in order.
pub open spec fn slots_of_color(solved: Seq<u16>, c: int, upto: nat) -> Seq<u32>
    decreases upto,
{
    if upto == 0 {
        seq![]
    } else {
        let s = slots_of_color(solved, c, (upto - 1) as nat);
        if solved[upto - 1] == c {
            s.push((upto - 1) as u32)
        } else {
            s
        }
    }
}

/// How many of the first `j` entries of `row` are `c`.
pub open spec fn count_before(row: Seq<u32>, c: int, j: nat) -> nat
    decreases j,
{
    if j == 0 {
        0
    } else {
        count_before(row, c, (j - 1) as nat) + if row[j - 1] == c {
            1nat
        } else {
            0nat
        }
    }
}

/// Whether a row of colors can be given identities: every color is one of
/// the puzzle's, and no color is used more often than the solved puzzle
/// has stickers of it.
pub open spec fn colors_fit(row: Seq<u32>, solved: Seq<u16>, count: nat) -> bool {
    forall|j: int|
        0 <= j < row.len() ==> #[trigger] row[j] < count && count_before(row, row[j] as int, j as nat)
            < slots_of_color(solved, row[j] as int, solved.len()).len()
}

/// Identities for a row of colors: the stickers of each color are given
/// that color's slots in slot order.
pub open spec fn ids_from_colors(row: Seq<u32>, solved: Seq<u16>) -> Seq<u32> {
    Seq::new(
        row.len(),
        |j: int|
            slots_of_color(solved, row[j] as int, solved.len())[count_before(
                row,
                row[j] as int,
                j as nat,
            ) as int],
    )
}

/// A batch whose rows are replaced and whose histories are forgotten.
pub open spec fn set_rows_view(v: BatchView, rows: Seq<Seq<u32>>) -> BatchView {
    BatchView {
        states: rows,
        history: Seq::new(v.states.len(), |r: int| Seq::<u32>::empty()),
        last: Seq::new(v.states.len(), |r: int| NONE),
        ..v
    }
}

/// What `set_colors` does once every row's colors fit: the rows of
/// identities are put in if they are all arrangements.
pub open spec fn set_colors_rows(v: BatchView, colors: Seq<u32>) -> Seq<Seq<u32>> {
    Seq::new(
        v.states.len(),
        |r: int| ids_from_colors(chunk(colors, v.solved.len(), r), v.solved),
    )
}

impl PuzzleBatch {
    /// Put states in from colors instead of identities: the stickers of each
    /// color are assigned that color's slots in slot order, which is a state
    /// indistinguishable from the given one to anyone reading colors.
    pub fn set_colors(&mut self, colors: &[u32]) -> (r: core::result::Result<(), Error>)
        requires
            old(self).wf(),
        ensures
            final(self).wf(),
            r matches Err(e) ==> e.spec_error_kind() == ErrorKind::Range && final(self)@ == old(
                self,
            )@,
            colors@.len() != old(self)@.states.len() * old(self)@.solved.len() ==> r is Err,
            colors@.len() == old(self)@.states.len() * old(self)@.solved.len() ==> {
                let n = old(self)@.states.len();
                let k = old(self)@.solved.len();
                let fit = forall|t: int|
                    0 <= t < n ==> #[trigger] colors_fit(
                        chunk(colors@, k, t),
                        old(self)@.solved,
                        old(self)@.color_count,
                    );
                let rows = set_colors_rows(old(self)@, colors@);
                &&& !fit ==> r is Err
                &&& fit ==> (r is Ok <==> forall|t: int|
                    0 <= t < n ==> #[trigger] is_arrangement_spec(rows[t], k))
                &&& r is Ok ==> final(self)@ == set_rows_view(old(self)@, rows)
            },
    {
        let n = self.rng.len();
        let k = self.solved.len();
        let count = self.color_count;
        proof {
            let c = self@.color_count;
            assert(n * k <= n * k * (c + 1)) by (nonlinear_arith)
                requires
                    n >= 1,
                    k >= 1,
            ;
        }
        if k == 0 || colors.len() != n * k {
            return Err(not_whole_error(k, "colors", n, colors.len()));
        }
        let ghost v0 = self@;
        // Each color's slots in the solved state, in slot order.
        let mut home: Vec<Vec<u32>> = Vec::new();
        let mut c: usize = 0;
        while c < count
            invariant
                c <= count,
                home@.len() == c,
                forall|d: int| 0 <= d < c ==> (#[trigger] home@[d])@ == Seq::<u32>::empty(),
            decreases count - c,
        {
            home.push(Vec::new());
            c = c + 1;
        }
        let mut slot: usize = 0;
        while slot < k
            invariant
                slot <= k == self@.solved.len(),
                k <= u32::MAX,
                count == self@.color_count,
                self@ == v0,
                batch_wf(v0),
                home@.len() == count,
                forall|d: int|
                    0 <= d < count ==> (#[trigger] home@[d])@ == slots_of_color(
                        self@.solved,
                        d,
                        slot as nat,
                    ),
            decreases k - slot,
        {
            let col = self.solved[slot] as usize;
            let ghost before = home@;
            let mut list = home[col].clone();
            list.push(slot as u32);
            home.set(col, list);
            proof {
                assert forall|d: int| 0 <= d < count implies (#[trigger] home@[d])@ == slots_of_color(
                    self@.solved,
                    d,
                    (slot + 1) as nat,
                ) by {
                    if d != col {
                        assert(home@[d] == before[d]);
                    }
                }
            }
            slot = slot + 1;
        }
        let mut rows: Vec<Vec<u32>> = Vec::new();
        let mut r: usize = 0;
        while r < n
            invariant
                r <= n == v0.states.len(),
                k == v0.solved.len(),
                count == v0.color_count,
                colors@.len() == n * k,
                n * k <= usize::MAX,
                self@ == v0,
                batch_wf(v0),
                home@.len() == count,
                forall|d: int|
                    0 <= d < count ==> (#[trigger] home@[d])@ == slots_of_color(v0.solved, d, k as nat),
                rows@.len() == r,
                forall|t: int| 0 <= t < r ==> #[trigger] colors_fit(chunk(colors@, k as nat, t), v0.solved, count as nat),
                forall|t: int|
                    0 <= t < r ==> (#[trigger] rows@[t])@ == ids_from_colors(
                        chunk(colors@, k as nat, t),
                        v0.solved,
                    ),
            decreases n - r,
        {
            proof {
                lemma_flat_index(r as int, 0, n as int, k as int);
            }
            let start = r * k;
            let ghost src = chunk(colors@, k as nat, r as int);
            let mut at: Vec<usize> = Vec::new();
            let mut c: usize = 0;
            while c < count
                invariant
                    c <= count,
                    at@.len() == c,
                    forall|d: int| 0 <= d < c ==> #[trigger] at@[d] == 0,
                decreases count - c,
            {
                at.push(0);
                c = c + 1;
            }
            let mut dst: Vec<u32> = Vec::new();
            let mut j: usize = 0;
            while j < k
                invariant
                    j <= k == v0.solved.len(),
                    r < n,
                    colors@.len() == n * k,
                    n * k <= usize::MAX,
                    start == r * k,
                    start + k <= n * k,
                    src == chunk(colors@, k as nat, r as int),
                    src.len() == k,
                    count == v0.color_count,
                    self@ == v0,
                    batch_wf(v0),
                    n == v0.states.len(),
                    home@.len() == count,
                    forall|d: int|
                        0 <= d < count ==> (#[trigger] home@[d])@ == slots_of_color(v0.solved, d, k as nat),
                    at@.len() == count,
                    forall|d: int| 0 <= d < count ==> #[trigger] at@[d] == count_before(src, d, j as nat),
                    forall|t: int|
                        0 <= t < j ==> #[trigger] src[t] < count && count_before(src, src[t] as int, t as nat)
                            < slots_of_color(v0.solved, src[t] as int, k as nat).len(),
                    dst@.len() == j,
                    forall|t: int|
                        0 <= t < j ==> #[trigger] dst@[t] == ids_from_colors(src, v0.solved)[t],
                decreases k - j,
            {
                proof {
                    lemma_flat_index(r as int, j as int, n as int, k as int);
                }
                let col = colors[start + j] as usize;
                assert(col == src[j as int]);
                if col >= count {
                    proof {
                        assert(!colors_fit(src, v0.solved, count as nat));
                        assert(!colors_fit(chunk(colors@, k as nat, r as int), v0.solved, count as nat));
                    }
                    return Err(wrong_colors_error(r));
                }
                let rank = at[col];
                if rank >= home[col].len() {
                    proof {
                        assert(!colors_fit(src, v0.solved, count as nat));
                        assert(!colors_fit(chunk(colors@, k as nat, r as int), v0.solved, count as nat));
                    }
                    return Err(wrong_colors_error(r));
                }
                let s = home[col][rank];
                at.set(col, rank + 1);
                dst.push(s);
                proof {
                    assert forall|d: int| 0 <= d < count implies #[trigger] at@[d] == count_before(
                        src,
                        d,
                        (j + 1) as nat,
                    ) by {}
                }
                j = j + 1;
            }
            proof {
                assert(dst@ =~= ids_from_colors(src, v0.solved));
            }
            rows.push(dst);
            r = r + 1;
        }
        proof {
            assert(rows_u32(rows@) =~= set_colors_rows(v0, colors@));
            assert forall|t: int| 0 <= t < n implies #[trigger] is_arrangement_spec(
                set_colors_rows(v0, colors@)[t],
                k as nat,
            ) == is_arrangement_spec(rows@[t]@, k as nat) by {
                assert(rows_u32(rows@)[t] == rows@[t]@);
            }
            assert(forall|t: int|
                0 <= t < n ==> #[trigger] colors_fit(
                    chunk(colors@, k as nat, t),
                    v0.solved,
                    v0.color_count,
                ));
        }
        let ghost rows_view = rows_u32(rows@);
        let ghost rows_seq = rows@;
        let res = self.put_rows(rows);
        proof {
            assert(rows_view == set_colors_rows(v0, colors@));
            assert(res is Ok ==> self@ == set_rows_view(v0, rows_view));
            if res is Ok {
                assert forall|t: int| 0 <= t < n implies #[trigger] is_arrangement_spec(
                    rows_view[t],
                    k as nat,
                ) by {
                    assert(rows_view[t] == rows_seq[t]@);
                    assert(is_arrangement_spec(rows_seq[t]@, k as nat));
                }
            } else {
                let t = choose|t: int|
                    0 <= t < n && !#[trigger] is_arrangement_spec(rows_seq[t]@, k as nat);
                assert(rows_view[t] == rows_seq[t]@);
                assert(!is_arrangement_spec(rows_view[t], k as nat));
            }
        }
        res
    }

    /// Replace every row, if each is an arrangement, and forget the
    /// histories.
    fn put_rows(&mut self, rows: Vec<Vec<u32>>) -> (r: core::result::Result<(), Error>)
        requires
            old(self).wf(),
            rows@.len() == old(self)@.states.len(),
        ensures
            final(self).wf(),
            r matches Err(e) ==> e.spec_error_kind() == ErrorKind::Range && final(self)@ == old(
                self,
            )@,
            r is Ok <==> forall|t: int|
                0 <= t < rows@.len() ==> #[trigger] is_arrangement_spec(rows@[t]@, old(self)@.solved.len()),
            r is Ok ==> final(self)@ == set_rows_view(old(self)@, rows_u32(rows@)),
    {
        let n = self.rng.len();
        let k = self.solved.len();
        let mut r: usize = 0;
        while r < n
            invariant
                r <= n == rows@.len(),
                k == old(self)@.solved.len(),
                self@ == old(self)@,
                batch_wf(old(self)@),
                forall|t: int| 0 <= t < r ==> #[trigger] is_arrangement_spec(rows@[t]@, k as nat),
            decreases n - r,
        {
            if rows[r].len() != k || !is_arrangement(rows[r].as_slice(), 0, k) {
                proof {
                    if rows@[r as int]@.len() == k {
                        assert(rows@[r as int]@.subrange(0, k as int) =~= rows@[r as int]@);
                    }
                    assert(!is_arrangement_spec(rows@[r as int]@, k as nat));
                }
                return Err(not_arrangement_error(r, k));
            }
            proof {
                assert(rows@[r as int]@.subrange(0, k as int) =~= rows@[r as int]@);
            }
            r = r + 1;
        }
        let ghost v0 = self@;
        let ghost target = set_rows_view(v0, rows_u32(rows@));
        self.states = rows;
        let mut r: usize = 0;
        while r < n
            invariant
                r <= n == v0.states.len(),
                batch_wf(v0),
                target.states == self@.states,
                forall|t: int| 0 <= t < n ==> #[trigger] is_arrangement_spec(self@.states[t], v0.solved.len()),
                self@.perms == v0.perms,
                self@.solved == v0.solved,
                self@.color_count == v0.color_count,
                self@.rng == v0.rng,
                self@.states.len() == n,
                self@.history.len() == n,
                self@.last.len() == n,
                forall|j: int|
                    #![trigger self@.history[j]]
                    #![trigger self@.last[j]]
                    0 <= j < r ==> self@.history[j] == target.history[j] && self@.last[j]
                        == target.last[j],
                target == set_rows_view(v0, self@.states),
            decreases n - r,
        {
            let ghost h_before = self.history@;
            let ghost l_before = self.last@;
            self.history.set(r, Vec::new());
            self.last.set(r, NONE);
            proof {
                assert(self@.history =~= rows_u32(h_before).update(r as int, Seq::<u32>::empty()));
                assert(self@.last =~= l_before.update(r as int, NONE));
            }
            r = r + 1;
        }
        proof {
            assert(self@.history =~= target.history);
            assert(self@.last =~= target.last);
            assert forall|t: int| 0 <= t < n implies (#[trigger] self@.states[t]).len() == v0.solved.len() by {
                assert(is_arrangement_spec(self@.states[t], v0.solved.len()));
            }
            assert forall|t: int, c: int| 0 <= t < n && 0 <= c < v0.solved.len() implies #[trigger] self@.states[t][c]
                < v0.solved.len() by {
                assert(is_arrangement_spec(self@.states[t], v0.solved.len()));
            }
        }
        Ok(())
    }
}

/// Blocks of one length, flattened: block `i` starts at `i * w`.
pub proof fn lemma_uniform_flatten(blocks: Seq<Seq<u32>>, w: nat)
    requires
        forall|i: int| 0 <= i < blocks.len() ==> (#[trigger] blocks[i]).len() == w,
    ensures
        blocks.flatten_alt().len() == blocks.len() * w,
        forall|i: int, j: int|
            0 <= i < blocks.len() && 0 <= j < w ==> blocks.flatten_alt()[i * w + j] == #[trigger] blocks[i][j],
    decreases blocks.len(),
{
    if blocks.len() > 0 {
        let n = blocks.len() as int;
        let dl = blocks.drop_last();
        assert forall|i: int| 0 <= i < dl.len() implies (#[trigger] dl[i]).len() == w by {
            assert(dl[i] == blocks[i]);
        }
        lemma_uniform_flatten(dl, w);
        assert(blocks.last() == blocks[n - 1]);
        assert((n - 1) * w + w == n * w) by (nonlinear_arith);
        assert forall|i: int, j: int| 0 <= i < blocks.len() && 0 <= j < w implies blocks.flatten_alt()[i * w
            + j] == #[trigger] blocks[i][j] by {
            if i < n - 1 {
                assert(i * w + j < (n - 1) * w) by (nonlinear_arith)
                    requires
                        i < n - 1,
                        0 <= j < w,
                ;
                assert(dl[i] == blocks[i]);
            } else {
                assert(i * w == (n - 1) * w);
            }
        }
    }
}

/// Entry `i` of row `r` of a flat array of rows of `k`.
pub open spec fn cell(s: Seq<u32>, k: nat, r: int, i: int) -> u32 {
    s[r * k + i]
}

/// A step read on the flat arrays: sticker `i` of row `r` comes from the
/// slot that action `actions[r]`'s permutation names, and each row's
/// history grows by its action.
pub proof fn lemma_step_flat(v0: BatchView, actions: Seq<u32>, v1: BatchView)
    requires
        batch_wf(v0),
        step_spec(v0, actions, v1),
        actions.len() == v0.states.len(),
        forall|r: int| 0 <= r < actions.len() ==> #[trigger] actions[r] < v0.perms.len(),
    ensures
        ({
            let k = v0.solved.len();
            let s0 = v0.states.flatten_alt();
            let s1 = v1.states.flatten_alt();
            let p = v0.perms.flatten_alt();
            &&& s1.len() == s0.len()
            &&& forall|r: int, i: int|
                0 <= r < actions.len() && 0 <= i < k ==> #[trigger] cell(s1, k, r, i) == cell(
                    s0,
                    k,
                    r,
                    cell(p, k, actions[r] as int, i) as int,
                )
            &&& forall|r: int| 0 <= r < actions.len() ==> #[trigger] v1.history[r] == v0.history[r].push(actions[r])
        }),
{
    let k = v0.solved.len();
    let n = v0.states.len();
    assert forall|r: int| 0 <= r < n implies (#[trigger] v1.states[r]).len() == k by {
        assert(is_arrangement_spec(v0.perms[actions[r] as int], k));
    }
    assert forall|a: int| 0 <= a < v0.perms.len() implies (#[trigger] v0.perms[a]).len() == k by {
        assert(is_arrangement_spec(v0.perms[a], k));
    }
    lemma_uniform_flatten(v0.states, k);
    lemma_uniform_flatten(v1.states, k);
    lemma_uniform_flatten(v0.perms, k);
    let s0 = v0.states.flatten_alt();
    let s1 = v1.states.flatten_alt();
    let p = v0.perms.flatten_alt();
    assert forall|r: int, i: int| 0 <= r < actions.len() && 0 <= i < k implies #[trigger] cell(s1, k, r, i)
        == cell(s0, k, r, cell(p, k, actions[r] as int, i) as int) by {
        let a = actions[r] as int;
        let perm = v0.perms[a];
        assert(is_arrangement_spec(perm, k));
        assert(p[a * k + i] == perm[i]);
        assert(s1[r * k + i] == v1.states[r][i]);
        assert(v1.states[r][i] == v0.states[r][perm[i] as int]);
        assert(perm[i] < k);
        assert(s0[r * k + perm[i] as int] == v0.states[r][perm[i] as int]);
    }
}

/// Setting states read on the flat arrays: when every row is an
/// arrangement, the sticker ids afterwards are the values given and every
/// history is empty; otherwise nothing changes.
pub proof fn lemma_set_states_flat(v0: BatchView, ids: Seq<u32>, v1: BatchView, ok: bool)
    requires
        batch_wf(v0),
        set_states_spec(v0, ids, v1, ok),
    ensures
        ok ==> v1.states.flatten_alt() == ids && forall|r: int|
            0 <= r < v1.history.len() ==> (#[trigger] v1.history[r]).len() == 0,
        !ok ==> v1 == v0,
{
    if ok {
        let k = v0.solved.len();
        let n = v0.states.len();
        assert forall|r: int| 0 <= r < n implies (#[trigger] v1.states[r]).len() == k by {
            assert(0 <= r * k) by (nonlinear_arith)
                requires
                    0 <= r,
            ;
            assert(r * k + k <= n * k) by (nonlinear_arith)
                requires
                    0 <= r < n,
            ;
        }
        lemma_uniform_flatten(v1.states, k);
        let f = v1.states.flatten_alt();
        assert forall|x: int| 0 <= x < ids.len() implies f[x] == ids[x] by {
            let r = x / (k as int);
            let i = x % (k as int);
            vstd::arithmetic::div_mod::lemma_fundamental_div_mod(x, k as int);
            vstd::arithmetic::div_mod::lemma_mod_bound(x, k as int);
            vstd::arithmetic::div_mod::lemma_div_pos_is_pos(x, k as int);
            assert(r < n) by {
                if r >= n {
                    assert(r * k >= n * k) by (nonlinear_arith)
                        requires
                            r >= n,
                            k > 0,
                    ;
                    assert(x == k * r + i);
                    assert(k * r == r * k) by (nonlinear_arith);
                }
            }
            assert(x == r * k + i) by (nonlinear_arith)
                requires
                    x == k * r + i,
            ;
            assert(f[r * k + i] == v1.states[r][i]);
            assert(0 <= r * k) by (nonlinear_arith)
                requires
                    0 <= r,
            ;
            assert(ids.len() == n * k);
            assert(r * k + k <= n * k) by (nonlinear_arith)
                requires
                    0 <= r < n,
            ;
            assert(v1.states[r] == chunk(ids, k, r));
            assert(chunk(ids, k, r)[i] == ids[r * k + i]);
        }
        assert(f =~= ids);
    }
}

} // verus!
