//! Which stop a turn of a grip lands on.
//!
//! A grip can stop at several rotations, listed in angle order, the first
//! and last possibly the zero rotation where it already sits. A turn either
//! names a stop, or points a way and lands on the nearest stop that is not
//! where the grip already sits; a grip that cannot turn at all spins a full
//! revolution and comes back.

use vstd::prelude::*;

use crate::error::{Error, ErrorKind};

verus! {

/// Which way to turn a grip: the direction an arrow points, or the exact
/// stop to land on.
#[derive(Clone, Copy, Debug, PartialEq, Eq)]
pub enum Turn {
    /// `+1` or `-1`: the nearest stop that is not where the grip already sits.
    Direction(i32),
    /// An index into the grip's stops.
    Stop(usize),
}

/// From stop `zi` down, past zero rotations, stopping at the first stop.
pub open spec fn scan_down(zero: Seq<bool>, zi: int) -> int
    decreases zi,
{
    if zi > 0 && zero[zi] {
        scan_down(zero, zi - 1)
    } else {
        zi
    }
}

/// From stop `zi` up, past zero rotations, stopping at the last stop.
pub open spec fn scan_up(zero: Seq<bool>, zi: int) -> int
    decreases zero.len() - zi,
{
    if zi < zero.len() - 1 && zero[zi] {
        scan_up(zero, zi + 1)
    } else {
        zi
    }
}

/// The stop a turn lands on, given which stops are the zero rotation:
/// `Some(stop)`, or `None` for a grip with no stops, which spins a full turn
/// instead; a named stop out of range is refused.
pub open spec fn pick_stop_spec(turn: Turn, zero: Seq<bool>) -> Option<Option<int>> {
    match turn {
        Turn::Stop(k) => if k < zero.len() {
            Some(Some(k as int))
        } else {
            None
        },
        Turn::Direction(d) => if zero.len() == 0 {
            Some(None)
        } else if d < 0 {
            Some(Some(scan_down(zero, zero.len() - 1)))
        } else {
            Some(Some(scan_up(zero, 0)))
        },
    }
}

/// Scanning stays among the stops.
proof fn lemma_scans(zero: Seq<bool>, zi: int)
    requires
        0 <= zi < zero.len(),
    ensures
        0 <= scan_down(zero, zi) <= zi,
        zi <= scan_up(zero, zi) < zero.len(),
    decreases zero.len() - zi,
{
    lemma_scan_down(zero, zi);
    if zi < zero.len() - 1 && zero[zi] {
        lemma_scans(zero, zi + 1);
    }
}

proof fn lemma_scan_down(zero: Seq<bool>, zi: int)
    requires
        0 <= zi < zero.len(),
    ensures
        0 <= scan_down(zero, zi) <= zi,
    decreases zi,
{
    if zi > 0 && zero[zi] {
        lemma_scan_down(zero, zi - 1);
    }
}

/// Pick the stop a turn lands on; `zero[i]` says whether stop `i` is the
/// rotation the grip already sits at. `Ok(None)` means the grip has no
/// stops and spins a full turn.
pub fn pick_stop(turn: Turn, zero: &[bool]) -> (r: core::result::Result<Option<usize>, Error>)
    ensures
        r is Ok <==> pick_stop_spec(turn, zero@) is Some,
        r matches Ok(s) ==> pick_stop_spec(turn, zero@) == Some(
            match s {
                Some(i) => Some(i as int),
                None => None::<int>,
            },
        ),
        r matches Err(e) ==> e.spec_error_kind() == ErrorKind::Range,
{
    match turn {
        Turn::Stop(k) => {
            if k < zero.len() {
                Ok(Some(k))
            } else {
                Err(Error::Range("stop index out of range".to_owned()))
            }
        },
        Turn::Direction(d) => {
            if zero.len() == 0 {
                return Ok(None);
            }
            if d < 0 {
                let mut zi = zero.len() - 1;
                proof {
                    lemma_scans(zero@, zi as int);
                }
                while zero[zi] && zi > 0
                    invariant
                        0 <= zi < zero@.len(),
                        scan_down(zero@, zi as int) == scan_down(zero@, zero@.len() - 1),
                    decreases zi,
                {
                    zi = zi - 1;
                }
                Ok(Some(zi))
            } else {
                let mut zi: usize = 0;
                while zero[zi] && zi < zero.len() - 1
                    invariant
                        0 <= zi < zero@.len(),
                        scan_up(zero@, zi as int) == scan_up(zero@, 0),
                    decreases zero@.len() - zi,
                {
                    zi = zi + 1;
                }
                Ok(Some(zi))
            }
        },
    }
}

} // verus!
