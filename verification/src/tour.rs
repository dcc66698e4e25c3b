//! Points and the best-tour tracker.
//!
//! A [`Point`] carries its two coordinates as 32-bit IEEE 754 encodings.
//! The tracker consumes one closed-tour total per permutation — already
//! reduced to its bit encoding by the caller, who owns the floating-point
//! arithmetic — and retains the first strictly smallest total seen together
//! with an independent copy of its route.

use vstd::prelude::*;
use crate::float_bits::{float_lt, float_le, is_nan_bits, lt, POS_INF_BITS};
use crate::perm::copy_out;

verus! {

/// A 2-D point; each coordinate is the bit encoding of a single-precision value.
#[derive(Clone, Copy, PartialEq, Eq, Structural, Debug)]
pub struct Point {
    pub x: u32,
    pub y: u32,
}

impl Point {
    /// Builds a point from its two coordinate encodings.
    pub fn new(x: u32, y: u32) -> (p: Point)
        ensures
            p.x == x,
            p.y == y,
    {
        Point { x, y }
    }
}

/// Tracker state as a pair: the best total's bit encoding, and the best route.
pub open spec fn initial_tracker() -> (u32, Seq<Point>) {
    (POS_INF_BITS, Seq::<Point>::empty())
}

/// One tracker step: a strictly smaller total (NaN never qualifies) replaces
/// the state; anything else — larger, equal, or NaN — leaves it unchanged,
/// so on a tie the first-found route is retained.
pub open spec fn on_permutation_spec(
    s: (u32, Seq<Point>),
    route: Seq<Point>,
    total: u32,
) -> (u32, Seq<Point>) {
    if float_lt(total, s.0) {
        (total, route)
    } else {
        s
    }
}

/// The tracker state after feeding a whole history of (route, total)
/// observations, oldest first, to an initial state.
pub open spec fn run_tracker(
    init: (u32, Seq<Point>),
    obs: Seq<(Seq<Point>, u32)>,
) -> (u32, Seq<Point>)
    decreases obs.len(),
{
    if obs.len() == 0 {
        init
    } else {
        on_permutation_spec(run_tracker(init, obs.drop_last()), obs.last().0, obs.last().1)
    }
}

/// What the tracker guarantees of a full enumeration: the retained total is
/// never beaten by any observed total, and either nothing ever improved on
/// the initial state (infinite distance, empty route: so when every total is
/// NaN), or the retained pair was observed, and every earlier observation was
/// strictly worse or NaN — the first-found minimum is the one retained.
pub open spec fn tracker_outcome(obs: Seq<(Seq<Point>, u32)>, r: (u32, Seq<Point>)) -> bool {
    &&& !is_nan_bits(r.0)
    &&& forall|i: int| 0 <= i < obs.len() ==> !float_lt(#[trigger] obs[i].1, r.0)
    &&& (r == initial_tracker() || exists|i: int|
        0 <= i < obs.len() && #[trigger] obs[i] == (r.1, r.0) && (forall|j: int|
            0 <= j < i ==> !float_le(#[trigger] obs[j].1, r.0)))
}

/// Best-tour state over one full enumeration: the smallest closed-tour total
/// seen so far (as its bit encoding, initially positive infinity) and an
/// independent copy of the route that achieved it (initially empty).
pub struct BestTourTracker {
    smallest_distance: u32,
    smallest_route: Vec<Point>,
}

impl View for BestTourTracker {
    type V = (u32, Seq<Point>);

    closed spec fn view(&self) -> (u32, Seq<Point>) {
        (self.smallest_distance, self.smallest_route@)
    }
}

impl BestTourTracker {
    /// A fresh tracker: infinite best distance, empty best route.
    pub fn new() -> (t: BestTourTracker)
        ensures
            t@ == initial_tracker(),
    {
        BestTourTracker { smallest_distance: POS_INF_BITS, smallest_route: Vec::new() }
    }

    /// Feeds one permutation and its closed-tour total (as a bit encoding):
    /// a strict improvement is copied out and retained, anything else —
    /// including an exact tie or a NaN total — leaves the state unchanged.
    pub fn on_permutation(&mut self, route: &Vec<Point>, total_bits: u32)
        ensures
            final(self)@ == on_permutation_spec(old(self)@, route@, total_bits),
    {
        if lt(total_bits, self.smallest_distance) {
            self.smallest_distance = total_bits;
            self.smallest_route = copy_out(route);
        }
    }

    /// The bit encoding of the smallest total seen so far.
    pub fn smallest_distance_bits(&self) -> (r: u32)
        ensures
            r == self@.0,
    {
        self.smallest_distance
    }

    /// The route of the smallest total seen so far.
    pub fn smallest_route(&self) -> (r: &Vec<Point>)
        ensures
            r@ == self@.1,
    {
        &self.smallest_route
    }
}

/// The retained total is never NaN and never beaten, and ties keep the
/// first-found route: folding any observation history from the initial state
/// satisfies [`tracker_outcome`].
pub proof fn lemma_tracker_outcome(obs: Seq<(Seq<Point>, u32)>)
    ensures
        tracker_outcome(obs, run_tracker(initial_tracker(), obs)),
    decreases obs.len(),
{
    if obs.len() == 0 {
    } else {
        let prefix = obs.drop_last();
        lemma_tracker_outcome(prefix);
        let p = run_tracker(initial_tracker(), prefix);
        let r = run_tracker(initial_tracker(), obs);
        let last = obs.last();
        assert(forall|i: int| 0 <= i < prefix.len() ==> obs[i] == #[trigger] prefix[i]);
        if float_lt(last.1, p.0) {
            assert(r == (last.1, last.0));
            assert forall|j: int| 0 <= j < obs.len() - 1 implies !float_le(
                #[trigger] obs[j].1,
                r.0,
            ) by {
                assert(!float_lt(prefix[j].1, p.0));
            }
            assert(obs[obs.len() - 1] == (r.1, r.0));
        } else {
            assert(r == p);
            assert forall|i: int| 0 <= i < obs.len() implies !float_lt(#[trigger] obs[i].1, r.0) by {
                if i < obs.len() - 1 {
                    assert(!float_lt(prefix[i].1, p.0));
                }
            }
            if p != initial_tracker() {
                let w = choose|i: int|
                    0 <= i < prefix.len() && #[trigger] prefix[i] == (p.1, p.0) && (forall|j: int|
                        0 <= j < i ==> !float_le(#[trigger] prefix[j].1, p.0));
                assert(obs[w] == (r.1, r.0));
                assert forall|j: int| 0 <= j < w implies !float_le(#[trigger] obs[j].1, r.0) by {
                    assert(!float_le(prefix[j].1, p.0));
                }
            }
        }
    }
}

} // verus!
