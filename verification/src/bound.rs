//! The shared best-tour bound: one cell holding the best known cycle
//! weight together with the path that achieves it.

use vstd::prelude::*;
use crate::path::{complete_path, tour_weight};

verus! {

/// Holds the best complete tour found so far.  The stored distance starts
/// at `u64::MAX` (no tour yet) and only ever decreases; when a path is
/// present, the distance is exactly the weight of the cycle it induces.
///
/// Deliberately, the stored distance is the weight of the *closed* tour —
/// the recorded path's weight plus its closing edge — not the path weight
/// alone.  Ranking candidates by their pre-closing weight would let a
/// cheap path with an expensive closing edge shadow a cheaper cycle, and
/// the final answer would not be the minimum-weight cycle; with the
/// closed-tour weight, pruning on partial path weights stays sound and
/// the tightest recorded bound is exactly the best cycle seen.
pub struct BoundTracker {
    best_distance: u64,
    best_path: Option<Vec<usize>>,
}

impl BoundTracker {
    /// The best cycle weight recorded so far, `u64::MAX` if none.
    pub closed spec fn distance(&self) -> u64 {
        self.best_distance
    }

    /// The recorded best path, if any tour has been found.
    pub closed spec fn path(&self) -> Option<Vec<usize>> {
        self.best_path
    }

    /// The recorded pair is consistent: a recorded path is a complete path
    /// over `n` nodes whose cycle weight equals the recorded distance.
    pub open spec fn wf(&self, m: Seq<Seq<u32>>, n: int) -> bool {
        match self.path() {
            None => self.distance() == u64::MAX,
            Some(p) => complete_path(n, p@) && tour_weight(m, p@) == self.distance()
                && self.distance() < u64::MAX,
        }
    }

    /// A fresh tracker: no tour recorded, distance at its maximum.
    pub fn new() -> (r: Self)
        ensures
            r.distance() == u64::MAX,
            r.path() is None,
    {
        BoundTracker { best_distance: u64::MAX, best_path: None }
    }

    /// The current pruning bound.
    pub fn current_bound(&self) -> (r: u64)
        ensures
            r == self.distance(),
    {
        self.best_distance
    }

    /// Records `(distance, path)` if it strictly beats the stored best;
    /// otherwise leaves the tracker unchanged.  Both fields are replaced
    /// together, and the stored distance never increases.
    pub fn try_update(&mut self, distance: u64, path: Vec<usize>) -> (r: bool)
        ensures
            r == (distance < old(self).distance()),
            final(self).distance() <= old(self).distance(),
            r ==> final(self).distance() == distance && final(self).path() == Some(path),
            !r ==> *final(self) == *old(self),
    {
        if distance < self.best_distance {
            self.best_distance = distance;
            self.best_path = Some(path);
            true
        } else {
            false
        }
    }

    /// Yields the recorded pair, consuming the tracker.
    pub fn into_best(self) -> (r: (u64, Option<Vec<usize>>))
        ensures
            r.0 == self.distance(),
            r.1 == self.path(),
    {
        (self.best_distance, self.best_path)
    }
}

} // verus!
