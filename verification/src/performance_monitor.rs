//! What the last collision pass did, for display.

use vstd::prelude::*;

verus! {

/// The figures of the last collision pass.
#[derive(Clone, Copy, PartialEq, Eq, Structural, Debug)]
pub struct CollisionDetectionMonitor {
    /// How long the pass took, in microseconds. The caller measures it.
    pub duration_micros: u64,
    /// How many pairs of particles the pass looked at.
    pub checked_pairs: usize,
    /// How many of them touched.
    pub colliding_pairs: usize,
}

impl CollisionDetectionMonitor {
    /// A monitor that has seen nothing yet.
    pub fn new() -> (monitor: CollisionDetectionMonitor)
        ensures
            monitor == (CollisionDetectionMonitor {
                duration_micros: 0,
                checked_pairs: 0,
                colliding_pairs: 0,
            }),
    {
        CollisionDetectionMonitor { duration_micros: 0, checked_pairs: 0, colliding_pairs: 0 }
    }
}

} // verus!
