//! The one thing simplification asks of a point: its distance from a line.

use vstd::prelude::*;

verus! {

/// A point that can say how far it lies from the line through two other
/// points of its kind.
///
/// The distance is reported on an integer scale that the implementer chooses.
/// The simplifier never does arithmetic on it; it only compares distances
/// with one another and with the tolerance, which is given on the same scale.
/// Any encoding that keeps the order of the true distances therefore serves:
/// a fixed-point length, a squared length, or the bit pattern of a
/// non-negative IEEE-754 number.
///
/// `distance_spec` names the value that `distance_to_chord` returns. Verus
/// holds every implementation that it verifies to this; for an implementation
/// written outside Verus it is taken on trust that the method is a function
/// of its three arguments alone.
pub trait ChordDistance {
    /// The distance of `self` from the line through `start` and `end`; where
    /// `start` and `end` coincide, the distance of `self` from that point.
    spec fn distance_spec(&self, start: &Self, end: &Self) -> u64;

    /// Computes `distance_spec`.
    fn distance_to_chord(&self, start: &Self, end: &Self) -> (d: u64)
        ensures
            d == self.distance_spec(start, end),
    ;
}

} // verus!
