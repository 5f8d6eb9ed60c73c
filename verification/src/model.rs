//! What simplification computes, stated over sequences.
//!
//! A polyline is a `Seq` of points. A chord is a pair of indices
//! `(start, end)` with `start < end`; its interior is the indices strictly
//! between them. Resolving a chord either drops its whole interior, when no
//! interior point lies farther from it than the tolerance, or keeps the
//! farthest interior point and resolves the two chords on either side of it.

use vstd::prelude::*;
use crate::distance::ChordDistance;

verus! {

/// The distance of point `i` from the chord `(start, end)`.
pub open spec fn deviation<T: ChordDistance>(points: Seq<T>, i: int, start: int, end: int) -> u64 {
    points[i].distance_spec(&points[start], &points[end])
}

/// `c` is the point at which the chord `(start, end)` would be split: the
/// first interior index at which the deviation from the chord is largest,
/// provided that this largest deviation is not zero.
pub open spec fn is_split<T: ChordDistance>(points: Seq<T>, start: int, end: int, c: int) -> bool {
    &&& start < c < end
    &&& deviation(points, c, start, end) > 0
    &&& forall|j: int|
        start < j < end ==> #[trigger] deviation(points, j, start, end) <= deviation(
            points,
            c,
            start,
            end,
        )
    &&& forall|j: int|
        start < j < c ==> #[trigger] deviation(points, j, start, end) < deviation(
            points,
            c,
            start,
            end,
        )
}

/// The split point of the chord `(start, end)`, or `start` where it has none
/// (every interior point lies on the chord, or there is no interior point).
pub open spec fn split_index<T: ChordDistance>(points: Seq<T>, start: int, end: int) -> int {
    if exists|c: int| is_split(points, start, end, c) {
        choose|c: int| is_split(points, start, end, c)
    } else {
        start
    }
}

/// Whether resolving the chord `(start, end)` keeps the interior point `i`.
pub open spec fn retains<T: ChordDistance>(
    points: Seq<T>,
    epsilon: u64,
    start: int,
    end: int,
    i: int,
) -> bool
    decreases end - start,
{
    let c = split_index(points, start, end);
    if start < c < end && deviation(points, c, start, end) > epsilon {
        ||| i == c
        ||| (i < c && retains(points, epsilon, start, c, i))
        ||| (c < i && retains(points, epsilon, c, end, i))
    } else {
        false
    }
}

/// Whether simplification drops point `i` of the polyline: it is an interior
/// point, and resolving the chord from the first point to the last does not
/// keep it.
pub open spec fn dropped<T: ChordDistance>(points: Seq<T>, epsilon: u64, i: int) -> bool {
    0 < i < points.len() - 1 && !retains(points, epsilon, 0, points.len() - 1, i)
}

/// The retention mask of a polyline: one entry per point, `true` where the
/// point is dropped.
pub open spec fn rdp_mask<T: ChordDistance>(points: Seq<T>, epsilon: u64) -> Seq<bool> {
    Seq::new(points.len(), |i: int| dropped(points, epsilon, i))
}

/// The points whose mask entry is `false`, in the order of the polyline.
pub open spec fn retained<T>(points: Seq<T>, mask: Seq<bool>) -> Seq<T>
    decreases points.len(),
{
    if points.len() == 0 {
        Seq::empty()
    } else if mask[points.len() - 1] {
        retained(points.drop_last(), mask)
    } else {
        retained(points.drop_last(), mask).push(points.last())
    }
}

/// The simplified polyline.
pub open spec fn simplified<T: ChordDistance>(points: Seq<T>, epsilon: u64) -> Seq<T> {
    retained(points, rdp_mask(points, epsilon))
}

} // verus!
