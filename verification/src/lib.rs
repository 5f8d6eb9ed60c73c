//! Polyline simplification by the Ramer-Douglas-Peucker algorithm.
//!
//! A polyline is an ordered sequence of points. Simplifying it removes the
//! points that add little to its shape: the first and the last point stay,
//! and between two points that stay every point goes that lies within the
//! tolerance `epsilon` of the line through them.
//!
//! The library does not fix what a point is. It asks of a point type only
//! the distance that [`ChordDistance`] describes, and hands points back as it
//! received them.
//!
//! [`model`] states what is computed, [`laws`] what follows from it, and the
//! two functions of this file compute it.

pub mod distance;
pub mod laws;
pub mod model;
mod pending;

pub use crate::distance::ChordDistance;

use vstd::prelude::*;
use crate::laws::{lemma_endpoints_kept, lemma_split_absent, lemma_split_found};
use crate::model::{deviation, is_split, rdp_mask, retained, simplified, split_index};
use crate::pending::{
    lemma_done, lemma_outset, lemma_resolve_step, lemma_split_step, marked, settled_outside,
    well_ordered, work,
};

verus! {

/// Scans the interior of the chord `(start, last)` for its split point.
///
/// Returns the split point and its deviation from the chord, or `start` and
/// zero where no interior point has a deviation above zero.
fn farthest_point<T: ChordDistance>(
    points: &Vec<T>,
    mask: &Vec<bool>,
    start: usize,
    last: usize,
) -> (found: (usize, u64))
    requires
        start < last < points.len(),
        mask.len() == points.len(),
        forall|j: int| start < j < last ==> !mask[j],
    ensures
        found.0 == split_index(points@, start as int, last as int),
        start <= found.0 < last,
        found.0 == start ==> found.1 == 0,
        found.0 > start ==> found.1 == deviation(
            points@,
            found.0 as int,
            start as int,
            last as int,
        ),
{
    let mut max_distance: u64 = 0;
    let mut index: usize = start;
    let mut i: usize = start + 1;
    while i < last
        invariant
            start < last < points.len(),
            mask.len() == points.len(),
            forall|j: int| start < j < last ==> !mask[j],
            start < i <= last,
            start <= index < i,
            index == start ==> max_distance == 0,
            index > start ==> max_distance > 0 && max_distance == deviation(
                points@,
                index as int,
                start as int,
                last as int,
            ),
            forall|j: int|
                start < j < i ==> #[trigger] deviation(points@, j, start as int, last as int)
                    <= max_distance,
            forall|j: int|
                start < j < index ==> #[trigger] deviation(points@, j, start as int, last as int)
                    < max_distance,
        decreases last - i,
    {
        // A marked point would be passed over. Pending chords share no
        // interior point, so none is marked here.
        if !mask[i] {
            let distance: u64 = points[i].distance_to_chord(&points[start], &points[last]);
            if distance > max_distance {
                index = i;
                max_distance = distance;
            }
        }
        i += 1;
    }
    proof {
        if index > start {
            assert(is_split(points@, start as int, last as int, index as int));
            lemma_split_found(points@, start as int, last as int, index as int);
        } else {
            lemma_split_absent(points@, start as int, last as int);
        }
    }
    (index, max_distance)
}

/// Marks every interior point of the chord `(start, last)` as dropped.
fn mark_interior(mask: &mut Vec<bool>, start: usize, last: usize)
    requires
        start < last < old(mask).len(),
    ensures
        final(mask)@ == marked(old(mask)@, start as int, last as int),
{
    let mut i: usize = start + 1;
    while i < last
        invariant
            start < i <= last < mask.len(),
            mask.len() == old(mask).len(),
            forall|j: int|
                0 <= j < mask.len() ==> mask[j] == (start < j < i || old(mask)[j]),
        decreases last - i,
    {
        mask[i] = true;
        i += 1;
    }
    assert(mask@ =~= marked(old(mask)@, start as int, last as int));
}

/// Computes the retention mask of a polyline: one entry per point, `true`
/// where the point lies within `epsilon` of the simplified line and is to be
/// dropped.
///
/// The chords still to be resolved are kept on an explicit stack, so that the
/// depth of the work does not depend on the length of the polyline.
pub fn calc_rdp_mask<T: ChordDistance>(points: &Vec<T>, epsilon: u64) -> (mask: Vec<bool>)
    ensures
        mask@ == rdp_mask(points@, epsilon),
        mask.len() == points.len(),
        points.len() > 0 ==> !mask[0] && !mask[points.len() - 1],
{
    let n: usize = points.len();
    let mut mask: Vec<bool> = vec![false; n];
    if n < 2 {
        assert(mask@ =~= rdp_mask(points@, epsilon));
        return mask;
    }
    let mut indices: Vec<(usize, usize)> = Vec::new();
    indices.push((0, n - 1));
    proof {
        assert(indices@ =~= seq![(0usize, (n - 1) as usize)]);
        lemma_outset(points@, epsilon, mask@);
    }
    while indices.len() > 0
        invariant
            n == points.len(),
            well_ordered(indices@, n as int),
            settled_outside(points@, epsilon, indices@, mask@),
        decreases work(indices@),
    {
        let ghost pending = indices@;
        let ghost before = mask@;
        let (start_index, last_index) = indices.pop().unwrap();
        assert(pending.last() == (start_index, last_index));
        assert(indices@ == pending.drop_last());
        let (index, max_distance) = farthest_point(points, &mask, start_index, last_index);
        if max_distance > epsilon {
            indices.push((start_index, index));
            indices.push((index, last_index));
            proof {
                lemma_split_step(points@, epsilon, pending, before, index);
            }
        } else {
            mark_interior(&mut mask, start_index, last_index);
            proof {
                lemma_resolve_step(points@, epsilon, pending, before);
            }
        }
    }
    proof {
        assert(indices@ =~= Seq::<(usize, usize)>::empty());
        lemma_done(points@, epsilon, mask@);
    }
    mask
}

/// Simplifies a polyline: drops the points that lie within `epsilon` of the
/// line through the points that remain.
///
/// A polyline of fewer than three points cannot be simplified, and `None` is
/// returned for it. Otherwise the result holds the points that the retention
/// mask does not mark, unchanged and in the order of the polyline; the first
/// and the last point are always among them.
pub fn rdp<T: ChordDistance + Copy>(points: &Vec<T>, epsilon: u64) -> (line: Option<Vec<T>>)
    ensures
        points.len() < 3 <==> line is None,
        line matches Some(smooth_line) ==> smooth_line@ == simplified(points@, epsilon),
        line matches Some(smooth_line) ==> 2 <= smooth_line.len() <= points.len()
            && smooth_line@.first() == points@.first() && smooth_line@.last() == points@.last(),
{
    if points.len() < 3 {
        return None;
    }
    let mut smooth_line: Vec<T> = Vec::new();
    let mask_for_point_removal: Vec<bool> = calc_rdp_mask(points, epsilon);
    let mut i: usize = 0;
    while i < points.len()
        invariant
            i <= points.len(),
            mask_for_point_removal.len() == points.len(),
            smooth_line@ == retained(points@.take(i as int), mask_for_point_removal@),
        decreases points.len() - i,
    {
        assert(points@.take(i + 1).drop_last() =~= points@.take(i as int));
        if !mask_for_point_removal[i] {
            smooth_line.push(points[i]);
        }
        i += 1;
    }
    proof {
        assert(points@.take(points.len() as int) =~= points@);
        lemma_endpoints_kept(points@, epsilon);
    }
    Some(smooth_line)
}

} // verus!
