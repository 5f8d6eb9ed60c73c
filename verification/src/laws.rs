//! What holds of simplification in general.

use vstd::prelude::*;
use crate::distance::ChordDistance;
use crate::model::{deviation, dropped, is_split, rdp_mask, retained, retains, simplified, split_index};

verus! {

/// A chord has at most one split point.
pub proof fn lemma_split_unique<T: ChordDistance>(
    points: Seq<T>,
    start: int,
    end: int,
    c1: int,
    c2: int,
)
    requires
        is_split(points, start, end, c1),
        is_split(points, start, end, c2),
    ensures
        c1 == c2,
{
}

/// Among the interior points of a chord before `upto` there is a first one
/// that lies farthest from the chord, unless all of them lie on it. The index
/// returned is that point, or `start`.
proof fn lemma_first_farthest<T: ChordDistance>(
    points: Seq<T>,
    start: int,
    end: int,
    upto: int,
) -> (c: int)
    requires
        start < upto <= end,
    ensures
        start <= c < upto,
        c == start ==> forall|j: int|
            start < j < upto ==> #[trigger] deviation(points, j, start, end) == 0,
        c > start ==> deviation(points, c, start, end) > 0,
        c > start ==> forall|j: int|
            start < j < upto ==> #[trigger] deviation(points, j, start, end) <= deviation(
                points,
                c,
                start,
                end,
            ),
        c > start ==> forall|j: int|
            start < j < c ==> #[trigger] deviation(points, j, start, end) < deviation(
                points,
                c,
                start,
                end,
            ),
    decreases upto - start,
{
    if upto == start + 1 {
        start
    } else {
        let before = lemma_first_farthest(points, start, end, upto - 1);
        let reached = if before == start {
            0
        } else {
            deviation(points, before, start, end)
        };
        if deviation(points, upto - 1, start, end) > reached {
            upto - 1
        } else {
            before
        }
    }
}

/// The split index of a chord is its split point; where it is the chord's
/// start, the chord has no split point, and every interior point lies on it.
pub proof fn lemma_split_index_cases<T: ChordDistance>(points: Seq<T>, start: int, end: int)
    ensures
        start <= split_index(points, start, end),
        split_index(points, start, end) > start ==> is_split(
            points,
            start,
            end,
            split_index(points, start, end),
        ),
        split_index(points, start, end) == start ==> forall|j: int|
            start < j < end ==> #[trigger] deviation(points, j, start, end) == 0,
{
    if start < end {
        let c = lemma_first_farthest(points, start, end, end);
        if c > start {
            assert(is_split(points, start, end, c));
        }
    }
}

/// An index that is a split point of the chord is its split index.
pub proof fn lemma_split_found<T: ChordDistance>(points: Seq<T>, start: int, end: int, c: int)
    requires
        is_split(points, start, end, c),
    ensures
        split_index(points, start, end) == c,
{
    lemma_split_unique(points, start, end, c, split_index(points, start, end));
}

/// A chord from which no interior point deviates has no split point.
pub proof fn lemma_split_absent<T: ChordDistance>(points: Seq<T>, start: int, end: int)
    requires
        forall|j: int| start < j < end ==> #[trigger] deviation(points, j, start, end) == 0,
    ensures
        split_index(points, start, end) == start,
{
    assert forall|c: int| !is_split(points, start, end, c) by {
        if start < c < end {
            assert(deviation(points, c, start, end) == 0);
        }
    }
}

/// A point that resolving a chord keeps lies in the chord's interior, and
/// farther than the tolerance from some chord that spans it.
pub proof fn lemma_retained_point_deviates<T: ChordDistance>(
    points: Seq<T>,
    epsilon: u64,
    start: int,
    end: int,
    i: int,
)
    requires
        retains(points, epsilon, start, end, i),
    ensures
        start < i < end,
        exists|a: int, b: int|
            start <= a < i < b <= end && #[trigger] deviation(points, i, a, b) > epsilon,
    decreases end - start,
{
    let c = split_index(points, start, end);
    if i == c {
        assert(deviation(points, i, start, end) > epsilon);
    } else if i < c {
        lemma_retained_point_deviates(points, epsilon, start, c, i);
        let (a, b) = choose|a: int, b: int|
            start <= a < i < b <= c && #[trigger] deviation(points, i, a, b) > epsilon;
        assert(start <= a < i < b <= end && deviation(points, i, a, b) > epsilon);
    } else {
        lemma_retained_point_deviates(points, epsilon, c, end, i);
        let (a, b) = choose|a: int, b: int|
            c <= a < i < b <= end && #[trigger] deviation(points, i, a, b) > epsilon;
        assert(start <= a < i < b <= end && deviation(points, i, a, b) > epsilon);
    }
}

/// An interior point that lies within the tolerance of every chord that
/// spans it is dropped. In particular a point that lies exactly on every
/// such chord, at distance zero, is dropped whatever the tolerance.
pub proof fn lemma_point_within_tolerance_dropped<T: ChordDistance>(
    points: Seq<T>,
    epsilon: u64,
    i: int,
)
    requires
        0 < i < points.len() - 1,
        forall|a: int, b: int|
            0 <= a < i < b < points.len() ==> #[trigger] deviation(points, i, a, b) <= epsilon,
    ensures
        rdp_mask(points, epsilon)[i],
{
    if retains(points, epsilon, 0, points.len() - 1, i) {
        lemma_retained_point_deviates(points, epsilon, 0, points.len() - 1, i);
    }
}

/// Whether point `x` stands once the chord `(start, end)` is resolved: it is
/// one of the chord's ends or an interior point that is kept.
pub open spec fn stands<T: ChordDistance>(
    points: Seq<T>,
    epsilon: u64,
    start: int,
    end: int,
    x: int,
) -> bool {
    x == start || x == end || retains(points, epsilon, start, end, x)
}

/// An interior point that resolving a chord does not keep lies between two
/// points that stand, with nothing kept between them, and within the
/// tolerance of the line through those two.
pub proof fn lemma_unkept_point_near_line<T: ChordDistance>(
    points: Seq<T>,
    epsilon: u64,
    start: int,
    end: int,
    i: int,
) -> (near: (int, int))
    requires
        start < i < end,
        !retains(points, epsilon, start, end, i),
    ensures
        start <= near.0 < i < near.1 <= end,
        stands(points, epsilon, start, end, near.0),
        stands(points, epsilon, start, end, near.1),
        forall|j: int|
            near.0 < j < near.1 ==> !retains(points, epsilon, start, end, j) && #[trigger] deviation(
                points,
                j,
                near.0,
                near.1,
            ) <= epsilon,
    decreases end - start,
{
    let c = split_index(points, start, end);
    lemma_split_index_cases(points, start, end);
    if start < c < end && deviation(points, c, start, end) > epsilon {
        if i < c {
            let near = lemma_unkept_point_near_line(points, epsilon, start, c, i);
            assert forall|j: int| near.0 < j < near.1 implies !retains(
                points,
                epsilon,
                start,
                end,
                j,
            ) && #[trigger] deviation(points, j, near.0, near.1) <= epsilon by {
                assert(!retains(points, epsilon, start, c, j));
            }
            near
        } else {
            let near = lemma_unkept_point_near_line(points, epsilon, c, end, i);
            assert forall|j: int| near.0 < j < near.1 implies !retains(
                points,
                epsilon,
                start,
                end,
                j,
            ) && #[trigger] deviation(points, j, near.0, near.1) <= epsilon by {
                assert(!retains(points, epsilon, c, end, j));
            }
            near
        }
    } else {
        (start, end)
    }
}

/// Points `a` and `b` are kept and nothing between them is, and every point
/// between them lies within the tolerance of the line through them: the
/// simplified polyline runs straight from `a` to `b`, and the polyline stays
/// within the tolerance of that stretch.
pub open spec fn is_stretch<T: ChordDistance>(points: Seq<T>, epsilon: u64, a: int, b: int) -> bool {
    &&& 0 <= a < b < points.len()
    &&& !dropped(points, epsilon, a)
    &&& !dropped(points, epsilon, b)
    &&& forall|j: int| a < j < b ==> #[trigger] dropped(points, epsilon, j)
    &&& forall|j: int| a < j < b ==> #[trigger] deviation(points, j, a, b) <= epsilon
}

/// What simplification is for: every point that is dropped lies between two
/// points that are kept, with only dropped points between them, and each of
/// those lies within the tolerance of the line through the two kept points.
/// The two kept points are returned.
pub proof fn lemma_dropped_point_near_line<T: ChordDistance>(
    points: Seq<T>,
    epsilon: u64,
    i: int,
) -> (near: (int, int))
    requires
        dropped(points, epsilon, i),
    ensures
        near.0 < i < near.1,
        is_stretch(points, epsilon, near.0, near.1),
{
    let last = points.len() - 1;
    let near = lemma_unkept_point_near_line(points, epsilon, 0, last, i);
    assert(!dropped(points, epsilon, near.0)) by {
        if near.0 != 0 {
            lemma_retained_point_deviates(points, epsilon, 0, last, near.0);
        }
    }
    assert(!dropped(points, epsilon, near.1)) by {
        if near.1 != last {
            lemma_retained_point_deviates(points, epsilon, 0, last, near.1);
        }
    }
    assert forall|j: int| near.0 < j < near.1 implies #[trigger] dropped(points, epsilon, j) by {
        assert(deviation(points, j, near.0, near.1) <= epsilon);
    }
    near
}

/// A point that a tolerance keeps, every smaller tolerance keeps as well.
pub proof fn lemma_retains_monotone<T: ChordDistance>(
    points: Seq<T>,
    smaller: u64,
    larger: u64,
    start: int,
    end: int,
    i: int,
)
    requires
        smaller <= larger,
        retains(points, larger, start, end, i),
    ensures
        retains(points, smaller, start, end, i),
    decreases end - start,
{
    let c = split_index(points, start, end);
    if i < c {
        lemma_retains_monotone(points, smaller, larger, start, c, i);
    } else if c < i {
        lemma_retains_monotone(points, smaller, larger, c, end, i);
    }
}

/// No more points pass a mask that marks more of them.
pub proof fn lemma_retained_len_monotone<T>(points: Seq<T>, fewer: Seq<bool>, more: Seq<bool>)
    requires
        forall|j: int| 0 <= j < points.len() ==> (fewer[j] ==> more[j]),
    ensures
        retained(points, more).len() <= retained(points, fewer).len(),
    decreases points.len(),
{
    if points.len() > 0 {
        lemma_retained_len_monotone(points.drop_last(), fewer, more);
    }
}

/// Raising the tolerance never brings a dropped point back, and never makes
/// the simplified polyline longer.
pub proof fn lemma_larger_tolerance_drops_more<T: ChordDistance>(
    points: Seq<T>,
    smaller: u64,
    larger: u64,
)
    requires
        smaller <= larger,
    ensures
        forall|i: int|
            0 <= i < points.len() && rdp_mask(points, smaller)[i] ==> rdp_mask(points, larger)[i],
        simplified(points, larger).len() <= simplified(points, smaller).len(),
{
    let fewer = rdp_mask(points, smaller);
    let more = rdp_mask(points, larger);
    assert forall|i: int| 0 <= i < points.len() && fewer[i] implies more[i] by {
        if retains(points, larger, 0, points.len() - 1, i) {
            lemma_retains_monotone(points, smaller, larger, 0, points.len() - 1, i);
        }
    }
    lemma_retained_len_monotone(points, fewer, more);
}

/// The first point passes every mask that does not mark it.
pub proof fn lemma_retained_first<T>(points: Seq<T>, mask: Seq<bool>)
    requires
        points.len() > 0,
        mask.len() > 0,
        !mask[0],
    ensures
        retained(points, mask).len() > 0,
        retained(points, mask)[0] == points[0],
    decreases points.len(),
{
    let head = retained(points.drop_last(), mask);
    if points.len() > 1 {
        lemma_retained_first(points.drop_last(), mask);
        assert(head[0] == points[0]);
    } else {
        assert(head.len() == 0);
        assert(retained(points, mask) == head.push(points.last()));
    }
}

/// No mask lets more points pass than there are.
pub proof fn lemma_retained_len<T>(points: Seq<T>, mask: Seq<bool>)
    ensures
        retained(points, mask).len() <= points.len(),
    decreases points.len(),
{
    if points.len() > 0 {
        lemma_retained_len(points.drop_last(), mask);
    }
}

/// The simplified polyline begins and ends where the polyline does.
pub proof fn lemma_endpoints_kept<T: ChordDistance>(points: Seq<T>, epsilon: u64)
    requires
        points.len() >= 2,
    ensures
        2 <= simplified(points, epsilon).len() <= points.len(),
        simplified(points, epsilon).first() == points.first(),
        simplified(points, epsilon).last() == points.last(),
{
    let mask = rdp_mask(points, epsilon);
    lemma_retained_first(points.drop_last(), mask);
    lemma_retained_len(points, mask);
}

/// Where no interior point lies farther than the tolerance from the chord
/// between the first point and the last, only those two points remain.
pub proof fn lemma_collapse<T: ChordDistance>(points: Seq<T>, epsilon: u64)
    requires
        points.len() >= 2,
        forall|j: int|
            0 < j < points.len() - 1 ==> #[trigger] deviation(points, j, 0, points.len() - 1)
                <= epsilon,
    ensures
        simplified(points, epsilon) == seq![points.first(), points.last()],
{
    let n = points.len() as int;
    let mask = rdp_mask(points, epsilon);
    let c = split_index(points, 0, n - 1);
    if 0 < c < n - 1 {
        assert(deviation(points, c, 0, n - 1) <= epsilon);
    }
    assert forall|j: int| 0 < j < n - 1 implies mask[j] by {}
    lemma_interior_marked(points, mask, n - 1);
    assert(points.drop_last() =~= points.take(n - 1));
    assert(simplified(points, epsilon) =~= seq![points.first(), points.last()]);
}

/// Of a polyline's first `k` points only the first passes a mask that marks
/// all the others among them.
proof fn lemma_interior_marked<T>(points: Seq<T>, mask: Seq<bool>, k: int)
    requires
        1 <= k <= points.len(),
        !mask[0],
        forall|j: int| 0 < j < k ==> mask[j],
    ensures
        retained(points.take(k), mask) == seq![points[0]],
    decreases k,
{
    if k == 1 {
        assert(points.take(1).drop_last().len() == 0);
        assert(retained(points.take(1).drop_last(), mask) =~= Seq::<T>::empty());
        assert(retained(points.take(k), mask) =~= seq![points[0]]);
    } else {
        lemma_interior_marked(points, mask, k - 1);
        assert(points.take(k).drop_last() =~= points.take(k - 1));
    }
}

/// Two chords from which the corresponding points deviate alike are split at
/// the same index.
pub proof fn lemma_split_same<T: ChordDistance, U: ChordDistance>(
    p: Seq<T>,
    q: Seq<U>,
    start: int,
    end: int,
)
    requires
        forall|j: int|
            start < j < end ==> #[trigger] deviation(p, j, start, end) == deviation(
                q,
                j,
                start,
                end,
            ),
    ensures
        split_index(p, start, end) == split_index(q, start, end),
{
    let c = split_index(p, start, end);
    let d = split_index(q, start, end);
    if exists|x: int| is_split(p, start, end, x) {
        assert(is_split(p, start, end, c));
        assert(deviation(q, c, start, end) == deviation(p, c, start, end));
        assert forall|j: int| start < j < end implies #[trigger] deviation(q, j, start, end)
            <= deviation(q, c, start, end) by {
            assert(deviation(p, j, start, end) <= deviation(p, c, start, end));
        }
        assert forall|j: int| start < j < c implies #[trigger] deviation(q, j, start, end)
            < deviation(q, c, start, end) by {
            assert(deviation(p, j, start, end) < deviation(p, c, start, end));
        }
        assert(is_split(q, start, end, c));
        lemma_split_found(q, start, end, c);
    } else if exists|x: int| is_split(q, start, end, x) {
        assert(is_split(q, start, end, d));
        assert(deviation(p, d, start, end) == deviation(q, d, start, end));
        assert forall|j: int| start < j < end implies #[trigger] deviation(p, j, start, end)
            <= deviation(p, d, start, end) by {
            assert(deviation(q, j, start, end) <= deviation(q, d, start, end));
        }
        assert forall|j: int| start < j < d implies #[trigger] deviation(p, j, start, end)
            < deviation(p, d, start, end) by {
            assert(deviation(q, j, start, end) < deviation(q, d, start, end));
        }
        assert(is_split(p, start, end, d));
    }
}

/// Resolving a chord keeps the same indices in two polylines whose
/// corresponding points deviate alike from every chord within it.
pub proof fn lemma_retains_same<T: ChordDistance, U: ChordDistance>(
    p: Seq<T>,
    q: Seq<U>,
    epsilon: u64,
    start: int,
    end: int,
    i: int,
)
    requires
        forall|j: int, a: int, b: int|
            start <= a < j < b <= end ==> #[trigger] deviation(p, j, a, b) == deviation(
                q,
                j,
                a,
                b,
            ),
    ensures
        retains(p, epsilon, start, end, i) == retains(q, epsilon, start, end, i),
    decreases end - start,
{
    lemma_split_same(p, q, start, end);
    let c = split_index(p, start, end);
    if start < c < end {
        assert(deviation(p, c, start, end) == deviation(q, c, start, end));
        lemma_retains_same(p, q, epsilon, start, c, i);
        lemma_retains_same(p, q, epsilon, c, end, i);
    }
}

/// The retention mask depends on the points only through their deviations:
/// two polylines of equal length, in whatever representation, whose
/// corresponding points deviate alike from corresponding chords have the
/// same mask.
pub proof fn lemma_mask_from_deviations_alone<T: ChordDistance, U: ChordDistance>(
    p: Seq<T>,
    q: Seq<U>,
    epsilon: u64,
)
    requires
        p.len() == q.len(),
        forall|j: int, a: int, b: int|
            0 <= a < j < b < p.len() ==> #[trigger] deviation(p, j, a, b) == deviation(q, j, a, b),
    ensures
        rdp_mask(p, epsilon) == rdp_mask(q, epsilon),
{
    assert forall|i: int| 0 <= i < p.len() implies dropped(p, epsilon, i) == dropped(
        q,
        epsilon,
        i,
    ) by {
        lemma_retains_same(p, q, epsilon, 0, p.len() - 1, i);
    }
    assert(rdp_mask(p, epsilon) =~= rdp_mask(q, epsilon));
}

} // verus!
