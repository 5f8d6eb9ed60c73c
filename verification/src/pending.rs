//! The chords that the iterative procedure has still to resolve, and what
//! holds of them and of the mask between two steps.

use vstd::prelude::*;
use crate::distance::ChordDistance;
use crate::model::{deviation, dropped, rdp_mask, retains, split_index};

verus! {

/// Every pending chord lies within a polyline of `n` points and has its
/// start before its end, and the chords stand in the order of the polyline:
/// none begins before the one below it on the stack has ended.
pub open spec fn well_ordered(stack: Seq<(usize, usize)>, n: int) -> bool {
    &&& forall|k: int| 0 <= k < stack.len() ==> (#[trigger] stack[k]).0 < stack[k].1 < n
    &&& forall|j: int, k: int|
        0 <= j < k < stack.len() ==> (#[trigger] stack[j]).1 <= (#[trigger] stack[k]).0
}

/// Point `i` lies in the interior of a pending chord.
pub open spec fn covered(stack: Seq<(usize, usize)>, i: int) -> bool {
    exists|k: int| 0 <= k < stack.len() && (#[trigger] stack[k]).0 < i < stack[k].1
}

/// The mask is final wherever no pending chord covers a point; a covered
/// point is still unmarked, and resolving the chord that covers it decides
/// whether it will be dropped.
pub open spec fn settled_outside<T: ChordDistance>(
    points: Seq<T>,
    epsilon: u64,
    stack: Seq<(usize, usize)>,
    mask: Seq<bool>,
) -> bool {
    &&& mask.len() == points.len()
    &&& forall|k: int, i: int|
        0 <= k < stack.len() && (#[trigger] stack[k]).0 < i < stack[k].1 ==> !(#[trigger] mask[i])
            && (dropped(points, epsilon, i) <==> !retains(
            points,
            epsilon,
            stack[k].0 as int,
            stack[k].1 as int,
            i,
        ))
    &&& forall|i: int|
        0 <= i < points.len() && !covered(stack, i) ==> #[trigger] mask[i] == dropped(
            points,
            epsilon,
            i,
        )
}

/// A bound on the number of steps that the pending chords can still cause: a
/// chord over `w` segments is split at most `w - 1` times and gives rise to
/// `w` chords that are resolved without a split.
pub open spec fn work(stack: Seq<(usize, usize)>) -> int
    decreases stack.len(),
{
    if stack.len() == 0 {
        0
    } else {
        work(stack.drop_last()) + 2 * (stack.last().1 - stack.last().0) - 1
    }
}

/// Each pending chord accounts for at least one step.
pub proof fn lemma_work_bounded_below(stack: Seq<(usize, usize)>, n: int)
    requires
        well_ordered(stack, n),
    ensures
        work(stack) >= stack.len(),
    decreases stack.len(),
{
    if stack.len() > 0 {
        lemma_work_bounded_below(stack.drop_last(), n);
    }
}

/// Pushing a chord adds that chord's share of the work.
pub proof fn lemma_work_push(stack: Seq<(usize, usize)>, chord: (usize, usize))
    ensures
        work(stack.push(chord)) == work(stack) + 2 * (chord.1 - chord.0) - 1,
{
    assert(stack.push(chord).drop_last() =~= stack);
}

/// The mask after the interior of the chord `(start, end)` has been marked.
pub open spec fn marked(mask: Seq<bool>, start: int, end: int) -> Seq<bool> {
    Seq::new(mask.len(), |j: int| start < j < end || mask[j])
}

/// At the outset one chord is pending, from the first point to the last, and
/// nothing is marked.
pub proof fn lemma_outset<T: ChordDistance>(points: Seq<T>, epsilon: u64, mask: Seq<bool>)
    requires
        points.len() >= 2,
        points.len() <= usize::MAX,
        mask.len() == points.len(),
        forall|i: int| 0 <= i < mask.len() ==> !mask[i],
    ensures
        well_ordered(seq![(0usize, (points.len() - 1) as usize)], points.len() as int),
        settled_outside(points, epsilon, seq![(0usize, (points.len() - 1) as usize)], mask),
{
    let stack = seq![(0usize, (points.len() - 1) as usize)];
    assert forall|i: int| 0 <= i < points.len() && !covered(stack, i) implies #[trigger] mask[i]
        == dropped(points, epsilon, i) by {
        if 0 < i < points.len() - 1 {
            assert(stack[0].0 < i < stack[0].1);
        }
    }
}

/// Splitting the chord on top of the stack at its split point keeps what
/// holds between steps, and leaves less to do.
pub proof fn lemma_split_step<T: ChordDistance>(
    points: Seq<T>,
    epsilon: u64,
    stack: Seq<(usize, usize)>,
    mask: Seq<bool>,
    c: usize,
)
    requires
        stack.len() > 0,
        well_ordered(stack, points.len() as int),
        settled_outside(points, epsilon, stack, mask),
        c == split_index(points, stack.last().0 as int, stack.last().1 as int),
        stack.last().0 < c < stack.last().1,
        deviation(points, c as int, stack.last().0 as int, stack.last().1 as int) > epsilon,
    ensures
        well_ordered(
            stack.drop_last().push((stack.last().0, c)).push((c, stack.last().1)),
            points.len() as int,
        ),
        settled_outside(
            points,
            epsilon,
            stack.drop_last().push((stack.last().0, c)).push((c, stack.last().1)),
            mask,
        ),
        0 <= work(stack.drop_last().push((stack.last().0, c)).push((c, stack.last().1))) < work(
            stack,
        ),
{
    let top = stack.len() - 1;
    let start = stack.last().0;
    let end = stack.last().1;
    let rest = stack.drop_last();
    let next = rest.push((start, c)).push((c, end));
    assert forall|j: int, k: int| 0 <= j < k < next.len() implies (#[trigger] next[j]).1 <= (
    #[trigger] next[k]).0 by {
        if j < top {
            assert(next[j] == stack[j]);
            assert(stack[j].1 <= stack[top].0);
        }
    }
    assert forall|k: int| 0 <= k < next.len() implies (#[trigger] next[k]).0 < next[k].1
        < points.len() by {
        if k < top {
            assert(next[k] == stack[k]);
        }
    }
    assert forall|k: int, i: int|
        0 <= k < next.len() && (#[trigger] next[k]).0 < i < next[k].1 implies !(#[trigger] mask[i])
        && (dropped(points, epsilon, i) <==> !retains(
        points,
        epsilon,
        next[k].0 as int,
        next[k].1 as int,
        i,
    )) by {
        if k < top {
            assert(next[k] == stack[k]);
        } else {
            assert(stack[top].0 < i < stack[top].1);
            assert(!mask[i]);
            assert(dropped(points, epsilon, i) <==> !retains(
                points,
                epsilon,
                start as int,
                end as int,
                i,
            ));
            if k == top {
                assert(next[k] == (start, c));
                assert(retains(points, epsilon, start as int, end as int, i) == retains(
                    points,
                    epsilon,
                    start as int,
                    c as int,
                    i,
                ));
            } else {
                assert(next[k] == (c, end));
                assert(retains(points, epsilon, start as int, end as int, i) == retains(
                    points,
                    epsilon,
                    c as int,
                    end as int,
                    i,
                ));
            }
        }
    }
    assert forall|i: int| 0 <= i < points.len() && !covered(next, i) implies #[trigger] mask[i]
        == dropped(points, epsilon, i) by {
        if covered(stack, i) {
            let k = choose|k: int| 0 <= k < stack.len() && (#[trigger] stack[k]).0 < i < stack[k].1;
            if k < top {
                assert(next[k] == stack[k]);
                assert(next[k].0 < i < next[k].1);
            } else {
                assert(stack[top].0 < i < stack[top].1);
                if i < c {
                    assert(next[top].0 < i < next[top].1);
                } else if c < i {
                    assert(next[top + 1].0 < i < next[top + 1].1);
                }
            }
        }
    }
    lemma_work_push(rest, (start, c));
    lemma_work_push(rest.push((start, c)), (c, end));
    lemma_work_bounded_below(next, points.len() as int);
}

/// Marking the interior of the chord on top of the stack, where no interior
/// point lies farther from it than the tolerance, keeps what holds between
/// steps, and leaves less to do.
pub proof fn lemma_resolve_step<T: ChordDistance>(
    points: Seq<T>,
    epsilon: u64,
    stack: Seq<(usize, usize)>,
    mask: Seq<bool>,
)
    requires
        stack.len() > 0,
        well_ordered(stack, points.len() as int),
        settled_outside(points, epsilon, stack, mask),
        ({
            let c = split_index(points, stack.last().0 as int, stack.last().1 as int);
            !(stack.last().0 < c < stack.last().1 && deviation(
                points,
                c,
                stack.last().0 as int,
                stack.last().1 as int,
            ) > epsilon)
        }),
    ensures
        well_ordered(stack.drop_last(), points.len() as int),
        settled_outside(
            points,
            epsilon,
            stack.drop_last(),
            marked(mask, stack.last().0 as int, stack.last().1 as int),
        ),
        0 <= work(stack.drop_last()) < work(stack),
{
    let top = stack.len() - 1;
    let start = stack.last().0;
    let end = stack.last().1;
    let rest = stack.drop_last();
    let after = marked(mask, start as int, end as int);
    assert forall|k: int, i: int|
        0 <= k < rest.len() && (#[trigger] rest[k]).0 < i < rest[k].1 implies !(#[trigger] after[i])
        && (dropped(points, epsilon, i) <==> !retains(
        points,
        epsilon,
        rest[k].0 as int,
        rest[k].1 as int,
        i,
    )) by {
        assert(rest[k] == stack[k]);
        assert(stack[k].1 <= stack[top].0);
        assert(!mask[i]);
    }
    assert forall|i: int| 0 <= i < points.len() && !covered(rest, i) implies #[trigger] after[i]
        == dropped(points, epsilon, i) by {
        if start < i < end {
            assert(stack[top].0 < i < stack[top].1);
            assert(!mask[i]);
        } else if covered(stack, i) {
            let k = choose|k: int| 0 <= k < stack.len() && (#[trigger] stack[k]).0 < i < stack[k].1;
            assert(rest[k] == stack[k]);
            assert(rest[k].0 < i < rest[k].1);
        } else {
            assert(mask[i] == dropped(points, epsilon, i));
        }
    }
    lemma_work_bounded_below(rest, points.len() as int);
}

/// With no chord pending the mask is the retention mask.
pub proof fn lemma_done<T: ChordDistance>(points: Seq<T>, epsilon: u64, mask: Seq<bool>)
    requires
        settled_outside(points, epsilon, Seq::<(usize, usize)>::empty(), mask),
    ensures
        mask == rdp_mask(points, epsilon),
{
    assert forall|i: int| 0 <= i < points.len() implies mask[i] == dropped(points, epsilon, i) by {
        assert(!covered(Seq::<(usize, usize)>::empty(), i));
    }
    assert(mask =~= rdp_mask(points, epsilon));
}

} // verus!
