//! The order of a palette by the weights of its colors.

use crate::img_utils::color_point::ColorPoint;
use crate::kmeans::model::total_members;
use vstd::prelude::*;

verus! {

/// Whether `a` may stand before `b`: it is not lighter where the heaviest
/// come first, and not heavier where the lightest come first.
pub open spec fn may_precede(a: ColorPoint, b: ColorPoint, descending: bool) -> bool {
    if descending {
        a.weight() >= b.weight()
    } else {
        a.weight() <= b.weight()
    }
}

/// Where `point` goes into `sorted`: behind the last point that may stand
/// before it.
pub open spec fn insert_position(sorted: Seq<ColorPoint>, point: ColorPoint, descending: bool) -> int
    decreases sorted.len(),
{
    if sorted.len() == 0 || may_precede(sorted.last(), point, descending) {
        sorted.len() as int
    } else {
        insert_position(sorted.drop_last(), point, descending)
    }
}

/// The points in the order of their weights; points of the same weight
/// keep the order they came in.
pub open spec fn sorted_by_weight(points: Seq<ColorPoint>, descending: bool) -> Seq<ColorPoint>
    decreases points.len(),
{
    if points.len() == 0 {
        Seq::empty()
    } else {
        let front = sorted_by_weight(points.drop_last(), descending);
        front.insert(insert_position(front, points.last(), descending), points.last())
    }
}

/// Every point stands before all that follow it.
pub open spec fn ordered_by_weight(points: Seq<ColorPoint>, descending: bool) -> bool {
    forall|i: int, j: int|
        0 <= i < j < points.len() ==> may_precede(#[trigger] points[i], #[trigger] points[j], descending)
}

proof fn lemma_insert_position(sorted: Seq<ColorPoint>, point: ColorPoint, descending: bool)
    ensures
        0 <= insert_position(sorted, point, descending) <= sorted.len(),
        forall|j: int|
            insert_position(sorted, point, descending) <= j < sorted.len() ==> !may_precede(
                #[trigger] sorted[j],
                point,
                descending,
            ),
        insert_position(sorted, point, descending) > 0 ==> may_precede(
            sorted[insert_position(sorted, point, descending) - 1],
            point,
            descending,
        ),
    decreases sorted.len(),
{
    if !(sorted.len() == 0 || may_precede(sorted.last(), point, descending)) {
        let front = sorted.drop_last();
        lemma_insert_position(front, point, descending);
        assert forall|j: int|
            insert_position(sorted, point, descending) <= j < sorted.len() implies !may_precede(
            #[trigger] sorted[j],
            point,
            descending,
        ) by {
            if j < front.len() {
                assert(sorted[j] == front[j]);
            }
        }
    }
}

/// Sorting only changes the order of the points.
pub proof fn lemma_sorted_same_points(points: Seq<ColorPoint>, descending: bool)
    ensures
        sorted_by_weight(points, descending).len() == points.len(),
        sorted_by_weight(points, descending).to_multiset() == points.to_multiset(),
    decreases points.len(),
{
    if points.len() > 0 {
        let front = sorted_by_weight(points.drop_last(), descending);
        lemma_sorted_same_points(points.drop_last(), descending);
        lemma_insert_position(front, points.last(), descending);
        vstd::seq_lib::to_multiset_insert(
            front,
            insert_position(front, points.last(), descending),
            points.last(),
        );
        vstd::seq_lib::to_multiset_build(points.drop_last(), points.last());
        assert(points.drop_last().push(points.last()) =~= points);
    } else {
        assert(points =~= Seq::<ColorPoint>::empty());
    }
}

/// Sorted points stand in the order of their weights.
pub proof fn lemma_sorted_is_ordered(points: Seq<ColorPoint>, descending: bool)
    ensures
        ordered_by_weight(sorted_by_weight(points, descending), descending),
    decreases points.len(),
{
    if points.len() > 0 {
        let front = sorted_by_weight(points.drop_last(), descending);
        let point = points.last();
        let at = insert_position(front, point, descending);
        let sorted = front.insert(at, point);
        lemma_sorted_is_ordered(points.drop_last(), descending);
        lemma_insert_position(front, point, descending);
        assert forall|i: int, j: int| 0 <= i < j < sorted.len() implies may_precede(
            #[trigger] sorted[i],
            #[trigger] sorted[j],
            descending,
        ) by {
            if j < at {
                assert(sorted[i] == front[i] && sorted[j] == front[j]);
            } else if j == at {
                assert(sorted[i] == front[i]);
                if i < at - 1 {
                    assert(may_precede(front[i], front[at - 1], descending));
                }
            } else if i < at {
                assert(sorted[i] == front[i] && sorted[j] == front[j - 1]);
            } else if i == at {
                assert(sorted[j] == front[j - 1]);
                assert(!may_precede(front[j - 1], point, descending));
            } else {
                assert(sorted[i] == front[i - 1] && sorted[j] == front[j - 1]);
            }
        }
    }
}

/// The points in the order of their weights, the heaviest first if
/// `descending` and else the lightest; points of the same weight keep the
/// order they came in.
pub fn sort_by_weight(points: &Vec<ColorPoint>, descending: bool) -> (sorted: Vec<ColorPoint>)
    requires
        forall|i: int| 0 <= i < points.len() ==> (#[trigger] points[i]).wf(),
    ensures
        sorted@ == sorted_by_weight(points@, descending),
{
    let mut sorted: Vec<ColorPoint> = Vec::new();
    let mut i: usize = 0;
    assert(points@.take(0) =~= Seq::<ColorPoint>::empty());
    while i < points.len()
        invariant
            i <= points.len(),
            forall|j: int| 0 <= j < points.len() ==> (#[trigger] points[j]).wf(),
            sorted@ == sorted_by_weight(points@.take(i as int), descending),
            sorted.len() == i,
            forall|j: int| 0 <= j < sorted.len() ==> (#[trigger] sorted[j]).wf(),
        decreases points.len() - i,
    {
        let point = points[i];
        let ghost front = sorted@;
        let mut at: usize = sorted.len();
        assert(front.take(front.len() as int) =~= front);
        while at > 0 && !precedes(&sorted[at - 1], &point, descending)
            invariant
                at <= sorted.len(),
                point.wf(),
                sorted@ == front,
                forall|j: int| 0 <= j < sorted.len() ==> (#[trigger] sorted[j]).wf(),
                insert_position(front, point, descending) == insert_position(
                    front.take(at as int),
                    point,
                    descending,
                ),
            decreases at,
        {
            assert(front.take(at as int).drop_last() =~= front.take(at - 1));
            at -= 1;
        }
        proof {
            assert(points@.take(i + 1).drop_last() =~= points@.take(i as int));
            lemma_sorted_same_points(points@.take(i as int), descending);
        }
        sorted.insert(at, point);
        i += 1;
    }
    assert(points@.take(points.len() as int) =~= points@);
    sorted
}

/// Whether `a` may stand before `b`.
fn precedes(a: &ColorPoint, b: &ColorPoint, descending: bool) -> (before: bool)
    requires
        a.wf(),
        b.wf(),
    ensures
        before == may_precede(*a, *b, descending),
{
    if descending {
        !a.lighter_than(b)
    } else {
        !b.lighter_than(a)
    }
}

proof fn lemma_insert_total_members(points: Seq<ColorPoint>, at: int, point: ColorPoint)
    requires
        0 <= at <= points.len(),
    ensures
        total_members(points.insert(at, point)) == total_members(points) + point.members,
    decreases points.len(),
{
    let longer = points.insert(at, point);
    if at == points.len() {
        assert(longer.drop_last() =~= points);
    } else {
        lemma_insert_total_members(points.drop_last(), at, point);
        assert(longer.drop_last() =~= points.drop_last().insert(at, point));
    }
}

/// Sorting keeps the sum of the member counts.
pub proof fn lemma_sorted_total_members(points: Seq<ColorPoint>, descending: bool)
    ensures
        total_members(sorted_by_weight(points, descending)) == total_members(points),
    decreases points.len(),
{
    if points.len() > 0 {
        let front = sorted_by_weight(points.drop_last(), descending);
        lemma_sorted_total_members(points.drop_last(), descending);
        lemma_insert_position(front, points.last(), descending);
        lemma_insert_total_members(
            front,
            insert_position(front, points.last(), descending),
            points.last(),
        );
    }
}

} // verus!
