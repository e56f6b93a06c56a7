//! Scanning a run of points while counting the component comparisons.
use vstd::prelude::*;

use crate::index::geometry::{distance, partial_distance, squared_delta};
use crate::index::kernels::{all_in_reach, in_reach, is_column, is_packed_column, lemma_partial_distance,
    unpack_hot2};
use crate::index::neighbors::{as_neighbor, lemma_scan_push, offer, scan, worst_of, Neighbor,
    NeighborSet};
use crate::index::stats::SearchDetails;
use crate::index::{Point, DIMS};

verus! {

/// The first component, from `d` on, at which the running distance reaches the ceiling; `DIMS` when
/// it never does.
pub open spec fn cut_from(query: Seq<i16>, values: Seq<i16>, ceiling: int, d: int) -> int
    decreases DIMS - d,
{
    if d >= DIMS {
        DIMS as int
    } else if partial_distance(query, values, d + 1) >= ceiling {
        d
    } else {
        cut_from(query, values, ceiling, d + 1)
    }
}

/// Where the comparison with each point stops when the points are looked at one after the other.
pub open spec fn cuts(near: Seq<Neighbor>, query: Seq<i16>, points: Seq<Point>) -> Seq<int>
    decreases points.len(),
{
    if points.len() == 0 {
        Seq::empty()
    } else {
        let earlier = points.drop_last();
        cuts(near, query, earlier).push(
            cut_from(query, points.last().values@, worst_of(scan(near, query, earlier)), 0),
        )
    }
}

/// How many comparisons got as far as component `d`.
pub open spec fn reaching(stops: Seq<int>, d: int) -> int
    decreases stops.len(),
{
    if stops.len() == 0 {
        0
    } else {
        reaching(stops.drop_last(), d) + if stops.last() >= d { 1int } else { 0 }
    }
}

/// How many comparisons stopped at component `d`.
pub open spec fn stopping(stops: Seq<int>, d: int) -> int
    decreases stops.len(),
{
    if stops.len() == 0 {
        0
    } else {
        stopping(stops.drop_last(), d) + if stops.last() == d { 1int } else { 0 }
    }
}

/// The comparison counters have grown by the given stops, and nothing else has changed.
pub open spec fn recorded(before: SearchDetails, after: SearchDetails, stops: Seq<int>) -> bool {
    &&& counted(before, after, stops)
    &&& after.primary_points_scanned == before.primary_points_scanned
    &&& after.secondary_points_scanned == before.secondary_points_scanned
    &&& after.primary_bucket_sectorized == before.primary_bucket_sectorized
    &&& after.secondary_sectorized_buckets == before.secondary_sectorized_buckets
    &&& after.largest_bucket_points == before.largest_bucket_points
    &&& after.limit_overshoot_points == before.limit_overshoot_points
}

/// The comparison counters have grown by the given stops.
pub open spec fn counted(before: SearchDetails, after: SearchDetails, stops: Seq<int>) -> bool {
    &&& forall|d: int|
        0 <= d < DIMS ==> #[trigger] after.distance_steps@[d] == before.distance_steps@[d] + reaching(
            stops,
            d,
        )
    &&& forall|d: int|
        0 <= d < DIMS ==> #[trigger] after.distance_cutoffs@[d] == before.distance_cutoffs@[d]
            + stopping(stops, d)
    &&& after.distance_full == before.distance_full + stopping(stops, DIMS as int)
    &&& after.neighbor_insertions == before.neighbor_insertions + stopping(stops, DIMS as int)
}

/// The comparison counters can grow by `points` comparisons.
pub open spec fn has_room(details: SearchDetails, points: int) -> bool {
    &&& forall|d: int|
        0 <= d < DIMS ==> #[trigger] details.distance_steps@[d] + points <= u32::MAX
    &&& forall|d: int|
        0 <= d < DIMS ==> #[trigger] details.distance_cutoffs@[d] + points <= u32::MAX
    &&& details.distance_full + points <= u32::MAX
    &&& details.neighbor_insertions + points <= u32::MAX
}

/// A count of stops lies between zero and their number.
pub proof fn lemma_count_bounds(stops: Seq<int>, d: int)
    ensures
        0 <= reaching(stops, d) <= stops.len(),
        0 <= stopping(stops, d) <= stops.len(),
    decreases stops.len(),
{
    if stops.len() > 0 {
        lemma_count_bounds(stops.drop_last(), d);
    }
}

/// Counts of stops add up over runs.
pub proof fn lemma_count_concat(first: Seq<int>, second: Seq<int>, d: int)
    ensures
        reaching(first + second, d) == reaching(first, d) + reaching(second, d),
        stopping(first + second, d) == stopping(first, d) + stopping(second, d),
    decreases second.len(),
{
    if second.len() == 0 {
        assert(first + second =~= first);
    } else {
        lemma_count_concat(first, second.drop_last(), d);
        assert((first + second).drop_last() =~= first + second.drop_last());
    }
}

/// Counting one run after another is counting their concatenation.
pub proof fn lemma_counted_concat(
    before: SearchDetails,
    middle: SearchDetails,
    after: SearchDetails,
    first: Seq<int>,
    second: Seq<int>,
)
    requires
        counted(before, middle, first),
        counted(middle, after, second),
    ensures
        counted(before, after, first + second),
{
    assert forall|d: int| 0 <= d < DIMS implies #[trigger] after.distance_steps@[d]
        == before.distance_steps@[d] + reaching(first + second, d) by {
        lemma_count_concat(first, second, d);
        assert(middle.distance_steps@[d] == before.distance_steps@[d] + reaching(first, d));
    }
    assert forall|d: int| 0 <= d < DIMS implies #[trigger] after.distance_cutoffs@[d]
        == before.distance_cutoffs@[d] + stopping(first + second, d) by {
        lemma_count_concat(first, second, d);
        assert(middle.distance_cutoffs@[d] == before.distance_cutoffs@[d] + stopping(first, d));
    }
    lemma_count_concat(first, second, DIMS as int);
}

/// Room left after counting stops.
pub proof fn lemma_room_left(before: SearchDetails, after: SearchDetails, stops: Seq<int>, points: int)
    requires
        counted(before, after, stops),
        has_room(before, stops.len() + points),
    ensures
        has_room(after, points),
{
    assert forall|d: int| 0 <= d < DIMS implies #[trigger] after.distance_steps@[d] + points
        <= u32::MAX by {
        lemma_count_bounds(stops, d);
        assert(before.distance_steps@[d] + (stops.len() + points) <= u32::MAX);
    }
    assert forall|d: int| 0 <= d < DIMS implies #[trigger] after.distance_cutoffs@[d] + points
        <= u32::MAX by {
        lemma_count_bounds(stops, d);
        assert(before.distance_cutoffs@[d] + (stops.len() + points) <= u32::MAX);
    }
    lemma_count_bounds(stops, DIMS as int);
}

/// There is one stop per point.
pub proof fn lemma_cuts_len(near: Seq<Neighbor>, query: Seq<i16>, points: Seq<Point>)
    ensures
        cuts(near, query, points).len() == points.len(),
    decreases points.len(),
{
    if points.len() > 0 {
        lemma_cuts_len(near, query, points.drop_last());
    }
}

/// Stops of the first `d` components are passed when the running distance stays below the ceiling.
proof fn lemma_cut_passes(query: Seq<i16>, values: Seq<i16>, ceiling: int, d: int)
    requires
        in_reach(query, values),
        0 <= d <= DIMS,
        d > 0 ==> partial_distance(query, values, d) < ceiling,
    ensures
        cut_from(query, values, ceiling, 0) == cut_from(query, values, ceiling, d),
    decreases d,
{
    if d > 0 {
        if d > 1 {
            lemma_partial_distance(query, values, d - 1, d);
        }
        lemma_cut_passes(query, values, ceiling, d - 1);
    }
}

/// The counts of a single stop.
proof fn lemma_count_single(stop: int)
    ensures
        forall|d: int| #[trigger] reaching(seq![stop], d) == if stop >= d { 1int } else { 0 },
        forall|d: int| #[trigger] stopping(seq![stop], d) == if stop == d { 1int } else { 0 },
{
    reveal_with_fuel(reaching, 2);
    reveal_with_fuel(stopping, 2);
    assert(seq![stop].drop_last() =~= Seq::<int>::empty());
    assert(seq![stop].last() == stop);
}

/// Compares one point, counting each component.
fn record_point(
    point: &Point,
    first: i16,
    second: i16,
    query: &[i16; DIMS],
    neighbors: &mut NeighborSet,
    details: &mut SearchDetails,
)
    requires
        in_reach(query@, point.values@),
        first == point.values@[0],
        second == point.values@[1],
        has_room(*old(details), 1),
    ensures
        final(neighbors)@ == offer(old(neighbors)@, as_neighbor(query@, *point)),
        recorded(
            *old(details),
            *final(details),
            seq![cut_from(query@, point.values@, worst_of(old(neighbors)@), 0)],
        ),
{
    let ceiling: i64 = neighbors.worst();
    let ghost before = *details;
    let ghost stop = cut_from(query@, point.values@, ceiling as int, 0);
    let mut acc: i64 = 0;
    let mut d: usize = 0;
    while d < DIMS
        invariant
            in_reach(query@, point.values@),
            first == point.values@[0],
            second == point.values@[1],
            has_room(before, 1),
            d <= DIMS,
            acc == partial_distance(query@, point.values@, d as int),
            d > 0 ==> acc < ceiling,
            ceiling == worst_of(neighbors@),
            neighbors@ == old(neighbors)@,
            before == *old(details),
            stop == cut_from(query@, point.values@, ceiling as int, 0),
            *details == (SearchDetails { distance_steps: details.distance_steps, ..before }),
            forall|k: int|
                0 <= k < DIMS ==> #[trigger] details.distance_steps@[k] == before.distance_steps@[k]
                    + if k < d { 1int } else { 0 },
        decreases DIMS - d,
    {
        proof {
            lemma_partial_distance(query@, point.values@, d as int, d as int);
            lemma_cut_passes(query@, point.values@, ceiling as int, d as int);
            assert(-46_340 <= query@[d as int] - point.values@[d as int] <= 46_340);
            assert(before.distance_steps@[d as int] + 1 <= u32::MAX);
            assert(before.distance_cutoffs@[d as int] + 1 <= u32::MAX);
        }
        let value: i16 = if d == 0 {
            first
        } else if d == 1 {
            second
        } else {
            point.values[d]
        };
        details.distance_steps[d] = details.distance_steps[d] + 1;
        acc = acc + squared_delta(query[d], value);
        if acc >= ceiling {
            proof {
                lemma_partial_distance(query@, point.values@, d + 1, DIMS as int);
                lemma_count_single(d as int);
            }
            details.distance_cutoffs[d] = details.distance_cutoffs[d] + 1;
            return;
        }
        d = d + 1;
    }
    proof {
        lemma_cut_passes(query@, point.values@, ceiling as int, d as int);
        lemma_count_single(DIMS as int);
    }
    details.distance_full = details.distance_full + 1;
    details.neighbor_insertions = details.neighbor_insertions + 1;
    neighbors.insert(acc, point.label);
}

/// One more point looked at and counted.
proof fn lemma_next_recorded(near: Seq<Neighbor>, query: Seq<i16>, points: Seq<Point>, i: int)
    requires
        0 <= i < points.len(),
    ensures
        scan(near, query, points.take(i + 1)) == offer(
            scan(near, query, points.take(i)),
            as_neighbor(query, points[i]),
        ),
        cuts(near, query, points.take(i + 1)) == cuts(near, query, points.take(i)) + seq![
            cut_from(
                query,
                points[i].values@,
                worst_of(scan(near, query, points.take(i))),
                0,
            ),
        ],
        cuts(near, query, points.take(i)).len() == i,
{
    assert(points.take(i + 1) =~= points.take(i).push(points[i]));
    assert(points.take(i + 1).drop_last() =~= points.take(i));
    lemma_scan_push(near, query, points.take(i), points[i]);
    lemma_cuts_len(near, query, points.take(i));
}

/// Scans points with their first two components in columns, counting each comparison.
pub fn search_range_instrumented_hot2(
    c0: &[i16],
    c1: &[i16],
    points: &[Point],
    query: &[i16; DIMS],
    neighbors: &mut NeighborSet,
    details: &mut SearchDetails,
)
    requires
        is_column(c0@, points@, 0),
        is_column(c1@, points@, 1),
        all_in_reach(query@, points@),
        has_room(*old(details), points@.len() as int),
    ensures
        final(neighbors)@ == scan(old(neighbors)@, query@, points@),
        recorded(*old(details), *final(details), cuts(old(neighbors)@, query@, points@)),
{
    let ghost near = neighbors@;
    let ghost before = *details;
    let mut index: usize = 0;
    assert(scan(near, query@, points@.take(0)) == near);
    while index < points.len()
        invariant
            index <= points.len(),
            is_column(c0@, points@, 0),
            is_column(c1@, points@, 1),
            all_in_reach(query@, points@),
            has_room(before, points@.len() as int),
            neighbors@ == scan(near, query@, points@.take(index as int)),
            recorded(before, *details, cuts(near, query@, points@.take(index as int))),
        decreases points.len() - index,
    {
        let ghost middle = *details;
        let ghost done = cuts(near, query@, points@.take(index as int));
        let ghost stop = cut_from(query@, points@[index as int].values@, worst_of(neighbors@), 0);
        proof {
            lemma_next_recorded(near, query@, points@, index as int);
            assert(in_reach(query@, points@[index as int].values@));
            lemma_room_left(before, middle, done, points@.len() - index);
        }
        record_point(&points[index], c0[index], c1[index], query, neighbors, details);
        proof {
            lemma_counted_concat(before, middle, *details, done, seq![stop]);
        }
        index = index + 1;
    }
    assert(points@.take(index as int) =~= points@);
}

/// Scans points with their first two components packed, counting each comparison.
pub fn search_range_instrumented_packed_hot2(
    hot2: &[u32],
    points: &[Point],
    query: &[i16; DIMS],
    neighbors: &mut NeighborSet,
    details: &mut SearchDetails,
)
    requires
        is_packed_column(hot2@, points@),
        all_in_reach(query@, points@),
        has_room(*old(details), points@.len() as int),
    ensures
        final(neighbors)@ == scan(old(neighbors)@, query@, points@),
        recorded(*old(details), *final(details), cuts(old(neighbors)@, query@, points@)),
{
    let ghost near = neighbors@;
    let ghost before = *details;
    let mut index: usize = 0;
    assert(scan(near, query@, points@.take(0)) == near);
    while index < points.len()
        invariant
            index <= points.len(),
            is_packed_column(hot2@, points@),
            all_in_reach(query@, points@),
            has_room(before, points@.len() as int),
            neighbors@ == scan(near, query@, points@.take(index as int)),
            recorded(before, *details, cuts(near, query@, points@.take(index as int))),
        decreases points.len() - index,
    {
        let ghost middle = *details;
        let ghost done = cuts(near, query@, points@.take(index as int));
        let ghost stop = cut_from(query@, points@[index as int].values@, worst_of(neighbors@), 0);
        proof {
            lemma_next_recorded(near, query@, points@, index as int);
            assert(in_reach(query@, points@[index as int].values@));
            lemma_room_left(before, middle, done, points@.len() - index);
        }
        let (first, second) = unpack_hot2(hot2[index]);
        record_point(&points[index], first, second, query, neighbors, details);
        proof {
            lemma_counted_concat(before, middle, *details, done, seq![stop]);
        }
        index = index + 1;
    }
    assert(points@.take(index as int) =~= points@);
}

/// A comparison stops at a component or passes them all.
proof fn lemma_cut_range(query: Seq<i16>, values: Seq<i16>, ceiling: int, d: int)
    requires
        0 <= d <= DIMS,
    ensures
        d <= cut_from(query, values, ceiling, d) <= DIMS,
    decreases DIMS - d,
{
    if d < DIMS {
        lemma_cut_range(query, values, ceiling, d + 1);
    }
}

/// The comparisons that get as far as a component are those that stop there and those that get as far
/// as the next.
proof fn lemma_reaching_next(stops: Seq<int>, d: int)
    ensures
        reaching(stops, d) == stopping(stops, d) + reaching(stops, d + 1),
    decreases stops.len(),
{
    if stops.len() > 0 {
        lemma_reaching_next(stops.drop_last(), d);
    }
}

/// Every comparison looks at the first component, and none gets beyond the last.
proof fn lemma_reaching_ends(near: Seq<Neighbor>, query: Seq<i16>, points: Seq<Point>)
    ensures
        reaching(cuts(near, query, points), 0) == points.len(),
        reaching(cuts(near, query, points), DIMS as int) == stopping(
            cuts(near, query, points),
            DIMS as int,
        ),
    decreases points.len(),
{
    if points.len() > 0 {
        let earlier = points.drop_last();
        let all = cuts(near, query, points);
        lemma_reaching_ends(near, query, earlier);
        lemma_cut_range(query, points.last().values@, worst_of(scan(near, query, earlier)), 0);
        assert(all.drop_last() =~= cuts(near, query, earlier));
    }
}

/// Over a run of points the comparisons of a component are those of the one before less the ones cut
/// off there: all points are compared in the first component, and those that are cut off in none are
/// the ones compared in full and the ones taken.
pub proof fn lemma_steps_and_cutoffs(
    before: SearchDetails,
    after: SearchDetails,
    near: Seq<Neighbor>,
    query: Seq<i16>,
    points: Seq<Point>,
)
    requires
        recorded(before, after, cuts(near, query, points)),
    ensures
        after.distance_steps@[0] - before.distance_steps@[0] == points.len(),
        forall|d: int|
            0 <= d < DIMS - 1 ==> #[trigger] after.distance_steps@[d + 1] - before.distance_steps@[d + 1]
                == (after.distance_steps@[d] - before.distance_steps@[d]) - (after.distance_cutoffs@[d]
                - before.distance_cutoffs@[d]),
        (after.distance_steps@[DIMS - 1] - before.distance_steps@[DIMS - 1]) - (
        after.distance_cutoffs@[DIMS - 1] - before.distance_cutoffs@[DIMS - 1]) == after.distance_full
            - before.distance_full,
        after.distance_full - before.distance_full == after.neighbor_insertions
            - before.neighbor_insertions,
{
    let stops = cuts(near, query, points);
    lemma_reaching_ends(near, query, points);
    assert forall|d: int| 0 <= d < DIMS - 1 implies #[trigger] after.distance_steps@[d + 1]
        - before.distance_steps@[d + 1] == (after.distance_steps@[d] - before.distance_steps@[d]) - (
    after.distance_cutoffs@[d] - before.distance_cutoffs@[d]) by {
        lemma_reaching_next(stops, d);
        assert(after.distance_steps@[d] == before.distance_steps@[d] + reaching(stops, d));
        assert(after.distance_cutoffs@[d] == before.distance_cutoffs@[d] + stopping(stops, d));
    }
    lemma_reaching_next(stops, DIMS - 1);
    assert(after.distance_steps@[DIMS - 1] == before.distance_steps@[DIMS - 1] + reaching(
        stops,
        DIMS - 1,
    ));
    assert(after.distance_cutoffs@[DIMS - 1] == before.distance_cutoffs@[DIMS - 1] + stopping(
        stops,
        DIMS - 1,
    ));
    assert(after.distance_steps@[0] == before.distance_steps@[0] + reaching(stops, 0));
}

} // verus!
