//! Which points a search has looked at, with or without an earlier transaction and whatever its limits.
use vstd::prelude::*;

use crate::index::buckets::Plans;
use crate::index::coverage::settled;
use crate::index::exactness::{lemma_bucket_at, lemma_bucket_keeps, lemma_bucket_last,
    lemma_eager_search_settles, lemma_primary, lemma_sorted_search_settles};
use crate::index::geometry::{bucket_of_point, bucket_of_vector, distance,
    lemma_bucket_of_vector_range, scanned};
use crate::index::nearest::{closer, distances, lemma_brute_is_nearest, lemma_closer_ranked,
    lemma_closer_subset, lemma_none_closer, lemma_pruned_is_nearest, lemma_slots_bounded, pick};
use crate::index::neighbors::{as_neighbors, full, lemma_scan, no_neighbors, ranked, scan, vacant, vote, worst_of,
    Neighbor};
use crate::index::repair::{settle, AdaptivePhase, AdaptivePolicy, RepairPolicy};
use crate::index::soundness::{has_last, lemma_distance_sum, on_grid, plain_query, term};
use crate::index::tour::Tour;
use crate::index::votes::lemma_pruned_vote;
use crate::index::walk::{clip, fresh_walk, left_of, Sweep, Walk};
use crate::index::{IndexView, Layout, Point, BUCKETS};

verus! {

/// Every point that some positions leave out is not nearer than a distance; where only the point has an
/// earlier transaction, it may be nearer by up to 200 000 000.
pub open spec fn leaves_out_no_nearer(
    points: Seq<Point>,
    vector: Seq<i16>,
    seen: Seq<int>,
    worst: int,
) -> bool {
    forall|i: int|
        0 <= i < points.len() && !#[trigger] seen.contains(i) ==> distance(
            scanned(vector),
            points[i].values@,
        ) + (if vector[5] == -10_000 && points[i].values@[0] != -10_000 {
            200_000_000int
        } else {
            0
        }) >= worst
}

/// When every bucket is settled, no nearer point was left out.
proof fn lemma_settled_leaves_out(index: IndexView, vector: Seq<i16>, tour: Tour)
    requires
        index.ready_for(vector),
        forall|b: int| 0 <= b < BUCKETS ==> #[trigger] index.bucket_settled(vector, tour, b),
    ensures
        leaves_out_no_nearer(index.points, vector, tour.seen, worst_of(tour.near)),
{
    assert forall|i: int| 0 <= i < index.points.len() && !#[trigger] tour.seen.contains(i) implies distance(
        scanned(vector),
        index.points[i].values@,
    ) + (if vector[5] == -10_000 && index.points[i].values@[0] != -10_000 {
        200_000_000int
    } else {
        0
    }) >= worst_of(tour.near) by {
        let bucket = lemma_bucket_at(index, BUCKETS as int, i);
        assert(index.bucket_settled(vector, tour, bucket));
        assert(settled(
            index.points,
            scanned(vector),
            tour.near,
            tour.seen,
            i,
            index.slack(vector, bucket),
        ));
        assert(index.faithful_layout(bucket));
        lemma_bucket_last(index.points[i].values@);
    }
}

/// What a search without a limit found are the five nearest of the points it looked at, each once, and
/// it left out no nearer point, also for a query without an earlier transaction and also where buckets
/// are divided; there a point with an earlier transaction may be left out that is nearer by up to
/// 200 000 000, but none without one.
pub proof fn lemma_search_leaves_out_no_nearer(
    index: IndexView,
    vector: Seq<i16>,
    plans: Plans,
    order: Seq<(i64, usize)>,
)
    requires
        index.ready_for(vector),
        index.valid_course(vector, plans, order),
    ensures
        ({
            let sorted = index.limited_search(vector, plans, order, None).tour;
            let eager = index.eager_search(vector, plans);
            &&& sorted.seen.no_duplicates()
            &&& forall|k: int| 0 <= k < sorted.seen.len() ==> 0 <= #[trigger] sorted.seen[k] < index.points.len()
            &&& sorted.near == scan(no_neighbors(), scanned(vector), pick(index.points, sorted.seen))
            &&& leaves_out_no_nearer(index.points, vector, sorted.seen, worst_of(sorted.near))
            &&& eager.seen.no_duplicates()
            &&& forall|k: int| 0 <= k < eager.seen.len() ==> 0 <= #[trigger] eager.seen[k] < index.points.len()
            &&& eager.near == scan(no_neighbors(), scanned(vector), pick(index.points, eager.seen))
            &&& leaves_out_no_nearer(index.points, vector, eager.seen, worst_of(eager.near))
        }),
{
    lemma_sorted_search_settles(index, vector, plans, order);
    lemma_eager_search_settles(index, vector, plans);
    lemma_settled_leaves_out(index, vector, index.limited_search(vector, plans, order, None).tour);
    lemma_settled_leaves_out(index, vector, index.eager_search(vector, plans));
}

/// A query without an earlier transaction is at least 200 000 000 from a point with one.
proof fn lemma_unlike_is_far(vector: Seq<i16>, values: Seq<i16>)
    requires
        plain_query(vector),
        on_grid(values),
        vector[5] == -10_000,
        values[0] != -10_000,
    ensures
        distance(scanned(vector), values) >= 200_000_000,
{
    let query = scanned(vector);
    lemma_distance_sum(query, values);
    let a = values[0] as int;
    let b = values[1] as int;
    assert(query[0] == -10_000 && query[1] == -10_000);
    assert((-10_000 - a) * (-10_000 - a) >= 100_000_000) by (nonlinear_arith)
        requires
            a >= 0,
    ;
    assert((-10_000 - b) * (-10_000 - b) >= 100_000_000) by (nonlinear_arith)
        requires
            b >= 0,
    ;
    assert(term(query, values, 0) >= 100_000_000 && term(query, values, 1) >= 100_000_000);
}

/// No more neighbours are nearer than there are.
proof fn lemma_closer_at_most(items: Seq<Neighbor>, dist: int)
    ensures
        0 <= closer(items, dist) <= items.len(),
    decreases items.len(),
{
    if items.len() > 0 {
        lemma_closer_at_most(items.drop_last(), dist);
    }
}

/// Positions that leave out no nearer point, and of all points five nearer than 200 000 000: what is
/// left out is not nearer than the farthest of the five nearest of the positions.
proof fn lemma_near_five(index: IndexView, vector: Seq<i16>, tour: Tour)
    requires
        index.ready_for(vector),
        index.honest(vector, tour),
        leaves_out_no_nearer(index.points, vector, tour.seen, worst_of(tour.near)),
        has_last(vector) || worst_of(scan(no_neighbors(), scanned(vector), index.points)) < 200_000_000
            || index.points.len() < 5,
    ensures
        distances(tour.near) == distances(scan(no_neighbors(), scanned(vector), index.points)),
        index.border_clear(vector) ==> vote(tour.near) == vote(
            scan(no_neighbors(), scanned(vector), index.points),
        ),
{
    let query = scanned(vector);
    let points = index.points;
    let all = scan(no_neighbors(), query, points);
    if !has_last(vector) && points.len() < 5 {
        lemma_none_closer(0);
        lemma_slots_bounded(no_neighbors(), as_neighbors(query, pick(points, tour.seen)));
        lemma_brute_is_nearest(query, pick(points, tour.seen), vacant());
        lemma_closer_subset(query, points, tour.seen, points.len() as int, vacant());
        assert(points.take(points.len() as int) =~= points);
        lemma_closer_at_most(as_neighbors(query, points), vacant());
        lemma_closer_ranked(tour.near, vacant());
        assert(!(tour.near[0].0 < vacant()));
        assert forall|i: int| 0 <= i < points.len() implies #[trigger] tour.seen.contains(i) by {
            assert(crate::index::kernels::in_reach(query, points[i].values@));
            crate::index::kernels::lemma_partial_distance(query, points[i].values@, 0, 14);
        }
    } else if !has_last(vector) {
        let next = worst_of(all) + 1;
        if worst_of(tour.near) >= next {
            assert forall|i: int| 0 <= i < points.len() && !#[trigger] tour.seen.contains(i) implies distance(
                query,
                points[i].values@,
            ) >= next by {
                assert(on_grid(points[i].values@));
                if points[i].values@[0] != -10_000 {
                    lemma_unlike_is_far(vector, points[i].values@);
                }
            }
            lemma_closer_subset(query, points, tour.seen, points.len() as int, next);
            assert(points.take(points.len() as int) =~= points);
            lemma_none_closer(0);
            lemma_slots_bounded(no_neighbors(), as_neighbors(query, points));
            lemma_brute_is_nearest(query, points, next);
            lemma_brute_is_nearest(query, pick(points, tour.seen), next);
            lemma_closer_ranked(all, next);
            lemma_closer_ranked(tour.near, next);
            assert(all[0].0 < next);
            assert(tour.near[0].0 < next);
        }
    }
    assert forall|i: int| 0 <= i < points.len() && !#[trigger] tour.seen.contains(i) implies distance(
        query,
        points[i].values@,
    ) >= worst_of(tour.near) by {
        assert(on_grid(points[i].values@));
        if !has_last(vector) && points.len() >= 5 && points[i].values@[0] != -10_000 {
            lemma_unlike_is_far(vector, points[i].values@);
        }
    }
    lemma_pruned_is_nearest(query, points, tour.seen);
    if index.border_clear(vector) {
        lemma_pruned_vote(query, points, tour.seen);
    }
}

/// Where the five nearest points are nearer than 200 000 000 or there are fewer than five, and for a
/// query with an earlier transaction always, a search without a limit finds their distances, and their vote unless points as
/// far as the fifth disagree and a sixth is as near, whether or not buckets are divided.
pub proof fn lemma_near_search_is_exact(
    index: IndexView,
    vector: Seq<i16>,
    plans: Plans,
    order: Seq<(i64, usize)>,
)
    requires
        index.ready_for(vector),
        index.valid_course(vector, plans, order),
        vector[5] != -10_000 || worst_of(scan(no_neighbors(), scanned(vector), index.points))
            < 200_000_000 || index.points.len() < 5,
    ensures
        ({
            let nearest = scan(no_neighbors(), scanned(vector), index.points);
            let sorted = index.limited_search(vector, plans, order, None).tour.near;
            let eager = index.eager_search(vector, plans).near;
            &&& distances(sorted) == distances(nearest)
            &&& distances(eager) == distances(nearest)
            &&& index.border_clear(vector) ==> vote(sorted) == vote(nearest) && vote(eager) == vote(nearest)
        }),
{
    lemma_sorted_search_settles(index, vector, plans, order);
    lemma_eager_search_settles(index, vector, plans);
    lemma_search_leaves_out_no_nearer(index, vector, plans, order);
    lemma_near_five(index, vector, index.limited_search(vector, plans, order, None).tour);
    lemma_near_five(index, vector, index.eager_search(vector, plans));
}

/// What was looked at stays looked at, and the farthest neighbour never gets farther.
spec fn walks_on(walk: Walk, later: Walk) -> bool {
    &&& ranked(later.near)
    &&& worst_of(later.near) <= worst_of(walk.near)
    &&& forall|x: int| walk.seen.contains(x) ==> #[trigger] later.seen.contains(x)
}

/// Looking at more points.
proof fn lemma_look_goes_on(sweep: Sweep, walk: Walk, start: int, stop: int)
    requires
        ranked(walk.near),
    ensures
        walks_on(walk, sweep.look(walk, start, stop)),
{
    let next = sweep.look(walk, start, stop);
    lemma_scan(walk.near, sweep.query, sweep.points.subrange(start, stop));
    assert forall|x: int| walk.seen.contains(x) implies #[trigger] next.seen.contains(x) by {
        let k = choose|k: int| 0 <= k < walk.seen.len() && walk.seen[k] == x;
        assert(next.seen[k] == x);
    }
}

/// A walk over the parts of a plan, with or without a cap.
proof fn lemma_parts_go_on(sweep: Sweep, plan: Seq<(i64, usize)>, k: int, walk: Walk)
    requires
        ranked(walk.near),
    ensures
        walks_on(walk, sweep.walk_parts(plan, k, walk)),
    decreases plan.len() - k,
{
    if k >= plan.len() || sweep.spent(walk) || sweep.hopeless(walk, plan[k].0 as int) {
    } else if sweep.empty_part(plan[k].1 as int) {
        lemma_parts_go_on(sweep, plan, k + 1, walk);
    } else {
        let part = plan[k].1 as int;
        let next = sweep.visit(walk, part);
        lemma_look_goes_on(sweep, walk, sweep.offsets[part] as int, sweep.stop(walk, part));
        if !sweep.cut_short(walk, part) {
            lemma_parts_go_on(sweep, plan, k + 1, next);
            let end = sweep.walk_parts(plan, k + 1, next);
            assert forall|x: int| walk.seen.contains(x) implies #[trigger] end.seen.contains(x) by {
                assert(next.seen.contains(x));
            }
        }
    }
}

/// A walk over the cells of two plans, with or without a cap.
proof fn lemma_cells_go_on(
    sweep: Sweep,
    sectors: Seq<(i64, usize)>,
    subcells: Seq<(i64, usize)>,
    i: int,
    j: int,
    touched: bool,
    walk: Walk,
)
    requires
        ranked(walk.near),
    ensures
        walks_on(walk, sweep.walk_cells(sectors, subcells, i, j, touched, walk)),
    decreases sectors.len() - i, subcells.len() - j,
{
    let left = Walk { sectors: walk.sectors + if touched { 1int } else { 0 }, ..walk };
    if i >= sectors.len() {
    } else if j >= subcells.len() {
        lemma_cells_go_on(sweep, sectors, subcells, i + 1, 0, false, left);
    } else if sweep.spent(walk) {
    } else if sweep.hopeless(walk, sectors[i].0 + subcells[j].0) {
        if j != 0 {
            lemma_cells_go_on(sweep, sectors, subcells, i + 1, 0, false, left);
        }
    } else {
        let cell = Sweep::cell(sectors, subcells, i, j);
        if sweep.empty_part(cell) {
            lemma_cells_go_on(sweep, sectors, subcells, i, j + 1, touched, walk);
        } else {
            let next = sweep.visit(walk, cell);
            lemma_look_goes_on(sweep, walk, sweep.offsets[cell] as int, sweep.stop(walk, cell));
            if !sweep.cut_short(walk, cell) {
                lemma_cells_go_on(sweep, sectors, subcells, i, j + 1, true, next);
                let end = sweep.walk_cells(sectors, subcells, i, j + 1, true, next);
                assert forall|x: int| walk.seen.contains(x) implies #[trigger] end.seen.contains(x) by {
                    assert(next.seen.contains(x));
                }
            }
        }
    }
}

/// Opening a bucket, with or without a cap.
pub(crate) proof fn lemma_open_goes_on(
    index: IndexView,
    vector: Seq<i16>,
    plans: Plans,
    tour: Tour,
    bucket: int,
    bound: int,
    cap: Option<usize>,
)
    requires
        ranked(tour.near),
    ensures
        ranked(index.open_bucket(vector, plans, tour, bucket, bound, cap).near),
        index.goes_on(tour, index.open_bucket(vector, plans, tour, bucket, bound, cap)),
{
    if index.opens(bucket, cap) {
        let query = scanned(vector);
        let start = index.offsets[bucket] as int;
        let end = index.offsets[bucket + 1] as int;
        let fresh = fresh_walk(tour.near);
        match index.layouts[bucket] {
            Layout::Whole => {
                let sweep = Sweep { points: index.points, query, offsets: Seq::empty(), bound, cap };
                lemma_look_goes_on(sweep, fresh, start, clip(start, end, left_of(cap, 0)));
            },
            Layout::Sectors(offsets) => {
                let sweep = Sweep { points: index.points, query, offsets, bound, cap };
                lemma_parts_go_on(sweep, plans.sectors, 0, fresh);
            },
            Layout::Cells(offsets) => {
                let sweep = Sweep { points: index.points, query, offsets, bound, cap };
                if index.global {
                    lemma_parts_go_on(sweep, plans.cells, 0, fresh);
                } else {
                    lemma_cells_go_on(sweep, plans.sectors, plans.subcells, 0, 0, false, fresh);
                }
            },
        }
        let next = index.open_bucket(vector, plans, tour, bucket, bound, cap);
        assert forall|x: int| tour.seen.contains(x) implies #[trigger] next.seen.contains(x) by {
            let k = choose|k: int| 0 <= k < tour.seen.len() && tour.seen[k] == x;
            assert(next.seen[k] == x);
        }
    }
}

/// One state comes after another that comes after a third.
proof fn lemma_goes_on_and_on(index: IndexView, tour: Tour, next: Tour, later: Tour)
    requires
        index.goes_on(tour, next),
        index.goes_on(next, later),
    ensures
        index.goes_on(tour, later),
{
    assert forall|x: int| tour.seen.contains(x) implies #[trigger] later.seen.contains(x) by {
        assert(next.seen.contains(x));
    }
}

/// A tour over candidates goes on, whatever its limit.
pub(crate) proof fn lemma_limited_goes_on(
    index: IndexView,
    vector: Seq<i16>,
    plans: Plans,
    order: Seq<(i64, usize)>,
    limit: Option<u32>,
    k: int,
    tour: Tour,
)
    requires
        ranked(tour.near),
    ensures
        index.goes_on(tour, index.limited_tour(vector, plans, order, limit, k, tour).tour),
    decreases order.len() - k,
{
    if k >= order.len() || full(tour.near) && order[k].0 >= worst_of(tour.near) || full(tour.near) && (
    limit matches Some(most) && tour.seen.len() >= most) {
    } else {
        let cap = crate::index::tour::allowance(tour.near, limit, tour.seen.len() as int);
        let next = index.open_bucket(vector, plans, tour, order[k].1 as int, order[k].0 as int, cap);
        lemma_open_goes_on(index, vector, plans, tour, order[k].1 as int, order[k].0 as int, cap);
        lemma_limited_goes_on(index, vector, plans, order, limit, k + 1, next);
        lemma_goes_on_and_on(
            index,
            tour,
            next,
            index.limited_tour(vector, plans, order, limit, k + 1, next).tour,
        );
    }
}

/// A tour with a second limit goes on.
proof fn lemma_repair_goes_on(
    index: IndexView,
    vector: Seq<i16>,
    plans: Plans,
    order: Seq<(i64, usize)>,
    policy: RepairPolicy,
    repair_points: u32,
    limit: u32,
    repairing: bool,
    k: int,
    tour: Tour,
)
    requires
        ranked(tour.near),
    ensures
        index.goes_on(
            tour,
            index.repair_tour(
                vector,
                plans,
                order,
                policy,
                repair_points,
                limit,
                repairing,
                k,
                tour,
            ),
        ),
    decreases order.len() - k,
{
    let used_up = full(tour.near) && tour.seen.len() >= limit;
    let end = index.repair_tour(vector, plans, order, policy, repair_points, limit, repairing, k, tour);
    if k < order.len() && end != tour {
        let now = if used_up { repair_points } else { limit };
        let cap = crate::index::tour::wrapped_allowance(tour.near, now, tour.seen.len() as int);
        let next = index.open_bucket(vector, plans, tour, order[k].1 as int, order[k].0 as int, cap);
        lemma_open_goes_on(index, vector, plans, tour, order[k].1 as int, order[k].0 as int, cap);
        lemma_repair_goes_on(
            index,
            vector,
            plans,
            order,
            policy,
            repair_points,
            now,
            repairing || used_up,
            k + 1,
            next,
        );
        lemma_goes_on_and_on(index, tour, next, end);
    }
}

/// An adaptive tour goes on.
proof fn lemma_adaptive_goes_on(
    index: IndexView,
    vector: Seq<i16>,
    plans: Plans,
    order: Seq<(i64, usize)>,
    policy: AdaptivePolicy,
    phase: AdaptivePhase,
    limit: u32,
    k: int,
    tour: Tour,
)
    requires
        ranked(tour.near),
    ensures
        index.goes_on(
            tour,
            index.adaptive_tour(vector, plans, order, policy, phase, limit, k, tour),
        ),
    decreases order.len() - k,
{
    if k >= order.len() || full(tour.near) && order[k].0 >= worst_of(tour.near) {
    } else if let Some((next_phase, next_limit)) = settle(
        policy,
        vector,
        tour.near,
        tour.seen.len() as int,
        phase,
        limit,
    ) {
        let cap = crate::index::tour::wrapped_allowance(tour.near, next_limit, tour.seen.len() as int);
        let next = index.open_bucket(vector, plans, tour, order[k].1 as int, order[k].0 as int, cap);
        lemma_open_goes_on(index, vector, plans, tour, order[k].1 as int, order[k].0 as int, cap);
        lemma_adaptive_goes_on(index, vector, plans, order, policy, next_phase, next_limit, k + 1, next);
        lemma_goes_on_and_on(
            index,
            tour,
            next,
            index.adaptive_tour(vector, plans, order, policy, next_phase, next_limit, k + 1, next),
        );
    }
}

/// Every point of the query's own bucket was looked at or is not nearer than the farthest neighbour.
pub open spec fn own_bucket_settled(
    points: Seq<Point>,
    vector: Seq<i16>,
    seen: Seq<int>,
    worst: int,
) -> bool {
    forall|i: int|
        0 <= i < points.len() && bucket_of_point((#[trigger] points[i]).values@) == bucket_of_vector(vector)
            ==> seen.contains(i) || distance(scanned(vector), points[i].values@) >= worst
}

/// A settled own bucket leaves out no nearer point of it.
proof fn lemma_own_bucket(index: IndexView, vector: Seq<i16>, tour: Tour)
    requires
        index.ready_for(vector),
        index.bucket_settled(vector, tour, bucket_of_vector(vector)),
    ensures
        own_bucket_settled(index.points, vector, tour.seen, worst_of(tour.near)),
{
    let own = bucket_of_vector(vector);
    lemma_bucket_of_vector_range(vector);
    assert(index.faithful_layout(own));
    assert forall|i: int|
        0 <= i < index.points.len() && bucket_of_point((#[trigger] index.points[i]).values@) == own implies tour.seen.contains(
    i) || distance(scanned(vector), index.points[i].values@) >= worst_of(tour.near) by {
        let bucket = lemma_bucket_at(index, BUCKETS as int, i);
        assert(bucket == own);
        assert(settled(index.points, scanned(vector), tour.near, tour.seen, i, index.slack(vector, own)));
        lemma_own_flag(vector, index.points[i].values@);
        lemma_bucket_last(index.points[i].values@);
    }
}

/// A point in the query's own bucket has an earlier transaction if and only if the query has.
proof fn lemma_own_flag(vector: Seq<i16>, values: Seq<i16>)
    requires
        vector.len() == 14,
        bucket_of_point(values) == bucket_of_vector(vector),
    ensures
        values[0] != -10_000 <==> vector[5] != -10_000,
{
    lemma_bucket_last(values);
    lemma_bucket_last(scanned(vector));
    crate::index::geometry::lemma_scan_order_keeps_bucket(vector);
}

/// The query's own bucket is always looked at, whatever the limits of a search are and whatever it is
/// for: each of its points was looked at or is not nearer than the farthest neighbour in the end.
pub proof fn lemma_own_bucket_is_searched(
    index: IndexView,
    vector: Seq<i16>,
    plans: Plans,
    order: Seq<(i64, usize)>,
    limit: Option<u32>,
    policy: RepairPolicy,
    fast_points: u32,
    repair_points: u32,
    adaptive: AdaptivePolicy,
    early_points: u32,
)
    requires
        index.ready_for(vector),
        index.valid_course(vector, plans, order),
    ensures
        ({
            let primary = index.primary_tour(vector, plans);
            let limited = index.limited_search(vector, plans, order, limit).tour;
            let eager = index.eager_search(vector, plans);
            let repaired = index.repair_search(
                vector,
                plans,
                order,
                policy,
                fast_points,
                repair_points,
            );
            let adapted = index.adaptive_search(vector, plans, order, adaptive, early_points);
            &&& own_bucket_settled(index.points, vector, primary.seen, worst_of(primary.near))
            &&& own_bucket_settled(index.points, vector, limited.seen, worst_of(limited.near))
            &&& own_bucket_settled(index.points, vector, eager.seen, worst_of(eager.near))
            &&& own_bucket_settled(index.points, vector, repaired.seen, worst_of(repaired.near))
            &&& own_bucket_settled(index.points, vector, adapted.seen, worst_of(adapted.near))
        }),
{
    let own = bucket_of_vector(vector);
    let start = index.primary_tour(vector, plans);
    let limited = index.limited_search(vector, plans, order, limit).tour;
    let repaired = index.repair_search(vector, plans, order, policy, fast_points, repair_points);
    let adapted = index.adaptive_search(vector, plans, order, adaptive, early_points);
    lemma_bucket_of_vector_range(vector);
    lemma_primary(index, vector, plans);
    lemma_own_bucket(index, vector, start);
    lemma_limited_goes_on(index, vector, plans, order, limit, 0, start);
    lemma_bucket_keeps(index, vector, start, limited, own);
    lemma_own_bucket(index, vector, limited);
    lemma_eager_search_settles(index, vector, plans);
    assert(index.bucket_settled(vector, index.eager_search(vector, plans), own));
    lemma_own_bucket(index, vector, index.eager_search(vector, plans));
    lemma_repair_goes_on(
        index,
        vector,
        plans,
        order,
        policy,
        repair_points,
        fast_points,
        false,
        0,
        start,
    );
    lemma_bucket_keeps(index, vector, start, repaired, own);
    lemma_own_bucket(index, vector, repaired);
    lemma_adaptive_goes_on(
        index,
        vector,
        plans,
        order,
        adaptive,
        AdaptivePhase::Early,
        early_points,
        0,
        start,
    );
    lemma_bucket_keeps(index, vector, start, adapted, own);
    lemma_own_bucket(index, vector, adapted);
}

} // verus!
