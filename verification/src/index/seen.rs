//! Whatever its limits are, a search answers with the five nearest of the points it looked at.
use vstd::prelude::*;

use crate::index::buckets::Plans;
use crate::index::exactness::{lemma_cell_listing, lemma_sector_listing, lemma_subcell_listing};
use crate::index::geometry::{bucket_of_vector, lemma_bucket_of_vector_range, scanned};
use crate::index::nearest::pick;
use crate::index::neighbors::{as_neighbors, full, lemma_scan_concat, no_neighbors, scan, worst_of, Neighbor};
use crate::index::plan::{cell_listing, lemma_plan, sector_listing, subcell_listing};
use crate::index::repair::{repair_called, settle, AdaptivePhase, AdaptivePolicy, RepairPolicy};
use crate::index::search::lemma_course;
use crate::index::tour::{allowance, fresh_tour, wrapped_allowance, Tour};
use crate::index::walk::{clip, fresh_walk, left_of, positions, Sweep, Walk};
use crate::index::{IndexView, Layout, Point, BUCKETS};

verus! {

/// Neighbours are the nearest of earlier ones and of the points at some positions.
pub open spec fn nearest_of(
    points: Seq<Point>,
    query: Seq<i16>,
    before: Seq<Neighbor>,
    near: Seq<Neighbor>,
    seen: Seq<int>,
) -> bool {
    near == scan(before, query, pick(points, seen))
}

/// Looking at a range.
proof fn lemma_look_tells(sweep: Sweep, before: Seq<Neighbor>, walk: Walk, start: int, stop: int)
    requires
        nearest_of(sweep.points, sweep.query, before, walk.near, walk.seen),
        0 <= start <= stop <= sweep.points.len(),
    ensures
        ({
            let next = sweep.look(walk, start, stop);
            nearest_of(sweep.points, sweep.query, before, next.near, next.seen)
        }),
{
    let next = sweep.look(walk, start, stop);
    let part = sweep.points.subrange(start, stop);
    assert(pick(sweep.points, next.seen) =~= pick(sweep.points, walk.seen) + part);
    lemma_scan_concat(before, sweep.query, pick(sweep.points, walk.seen), part);
}

/// Looking at the parts of a plan.
proof fn lemma_parts_tell(
    sweep: Sweep,
    plan: Seq<(i64, usize)>,
    parts: int,
    k: int,
    walk: Walk,
    before: Seq<Neighbor>,
)
    requires
        nearest_of(sweep.points, sweep.query, before, walk.near, walk.seen),
        0 <= k,
        forall|p: int| 0 <= p < parts ==> (#[trigger] sweep.offsets[p]) <= sweep.offsets[p + 1]
            <= sweep.points.len(),
        forall|j: int| 0 <= j < plan.len() ==> 0 <= (#[trigger] plan[j]).1 < parts,
    ensures
        ({
            let end = sweep.walk_parts(plan, k, walk);
            nearest_of(sweep.points, sweep.query, before, end.near, end.seen)
        }),
    decreases plan.len() - k,
{
    if k >= plan.len() || sweep.spent(walk) || sweep.hopeless(walk, plan[k].0 as int) {
    } else {
        let part = plan[k].1 as int;
        assert(0 <= plan[k].1 < parts);
        assert(sweep.offsets[part] <= sweep.offsets[part + 1] <= sweep.points.len());
        if sweep.empty_part(part) {
            lemma_parts_tell(sweep, plan, parts, k + 1, walk, before);
        } else {
            lemma_look_tells(sweep, before, walk, sweep.offsets[part] as int, sweep.stop(walk, part));
            if !sweep.cut_short(walk, part) {
                lemma_parts_tell(sweep, plan, parts, k + 1, sweep.visit(walk, part), before);
            }
        }
    }
}

/// Looking at the cells of two plans.
proof fn lemma_cells_tell(
    sweep: Sweep,
    sectors: Seq<(i64, usize)>,
    subcells: Seq<(i64, usize)>,
    i: int,
    j: int,
    touched: bool,
    walk: Walk,
    before: Seq<Neighbor>,
)
    requires
        nearest_of(sweep.points, sweep.query, before, walk.near, walk.seen),
        0 <= i,
        0 <= j,
        forall|p: int| 0 <= p < 1_024 ==> (#[trigger] sweep.offsets[p]) <= sweep.offsets[p + 1]
            <= sweep.points.len(),
        forall|a: int| 0 <= a < sectors.len() ==> 0 <= (#[trigger] sectors[a]).1 < 64,
        forall|b: int| 0 <= b < subcells.len() ==> 0 <= (#[trigger] subcells[b]).1 < 16,
    ensures
        ({
            let end = sweep.walk_cells(sectors, subcells, i, j, touched, walk);
            nearest_of(sweep.points, sweep.query, before, end.near, end.seen)
        }),
    decreases sectors.len() - i, subcells.len() - j,
{
    let left = Walk { sectors: walk.sectors + if touched { 1int } else { 0 }, ..walk };
    if i >= sectors.len() {
    } else if j >= subcells.len() {
        lemma_cells_tell(sweep, sectors, subcells, i + 1, 0, false, left, before);
    } else if sweep.spent(walk) {
    } else if sweep.hopeless(walk, sectors[i].0 + subcells[j].0) {
        if j != 0 {
            lemma_cells_tell(sweep, sectors, subcells, i + 1, 0, false, left, before);
        }
    } else {
        let cell = Sweep::cell(sectors, subcells, i, j);
        assert(0 <= sectors[i].1 < 64 && 0 <= subcells[j].1 < 16);
        assert(0 <= cell < 1_024);
        assert(sweep.offsets[cell] <= sweep.offsets[cell + 1] <= sweep.points.len());
        if sweep.empty_part(cell) {
            lemma_cells_tell(sweep, sectors, subcells, i, j + 1, touched, walk, before);
        } else {
            lemma_look_tells(sweep, before, walk, sweep.offsets[cell] as int, sweep.stop(walk, cell));
            if !sweep.cut_short(walk, cell) {
                lemma_cells_tell(sweep, sectors, subcells, i, j + 1, true, sweep.visit(walk, cell), before);
            }
        }
    }
}

/// Opening a bucket.
proof fn lemma_open_tells(
    index: IndexView,
    vector: Seq<i16>,
    plans: Plans,
    tour: Tour,
    bucket: int,
    bound: int,
    cap: Option<usize>,
)
    requires
        index.wf(),
        0 <= bucket < BUCKETS,
        index.plans_for(scanned(vector), plans),
        nearest_of(index.points, scanned(vector), no_neighbors(), tour.near, tour.seen),
    ensures
        ({
            let next = index.open_bucket(vector, plans, tour, bucket, bound, cap);
            nearest_of(index.points, scanned(vector), no_neighbors(), next.near, next.seen)
        }),
{
    let query = scanned(vector);
    let fresh = fresh_walk(tour.near);
    let start = index.offsets[bucket] as int;
    let end = index.offsets[bucket + 1] as int;
    lemma_sector_listing(query);
    lemma_plan(plans.sectors, sector_listing(query));
    assert(index.valid_layout(bucket));
    assert(index.offsets[bucket] <= index.offsets[bucket + 1]);
    assert(index.offsets[bucket + 1] <= index.offsets[BUCKETS as int]);
    assert(pick(index.points, fresh.seen) =~= Seq::<Point>::empty());
    assert(as_neighbors(query, Seq::<Point>::empty()) =~= Seq::<Neighbor>::empty());
    assert(nearest_of(index.points, query, tour.near, fresh.near, fresh.seen));
    if index.opens(bucket, cap) {
        match index.layouts[bucket] {
            Layout::Whole => {
                let sweep = Sweep { points: index.points, query, offsets: Seq::empty(), bound, cap };
                lemma_look_tells(sweep, tour.near, fresh, start, clip(start, end, left_of(cap, 0)));
            },
            Layout::Sectors(offsets) => {
                let sweep = Sweep { points: index.points, query, offsets, bound, cap };
                lemma_parts_tell(sweep, plans.sectors, 64, 0, fresh, tour.near);
            },
            Layout::Cells(offsets) => {
                let sweep = Sweep { points: index.points, query, offsets, bound, cap };
                let dims = index.grid->0;
                assert(index.layouts[bucket] is Cells);
                assert(index.has_cells());
                if index.global {
                    lemma_cell_listing(query, dims);
                    lemma_plan(plans.cells, cell_listing(query, dims));
                    lemma_parts_tell(sweep, plans.cells, 1_024, 0, fresh, tour.near);
                } else {
                    lemma_subcell_listing(query, dims);
                    lemma_plan(plans.subcells, subcell_listing(query, dims));
                    lemma_cells_tell(sweep, plans.sectors, plans.subcells, 0, 0, false, fresh, tour.near);
                }
            },
        }
        let walk = index.bucket_walk(query, plans, bucket, bound, cap, tour.near);
        let seen = tour.seen + walk.seen;
        assert(pick(index.points, seen) =~= pick(index.points, tour.seen) + pick(index.points, walk.seen));
        lemma_scan_concat(
            no_neighbors(),
            query,
            pick(index.points, tour.seen),
            pick(index.points, walk.seen),
        );
    }
}

/// What holds of a search and of the candidates it goes over.
spec fn under_way(index: IndexView, vector: Seq<i16>, plans: Plans, order: Seq<(i64, usize)>, tour: Tour) -> bool {
    &&& index.wf()
    &&& index.plans_for(scanned(vector), plans)
    &&& forall|j: int| 0 <= j < order.len() ==> (#[trigger] order[j]).1 < BUCKETS
    &&& nearest_of(index.points, scanned(vector), no_neighbors(), tour.near, tour.seen)
}

/// A search over candidates under a limit.
proof fn lemma_limited_tells(
    index: IndexView,
    vector: Seq<i16>,
    plans: Plans,
    order: Seq<(i64, usize)>,
    limit: Option<u32>,
    k: int,
    tour: Tour,
)
    requires
        0 <= k,
        under_way(index, vector, plans, order, tour),
    ensures
        under_way(
            index,
            vector,
            plans,
            order,
            index.limited_tour(vector, plans, order, limit, k, tour).tour,
        ),
    decreases order.len() - k,
{
    if k >= order.len() || full(tour.near) && order[k].0 >= worst_of(tour.near) || full(tour.near) && (
    limit matches Some(most) && tour.seen.len() >= most) {
    } else {
        let cap = allowance(tour.near, limit, tour.seen.len() as int);
        assert(order[k].1 < BUCKETS);
        lemma_open_tells(index, vector, plans, tour, order[k].1 as int, order[k].0 as int, cap);
        let next = index.open_bucket(vector, plans, tour, order[k].1 as int, order[k].0 as int, cap);
        lemma_limited_tells(index, vector, plans, order, limit, k + 1, next);
    }
}

/// A search with a second limit.
proof fn lemma_repair_tells(
    index: IndexView,
    vector: Seq<i16>,
    plans: Plans,
    order: Seq<(i64, usize)>,
    policy: RepairPolicy,
    repair_points: u32,
    limit: u32,
    repairing: bool,
    k: int,
    tour: Tour,
)
    requires
        0 <= k,
        under_way(index, vector, plans, order, tour),
    ensures
        under_way(
            index,
            vector,
            plans,
            order,
            index.repair_tour(vector, plans, order, policy, repair_points, limit, repairing, k, tour),
        ),
    decreases order.len() - k,
{
    let used_up = full(tour.near) && tour.seen.len() >= limit;
    if k >= order.len() || full(tour.near) && order[k].0 >= worst_of(tour.near) {
    } else if used_up && (repairing || !repair_called(
        policy,
        crate::index::neighbors::vote(tour.near) as u8,
        worst_of(tour.near),
        vector,
    )) {
    } else {
        let now = if used_up { repair_points } else { limit };
        let cap = wrapped_allowance(tour.near, now, tour.seen.len() as int);
        assert(order[k].1 < BUCKETS);
        lemma_open_tells(index, vector, plans, tour, order[k].1 as int, order[k].0 as int, cap);
        let next = index.open_bucket(vector, plans, tour, order[k].1 as int, order[k].0 as int, cap);
        lemma_repair_tells(
            index,
            vector,
            plans,
            order,
            policy,
            repair_points,
            now,
            repairing || used_up,
            k + 1,
            next,
        );
    }
}

/// An adaptive search.
proof fn lemma_adaptive_tells(
    index: IndexView,
    vector: Seq<i16>,
    plans: Plans,
    order: Seq<(i64, usize)>,
    policy: AdaptivePolicy,
    phase: AdaptivePhase,
    limit: u32,
    k: int,
    tour: Tour,
)
    requires
        0 <= k,
        under_way(index, vector, plans, order, tour),
    ensures
        under_way(
            index,
            vector,
            plans,
            order,
            index.adaptive_tour(vector, plans, order, policy, phase, limit, k, tour),
        ),
    decreases order.len() - k,
{
    if k >= order.len() || full(tour.near) && order[k].0 >= worst_of(tour.near) {
    } else if let Some((next_phase, next_limit)) = settle(
        policy,
        vector,
        tour.near,
        tour.seen.len() as int,
        phase,
        limit,
    ) {
        let cap = wrapped_allowance(tour.near, next_limit, tour.seen.len() as int);
        assert(order[k].1 < BUCKETS);
        lemma_open_tells(index, vector, plans, tour, order[k].1 as int, order[k].0 as int, cap);
        let next = index.open_bucket(vector, plans, tour, order[k].1 as int, order[k].0 as int, cap);
        lemma_adaptive_tells(index, vector, plans, order, policy, next_phase, next_limit, k + 1, next);
    }
}

/// Whatever its limits are, a search ends with the five nearest of the points it looked at.
pub proof fn lemma_answers_are_of_seen_points(
    index: IndexView,
    vector: Seq<i16>,
    plans: Plans,
    order: Seq<(i64, usize)>,
    limit: Option<u32>,
    policy: RepairPolicy,
    fast_points: u32,
    repair_points: u32,
    adaptive: AdaptivePolicy,
    early_points: u32,
)
    requires
        index.wf(),
        index.valid_course(vector, plans, order),
    ensures
        ({
            let own = index.primary_tour(vector, plans);
            let limited = index.limited_search(vector, plans, order, limit).tour;
            let repaired = index.repair_search(vector, plans, order, policy, fast_points, repair_points);
            let adapted = index.adaptive_search(vector, plans, order, adaptive, early_points);
            let query = scanned(vector);
            &&& nearest_of(index.points, query, no_neighbors(), own.near, own.seen)
            &&& nearest_of(index.points, query, no_neighbors(), limited.near, limited.seen)
            &&& nearest_of(index.points, query, no_neighbors(), repaired.near, repaired.seen)
            &&& nearest_of(index.points, query, no_neighbors(), adapted.near, adapted.seen)
        }),
{
    let query = scanned(vector);
    let fresh = fresh_tour();
    let own = index.primary_tour(vector, plans);
    lemma_course(index, vector, plans, order);
    lemma_bucket_of_vector_range(vector);
    assert(pick(index.points, fresh.seen) =~= Seq::<Point>::empty());
    assert(as_neighbors(query, Seq::<Point>::empty()) =~= Seq::<Neighbor>::empty());
    lemma_open_tells(index, vector, plans, fresh, bucket_of_vector(vector), 0, None);
    lemma_limited_tells(index, vector, plans, order, limit, 0, own);
    lemma_repair_tells(index, vector, plans, order, policy, repair_points, fast_points, false, 0, own);
    lemma_adaptive_tells(
        index,
        vector,
        plans,
        order,
        adaptive,
        AdaptivePhase::Early,
        early_points,
        0,
        own,
    );
}

} // verus!
