//! A limit on the number of points cuts a search off exactly where it is used up.
use vstd::prelude::*;

use crate::index::buckets::Plans;
use crate::index::exactness::{lemma_cell_listing, lemma_sector_listing, lemma_subcell_listing};
use crate::index::geometry::{bucket_of_vector, scanned};
use crate::index::nearest::lemma_none_closer;
use crate::index::neighbors::{full, ranked, vacant, worst_of};
use crate::index::plan::{cell_listing, lemma_plan, sector_listing, subcell_listing};
use crate::index::search::lemma_course;
use crate::index::settling::lemma_open_goes_on;
use crate::index::tour::{allowance, fresh_tour, Tour};
use crate::index::walk::{fresh_walk, Sweep, Walk};
use crate::index::{IndexView, Layout, BUCKETS};

verus! {

/// A walk was cut off at a number of points, or it is the one without a cap.
spec fn cut_or_same(walk: Walk, free: Walk, most: int) -> bool {
    &&& walk.seen.len() <= most
    &&& walk.seen.len() == most || walk == free
}

/// A walk over the parts of a plan is cut off exactly at its cap.
proof fn lemma_parts_cut(sweep: Sweep, plan: Seq<(i64, usize)>, parts: int, k: int, walk: Walk)
    requires
        sweep.cap is Some,
        walk.seen.len() <= sweep.cap->0,
        0 <= k,
        forall|p: int| 0 <= p < parts ==> (#[trigger] sweep.offsets[p]) <= sweep.offsets[p + 1],
        forall|j: int| 0 <= j < plan.len() ==> 0 <= (#[trigger] plan[j]).1 < parts,
    ensures
        cut_or_same(
            sweep.walk_parts(plan, k, walk),
            sweep.uncapped().walk_parts(plan, k, walk),
            sweep.cap->0 as int,
        ),
    decreases plan.len() - k,
{
    if k >= plan.len() || sweep.spent(walk) || sweep.hopeless(walk, plan[k].0 as int) {
    } else {
        let part = plan[k].1 as int;
        assert(0 <= plan[k].1 < parts);
        assert(sweep.offsets[part] <= sweep.offsets[part + 1]);
        if sweep.empty_part(part) {
            lemma_parts_cut(sweep, plan, parts, k + 1, walk);
        } else if !sweep.cut_short(walk, part) {
            lemma_parts_cut(sweep, plan, parts, k + 1, sweep.visit(walk, part));
        }
    }
}

/// A walk over the cells of two plans is cut off exactly at its cap.
proof fn lemma_cells_cut(
    sweep: Sweep,
    sectors: Seq<(i64, usize)>,
    subcells: Seq<(i64, usize)>,
    i: int,
    j: int,
    touched: bool,
    walk: Walk,
)
    requires
        sweep.cap is Some,
        walk.seen.len() <= sweep.cap->0,
        0 <= i,
        0 <= j,
        forall|p: int| 0 <= p < 1_024 ==> (#[trigger] sweep.offsets[p]) <= sweep.offsets[p + 1],
        forall|a: int| 0 <= a < sectors.len() ==> 0 <= (#[trigger] sectors[a]).1 < 64,
        forall|b: int| 0 <= b < subcells.len() ==> 0 <= (#[trigger] subcells[b]).1 < 16,
    ensures
        ({
            let end = sweep.walk_cells(sectors, subcells, i, j, touched, walk);
            let free = sweep.uncapped().walk_cells(sectors, subcells, i, j, touched, walk);
            cut_or_same(end, free, sweep.cap->0 as int)
        }),
    decreases sectors.len() - i, subcells.len() - j,
{
    let left = Walk { sectors: walk.sectors + if touched { 1int } else { 0 }, ..walk };
    if i >= sectors.len() {
    } else if j >= subcells.len() {
        lemma_cells_cut(sweep, sectors, subcells, i + 1, 0, false, left);
    } else if sweep.spent(walk) {
    } else if sweep.hopeless(walk, sectors[i].0 + subcells[j].0) {
        if j != 0 {
            lemma_cells_cut(sweep, sectors, subcells, i + 1, 0, false, left);
        }
    } else {
        let cell = Sweep::cell(sectors, subcells, i, j);
        assert(0 <= sectors[i].1 < 64 && 0 <= subcells[j].1 < 16);
        assert(0 <= cell < 1_024);
        assert(sweep.offsets[cell] <= sweep.offsets[cell + 1]);
        if sweep.empty_part(cell) {
            lemma_cells_cut(sweep, sectors, subcells, i, j + 1, touched, walk);
        } else if !sweep.cut_short(walk, cell) {
            lemma_cells_cut(sweep, sectors, subcells, i, j + 1, true, sweep.visit(walk, cell));
        }
    }
}

/// A bucket contributes exactly as many points as it may, or all that it would without a cap.
proof fn lemma_open_cut(
    index: IndexView,
    vector: Seq<i16>,
    plans: Plans,
    tour: Tour,
    bucket: int,
    bound: int,
    cap: usize,
)
    requires
        index.wf(),
        0 <= bucket < BUCKETS,
        index.plans_for(scanned(vector), plans),
    ensures
        ({
            let next = index.open_bucket(vector, plans, tour, bucket, bound, Some(cap));
            let free = index.open_bucket(vector, plans, tour, bucket, bound, None);
            &&& next.seen.len() <= tour.seen.len() + cap
            &&& next.seen.len() == tour.seen.len() + cap || next == free
            &&& tour.seen.len() <= next.seen.len()
        }),
{
    let query = scanned(vector);
    let fresh = fresh_walk(tour.near);
    lemma_sector_listing(query);
    lemma_plan(plans.sectors, sector_listing(query));
    assert(index.valid_layout(bucket));
    assert(index.offsets[bucket] <= index.offsets[bucket + 1]);
    if index.opens(bucket, Some(cap)) {
        match index.layouts[bucket] {
            Layout::Whole => {},
            Layout::Sectors(offsets) => {
                let sweep = Sweep { points: index.points, query, offsets, bound, cap: Some(cap) };
                lemma_parts_cut(sweep, plans.sectors, 64, 0, fresh);
            },
            Layout::Cells(offsets) => {
                let sweep = Sweep { points: index.points, query, offsets, bound, cap: Some(cap) };
                let dims = index.grid->0;
                assert(index.layouts[bucket] is Cells);
                assert(index.has_cells());
                if index.global {
                    lemma_cell_listing(query, dims);
                    lemma_plan(plans.cells, cell_listing(query, dims));
                    lemma_parts_cut(sweep, plans.cells, 1_024, 0, fresh);
                } else {
                    lemma_subcell_listing(query, dims);
                    lemma_plan(plans.subcells, subcell_listing(query, dims));
                    lemma_cells_cut(sweep, plans.sectors, plans.subcells, 0, 0, false, fresh);
                }
            },
        }
    }
}

/// The rest of a search under a limit is cut off exactly where it is used up.
proof fn lemma_tour_cut(
    index: IndexView,
    vector: Seq<i16>,
    plans: Plans,
    order: Seq<(i64, usize)>,
    limit: u32,
    k: int,
    tour: Tour,
)
    requires
        index.wf(),
        0 <= k,
        index.plans_for(scanned(vector), plans),
        ranked(tour.near),
        worst_of(tour.near) <= vacant(),
        forall|j: int| 0 <= j < order.len() ==> (#[trigger] order[j]).1 < BUCKETS,
    ensures
        ({
            let end = index.limited_tour(vector, plans, order, Some(limit), k, tour);
            let free = index.limited_tour(vector, plans, order, None, k, tour);
            &&& end.tour.seen.len() >= limit || end == free
            &&& full(tour.near) ==> end.tour.seen.len() <= if tour.seen.len() >= limit {
                tour.seen.len() as int
            } else {
                limit as int
            }
        }),
    decreases order.len() - k,
{
    if k >= order.len() || full(tour.near) && order[k].0 >= worst_of(tour.near) || full(tour.near)
        && tour.seen.len() >= limit {
    } else {
        let bucket = order[k].1 as int;
        let bound = order[k].0 as int;
        let cap = allowance(tour.near, Some(limit), tour.seen.len() as int);
        let next = index.open_bucket(vector, plans, tour, bucket, bound, cap);
        let free = index.open_bucket(vector, plans, tour, bucket, bound, None);
        assert(order[k].1 < BUCKETS);
        lemma_open_goes_on(index, vector, plans, tour, bucket, bound, cap);
        lemma_tour_cut(index, vector, plans, order, limit, k + 1, next);
        if cap is Some {
            lemma_open_cut(index, vector, plans, tour, bucket, bound, cap->0);
            if next != free {
                lemma_grows(index, vector, plans, order, limit, k + 1, next);
            }
        }
    }
}

/// A search under a limit only adds to what was looked at.
proof fn lemma_grows(
    index: IndexView,
    vector: Seq<i16>,
    plans: Plans,
    order: Seq<(i64, usize)>,
    limit: u32,
    k: int,
    tour: Tour,
)
    ensures
        tour.seen.len() <= index.limited_tour(vector, plans, order, Some(limit), k, tour).tour.seen.len(),
    decreases order.len() - k,
{
    if k >= order.len() || full(tour.near) && order[k].0 >= worst_of(tour.near) || full(tour.near)
        && tour.seen.len() >= limit {
    } else {
        let cap = allowance(tour.near, Some(limit), tour.seen.len() as int);
        let next = index.open_bucket(vector, plans, tour, order[k].1 as int, order[k].0 as int, cap);
        lemma_grows(index, vector, plans, order, limit, k + 1, next);
    }
}

/// A search under a limit is the one without it, or it looked at as many points as the limit allows.
/// Once the query's own bucket gave five neighbours it looks at no more than that, and at no more than
/// its own bucket where that alone is more.
pub proof fn lemma_limit_is_used_up(
    index: IndexView,
    vector: Seq<i16>,
    plans: Plans,
    order: Seq<(i64, usize)>,
    limit: u32,
)
    requires
        index.wf(),
        index.valid_course(vector, plans, order),
    ensures
        ({
            let own = index.primary_tour(vector, plans);
            let limited = index.limited_search(vector, plans, order, Some(limit));
            let free = index.limited_search(vector, plans, order, None);
            &&& limited == free || limited.tour.seen.len() >= limit
            &&& worst_of(own.near) != i64::MAX ==> limited.tour.seen.len() <= if own.seen.len() >= limit {
                own.seen.len() as int
            } else {
                limit as int
            }
        }),
{
    let start = fresh_tour();
    lemma_course(index, vector, plans, order);
    lemma_none_closer(0);
    lemma_open_goes_on(index, vector, plans, start, bucket_of_vector(vector), 0, None);
    lemma_tour_cut(index, vector, plans, order, limit, 0, index.primary_tour(vector, plans));
}

} // verus!
