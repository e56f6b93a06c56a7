//! A search without a limit finds the same distances as looking at every point.
use vstd::prelude::*;

use crate::index::buckets::Plans;
use crate::index::coverage::{lemma_look, looked_at, settled};
use crate::index::geometry::{axis_hi, axis_lo, bucket_gap, bucket_has_last, bucket_of_point,
    bucket_of_vector, cell_gap, cell_of_point, distance, lemma_axis_step_range, lemma_bucket_number,
    lemma_bucket_of_vector_range, lemma_square_bound, mcc_level, point_flag_bits, scanned,
    sector_gap, sector_of_point, subcell_gap};
use crate::index::nearest::{distances, lemma_none_closer, lemma_pruned_is_nearest, pick};
use crate::index::neighbors::{full, no_neighbors, ranked, scan, worst_of, Neighbor, vote};
use crate::index::plan::{cell_listing, lemma_ordering, lemma_plan, numbered, plan_fits,
    sector_listing, subcell_listing};
use crate::index::search::{lemma_course, lemma_gap_bound};
use crate::index::soundness::{free_axes, has_last, lemma_bucket_bound, lemma_cell_bound, lemma_sector_bound,
    on_grid, plain_query};
use crate::index::tour::{beyond, ceiling_of, fresh_tour, lemma_candidates, lemma_occupied, Tour};
use crate::index::votes::{clear_border, lemma_pruned_vote};
use crate::index::walk::{fresh_walk, Sweep, Walk};
use crate::index::{occupied, IndexView, Layout, Point, BUCKETS, IVF_CELLS, IVF_SUBCELLS, RATIO_BUCKETS,
    RATIO_WIDTH, SECTORS, TX_BUCKETS, TX_STEP};

verus! {

impl IndexView {
    /// A position lies in a bucket.
    pub open spec fn bucket_has(self, bucket: int, i: int) -> bool {
        self.offsets[bucket] <= i < self.offsets[bucket + 1]
    }

    /// A position lies in a part of a bucket.
    pub open spec fn part_has(self, parts: Seq<u32>, part: int, i: int) -> bool {
        parts[part] <= i < parts[part + 1]
    }

    /// The parts of a bucket hold the points that belong in them; only buckets whose points have an
    /// earlier transaction are divided.
    pub open spec fn faithful_layout(self, bucket: int) -> bool {
        match self.layouts[bucket] {
            Layout::Whole => true,
            Layout::Sectors(parts) => bucket_has_last(bucket) && forall|p: int, i: int|
                0 <= p < SECTORS && #[trigger] self.part_has(parts, p, i) ==> sector_of_point(
                    self.points[i].values@,
                ) == p,
            Layout::Cells(parts) => bucket_has_last(bucket) && (self.grid matches Some(dims)
                && forall|p: int, i: int|
                0 <= p < IVF_CELLS && #[trigger] self.part_has(parts, p, i) ==> cell_of_point(
                    self.points[i].values@,
                    dims,
                ) == p),
        }
    }

    /// Every point stands in its bucket and in its part of the bucket.
    pub open spec fn faithful(self) -> bool {
        &&& self.wf()
        &&& self.offsets[0] == 0
        &&& self.offsets[BUCKETS as int] == self.points.len()
        &&& forall|b: int, i: int|
            0 <= b < BUCKETS && #[trigger] self.bucket_has(b, i) ==> bucket_of_point(
                self.points[i].values@,
            ) == b
        &&& forall|b: int| 0 <= b < BUCKETS ==> #[trigger] self.faithful_layout(b)
    }

    /// Every point has values such as features have.
    pub open spec fn all_on_grid(self) -> bool {
        forall|i: int| 0 <= i < self.points.len() ==> on_grid(#[trigger] self.points[i].values@)
    }

    /// No bucket is divided.
    pub open spec fn undivided(self) -> bool {
        forall|b: int| 0 <= b < BUCKETS ==> #[trigger] self.layouts[b] is Whole
    }

    /// The index is faithful, points and query have values such as features have, and the axes of a
    /// cell grid are free.
    pub open spec fn ready_for(self, vector: Seq<i16>) -> bool {
        &&& self.faithful()
        &&& self.all_on_grid()
        &&& self.admits(vector)
        &&& plain_query(vector)
        &&& self.has_cells() ==> free_axes(self.grid->0)
    }

    /// The bounds of the index hold for a query: the index is faithful, points and query have values
    /// such as features have, the query has an earlier transaction unless no bucket is divided, and
    /// the axes of a cell grid are free.
    pub open spec fn bounds_hold(self, vector: Seq<i16>) -> bool {
        &&& self.ready_for(vector)
        &&& has_last(vector) || self.undivided()
    }

    /// By how much the bounds of a bucket and its parts may exceed a distance: by nothing, but for a
    /// query without an earlier transaction in a divided bucket, whose points have one; there both
    /// bounds count the gap that comes from its absence.
    pub open spec fn slack(self, vector: Seq<i16>, bucket: int) -> int {
        if has_last(vector) || self.layouts[bucket] is Whole { 0 } else { 200_000_000 }
    }

    /// Points as far from the query as its fifth neighbour have the same label, or no sixth point is
    /// as near.
    pub open spec fn border_clear(self, vector: Seq<i16>) -> bool {
        clear_border(
            scanned(vector),
            self.points,
            worst_of(scan(no_neighbors(), scanned(vector), self.points)),
        )
    }

    /// The search has looked at points, each once.
    pub open spec fn honest(self, vector: Seq<i16>, tour: Tour) -> bool {
        looked_at(
            self.points,
            scanned(vector),
            no_neighbors(),
            tour.near,
            tour.seen,
            0,
            self.points.len() as int,
        )
    }

    /// Every point of a bucket was looked at or is not nearer than the farthest neighbour, give or take
    /// the bucket's slack.
    pub open spec fn bucket_settled(self, vector: Seq<i16>, tour: Tour, bucket: int) -> bool {
        forall|i: int| #[trigger]
            self.bucket_has(bucket, i) ==> settled(
                self.points,
                scanned(vector),
                tour.near,
                tour.seen,
                i,
                self.slack(vector, bucket),
            )
    }

    /// No point of a bucket was looked at.
    pub open spec fn bucket_untouched(self, tour: Tour, bucket: int) -> bool {
        forall|x: int| #[trigger] tour.seen.contains(x) ==> !self.bucket_has(bucket, x)
    }

    /// One search state comes after another: what was looked at stays, and the farthest neighbour
    /// never gets farther.
    pub open spec fn goes_on(self, tour: Tour, later: Tour) -> bool {
        &&& worst_of(later.near) <= worst_of(tour.near)
        &&& forall|x: int| tour.seen.contains(x) ==> #[trigger] later.seen.contains(x)
    }
}

/// A gap on an axis is of ordinary size.
proof fn lemma_axis_gap_range(query: i16, lo: int, hi: int)
    requires
        0 <= lo <= 10_000,
        0 <= hi <= 10_000,
    ensures
        0 <= crate::index::geometry::interval_gap(query as int, lo, hi) <= 2_147_395_600,
{
    lemma_square_bound(query - lo, 46_340);
    lemma_square_bound(query - hi, 46_340);
}

/// The list of sectors is numbered and of ordinary size.
pub(crate) proof fn lemma_sector_listing(query: Seq<i16>)
    ensures
        numbered(sector_listing(query)),
        plan_fits(sector_listing(query), SECTORS as int),
        forall|p: int| 0 <= p < SECTORS ==> (#[trigger] sector_listing(query)[p]).0 == sector_gap(query, p),
{
    assert forall|p: int| 0 <= p < SECTORS implies 0 <= #[trigger] sector_gap(query, p) <= 8_589_582_400 by {
        lemma_axis_gap_range(query[0], axis_lo(p / 8, 1_250), axis_hi(p / 8, 1_250, 8));
        lemma_axis_gap_range(query[1], axis_lo(p % 8, 1_250), axis_hi(p % 8, 1_250, 8));
    }
}

/// The list of subcells is numbered and of ordinary size.
pub(crate) proof fn lemma_subcell_listing(query: Seq<i16>, dims: (usize, usize))
    ensures
        numbered(subcell_listing(query, dims)),
        plan_fits(subcell_listing(query, dims), IVF_SUBCELLS as int),
        forall|p: int|
            0 <= p < IVF_SUBCELLS ==> (#[trigger] subcell_listing(query, dims)[p]).0 == subcell_gap(
                query,
                dims,
                p,
            ),
        forall|p: int|
            0 <= p < IVF_SUBCELLS ==> 0 <= #[trigger] subcell_gap(query, dims, p) <= 4_294_791_200,
{
    assert forall|p: int| 0 <= p < IVF_SUBCELLS implies 0 <= #[trigger] subcell_gap(query, dims, p)
        <= 4_294_791_200 by {
        lemma_axis_gap_range(query[dims.0 as int], axis_lo(p / 4, 2_500), axis_hi(p / 4, 2_500, 4));
        lemma_axis_gap_range(query[dims.1 as int], axis_lo(p % 4, 2_500), axis_hi(p % 4, 2_500, 4));
    }
}

/// The list of cells is numbered and of ordinary size.
pub(crate) proof fn lemma_cell_listing(query: Seq<i16>, dims: (usize, usize))
    ensures
        numbered(cell_listing(query, dims)),
        plan_fits(cell_listing(query, dims), IVF_CELLS as int),
        forall|p: int|
            0 <= p < IVF_CELLS ==> (#[trigger] cell_listing(query, dims)[p]).0 == cell_gap(
                query,
                dims,
                p,
            ),
{
    assert forall|p: int| 0 <= p < IVF_CELLS implies 0 <= #[trigger] cell_gap(query, dims, p)
        <= 8_589_582_400 by {
        let s = p / 16;
        lemma_axis_gap_range(query[0], axis_lo(s / 8, 1_250), axis_hi(s / 8, 1_250, 8));
        lemma_axis_gap_range(query[1], axis_lo(s % 8, 1_250), axis_hi(s % 8, 1_250, 8));
        lemma_subcell_listing(query, dims);
        assert(0 <= subcell_gap(query, dims, p % 16) <= 4_294_791_200);
    }
}

/// The points of a bucket that says so have an earlier transaction.
pub(crate) proof fn lemma_bucket_last(values: Seq<i16>)
    ensures
        bucket_has_last(bucket_of_point(values)) <==> values[0] != -10_000,
{
    lemma_axis_step_range(values[5] as int, TX_STEP as int, TX_BUCKETS as int);
    lemma_axis_step_range(values[3] as int, RATIO_WIDTH as int, RATIO_BUCKETS as int);
    lemma_bucket_number(
        point_flag_bits(values),
        mcc_level(values[6] as int),
        crate::index::geometry::axis_step(values[5] as int, TX_STEP as int, TX_BUCKETS as int),
        crate::index::geometry::axis_step(values[3] as int, RATIO_WIDTH as int, RATIO_BUCKETS as int),
    );
}

/// Scanning a bucket without a cap settles all its points.
pub proof fn lemma_bucket_walk(
    index: IndexView,
    vector: Seq<i16>,
    plans: Plans,
    bucket: int,
    bound: int,
    near: Seq<Neighbor>,
)
    requires
        index.ready_for(vector),
        index.plans_for(scanned(vector), plans),
        0 <= bucket < BUCKETS,
        bound <= bucket_gap(vector, bucket),
        ranked(near),
    ensures
        ({
            let walk = index.bucket_walk(scanned(vector), plans, bucket, bound, None, near);
            &&& looked_at(
                index.points,
                scanned(vector),
                near,
                walk.near,
                walk.seen,
                index.offsets[bucket] as int,
                index.offsets[bucket + 1] as int,
            )
            &&& worst_of(walk.near) <= worst_of(near)
            &&& forall|i: int| #[trigger]
                index.bucket_has(bucket, i) ==> settled(
                    index.points,
                    scanned(vector),
                    walk.near,
                    walk.seen,
                    i,
                    index.slack(vector, bucket),
                )
        }),
{
    let query = scanned(vector);
    let start = index.offsets[bucket] as int;
    let end = index.offsets[bucket + 1] as int;
    let walk = index.bucket_walk(query, plans, bucket, bound, None, near);
    let slack = index.slack(vector, bucket);
    assert(index.offsets[bucket] <= index.offsets[bucket + 1]);
    assert(index.offsets[bucket + 1] <= index.offsets[BUCKETS as int]);
    assert(index.valid_layout(bucket));
    assert(index.faithful_layout(bucket));
    assert(pick(index.points, fresh_walk(near).seen) =~= Seq::<Point>::empty());
    assert(scan(near, query, Seq::<Point>::empty()) == near) by {
        assert(crate::index::neighbors::as_neighbors(query, Seq::<Point>::empty()) =~= Seq::<
            Neighbor,
        >::empty());
    }
    match index.layouts[bucket] {
        Layout::Whole => {
            let sweep = Sweep { points: index.points, query, offsets: Seq::empty(), bound, cap: None };
            lemma_look(sweep, fresh_walk(near), near, start, end, start, end);
            assert forall|i: int| #[trigger] index.bucket_has(bucket, i) implies settled(
                index.points,
                query,
                walk.near,
                walk.seen,
                i,
                index.slack(vector, bucket),
            ) by {
                assert(walk.seen.contains(i));
            }
        },
        Layout::Sectors(parts) => {
            let sweep = Sweep { points: index.points, query, offsets: parts, bound, cap: None };
            lemma_sector_listing(query);
            lemma_plan(plans.sectors, sector_listing(query));
            assert forall|j: int| 0 <= j < plans.sectors.len() implies sweep.bound_holds(
                (#[trigger] plans.sectors[j]).1 as int,
                plans.sectors[j].0 as int,
                slack,
            ) by {
                let p = plans.sectors[j].1 as int;
                assert(plans.sectors[j] == sector_listing(query)[p]);
                assert forall|i: int| #[trigger] sweep.part_has(p, i) implies sweep.bound
                    + plans.sectors[j].0 <= distance(query, index.points[i].values@) + slack by {
                    lemma_divided_point(index, vector, bucket, parts, SECTORS as int, p, i);
                    assert(index.part_has(parts, p, i));
                    lemma_sector_bound(vector, index.points[i].values@);
                }
            }
            sweep.lemma_walk_parts(plans.sectors, 0, fresh_walk(near), near, SECTORS as int, slack);
            assert forall|i: int| #[trigger] index.bucket_has(bucket, i) implies settled(
                index.points,
                query,
                walk.near,
                walk.seen,
                i,
                index.slack(vector, bucket),
            ) by {
                let p = sweep.lemma_part_of(SECTORS as int, i);
                assert(plans.sectors.contains(sector_listing(query)[p]));
                let j = choose|j: int|
                    0 <= j < plans.sectors.len() && plans.sectors[j] == sector_listing(query)[p];
                assert(sweep.part_settled(walk, plans.sectors[j].1 as int, slack));
            }
        },
        Layout::Cells(parts) => {
            let sweep = Sweep { points: index.points, query, offsets: parts, bound, cap: None };
            let dims = index.grid->0;
            assert(index.layouts[bucket] is Cells);
            assert(index.has_cells());
            if index.global {
                lemma_cell_listing(query, dims);
                lemma_plan(plans.cells, cell_listing(query, dims));
                assert forall|j: int| 0 <= j < plans.cells.len() implies sweep.bound_holds(
                    (#[trigger] plans.cells[j]).1 as int,
                    plans.cells[j].0 as int,
                    slack,
                ) by {
                    let p = plans.cells[j].1 as int;
                    assert(plans.cells[j] == cell_listing(query, dims)[p]);
                    assert forall|i: int| #[trigger] sweep.part_has(p, i) implies sweep.bound
                        + plans.cells[j].0 <= distance(query, index.points[i].values@) + slack by {
                        lemma_divided_point(index, vector, bucket, parts, IVF_CELLS as int, p, i);
                        assert(index.part_has(parts, p, i));
                        lemma_cell_bound(vector, index.points[i].values@, dims);
                    }
                }
                sweep.lemma_walk_parts(plans.cells, 0, fresh_walk(near), near, IVF_CELLS as int, slack);
                assert forall|i: int| #[trigger] index.bucket_has(bucket, i) implies settled(
                    index.points,
                    query,
                    walk.near,
                    walk.seen,
                    i,
                    index.slack(vector, bucket),
                ) by {
                    let p = sweep.lemma_part_of(IVF_CELLS as int, i);
                    assert(plans.cells.contains(cell_listing(query, dims)[p]));
                    let j = choose|j: int|
                        0 <= j < plans.cells.len() && plans.cells[j] == cell_listing(query, dims)[p];
                    assert(sweep.part_settled(walk, plans.cells[j].1 as int, slack));
                }
            } else {
                lemma_sector_listing(query);
                lemma_plan(plans.sectors, sector_listing(query));
                lemma_subcell_listing(query, dims);
                lemma_plan(plans.subcells, subcell_listing(query, dims));
                lemma_nested_bounds(index, vector, plans, bucket, parts, bound);
                sweep.lemma_walk_cells(
                    plans.sectors,
                    plans.subcells,
                    0,
                    0,
                    false,
                    fresh_walk(near),
                    near,
                    slack,
                );
                assert forall|i: int| #[trigger] index.bucket_has(bucket, i) implies settled(
                    index.points,
                    query,
                    walk.near,
                    walk.seen,
                    i,
                    index.slack(vector, bucket),
                ) by {
                    let p = sweep.lemma_part_of(IVF_CELLS as int, i);
                    let s = p / 16;
                    let c = p % 16;
                    assert(plans.sectors.contains(sector_listing(query)[s]));
                    assert(plans.subcells.contains(subcell_listing(query, dims)[c]));
                    let a = choose|a: int|
                        0 <= a < plans.sectors.len() && plans.sectors[a] == sector_listing(query)[s];
                    let b = choose|b: int|
                        0 <= b < plans.subcells.len() && plans.subcells[b] == subcell_listing(
                            query,
                            dims,
                        )[c];
                    assert(sector_listing(query)[s].1 == s);
                    assert(subcell_listing(query, dims)[c].1 == c);
                    assert(Sweep::cell(plans.sectors, plans.subcells, a, b) == p);
                    assert(sweep.part_settled(
                        walk,
                        Sweep::cell(plans.sectors, plans.subcells, a, b),
                        slack,
                    ));
                }
            }
        },
    }
}

/// What holds of a point of a divided bucket.
proof fn lemma_divided_point(
    index: IndexView,
    vector: Seq<i16>,
    bucket: int,
    parts: Seq<u32>,
    count: int,
    part: int,
    i: int,
)
    requires
        index.ready_for(vector),
        0 <= bucket < BUCKETS,
        !(index.layouts[bucket] is Whole),
        crate::index::valid_parts(parts, count, index.offsets[bucket], index.offsets[bucket + 1]),
        0 <= part < count,
        parts[part] <= i < parts[part + 1],
    ensures
        0 <= i < index.points.len(),
        bucket_of_point(index.points[i].values@) == bucket,
        index.points[i].values@[0] != -10_000,
        on_grid(index.points[i].values@),
{
    assert(parts[0] <= parts[part]);
    assert(parts[part + 1] <= parts[count]);
    assert(index.offsets[bucket + 1] <= index.offsets[BUCKETS as int]);
    assert(index.bucket_has(bucket, i));
    assert(index.faithful_layout(bucket));
    lemma_bucket_last(index.points[i].values@);
    assert(on_grid(index.points[i].values@));
}

/// The bounds of sectors and subcells hold for the cells they meet in.
proof fn lemma_nested_bounds(
    index: IndexView,
    vector: Seq<i16>,
    plans: Plans,
    bucket: int,
    parts: Seq<u32>,
    bound: int,
)
    requires
        index.ready_for(vector),
        index.plans_for(scanned(vector), plans),
        0 <= bucket < BUCKETS,
        bound <= bucket_gap(vector, bucket),
        index.layouts[bucket] == Layout::Cells(parts),
        !index.global,
    ensures
        forall|a: int, b: int|
            0 <= a < plans.sectors.len() && 0 <= b < plans.subcells.len() ==> (Sweep {
                points: index.points,
                query: scanned(vector),
                offsets: parts,
                bound,
                cap: None,
            }).bound_holds(
                #[trigger] Sweep::cell(plans.sectors, plans.subcells, a, b),
                plans.sectors[a].0 + plans.subcells[b].0,
                index.slack(vector, bucket),
            ),
{
    let query = scanned(vector);
    let dims = index.grid->0;
    let slack = index.slack(vector, bucket);
    let sweep = Sweep { points: index.points, query, offsets: parts, bound, cap: None };
    assert(index.valid_layout(bucket));
    assert(index.faithful_layout(bucket));
    assert(index.layouts[bucket] is Cells);
    assert(index.has_cells());
    lemma_sector_listing(query);
    lemma_plan(plans.sectors, sector_listing(query));
    lemma_subcell_listing(query, dims);
    lemma_plan(plans.subcells, subcell_listing(query, dims));
    assert forall|a: int, b: int|
        0 <= a < plans.sectors.len() && 0 <= b < plans.subcells.len() implies sweep.bound_holds(
        #[trigger] Sweep::cell(plans.sectors, plans.subcells, a, b),
        plans.sectors[a].0 + plans.subcells[b].0,
        slack,
    ) by {
        let cell = Sweep::cell(plans.sectors, plans.subcells, a, b);
        let s = plans.sectors[a].1 as int;
        let c = plans.subcells[b].1 as int;
        assert(plans.sectors[a] == sector_listing(query)[s]);
        assert(plans.subcells[b] == subcell_listing(query, dims)[c]);
        assert(cell / 16 == s && cell % 16 == c);
        assert forall|i: int| #[trigger] sweep.part_has(cell, i) implies sweep.bound
            + plans.sectors[a].0 + plans.subcells[b].0 <= distance(query, index.points[i].values@) + slack by {
            lemma_divided_point(index, vector, bucket, parts, IVF_CELLS as int, cell, i);
            assert(index.part_has(parts, cell, i));
            lemma_cell_bound(vector, index.points[i].values@, dims);
        }
    }
}

/// Opening a bucket that was not touched settles it and touches no other one.
proof fn lemma_open_settles(
    index: IndexView,
    vector: Seq<i16>,
    plans: Plans,
    tour: Tour,
    bucket: int,
    bound: int,
)
    requires
        index.ready_for(vector),
        index.plans_for(scanned(vector), plans),
        0 <= bucket < BUCKETS,
        bound <= bucket_gap(vector, bucket),
        index.honest(vector, tour),
        index.bucket_untouched(tour, bucket),
    ensures
        ({
            let next = index.open_bucket(vector, plans, tour, bucket, bound, None);
            &&& index.honest(vector, next)
            &&& index.goes_on(tour, next)
            &&& index.bucket_settled(vector, next, bucket)
            &&& forall|b: int|
                0 <= b < BUCKETS && b != bucket && index.bucket_untouched(tour, b)
                    ==> #[trigger] index.bucket_untouched(next, b)
        }),
{
    let query = scanned(vector);
    let next = index.open_bucket(vector, plans, tour, bucket, bound, None);
    assert(index.offsets[bucket] <= index.offsets[bucket + 1]);
    if index.opens(bucket, None) {
        let walk = index.bucket_walk(query, plans, bucket, bound, None, tour.near);
        lemma_bucket_walk(index, vector, plans, bucket, bound, tour.near);
        assert(index.offsets[bucket + 1] <= index.offsets[BUCKETS as int]);
        assert(pick(index.points, next.seen) =~= pick(index.points, tour.seen) + pick(
            index.points,
            walk.seen,
        ));
        crate::index::neighbors::lemma_scan_concat(
            no_neighbors(),
            query,
            pick(index.points, tour.seen),
            pick(index.points, walk.seen),
        );
        assert forall|x: int| next.seen.contains(x) implies #[trigger] tour.seen.contains(x)
            || walk.seen.contains(x) && index.bucket_has(bucket, x) by {
            let k = choose|k: int| 0 <= k < next.seen.len() && next.seen[k] == x;
            if k < tour.seen.len() {
                assert(tour.seen[k] == x);
            } else {
                assert(walk.seen[k - tour.seen.len()] == x);
            }
        }
        assert forall|x: int| tour.seen.contains(x) implies #[trigger] next.seen.contains(x) by {
            let k = choose|k: int| 0 <= k < tour.seen.len() && tour.seen[k] == x;
            assert(next.seen[k] == x);
        }
        assert forall|x: int| walk.seen.contains(x) implies #[trigger] next.seen.contains(x) by {
            let k = choose|k: int| 0 <= k < walk.seen.len() && walk.seen[k] == x;
            assert(next.seen[tour.seen.len() + k] == x);
        }
        assert(next.seen.no_duplicates()) by {
            assert forall|a: int, b: int| 0 <= a < next.seen.len() && 0 <= b < next.seen.len() && a != b implies next.seen[a]
                != next.seen[b] by {
                lemma_apart(index, tour, walk, bucket, a, b);
            }
        }
        assert forall|k: int| 0 <= k < next.seen.len() implies 0 <= #[trigger] next.seen[k]
            < index.points.len() by {
            if k < tour.seen.len() {
                assert(next.seen[k] == tour.seen[k]);
            } else {
                assert(next.seen[k] == walk.seen[k - tour.seen.len()]);
            }
        }
        assert forall|i: int| #[trigger] index.bucket_has(bucket, i) implies settled(
            index.points,
            query,
            next.near,
            next.seen,
            i,
            index.slack(vector, bucket),
        ) by {
            assert(settled(index.points, query, walk.near, walk.seen, i, index.slack(vector, bucket)));
        }
        assert forall|b: int|
            0 <= b < BUCKETS && b != bucket && index.bucket_untouched(tour, b) implies #[trigger] index.bucket_untouched(
        next, b) by {
            assert forall|x: int| #[trigger] next.seen.contains(x) implies !index.bucket_has(b, x) by {
                assert(tour.seen.contains(x) || walk.seen.contains(x) && index.bucket_has(bucket, x));
                if index.bucket_has(bucket, x) {
                    if b < bucket {
                        assert(index.offsets[b + 1] <= index.offsets[bucket]);
                    } else {
                        assert(index.offsets[bucket + 1] <= index.offsets[b]);
                    }
                }
            }
        }
    }
}

/// Positions looked at before and in an untouched bucket are apart.
proof fn lemma_apart(index: IndexView, tour: Tour, walk: Walk, bucket: int, a: int, b: int)
    requires
        tour.seen.no_duplicates(),
        walk.seen.no_duplicates(),
        index.bucket_untouched(tour, bucket),
        forall|k: int|
            0 <= k < walk.seen.len() ==> index.offsets[bucket] <= #[trigger] walk.seen[k]
                < index.offsets[bucket + 1],
        0 <= a < tour.seen.len() + walk.seen.len(),
        0 <= b < tour.seen.len() + walk.seen.len(),
        a != b,
    ensures
        (tour.seen + walk.seen)[a] != (tour.seen + walk.seen)[b],
{
    let n = tour.seen.len() as int;
    if a < n && b >= n {
        assert(tour.seen.contains(tour.seen[a]));
        assert(index.bucket_has(bucket, walk.seen[b - n]));
    } else if b < n && a >= n {
        assert(tour.seen.contains(tour.seen[b]));
        assert(index.bucket_has(bucket, walk.seen[a - n]));
    }
}

/// A settled bucket stays settled.
pub(crate) proof fn lemma_bucket_keeps(index: IndexView, vector: Seq<i16>, tour: Tour, later: Tour, bucket: int)
    requires
        index.bucket_settled(vector, tour, bucket),
        index.goes_on(tour, later),
    ensures
        index.bucket_settled(vector, later, bucket),
{
    assert forall|i: int| #[trigger] index.bucket_has(bucket, i) implies settled(
        index.points,
        scanned(vector),
        later.near,
        later.seen,
        i,
        index.slack(vector, bucket),
    ) by {
        assert(settled(index.points, scanned(vector), tour.near, tour.seen, i, index.slack(vector, bucket)));
    }
}

/// A bucket whose bound reaches the farthest neighbour is settled.
proof fn lemma_bound_settles(index: IndexView, vector: Seq<i16>, tour: Tour, bucket: int)
    requires
        index.ready_for(vector),
        0 <= bucket < BUCKETS,
        bucket_gap(vector, bucket) >= worst_of(tour.near),
    ensures
        index.bucket_settled(vector, tour, bucket),
{
    assert forall|i: int| #[trigger] index.bucket_has(bucket, i) implies settled(
        index.points,
        scanned(vector),
        tour.near,
        tour.seen,
        i,
        index.slack(vector, bucket),
    ) by {
        assert(index.offsets[bucket + 1] <= index.offsets[BUCKETS as int]);
        assert(on_grid(index.points[i].values@));
        lemma_bucket_bound(vector, index.points[i].values@);
    }
}

/// The query's own bucket is settled first, and no other one is touched.
pub(crate) proof fn lemma_primary(index: IndexView, vector: Seq<i16>, plans: Plans)
    requires
        index.ready_for(vector),
        index.plans_for(scanned(vector), plans),
    ensures
        index.honest(vector, index.primary_tour(vector, plans)),
        index.bucket_settled(vector, index.primary_tour(vector, plans), bucket_of_vector(vector)),
        forall|b: int|
            0 <= b < BUCKETS && b != bucket_of_vector(vector) ==> #[trigger] index.bucket_untouched(
                index.primary_tour(vector, plans),
                b,
            ),
{
    let start = fresh_tour();
    lemma_bucket_of_vector_range(vector);
    lemma_gap_bound(vector, bucket_of_vector(vector));
    lemma_none_closer(0);
    assert(pick(index.points, start.seen) =~= Seq::<Point>::empty());
    assert(crate::index::neighbors::as_neighbors(scanned(vector), Seq::<Point>::empty()) =~= Seq::<
        Neighbor,
    >::empty());
    lemma_open_settles(index, vector, plans, start, bucket_of_vector(vector), 0);
    assert forall|b: int| 0 <= b < BUCKETS && b != bucket_of_vector(vector) implies #[trigger] index.bucket_untouched(
        index.primary_tour(vector, plans),
        b,
    ) by {
        assert(index.bucket_untouched(start, b));
    }
}

/// A tour over the candidates from entry `k` on settles the buckets of all of them.
proof fn lemma_candidates_settled(
    index: IndexView,
    vector: Seq<i16>,
    plans: Plans,
    order: Seq<(i64, usize)>,
    k: int,
    tour: Tour,
)
    requires
        index.ready_for(vector),
        index.valid_course(vector, plans, order),
        0 <= k <= order.len(),
        index.honest(vector, tour),
        forall|j: int|
            k <= j < order.len() ==> index.bucket_untouched(tour, (#[trigger] order[j]).1 as int),
    ensures
        ({
            let end = index.limited_tour(vector, plans, order, None, k, tour).tour;
            &&& index.honest(vector, end)
            &&& index.goes_on(tour, end)
            &&& forall|j: int|
                k <= j < order.len() ==> index.bucket_settled(
                    vector,
                    end,
                    (#[trigger] order[j]).1 as int,
                )
        }),
    decreases order.len() - k,
{
    let end = index.limited_tour(vector, plans, order, None, k, tour).tour;
    lemma_course(index, vector, plans, order);
    if k < order.len() {
        let bucket = order[k].1 as int;
        lemma_gap_bound(vector, bucket);
        if full(tour.near) && order[k].0 >= worst_of(tour.near) {
            assert forall|j: int| k <= j < order.len() implies index.bucket_settled(
                vector,
                end,
                (#[trigger] order[j]).1 as int,
            ) by {
                assert(order[k].0 <= order[j].0);
                lemma_gap_bound(vector, order[j].1 as int);
                lemma_bound_settles(index, vector, tour, order[j].1 as int);
            }
        } else {
            let next = index.open_bucket(vector, plans, tour, bucket, order[k].0 as int, None);
            assert(index.bucket_untouched(tour, order[k].1 as int));
            lemma_open_settles(index, vector, plans, tour, bucket, order[k].0 as int);
            assert forall|j: int| k + 1 <= j < order.len() implies index.bucket_untouched(
                next,
                (#[trigger] order[j]).1 as int,
            ) by {
                assert(order[j].1 != order[k].1);
                assert(index.bucket_untouched(tour, order[j].1 as int));
            }
            lemma_candidates_settled(index, vector, plans, order, k + 1, next);
            assert(end == index.limited_tour(vector, plans, order, None, k + 1, next).tour);
            lemma_bucket_keeps(index, vector, next, end, bucket);
            assert forall|x: int| tour.seen.contains(x) implies #[trigger] end.seen.contains(x) by {
                assert(next.seen.contains(x));
            }
        }
    }
}

/// Every position lies in a bucket.
pub(crate) proof fn lemma_bucket_at(index: IndexView, limit: int, i: int) -> (bucket: int)
    requires
        index.faithful(),
        0 <= limit <= BUCKETS,
        0 <= i < index.offsets[limit],
    ensures
        0 <= bucket < limit,
        index.bucket_has(bucket, i),
    decreases limit,
{
    if limit == 0 {
        0
    } else if i < index.offsets[limit - 1] {
        lemma_bucket_at(index, limit - 1, i)
    } else {
        limit - 1
    }
}

/// When every bucket is settled, the search has found the same distances as looking at every point.
proof fn lemma_all_settled(index: IndexView, vector: Seq<i16>, tour: Tour)
    requires
        index.bounds_hold(vector),
        index.honest(vector, tour),
        forall|b: int| 0 <= b < BUCKETS ==> #[trigger] index.bucket_settled(vector, tour, b),
    ensures
        distances(tour.near) == distances(scan(no_neighbors(), scanned(vector), index.points)),
        index.border_clear(vector) ==> vote(tour.near) == vote(
            scan(no_neighbors(), scanned(vector), index.points),
        ),
{
    assert forall|i: int| 0 <= i < index.points.len() && !#[trigger] tour.seen.contains(i) implies distance(
        scanned(vector),
        index.points[i].values@,
    ) >= worst_of(tour.near) by {
        let bucket = lemma_bucket_at(index, BUCKETS as int, i);
        assert(index.bucket_settled(vector, tour, bucket));
        assert(settled(
            index.points,
            scanned(vector),
            tour.near,
            tour.seen,
            i,
            index.slack(vector, bucket),
        ));
    }
    lemma_pruned_is_nearest(scanned(vector), index.points, tour.seen);
    if index.border_clear(vector) {
        lemma_pruned_vote(scanned(vector), index.points, tour.seen);
    }
}

/// A search over ordered candidates without a limit settles every bucket.
pub proof fn lemma_sorted_search_settles(
    index: IndexView,
    vector: Seq<i16>,
    plans: Plans,
    order: Seq<(i64, usize)>,
)
    requires
        index.ready_for(vector),
        index.valid_course(vector, plans, order),
    ensures
        ({
            let end = index.limited_search(vector, plans, order, None).tour;
            &&& index.honest(vector, end)
            &&& forall|b: int| 0 <= b < BUCKETS ==> #[trigger] index.bucket_settled(vector, end, b)
        }),
{
    let start = index.primary_tour(vector, plans);
    let end = index.limited_search(vector, plans, order, None).tour;
    let listing = index.candidates(vector, plans);
    let buckets = occupied(index.offsets, BUCKETS as int);
    let ceiling = ceiling_of(start.near);
    lemma_primary(index, vector, plans);
    lemma_course(index, vector, plans, order);
    lemma_candidates_settled(index, vector, plans, order, 0, start);
    lemma_occupied(index.offsets, BUCKETS as int);
    lemma_candidates(vector, ceiling, buckets);
    lemma_ordering(order, listing);
    assert forall|b: int| 0 <= b < BUCKETS implies #[trigger] index.bucket_settled(vector, end, b) by {
        if b == bucket_of_vector(vector) {
            lemma_bucket_keeps(index, vector, start, end, b);
        } else if index.offsets[b] == index.offsets[b + 1] {
        } else if beyond(vector, ceiling, b) {
            lemma_bound_settles(index, vector, start, b);
            lemma_bucket_keeps(index, vector, start, end, b);
        } else {
            let entry = (bucket_gap(vector, b) as i64, b as usize);
            assert(buckets.contains(b));
            assert(listing.contains(entry));
            let n = choose|n: int| 0 <= n < listing.len() && listing[n] == entry;
            assert(order.contains(listing[n]));
            let j = choose|j: int| 0 <= j < order.len() && order[j] == entry;
            assert(index.bucket_settled(vector, end, order[j].1 as int));
        }
    }
}

/// A search over ordered candidates without a limit finds the same five distances as looking at
/// every point, whatever the order of parts and candidates with equal bounds; its vote is the same
/// too, unless points as far as the fifth disagree and a sixth is as near.
pub proof fn lemma_sorted_search_is_exact(
    index: IndexView,
    vector: Seq<i16>,
    plans: Plans,
    order: Seq<(i64, usize)>,
)
    requires
        index.bounds_hold(vector),
        index.valid_course(vector, plans, order),
    ensures
        distances(index.limited_search(vector, plans, order, None).tour.near) == distances(
            scan(no_neighbors(), scanned(vector), index.points),
        ),
        index.border_clear(vector) ==> vote(
            index.limited_search(vector, plans, order, None).tour.near,
        ) == vote(scan(no_neighbors(), scanned(vector), index.points)),
{
    lemma_sorted_search_settles(index, vector, plans, order);
    lemma_all_settled(index, vector, index.limited_search(vector, plans, order, None).tour);
}

/// A tour over the buckets from entry `k` on settles all of them but the primary one.
proof fn lemma_eager_settled(
    index: IndexView,
    vector: Seq<i16>,
    plans: Plans,
    buckets: Seq<int>,
    k: int,
    tour: Tour,
)
    requires
        index.ready_for(vector),
        index.plans_for(scanned(vector), plans),
        0 <= k <= buckets.len(),
        forall|n: int| 0 <= n < buckets.len() ==> 0 <= #[trigger] buckets[n] < BUCKETS,
        forall|a: int, b: int| 0 <= a < b < buckets.len() ==> buckets[a] < buckets[b],
        index.honest(vector, tour),
        forall|j: int|
            k <= j < buckets.len() && #[trigger] buckets[j] != bucket_of_vector(vector)
                ==> index.bucket_untouched(tour, buckets[j]),
    ensures
        ({
            let end = index.eager_tour(vector, plans, buckets, k, tour);
            &&& index.honest(vector, end)
            &&& index.goes_on(tour, end)
            &&& forall|j: int|
                k <= j < buckets.len() && #[trigger] buckets[j] != bucket_of_vector(vector)
                    ==> index.bucket_settled(vector, end, buckets[j])
        }),
    decreases buckets.len() - k,
{
    let end = index.eager_tour(vector, plans, buckets, k, tour);
    if k < buckets.len() {
        let bucket = buckets[k];
        let bound = bucket_gap(vector, bucket);
        let skipped = bucket == bucket_of_vector(vector) || full(tour.near) && bound >= worst_of(
            tour.near,
        );
        let next = if skipped {
            tour
        } else {
            index.open_bucket(vector, plans, tour, bucket, bound, None)
        };
        if !skipped {
            lemma_open_settles(index, vector, plans, tour, bucket, bound);
        } else if bucket != bucket_of_vector(vector) {
            lemma_bound_settles(index, vector, tour, bucket);
        }
        assert forall|j: int|
            k + 1 <= j < buckets.len() && #[trigger] buckets[j] != bucket_of_vector(vector) implies index.bucket_untouched(
        next, buckets[j]) by {
            assert(buckets[k] < buckets[j]);
            assert(index.bucket_untouched(tour, buckets[j]));
        }
        lemma_eager_settled(index, vector, plans, buckets, k + 1, next);
        assert(end == index.eager_tour(vector, plans, buckets, k + 1, next));
        if bucket != bucket_of_vector(vector) {
            lemma_bucket_keeps(index, vector, next, end, bucket);
        }
        assert forall|x: int| tour.seen.contains(x) implies #[trigger] end.seen.contains(x) by {
            assert(next.seen.contains(x));
        }
    }
}

/// A search in bucket order settles every bucket.
pub proof fn lemma_eager_search_settles(index: IndexView, vector: Seq<i16>, plans: Plans)
    requires
        index.ready_for(vector),
        index.plans_for(scanned(vector), plans),
    ensures
        ({
            let end = index.eager_search(vector, plans);
            &&& index.honest(vector, end)
            &&& forall|b: int| 0 <= b < BUCKETS ==> #[trigger] index.bucket_settled(vector, end, b)
        }),
{
    let start = index.primary_tour(vector, plans);
    let end = index.eager_search(vector, plans);
    let buckets = occupied(index.offsets, BUCKETS as int);
    lemma_primary(index, vector, plans);
    lemma_occupied(index.offsets, BUCKETS as int);
    lemma_eager_settled(index, vector, plans, buckets, 0, start);
    assert forall|b: int| 0 <= b < BUCKETS implies #[trigger] index.bucket_settled(vector, end, b) by {
        if b == bucket_of_vector(vector) {
            lemma_bucket_keeps(index, vector, start, end, b);
        } else if index.offsets[b] != index.offsets[b + 1] {
            assert(buckets.contains(b));
            let j = choose|j: int| 0 <= j < buckets.len() && buckets[j] == b;
            assert(index.bucket_settled(vector, end, buckets[j]));
        }
    }
}

/// A search in bucket order finds the same five distances as looking at every point, whatever the
/// order of parts with equal bounds; its vote is the same too, unless points as far as the fifth
/// disagree and a sixth is as near.
pub proof fn lemma_eager_search_is_exact(index: IndexView, vector: Seq<i16>, plans: Plans)
    requires
        index.bounds_hold(vector),
        index.plans_for(scanned(vector), plans),
    ensures
        distances(index.eager_search(vector, plans).near) == distances(
            scan(no_neighbors(), scanned(vector), index.points),
        ),
        index.border_clear(vector) ==> vote(index.eager_search(vector, plans).near) == vote(
            scan(no_neighbors(), scanned(vector), index.points),
        ),
{
    lemma_eager_search_settles(index, vector, plans);
    lemma_all_settled(index, vector, index.eager_search(vector, plans));
}

/// Two searches without a limit agree, though each takes a course of its own: on the five distances
/// always, and on the vote unless points as far as the fifth disagree and a sixth is as near.
pub proof fn lemma_courses_agree(
    index: IndexView,
    vector: Seq<i16>,
    plans: Plans,
    order: Seq<(i64, usize)>,
    other_plans: Plans,
    other_order: Seq<(i64, usize)>,
)
    requires
        index.bounds_hold(vector),
        index.valid_course(vector, plans, order),
        index.valid_course(vector, other_plans, other_order),
    ensures
        distances(index.limited_search(vector, plans, order, None).tour.near) == distances(
            index.limited_search(vector, other_plans, other_order, None).tour.near,
        ),
        index.border_clear(vector) ==> vote(
            index.limited_search(vector, plans, order, None).tour.near,
        ) == vote(index.limited_search(vector, other_plans, other_order, None).tour.near),
{
    lemma_sorted_search_is_exact(index, vector, plans, order);
    lemma_sorted_search_is_exact(index, vector, other_plans, other_order);
}

} // verus!
