//! Scanning one bucket, whatever its layout.
use vstd::prelude::*;

use crate::index::geometry::grid_axes;
use crate::index::kernels::all_in_reach;
use crate::index::neighbors::{ranked, Neighbor, NeighborSet};
use crate::index::plan::{cell_listing, is_ordering, ivf_cell_scan_plan, ivf_sub_scan_plan,
    plan_distinct, plan_fits, sector_listing, sector_scan_plan, subcell_listing};
use crate::index::recording::{counted, has_room};
use crate::index::stats::{SearchDetails, SearchStats, SectorScan};
use crate::index::walk::{clip, fresh_walk, groups_of, left_of, parts_within, remaining_points,
    scan_stop, Sweep, Walk};
use crate::index::{Index, IndexView, Layout, BUCKETS, DIMS, IVF_CELLS, IVF_SUBCELLS, NO_SECTOR,
    SECTORS};

verus! {

/// The orders in which the parts of subdivided buckets are visited.
pub struct Plans {
    pub sectors: Seq<(i64, usize)>,
    pub subcells: Seq<(i64, usize)>,
    pub cells: Seq<(i64, usize)>,
}

/// The orders in which the parts of subdivided buckets are visited, as far as the index needs them.
pub struct ScanPlans {
    pub sectors: Vec<(i64, usize)>,
    pub subcells: Option<Vec<(i64, usize)>>,
    pub cells: Option<Vec<(i64, usize)>>,
}

impl View for ScanPlans {
    type V = Plans;

    open spec fn view(&self) -> Plans {
        Plans {
            sectors: self.sectors@,
            subcells: match self.subcells {
                Some(plan) => plan@,
                None => Seq::empty(),
            },
            cells: match self.cells {
                Some(plan) => plan@,
                None => Seq::empty(),
            },
        }
    }
}

impl IndexView {
    /// Some bucket is laid out by cell.
    pub open spec fn has_cells(self) -> bool {
        exists|b: int| 0 <= b < BUCKETS && #[trigger] self.layouts[b] is Cells
    }

    /// The plans order the parts by their bounds for a query in scan order.
    pub open spec fn plans_for(self, query: Seq<i16>, plans: Plans) -> bool {
        &&& is_ordering(plans.sectors, sector_listing(query))
        &&& self.has_cells() ==> (self.grid matches Some(dims) ==> if self.global {
            is_ordering(plans.cells, cell_listing(query, dims))
        } else {
            is_ordering(plans.subcells, subcell_listing(query, dims))
        })
    }

    /// A bucket is opened when it holds points and at least one may be looked at.
    pub open spec fn opens(self, bucket: int, cap: Option<usize>) -> bool {
        self.offsets[bucket] != self.offsets[bucket + 1] && cap != Some(0usize)
    }

    /// The walk over a bucket's points.
    pub open spec fn bucket_walk(
        self,
        query: Seq<i16>,
        plans: Plans,
        bucket: int,
        bound: int,
        cap: Option<usize>,
        near: Seq<Neighbor>,
    ) -> Walk {
        let start = self.offsets[bucket] as int;
        let end = self.offsets[bucket + 1] as int;
        match self.layouts[bucket] {
            Layout::Whole => Sweep {
                points: self.points,
                query,
                offsets: Seq::empty(),
                bound,
                cap,
            }.look(fresh_walk(near), start, clip(start, end, left_of(cap, 0))),
            Layout::Sectors(offsets) => Sweep {
                points: self.points,
                query,
                offsets,
                bound,
                cap,
            }.walk_parts(plans.sectors, 0, fresh_walk(near)),
            Layout::Cells(offsets) => {
                let sweep = Sweep { points: self.points, query, offsets, bound, cap };
                if self.global {
                    sweep.walk_parts(plans.cells, 0, fresh_walk(near))
                } else {
                    sweep.walk_cells(plans.sectors, plans.subcells, 0, 0, false, fresh_walk(near))
                }
            },
        }
    }

    /// How many sectors of a bucket a walk counts as scanned.
    pub open spec fn sectors_scanned(self, bucket: int, walk: Walk) -> int {
        match self.layouts[bucket] {
            Layout::Whole => 0,
            Layout::Sectors(_) => groups_of(walk.visited, 1),
            Layout::Cells(_) => if self.global {
                groups_of(walk.visited, IVF_SUBCELLS as int)
            } else {
                walk.sectors
            },
        }
    }
}

/// The counters after a bucket was opened.
pub open spec fn bucket_stats(stats: SearchStats, walk: Walk) -> SearchStats {
    SearchStats {
        buckets_scanned: (stats.buckets_scanned + 1) as u32,
        points_scanned: (stats.points_scanned + walk.seen.len()) as u32,
        ..stats
    }
}

/// The counters of an instrumented search after a bucket was opened.
pub open spec fn instrumented_stats(
    index: IndexView,
    bucket: int,
    stats: SearchStats,
    walk: Walk,
) -> SearchStats {
    let base = bucket_stats(stats, walk);
    if index.layouts[bucket] is Whole {
        SearchStats {
            linear_buckets_scanned: (stats.linear_buckets_scanned + 1) as u32,
            linear_points_scanned: (stats.linear_points_scanned + walk.seen.len()) as u32,
            ..base
        }
    } else {
        SearchStats {
            sectorized_buckets_scanned: (stats.sectorized_buckets_scanned + 1) as u32,
            sectorized_points_scanned: (stats.sectorized_points_scanned + walk.seen.len()) as u32,
            sectors_scanned: (stats.sectors_scanned + index.sectors_scanned(bucket, walk)) as u32,
            sectors_pruned_by_bound: (stats.sectors_pruned_by_bound + walk.pruned) as u32,
            ..base
        }
    }
}

/// The finer counters of an instrumented search after a bucket was opened.
pub open spec fn instrumented_details(
    index: IndexView,
    bucket: int,
    primary: bool,
    before: SearchDetails,
    after: SearchDetails,
    walk: Walk,
) -> bool {
    let split = !(index.layouts[bucket] is Whole);
    &&& counted(before, after, walk.stops)
    &&& after.primary_points_scanned == before.primary_points_scanned + if primary {
        walk.seen.len() as int
    } else {
        0
    }
    &&& after.secondary_points_scanned == before.secondary_points_scanned + if primary {
        0
    } else {
        walk.seen.len() as int
    }
    &&& after.primary_bucket_sectorized == if primary && split {
        1
    } else {
        before.primary_bucket_sectorized
    }
    &&& after.secondary_sectorized_buckets == before.secondary_sectorized_buckets + if !primary
        && split {
        1int
    } else {
        0
    }
    &&& after.largest_bucket_points == if before.largest_bucket_points < walk.seen.len() {
        walk.seen.len() as u32
    } else {
        before.largest_bucket_points
    }
    &&& after.limit_overshoot_points == before.limit_overshoot_points
}

impl Index {
    /// The slot of a bucket's sectors.
    pub(crate) fn sector_index(&self, bucket: usize) -> (slot: Option<usize>)
        requires
            self.wf(),
            bucket < BUCKETS,
        ensures
            match slot {
                Some(at) => self.bucket_sector_map@[bucket as int] != NO_SECTOR && at
                    == self.bucket_sector_map@[bucket as int] && at < self.sectorized_buckets@.len(),
                None => self.bucket_sector_map@[bucket as int] == NO_SECTOR,
            },
    {
        let index: u16 = self.bucket_sector_map[bucket];
        if index != NO_SECTOR {
            Some(index as usize)
        } else {
            None
        }
    }

    /// The slot of a bucket's cells.
    pub(crate) fn ivf_index(&self, bucket: usize) -> (slot: Option<usize>)
        requires
            self.wf(),
            bucket < BUCKETS,
        ensures
            match slot {
                Some(at) => self.ivf_bucket_map@[bucket as int] != NO_SECTOR && at
                    == self.ivf_bucket_map@[bucket as int] && at < self.ivf_buckets@.len(),
                None => self.ivf_bucket_map@[bucket as int] == NO_SECTOR,
            },
    {
        let index: u16 = self.ivf_bucket_map[bucket];
        if index != NO_SECTOR {
            Some(index as usize)
        } else {
            None
        }
    }

    /// The order of the subcells, where cells are visited sector by sector.
    pub(crate) fn ivf_sub_plan(&self, scan_query: &[i16; DIMS]) -> (plan: Option<Vec<(i64, usize)>>)
        requires
            self.wf(),
        ensures
            plan is Some <==> self.ivf_dims is Some && self.ivf_buckets@.len() > 0
                && !self.ivf_global_plan,
            plan matches Some(order) ==> is_ordering(
                order@,
                subcell_listing(scan_query@, self.ivf_dims->0),
            ) && order@.len() == IVF_SUBCELLS && plan_fits(order@, IVF_SUBCELLS as int)
                && plan_distinct(order@),
    {
        match self.ivf_dims {
            Some(dims) => if self.ivf_buckets.len() > 0 && !self.ivf_global_plan {
                assert(grid_axes(dims));
                Some(ivf_sub_scan_plan(scan_query, dims))
            } else {
                None
            },
            None => None,
        }
    }

    /// The order of the cells, where they are visited in one common order.
    pub(crate) fn ivf_cell_plan(&self, scan_query: &[i16; DIMS]) -> (plan: Option<Vec<(i64, usize)>>)
        requires
            self.wf(),
        ensures
            plan is Some <==> self.ivf_dims is Some && self.ivf_buckets@.len() > 0
                && self.ivf_global_plan,
            plan matches Some(order) ==> is_ordering(
                order@,
                cell_listing(scan_query@, self.ivf_dims->0),
            ) && order@.len() == IVF_CELLS && plan_fits(order@, IVF_CELLS as int) && plan_distinct(
                order@,
            ),
    {
        match self.ivf_dims {
            Some(dims) => if self.ivf_buckets.len() > 0 && self.ivf_global_plan {
                assert(grid_axes(dims));
                Some(ivf_cell_scan_plan(scan_query, dims))
            } else {
                None
            },
            None => None,
        }
    }

    /// The plans cover what the buckets of the index need.
    pub closed spec fn plans_fit(&self, plans: ScanPlans) -> bool {
        &&& plans.sectors@.len() == SECTORS
        &&& plan_fits(plans.sectors@, SECTORS as int)
        &&& plan_distinct(plans.sectors@)
        &&& plans.cells is Some <==> self.ivf_dims is Some && self.ivf_buckets@.len() > 0
            && self.ivf_global_plan
        &&& plans.subcells is Some <==> self.ivf_dims is Some && self.ivf_buckets@.len() > 0
            && !self.ivf_global_plan
        &&& plans.cells matches Some(order) ==> order@.len() == IVF_CELLS && plan_fits(
            order@,
            IVF_CELLS as int,
        ) && plan_distinct(order@)
        &&& plans.subcells matches Some(order) ==> order@.len() == IVF_SUBCELLS && plan_fits(
            order@,
            IVF_SUBCELLS as int,
        ) && plan_distinct(order@)
    }

    /// The plans for a query.
    pub(crate) fn scan_plans(&self, scan_query: &[i16; DIMS]) -> (plans: ScanPlans)
        requires
            self.wf(),
        ensures
            self@.plans_for(scan_query@, plans@),
            self.plans_fit(plans),
    {
        let plans = ScanPlans {
            sectors: sector_scan_plan(scan_query),
            subcells: self.ivf_sub_plan(scan_query),
            cells: self.ivf_cell_plan(scan_query),
        };
        proof {
            if self@.has_cells() {
                let b = choose|b: int| 0 <= b < BUCKETS && #[trigger] self@.layouts[b] is Cells;
                assert(self@.layouts[b] == self.layout_of(b));
                assert(self.ivf_bucket_map@[b] != NO_SECTOR);
            }
        }
        plans
    }

    /// The layout that a bucket's slots stand for stays within the points.
    proof fn lemma_layout(&self, bucket: int)
        requires
            self.wf(),
            0 <= bucket < BUCKETS,
        ensures
            self@.layouts[bucket] == self.layout_of(bucket),
            self@.layouts[bucket] matches Layout::Sectors(offsets) ==> parts_within(
                offsets,
                SECTORS as int,
                self@.points.len() as int,
            ) && offsets[0] == self@.offsets[bucket] && offsets[SECTORS as int] == self@.offsets[bucket
                + 1],
            self@.layouts[bucket] matches Layout::Cells(offsets) ==> parts_within(
                offsets,
                IVF_CELLS as int,
                self@.points.len() as int,
            ) && offsets[0] == self@.offsets[bucket] && offsets[IVF_CELLS as int]
                == self@.offsets[bucket + 1],
            self@.layouts[bucket] is Cells ==> self.ivf_dims is Some,
            self@.global == self.ivf_global_plan,
            self@.offsets == self.bucket_offsets@,
            self@.offsets[bucket] <= self@.offsets[bucket + 1] <= self@.points.len(),
    {
        assert(self@.valid_layout(bucket));
        assert(self@.offsets[bucket] <= self@.offsets[bucket + 1]);
        assert(self@.offsets[bucket + 1] <= self@.offsets[BUCKETS as int]);
    }

    /// Scans a bucket, looking at no more than `max_points` points.
    pub(crate) fn search_bucket_capped(
        &self,
        bucket: usize,
        bucket_lower_bound: i64,
        scan_query: &[i16; DIMS],
        plans: &ScanPlans,
        neighbors: &mut NeighborSet,
        max_points: Option<usize>,
        stats: &mut SearchStats,
    ) -> (scanned: usize)
        requires
            self.wf(),
            bucket < BUCKETS,
            0 <= bucket_lower_bound <= 15_000_000_000,
            all_in_reach(scan_query@, self@.points),
            self.plans_fit(*plans),
            ranked(old(neighbors)@),
            old(stats).buckets_scanned < u32::MAX,
            old(stats).points_scanned + self@.offsets[bucket + 1] - self@.offsets[bucket as int]
                <= u32::MAX,
        ensures
            ({
                let walk = self@.bucket_walk(
                    scan_query@,
                    plans@,
                    bucket as int,
                    bucket_lower_bound as int,
                    max_points,
                    old(neighbors)@,
                );
                if self@.opens(bucket as int, max_points) {
                    &&& final(neighbors)@ == walk.near
                    &&& scanned == walk.seen.len()
                    &&& *final(stats) == bucket_stats(*old(stats), walk)
                    &&& scanned <= self@.offsets[bucket + 1] - self@.offsets[bucket as int]
                    &&& max_points matches Some(most) ==> scanned <= most
                } else {
                    &&& final(neighbors)@ == old(neighbors)@
                    &&& scanned == 0
                    &&& *final(stats) == *old(stats)
                }
            }),
            ranked(final(neighbors)@),
    {
        proof {
            self.lemma_layout(bucket as int);
        }
        let start: usize = self.bucket_offsets[bucket] as usize;
        let end: usize = self.bucket_offsets[bucket + 1] as usize;
        if start == end || max_points == Some(0) {
            return 0;
        }
        let scanned: usize = if let Some(slot) = self.ivf_index(bucket) {
            let offsets: &Vec<u32> = &self.ivf_buckets[slot].offsets;
            match &plans.cells {
                Some(cell_plan) => self.search_parts(
                    offsets,
                    bucket_lower_bound,
                    scan_query,
                    cell_plan,
                    neighbors,
                    max_points,
                ),
                None => match &plans.subcells {
                    Some(sub_plan) => self.search_ivf_cells(
                        offsets,
                        bucket_lower_bound,
                        scan_query,
                        &plans.sectors,
                        sub_plan,
                        neighbors,
                        max_points,
                    ),
                    None => 0,
                },
            }
        } else if let Some(slot) = self.sector_index(bucket) {
            self.search_parts(
                &self.sectorized_buckets[slot].offsets,
                bucket_lower_bound,
                scan_query,
                &plans.sectors,
                neighbors,
                max_points,
            )
        } else {
            let scan_end: usize = scan_stop(start, end, remaining_points(max_points, 0));
            proof {
                crate::index::neighbors::lemma_scan(
                    neighbors@,
                    scan_query@,
                    self@.points.subrange(start as int, scan_end as int),
                );
            }
            self.search_range(start, scan_end, scan_query, neighbors);
            scan_end - start
        };
        stats.buckets_scanned = stats.buckets_scanned + 1;
        stats.points_scanned = stats.points_scanned + scanned as u32;
        scanned
    }

    /// Scans a bucket.
    pub(crate) fn search_bucket(
        &self,
        bucket: usize,
        bucket_lower_bound: i64,
        scan_query: &[i16; DIMS],
        plans: &ScanPlans,
        neighbors: &mut NeighborSet,
        stats: &mut SearchStats,
    ) -> (scanned: usize)
        requires
            self.wf(),
            bucket < BUCKETS,
            0 <= bucket_lower_bound <= 15_000_000_000,
            all_in_reach(scan_query@, self@.points),
            self.plans_fit(*plans),
            ranked(old(neighbors)@),
            old(stats).buckets_scanned < u32::MAX,
            old(stats).points_scanned + self@.offsets[bucket + 1] - self@.offsets[bucket as int]
                <= u32::MAX,
        ensures
            ({
                let walk = self@.bucket_walk(
                    scan_query@,
                    plans@,
                    bucket as int,
                    bucket_lower_bound as int,
                    None,
                    old(neighbors)@,
                );
                if self@.opens(bucket as int, None) {
                    &&& final(neighbors)@ == walk.near
                    &&& scanned == walk.seen.len()
                    &&& *final(stats) == bucket_stats(*old(stats), walk)
                    &&& scanned <= self@.offsets[bucket + 1] - self@.offsets[bucket as int]
                } else {
                    &&& final(neighbors)@ == old(neighbors)@
                    &&& scanned == 0
                    &&& *final(stats) == *old(stats)
                }
            }),
            ranked(final(neighbors)@),
    {
        self.search_bucket_capped(
            bucket,
            bucket_lower_bound,
            scan_query,
            plans,
            neighbors,
            None,
            stats,
        )
    }

    /// Scans a bucket, looking at no more than `max_points` points and counting everything.
    pub(crate) fn search_bucket_instrumented_capped(
        &self,
        bucket: usize,
        bucket_lower_bound: i64,
        scan_query: &[i16; DIMS],
        plans: &ScanPlans,
        neighbors: &mut NeighborSet,
        stats: &mut SearchStats,
        details: &mut SearchDetails,
        is_primary: bool,
        max_points: Option<usize>,
    )
        requires
            self.wf(),
            bucket < BUCKETS,
            0 <= bucket_lower_bound <= 15_000_000_000,
            all_in_reach(scan_query@, self@.points),
            self.plans_fit(*plans),
            ranked(old(neighbors)@),
            roomy(*old(stats), self@.offsets[bucket + 1] - self@.offsets[bucket as int]),
            has_room(*old(details), self@.offsets[bucket + 1] - self@.offsets[bucket as int]),
            old(details).primary_points_scanned + self@.offsets[bucket + 1]
                - self@.offsets[bucket as int] <= u32::MAX,
            old(details).secondary_points_scanned + self@.offsets[bucket + 1]
                - self@.offsets[bucket as int] <= u32::MAX,
            old(details).secondary_sectorized_buckets < u32::MAX,
        ensures
            ({
                let walk = self@.bucket_walk(
                    scan_query@,
                    plans@,
                    bucket as int,
                    bucket_lower_bound as int,
                    max_points,
                    old(neighbors)@,
                );
                if self@.opens(bucket as int, max_points) {
                    &&& final(neighbors)@ == walk.near
                    &&& *final(stats) == instrumented_stats(self@, bucket as int, *old(stats), walk)
                    &&& instrumented_details(
                        self@,
                        bucket as int,
                        is_primary,
                        *old(details),
                        *final(details),
                        walk,
                    )
                    &&& walk.seen.len() <= self@.offsets[bucket + 1] - self@.offsets[bucket as int]
                    &&& walk.stops.len() == walk.seen.len()
                    &&& 0 <= self@.sectors_scanned(bucket as int, walk) <= SECTORS
                    &&& 0 <= walk.pruned <= IVF_CELLS
                    &&& max_points matches Some(most) ==> walk.seen.len() <= most
                } else {
                    &&& final(neighbors)@ == old(neighbors)@
                    &&& *final(stats) == *old(stats)
                    &&& *final(details) == *old(details)
                }
            }),
            ranked(final(neighbors)@),
    {
        proof {
            self.lemma_layout(bucket as int);
        }
        let start: usize = self.bucket_offsets[bucket] as usize;
        let end: usize = self.bucket_offsets[bucket + 1] as usize;
        if start == end || max_points == Some(0) {
            return;
        }
        let mut linear: bool = false;
        let scan: SectorScan = if let Some(slot) = self.ivf_index(bucket) {
            let offsets: &Vec<u32> = &self.ivf_buckets[slot].offsets;
            match &plans.cells {
                Some(cell_plan) => self.search_parts_instrumented(
                    offsets,
                    bucket_lower_bound,
                    scan_query,
                    cell_plan,
                    IVF_SUBCELLS,
                    neighbors,
                    details,
                    max_points,
                ),
                None => match &plans.subcells {
                    Some(sub_plan) => self.search_ivf_cells_instrumented(
                        offsets,
                        bucket_lower_bound,
                        scan_query,
                        &plans.sectors,
                        sub_plan,
                        neighbors,
                        details,
                        max_points,
                    ),
                    None => SectorScan {
                        points_scanned: 0,
                        sectors_scanned: 0,
                        sectors_pruned_by_bound: 0,
                    },
                },
            }
        } else if let Some(slot) = self.sector_index(bucket) {
            self.search_parts_instrumented(
                &self.sectorized_buckets[slot].offsets,
                bucket_lower_bound,
                scan_query,
                &plans.sectors,
                1,
                neighbors,
                details,
                max_points,
            )
        } else {
            let scan_end: usize = scan_stop(start, end, remaining_points(max_points, 0));
            proof {
                crate::index::neighbors::lemma_scan(
                    neighbors@,
                    scan_query@,
                    self@.points.subrange(start as int, scan_end as int),
                );
                crate::index::recording::lemma_cuts_len(
                    neighbors@,
                    scan_query@,
                    self@.points.subrange(start as int, scan_end as int),
                );
            }
            self.search_range_instrumented(start, scan_end, scan_query, neighbors, details);
            linear = true;
            SectorScan {
                points_scanned: scan_end - start,
                sectors_scanned: 0,
                sectors_pruned_by_bound: 0,
            }
        };
        let point_count: u32 = scan.points_scanned as u32;
        stats.buckets_scanned = stats.buckets_scanned + 1;
        stats.points_scanned = stats.points_scanned + point_count;
        if !linear {
            stats.sectorized_buckets_scanned = stats.sectorized_buckets_scanned + 1;
            stats.sectorized_points_scanned = stats.sectorized_points_scanned + point_count;
            stats.sectors_scanned = stats.sectors_scanned + scan.sectors_scanned;
            stats.sectors_pruned_by_bound = stats.sectors_pruned_by_bound
                + scan.sectors_pruned_by_bound;
            if is_primary {
                details.primary_bucket_sectorized = 1;
            } else {
                details.secondary_sectorized_buckets = details.secondary_sectorized_buckets + 1;
            }
        } else {
            stats.linear_buckets_scanned = stats.linear_buckets_scanned + 1;
            stats.linear_points_scanned = stats.linear_points_scanned + point_count;
        }
        if details.largest_bucket_points < point_count {
            details.largest_bucket_points = point_count;
        }
        if is_primary {
            details.primary_points_scanned = details.primary_points_scanned + point_count;
        } else {
            details.secondary_points_scanned = details.secondary_points_scanned + point_count;
        }
    }
}

/// The counters can grow by one more bucket of the given number of points.
pub open spec fn roomy(stats: SearchStats, points: int) -> bool {
    &&& stats.buckets_scanned < u32::MAX
    &&& stats.linear_buckets_scanned < u32::MAX
    &&& stats.sectorized_buckets_scanned < u32::MAX
    &&& stats.points_scanned + points <= u32::MAX
    &&& stats.linear_points_scanned + points <= u32::MAX
    &&& stats.sectorized_points_scanned + points <= u32::MAX
    &&& stats.sectors_scanned + SECTORS <= u32::MAX
    &&& stats.sectors_pruned_by_bound + IVF_CELLS <= u32::MAX
}

} // verus!
