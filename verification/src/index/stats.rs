//! What a search reports about the work it did.
use std::time::Duration;
use vstd::prelude::*;

use crate::index::DIMS;

verus! {

/// Counters of a search.
#[derive(Clone, Copy)]
pub struct SearchStats {
    pub buckets_scanned: u32,
    pub points_scanned: u32,
    pub linear_buckets_scanned: u32,
    pub sectorized_buckets_scanned: u32,
    pub linear_points_scanned: u32,
    pub sectorized_points_scanned: u32,
    pub sectors_scanned: u32,
    pub sectors_pruned_by_bound: u32,
    pub candidates_considered: u32,
    pub candidates_pruned_by_bound: u32,
    pub candidates_pruned_by_limit: u32,
    pub worst_distance: i64,
}

/// The counters of a search that has done nothing.
pub open spec fn no_stats() -> SearchStats {
    SearchStats {
        buckets_scanned: 0,
        points_scanned: 0,
        linear_buckets_scanned: 0,
        sectorized_buckets_scanned: 0,
        linear_points_scanned: 0,
        sectorized_points_scanned: 0,
        sectors_scanned: 0,
        sectors_pruned_by_bound: 0,
        candidates_considered: 0,
        candidates_pruned_by_bound: 0,
        candidates_pruned_by_limit: 0,
        worst_distance: i64::MAX,
    }
}

impl Default for SearchStats {
    fn default() -> (stats: Self)
        ensures
            stats == no_stats(),
    {
        SearchStats {
            buckets_scanned: 0,
            points_scanned: 0,
            linear_buckets_scanned: 0,
            sectorized_buckets_scanned: 0,
            linear_points_scanned: 0,
            sectorized_points_scanned: 0,
            sectors_scanned: 0,
            sectors_pruned_by_bound: 0,
            candidates_considered: 0,
            candidates_pruned_by_bound: 0,
            candidates_pruned_by_limit: 0,
            worst_distance: i64::MAX,
        }
    }
}

/// Finer counters of an instrumented search.
#[derive(Clone, Copy)]
pub struct SearchDetails {
    pub primary_points_scanned: u32,
    pub secondary_points_scanned: u32,
    pub primary_bucket_sectorized: u32,
    pub secondary_sectorized_buckets: u32,
    pub largest_bucket_points: u32,
    pub limit_overshoot_points: u32,
    pub distance_steps: [u32; DIMS],
    pub distance_cutoffs: [u32; DIMS],
    pub distance_full: u32,
    pub neighbor_insertions: u32,
}

impl Default for SearchDetails {
    fn default() -> (details: Self)
        ensures
            details.primary_points_scanned == 0,
            details.secondary_points_scanned == 0,
            details.primary_bucket_sectorized == 0,
            details.secondary_sectorized_buckets == 0,
            details.largest_bucket_points == 0,
            details.limit_overshoot_points == 0,
            forall|d: int| 0 <= d < DIMS ==> details.distance_steps@[d] == 0,
            forall|d: int| 0 <= d < DIMS ==> details.distance_cutoffs@[d] == 0,
            details.distance_full == 0,
            details.neighbor_insertions == 0,
    {
        SearchDetails {
            primary_points_scanned: 0,
            secondary_points_scanned: 0,
            primary_bucket_sectorized: 0,
            secondary_sectorized_buckets: 0,
            largest_bucket_points: 0,
            limit_overshoot_points: 0,
            distance_steps: [0u32; DIMS],
            distance_cutoffs: [0u32; DIMS],
            distance_full: 0,
            neighbor_insertions: 0,
        }
    }
}

/// How long each phase of an instrumented search took.
#[derive(Clone, Copy, Default)]
pub struct SearchTiming {
    pub primary: Duration,
    pub candidate_build: Duration,
    pub candidate_sort: Duration,
    pub bucket_scan: Duration,
}

/// What scanning one subdivided bucket did.
#[derive(Clone, Copy)]
pub struct SectorScan {
    pub points_scanned: usize,
    pub sectors_scanned: u32,
    pub sectors_pruned_by_bound: u32,
}

} // verus!
