//! The searches of an index.
use vstd::prelude::*;

use crate::index::buckets::{Plans, ScanPlans};
use crate::index::geometry::{bucket_gap, bucket_lower_bound, bucket_of_vector, lemma_meta_of,
    lemma_square_bound, meta_of, scan_order, scanned, vector_bucket, vector_flag_bits,
    vector_flags};
use crate::index::kernels::all_in_reach;
use crate::index::neighbors::{no_neighbors, ranked, scan, vote, worst_of, NeighborSet,
    SearchResult};
use crate::index::plan::{lemma_ordering, sort_by_first};
use crate::index::stats::{no_stats, SearchStats};
use crate::index::tour::{candidate_list, candidates_beyond, ceiling_of, fresh_tour,
    lemma_candidates, lemma_occupied, lemma_open, opened_buckets, Finish, Opening, Tour};
use crate::index::{occupied, Index, IndexView, BUCKETS, DIMS};

verus! {

impl IndexView {
    /// Every component of the query is close enough to the points for its square to fit an `i32`.
    pub open spec fn admits(self, vector: Seq<i16>) -> bool {
        all_in_reach(scanned(vector), self.points)
    }
}

/// The counters of a search in bucket order.
pub open spec fn eager_stats(tour: Tour) -> SearchStats {
    SearchStats {
        buckets_scanned: tour.opened.len() as u32,
        points_scanned: tour.seen.len() as u32,
        worst_distance: worst_of(tour.near) as i64,
        ..no_stats()
    }
}

/// The candidates come from different buckets, none of them primary, in order of their bounds.
pub proof fn lemma_course(index: IndexView, vector: Seq<i16>, plans: Plans, order: Seq<(i64, usize)>)
    requires
        index.wf(),
        index.valid_course(vector, plans, order),
    ensures
        order.len() + index.prefiltered(vector, plans) <= BUCKETS,
        index.prefiltered(vector, plans) >= 0,
        forall|i: int|
            0 <= i < order.len() ==> {
                &&& (#[trigger] order[i]).1 < BUCKETS
                &&& order[i].1 != bucket_of_vector(vector)
                &&& order[i].0 == bucket_gap(vector, order[i].1 as int) as i64
            },
        forall|i: int, j: int|
            0 <= i < order.len() && 0 <= j < order.len() && i != j ==> order[i].1 != order[j].1,
        forall|i: int, j: int| 0 <= i <= j < order.len() ==> order[i].0 <= order[j].0,
{
    let buckets = occupied(index.offsets, BUCKETS as int);
    let listing = index.candidates(vector, plans);
    lemma_occupied(index.offsets, BUCKETS as int);
    lemma_candidates(vector, ceiling_of(index.primary_tour(vector, plans).near), buckets);
    assert(listing.no_duplicates()) by {
        assert forall|i: int, j: int| 0 <= i < listing.len() && 0 <= j < listing.len() && i != j implies listing[i]
            != listing[j] by {
            if i < j {
                assert(listing[i].1 < listing[j].1);
            } else {
                assert(listing[j].1 < listing[i].1);
            }
        }
    }
    lemma_ordering(order, listing);
    assert forall|i: int| 0 <= i < order.len() implies {
        &&& (#[trigger] order[i]).1 < BUCKETS
        &&& order[i].1 != bucket_of_vector(vector)
        &&& order[i].0 == bucket_gap(vector, order[i].1 as int) as i64
    } by {
        assert(listing.contains(order[i]));
        let n = choose|n: int| 0 <= n < listing.len() && listing[n] == order[i];
        assert(listing[n].1 < BUCKETS);
    }
    assert forall|i: int, j: int|
        0 <= i < order.len() && 0 <= j < order.len() && i != j implies order[i].1 != order[j].1 by {
        assert(order[i] != order[j]);
        assert(order[i].0 == bucket_gap(vector, order[i].1 as int) as i64);
        assert(order[j].0 == bucket_gap(vector, order[j].1 as int) as i64);
    }
}

/// Opened buckets are the primary one and candidates before entry `k`.
pub open spec fn opened_before(vector: Seq<i16>, order: Seq<(i64, usize)>, k: int, tour: Tour) -> bool {
    forall|i: int|
        0 <= i < tour.opened.len() ==> (#[trigger] tour.opened[i]).bucket == bucket_of_vector(vector)
            || exists|j: int| 0 <= j < k && #[trigger] order[j].1 == tour.opened[i].bucket
}

/// The next candidate has not been opened.
pub proof fn lemma_unopened(vector: Seq<i16>, order: Seq<(i64, usize)>, k: int, tour: Tour)
    requires
        0 <= k < order.len(),
        opened_before(vector, order, k, tour),
        order[k].1 != bucket_of_vector(vector),
        forall|i: int, j: int|
            0 <= i < order.len() && 0 <= j < order.len() && i != j ==> order[i].1 != order[j].1,
    ensures
        !opened_buckets(tour).contains(order[k].1 as int),
{
    let ids = opened_buckets(tour);
    if ids.contains(order[k].1 as int) {
        let i = choose|i: int| 0 <= i < ids.len() && ids[i] == order[k].1;
        assert(tour.opened[i].bucket == order[k].1);
    }
}

/// Opening the next candidate keeps the opened buckets before the entry after it.
pub proof fn lemma_opened_next(
    index: IndexView,
    vector: Seq<i16>,
    plans: Plans,
    order: Seq<(i64, usize)>,
    k: int,
    tour: Tour,
    cap: Option<usize>,
)
    requires
        0 <= k < order.len(),
        opened_before(vector, order, k, tour),
    ensures
        opened_before(
            vector,
            order,
            k + 1,
            index.open_bucket(vector, plans, tour, order[k].1 as int, order[k].0 as int, cap),
        ),
        opened_before(vector, order, k + 1, tour),
{
    let next = index.open_bucket(vector, plans, tour, order[k].1 as int, order[k].0 as int, cap);
    assert forall|i: int| 0 <= i < next.opened.len() implies (#[trigger] next.opened[i]).bucket
        == bucket_of_vector(vector) || exists|j: int|
        0 <= j < k + 1 && #[trigger] order[j].1 == next.opened[i].bucket by {
        if i < tour.opened.len() {
            assert(next.opened[i] == tour.opened[i]);
        } else {
            assert(order[k].1 == next.opened[i].bucket);
        }
    }
    assert forall|i: int| 0 <= i < tour.opened.len() implies (#[trigger] tour.opened[i]).bucket
        == bucket_of_vector(vector) || exists|j: int|
        0 <= j < k + 1 && #[trigger] order[j].1 == tour.opened[i].bucket by {
        assert(tour.opened[i].bucket == bucket_of_vector(vector) || exists|j: int|
            0 <= j < k && #[trigger] order[j].1 == tour.opened[i].bucket);
    }
}

/// A search that has not begun is orderly.
pub proof fn lemma_fresh(index: IndexView, vector: Seq<i16>)
    ensures
        index.orderly(fresh_tour()),
        !opened_buckets(fresh_tour()).contains(bucket_of_vector(vector)),
        ranked(no_neighbors()),
{
    assert(opened_buckets(fresh_tour()) =~= Seq::<int>::empty());
}

/// A search after the query's own bucket.
pub struct Started {
    pub scan_query: [i16; DIMS],
    pub plans: ScanPlans,
    pub neighbors: NeighborSet,
    pub candidates: Vec<(i64, usize)>,
    pub stats: SearchStats,
}

impl Index {
    /// The number of points.
    pub fn len(&self) -> (count: usize)
        ensures
            count == self@.points.len(),
    {
        self.points.len()
    }

    /// Whether there are no points.
    pub fn is_empty(&self) -> (empty: bool)
        ensures
            empty == (self@.points.len() == 0),
    {
        self.points.len() == 0
    }

    /// Whether every component of the query is close enough to the points for its square to fit
    /// an `i32`.
    pub fn admits(&self, query: &[i16; DIMS]) -> (admitted: bool)
        ensures
            admitted == self@.admits(query@),
    {
        let scan_query: [i16; DIMS] = scan_order(query);
        let mut i: usize = 0;
        while i < self.points.len()
            invariant
                i <= self.points.len(),
                self@.points == self.points@,
                scan_query@ == scanned(query@),
                forall|k: int|
                    0 <= k < i ==> crate::index::kernels::in_reach(
                        scan_query@,
                        #[trigger] self@.points[k].values@,
                    ),
            decreases self.points.len() - i,
        {
            let mut d: usize = 0;
            while d < DIMS
                invariant
                    i < self.points.len(),
                    self@.points == self.points@,
                    scan_query@ == scanned(query@),
                    d <= DIMS,
                    forall|k: int|
                        0 <= k < d ==> -46_340 <= scan_query@[k]
                            - #[trigger] self@.points[i as int].values@[k] <= 46_340,
                decreases DIMS - d,
            {
                let delta: i32 = scan_query[d] as i32 - self.points[i].values[d] as i32;
                if delta < -46_340 || delta > 46_340 {
                    assert(!crate::index::kernels::in_reach(
                        scan_query@,
                        self@.points[i as int].values@,
                    ));
                    return false;
                }
                d = d + 1;
            }
            i = i + 1;
        }
        true
    }

    /// Lists the buckets that may hold nearer points; returns how many cannot.
    pub(crate) fn build_candidate_buckets(
        &self,
        query: &[i16; DIMS],
        query_flags: usize,
        primary_bucket: usize,
        worst_bound: Option<i64>,
        candidates: &mut Vec<(i64, usize)>,
    ) -> (pruned: u32)
        requires
            self.wf(),
            query_flags == vector_flag_bits(query@),
            primary_bucket == bucket_of_vector(query@),
        ensures
            ({
                let ceiling = match worst_bound {
                    Some(worst) => Some(worst as int),
                    None => None,
                };
                let buckets = occupied(self@.offsets, BUCKETS as int);
                &&& final(candidates)@ == candidate_list(query@, ceiling, buckets)
                &&& pruned == candidates_beyond(query@, ceiling, buckets)
            }),
    {
        candidates.clear();
        let ghost ceiling = match worst_bound {
            Some(worst) => Some(worst as int),
            None => None,
        };
        let ghost buckets = occupied(self@.offsets, BUCKETS as int);
        let mut pruned_by_bound: u32 = 0;
        let mut i: usize = 0;
        proof {
            lemma_occupied(self@.offsets, BUCKETS as int);
        }
        assert(buckets.take(0) =~= Seq::<int>::empty());
        while i < self.non_empty_buckets.len()
            invariant
                self.wf(),
                query_flags == vector_flag_bits(query@),
                primary_bucket == bucket_of_vector(query@),
                buckets == occupied(self@.offsets, BUCKETS as int),
                buckets.len() <= BUCKETS,
                self.non_empty_buckets@.len() == buckets.len(),
                forall|n: int| 0 <= n < buckets.len() ==> 0 <= #[trigger] buckets[n] < BUCKETS,
                ceiling == match worst_bound {
                    Some(worst) => Some(worst as int),
                    None => None,
                },
                i <= self.non_empty_buckets.len(),
                candidates@ == candidate_list(query@, ceiling, buckets.take(i as int)),
                pruned_by_bound == candidates_beyond(query@, ceiling, buckets.take(i as int)),
                0 <= pruned_by_bound <= i,
            decreases self.non_empty_buckets.len() - i,
        {
            let entry = self.non_empty_buckets[i];
            proof {
                assert(entry.bucket == buckets[i as int]);
                assert(entry.meta == meta_of(entry.bucket as int));
                lemma_meta_of(entry.bucket as int);
                assert(buckets.take(i + 1).drop_last() =~= buckets.take(i as int));
                assert(buckets.take(i + 1).last() == entry.bucket);
            }
            if entry.bucket != primary_bucket {
                let lower_bound: i64 = bucket_lower_bound(query, query_flags, entry.meta);
                let pruned: bool = match worst_bound {
                    Some(worst) => lower_bound >= worst,
                    None => false,
                };
                if pruned {
                    pruned_by_bound = pruned_by_bound + 1;
                } else {
                    candidates.push((lower_bound, entry.bucket));
                }
            }
            i = i + 1;
        }
        assert(buckets.take(i as int) =~= buckets);
        pruned_by_bound
    }

    /// Searches bucket by bucket in their own order, skipping those that cannot hold nearer points.
    fn search_internal(&self, query: &[i16; DIMS]) -> (found: (NeighborSet, SearchStats))
        requires
            self.wf(),
            self@.admits(query@),
        ensures
            exists|plans: Plans| #[trigger]
                self@.plans_for(scanned(query@), plans) && {
                    let tour = self@.eager_search(query@, plans);
                    &&& found.0@ == tour.near
                    &&& found.1 == eager_stats(tour)
                    &&& tour.opened.len() <= u32::MAX
                    &&& tour.seen.len() <= u32::MAX
                },
    {
        let mut neighbors = NeighborSet::default();
        let mut stats = SearchStats::default();
        let scan_query: [i16; DIMS] = scan_order(query);
        let primary_bucket: usize = vector_bucket(query);
        let query_flags: usize = vector_flags(query);
        let plans: ScanPlans = self.scan_plans(&scan_query);
        let ghost buckets = occupied(self@.offsets, BUCKETS as int);
        proof {
            lemma_fresh(self@, query@);
            lemma_open(self@, fresh_tour(), primary_bucket as int);
            lemma_occupied(self@.offsets, BUCKETS as int);
        }
        self.search_bucket(primary_bucket, 0, &scan_query, &plans, &mut neighbors, &mut stats);
        let ghost mut tour = self@.primary_tour(query@, plans@);
        let ghost whole = self@.eager_search(query@, plans@);
        assert(opened_buckets(tour) =~= Seq::new(tour.opened.len(), |i: int| primary_bucket as int));
        let mut i: usize = 0;
        while i < self.non_empty_buckets.len()
            invariant
                self.wf(),
                self@.admits(query@),
                scan_query@ == scanned(query@),
                query_flags == vector_flag_bits(query@),
                primary_bucket == bucket_of_vector(query@),
                self@.plans_for(scanned(query@), plans@),
                self.plans_fit(plans),
                buckets == occupied(self@.offsets, BUCKETS as int),
                buckets.len() <= BUCKETS,
                self.non_empty_buckets@.len() == buckets.len(),
                forall|n: int| 0 <= n < buckets.len() ==> 0 <= #[trigger] buckets[n] < BUCKETS,
                forall|a: int, b: int| 0 <= a < b < buckets.len() ==> buckets[a] < buckets[b],
                i <= self.non_empty_buckets.len(),
                whole == self@.eager_search(query@, plans@),
                whole == self@.eager_tour(query@, plans@, buckets, i as int, tour),
                self@.orderly(tour),
                tour.opened.len() <= i + 1,
                tour.seen.len() <= self@.points.len(),
                neighbors@ == tour.near,
                ranked(neighbors@),
                stats == (SearchStats {
                    buckets_scanned: tour.opened.len() as u32,
                    points_scanned: tour.seen.len() as u32,
                    ..no_stats()
                }),
                forall|n: int|
                    0 <= n < tour.opened.len() ==> (#[trigger] tour.opened[n]).bucket == primary_bucket
                        || exists|j: int| 0 <= j < i && #[trigger] buckets[j] == tour.opened[n].bucket,
            decreases self.non_empty_buckets.len() - i,
        {
            let entry = self.non_empty_buckets[i];
            let bucket: usize = entry.bucket;
            proof {
                assert(bucket == buckets[i as int]);
                assert(entry.meta == meta_of(bucket as int));
                lemma_meta_of(bucket as int);
            }
            let ghost before = tour;
            if bucket != primary_bucket {
                let lower_bound: i64 = bucket_lower_bound(query, query_flags, entry.meta);
                if !neighbors.is_full() || lower_bound < neighbors.worst() {
                    proof {
                        if opened_buckets(tour).contains(bucket as int) {
                            let n = choose|n: int|
                                0 <= n < opened_buckets(tour).len() && opened_buckets(tour)[n]
                                    == bucket;
                            assert(tour.opened[n].bucket == bucket);
                        }
                        lemma_open(self@, tour, bucket as int);
                    }
                    self.search_bucket(
                        bucket,
                        lower_bound,
                        &scan_query,
                        &plans,
                        &mut neighbors,
                        &mut stats,
                    );
                    proof {
                        tour = self@.open_bucket(
                            query@,
                            plans@,
                            before,
                            bucket as int,
                            lower_bound as int,
                            None,
                        );
                    }
                }
            }
            proof {
                assert forall|n: int| 0 <= n < tour.opened.len() implies (
                #[trigger] tour.opened[n]).bucket == primary_bucket || exists|j: int|
                    0 <= j < i + 1 && #[trigger] buckets[j] == tour.opened[n].bucket by {
                    if n < before.opened.len() {
                        assert(tour.opened[n] == before.opened[n]);
                    } else {
                        assert(buckets[i as int] == tour.opened[n].bucket);
                    }
                }
            }
            i = i + 1;
        }
        stats.worst_distance = neighbors.worst();
        (neighbors, stats)
    }

    /// What holds of a search after the query's own bucket.
    pub open spec fn started(&self, vector: Seq<i16>, start: Started) -> bool {
        let tour = self@.primary_tour(vector, start.plans@);
        &&& start.scan_query@ == scanned(vector)
        &&& self.plans_fit(start.plans)
        &&& self@.valid_course(vector, start.plans@, start.candidates@)
        &&& start.neighbors@ == tour.near
        &&& ranked(tour.near)
        &&& self@.orderly(tour)
        &&& opened_before(vector, start.candidates@, 0, tour)
        &&& tour.opened.len() <= 1
        &&& tour.seen.len() <= self@.points.len()
        &&& start.stats == SearchStats {
            buckets_scanned: tour.opened.len() as u32,
            points_scanned: tour.seen.len() as u32,
            candidates_pruned_by_bound: self@.prefiltered(vector, start.plans@) as u32,
            ..no_stats()
        }
    }

    /// Scans the query's own bucket and orders the candidates by their bounds.
    pub(crate) fn start_search(&self, query: &[i16; DIMS]) -> (start: Started)
        requires
            self.wf(),
            self@.admits(query@),
        ensures
            self.started(query@, start),
    {
        let mut neighbors = NeighborSet::default();
        let mut stats = SearchStats::default();
        let scan_query: [i16; DIMS] = scan_order(query);
        let primary_bucket: usize = vector_bucket(query);
        let query_flags: usize = vector_flags(query);
        let plans: ScanPlans = self.scan_plans(&scan_query);
        proof {
            lemma_fresh(self@, query@);
            lemma_open(self@, fresh_tour(), primary_bucket as int);
        }
        self.search_bucket(primary_bucket, 0, &scan_query, &plans, &mut neighbors, &mut stats);
        let worst_bound: Option<i64> = if neighbors.is_full() {
            Some(neighbors.worst())
        } else {
            None
        };
        let mut candidates: Vec<(i64, usize)> = Vec::new();
        let prefiltered: u32 = self.build_candidate_buckets(
            query,
            query_flags,
            primary_bucket,
            worst_bound,
            &mut candidates,
        );
        stats.candidates_pruned_by_bound = prefiltered;
        sort_by_first(&mut candidates);
        Started { scan_query, plans, neighbors, candidates, stats }
    }

    /// Scans the candidates in the order of their bounds, with an optional limit on the number of
    /// points.
    fn search_candidates(&self, query: &[i16; DIMS], limit: Option<u32>) -> (found: (
        NeighborSet,
        SearchStats,
    ))
        requires
            self.wf(),
            self@.admits(query@),
        ensures
            exists|plans: Plans, order: Seq<(i64, usize)>| #[trigger]
                self@.valid_course(query@, plans, order) && {
                    let finish = self@.limited_search(query@, plans, order, limit);
                    &&& found.0@ == finish.tour.near
                    &&& found.1 == self@.limited_stats(query@, plans, finish)
                    &&& counters_fit(self@, query@, plans, finish)
                },
    {
        let start: Started = self.start_search(query);
        let mut neighbors: NeighborSet = start.neighbors;
        let mut stats: SearchStats = start.stats;
        let scan_query: [i16; DIMS] = start.scan_query;
        let plans: ScanPlans = start.plans;
        let candidates: Vec<(i64, usize)> = start.candidates;
        let ghost order = candidates@;
        let ghost mut tour = self@.primary_tour(query@, plans@);
        let ghost whole = self@.limited_search(query@, plans@, order, limit);
        let ghost prefiltered = self@.prefiltered(query@, plans@);
        proof {
            lemma_course(self@, query@, plans@, order);
        }
        let mut k: usize = 0;
        while k < candidates.len()
            invariant
                self.wf(),
                self@.admits(query@),
                scan_query@ == scanned(query@),
                self.plans_fit(plans),
                order == candidates@,
                self@.valid_course(query@, plans@, order),
                prefiltered == self@.prefiltered(query@, plans@),
                order.len() + prefiltered <= BUCKETS,
                prefiltered >= 0,
                forall|i: int|
                    0 <= i < order.len() ==> {
                        &&& (#[trigger] order[i]).1 < BUCKETS
                        &&& order[i].1 != bucket_of_vector(query@)
                        &&& order[i].0 == bucket_gap(query@, order[i].1 as int) as i64
                    },
                forall|i: int, j: int|
                    0 <= i < order.len() && 0 <= j < order.len() && i != j ==> order[i].1
                        != order[j].1,
                k <= candidates.len(),
                whole == self@.limited_search(query@, plans@, order, limit),
                whole == self@.limited_tour(query@, plans@, order, limit, k as int, tour),
                self@.orderly(tour),
                opened_before(query@, order, k as int, tour),
                tour.opened.len() <= k + 1,
                tour.seen.len() <= self@.points.len(),
                neighbors@ == tour.near,
                ranked(neighbors@),
                stats == (SearchStats {
                    buckets_scanned: tour.opened.len() as u32,
                    points_scanned: tour.seen.len() as u32,
                    candidates_considered: k as u32,
                    candidates_pruned_by_bound: prefiltered as u32,
                    ..no_stats()
                }),
            decreases candidates.len() - k,
        {
            let (lower_bound, bucket) = candidates[k];
            stats.candidates_considered = stats.candidates_considered + 1;
            if neighbors.is_full() && lower_bound >= neighbors.worst() {
                stats.candidates_pruned_by_bound = stats.candidates_pruned_by_bound + (
                candidates.len() - k) as u32;
                stats.worst_distance = neighbors.worst();
                return (neighbors, stats);
            }
            let mut max_bucket_points: Option<usize> = None;
            if neighbors.is_full() {
                if let Some(max_points) = limit {
                    if stats.points_scanned >= max_points {
                        stats.candidates_pruned_by_limit = (candidates.len() - k) as u32;
                        stats.worst_distance = neighbors.worst();
                        return (neighbors, stats);
                    }
                    max_bucket_points = Some((max_points - stats.points_scanned) as usize);
                }
            }
            proof {
                lemma_unopened(query@, order, k as int, tour);
                lemma_open(self@, tour, bucket as int);
                lemma_gap_bound(query@, bucket as int);
                lemma_opened_next(
                    self@,
                    query@,
                    plans@,
                    order,
                    k as int,
                    tour,
                    max_bucket_points,
                );
            }
            self.search_bucket_capped(
                bucket,
                lower_bound,
                &scan_query,
                &plans,
                &mut neighbors,
                max_bucket_points,
                &mut stats,
            );
            proof {
                tour = self@.open_bucket(
                    query@,
                    plans@,
                    tour,
                    bucket as int,
                    lower_bound as int,
                    max_bucket_points,
                );
            }
            k = k + 1;
        }
        stats.worst_distance = neighbors.worst();
        (neighbors, stats)
    }

    /// The vote of the nearest points, found in order of the bounds.
    pub fn search(&self, query: &[i16; DIMS]) -> (result: SearchResult)
        requires
            self.wf(),
            self@.admits(query@),
        ensures
            exists|plans: Plans, order: Seq<(i64, usize)>| #[trigger]
                self@.valid_course(query@, plans, order) && result.fraud_count == vote(
                    self@.limited_search(query@, plans, order, None).tour.near,
                ),
    {
        self.search_sorted(query).0
    }

    /// The vote of the nearest points, found in bucket order, and whether more than one bucket was
    /// opened.
    pub fn search_checked(&self, query: &[i16; DIMS]) -> (found: (SearchResult, bool))
        requires
            self.wf(),
            self@.admits(query@),
        ensures
            exists|plans: Plans| #[trigger]
                self@.plans_for(scanned(query@), plans) && {
                    let tour = self@.eager_search(query@, plans);
                    &&& found.0.fraud_count == vote(tour.near)
                    &&& found.1 == (tour.opened.len() > 1)
                },
    {
        let (neighbors, stats) = self.search_internal(query);
        (neighbors.result(), stats.buckets_scanned > 1)
    }

    /// The vote of the nearest points, found in bucket order, with counters.
    pub fn search_with_stats(&self, query: &[i16; DIMS]) -> (found: (SearchResult, SearchStats))
        requires
            self.wf(),
            self@.admits(query@),
        ensures
            exists|plans: Plans| #[trigger]
                self@.plans_for(scanned(query@), plans) && {
                    let tour = self@.eager_search(query@, plans);
                    &&& found.0.fraud_count == vote(tour.near)
                    &&& found.1 == eager_stats(tour)
                    &&& tour.opened.len() <= u32::MAX
                    &&& tour.seen.len() <= u32::MAX
                },
    {
        let (neighbors, stats) = self.search_internal(query);
        (neighbors.result(), stats)
    }

    /// The vote of the nearest of all points.
    pub fn search_brute(&self, query: &[i16; DIMS]) -> (result: SearchResult)
        requires
            self.wf(),
            self@.admits(query@),
        ensures
            result.fraud_count == vote(scan(no_neighbors(), scanned(query@), self@.points)),
    {
        let scan_query: [i16; DIMS] = scan_order(query);
        let mut neighbors = NeighborSet::default();
        proof {
            lemma_fresh(self@, query@);
            assert(self@.points.subrange(0, self@.points.len() as int) =~= self@.points);
        }
        self.search_range(0, self.points.len(), &scan_query, &mut neighbors);
        neighbors.result()
    }

    /// The vote of the nearest points of the query's own bucket.
    pub fn search_primary(&self, query: &[i16; DIMS]) -> (result: SearchResult)
        requires
            self.wf(),
            self@.admits(query@),
        ensures
            exists|plans: Plans| #[trigger]
                self@.plans_for(scanned(query@), plans) && result.fraud_count == vote(
                    self@.primary_tour(query@, plans).near,
                ),
    {
        let bucket: usize = vector_bucket(query);
        let scan_query: [i16; DIMS] = scan_order(query);
        let mut neighbors = NeighborSet::default();
        let mut stats = SearchStats::default();
        let plans: ScanPlans = self.scan_plans(&scan_query);
        proof {
            lemma_fresh(self@, query@);
            lemma_open(self@, fresh_tour(), bucket as int);
        }
        self.search_bucket(bucket, 0, &scan_query, &plans, &mut neighbors, &mut stats);
        neighbors.result()
    }

    /// The vote of the nearest points, found in order of the bounds, with counters.
    pub fn search_sorted(&self, query: &[i16; DIMS]) -> (found: (SearchResult, SearchStats))
        requires
            self.wf(),
            self@.admits(query@),
        ensures
            exists|plans: Plans, order: Seq<(i64, usize)>| #[trigger]
                self@.valid_course(query@, plans, order) && {
                    let finish = self@.limited_search(query@, plans, order, None);
                    &&& found.0.fraud_count == vote(finish.tour.near)
                    &&& found.1 == self@.limited_stats(query@, plans, finish)
                    &&& counters_fit(self@, query@, plans, finish)
                },
    {
        let (neighbors, stats) = self.search_candidates(query, None);
        (neighbors.result(), stats)
    }

    /// The vote of the nearest points, found in order of the bounds until about `max_points` points
    /// were looked at, with counters.
    pub fn search_limited(&self, query: &[i16; DIMS], max_points: u32) -> (found: (
        SearchResult,
        SearchStats,
    ))
        requires
            self.wf(),
            self@.admits(query@),
        ensures
            exists|plans: Plans, order: Seq<(i64, usize)>| #[trigger]
                self@.valid_course(query@, plans, order) && {
                    let finish = self@.limited_search(query@, plans, order, Some(max_points));
                    &&& found.0.fraud_count == vote(finish.tour.near)
                    &&& found.1 == self@.limited_stats(query@, plans, finish)
                    &&& counters_fit(self@, query@, plans, finish)
                },
    {
        let (neighbors, stats) = self.search_candidates(query, Some(max_points));
        (neighbors.result(), stats)
    }

    /// The vote of the nearest points, found in order of the bounds until about `max_points` points
    /// were looked at.
    pub fn search_limited_result(&self, query: &[i16; DIMS], max_points: u32) -> (result: SearchResult)
        requires
            self.wf(),
            self@.admits(query@),
        ensures
            exists|plans: Plans, order: Seq<(i64, usize)>| #[trigger]
                self@.valid_course(query@, plans, order) && result.fraud_count == vote(
                    self@.limited_search(query@, plans, order, Some(max_points)).tour.near,
                ),
    {
        let (neighbors, _stats) = self.search_candidates(query, Some(max_points));
        neighbors.result()
    }
}

/// The counters of a search fit their fields.
pub open spec fn counters_fit(index: IndexView, vector: Seq<i16>, plans: Plans, finish: Finish) -> bool {
    &&& finish.tour.opened.len() <= u32::MAX
    &&& finish.tour.seen.len() <= u32::MAX
    &&& 0 <= finish.considered <= u32::MAX
    &&& 0 <= index.prefiltered(vector, plans) + finish.by_bound <= u32::MAX
    &&& 0 <= finish.by_limit <= u32::MAX
    &&& i64::MIN <= worst_of(finish.tour.near) <= i64::MAX
}

/// The bound of a bucket is of ordinary size.
pub proof fn lemma_gap_bound(vector: Seq<i16>, bucket: int)
    requires
        0 <= bucket < BUCKETS,
    ensures
        0 <= bucket_gap(vector, bucket) <= 15_000_000_000,
{
    lemma_meta_of(bucket);
    lemma_square_bound(vector[5] + 10_000, 42_768);
    lemma_square_bound(vector[6] + 10_000, 42_768);
    lemma_square_bound(vector[12] - meta_of(bucket).mcc_value, 42_768);
    lemma_square_bound(vector[8] - meta_of(bucket).tx_value, 42_768);
    lemma_square_bound(vector[2] - meta_of(bucket).ratio_lo, 42_768);
    lemma_square_bound(vector[2] - meta_of(bucket).ratio_hi, 42_768);
}

} // verus!
