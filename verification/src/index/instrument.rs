//! A limited search that counts and times everything it does.
use std::time::{Duration, Instant};
use vstd::prelude::*;

use crate::index::buckets::{instrumented_details, instrumented_stats, Plans, ScanPlans};
use crate::index::geometry::{bucket_gap, bucket_of_vector, scan_order, scanned, vector_bucket,
    vector_flags};
use crate::index::neighbors::{ranked, vote, NeighborSet, SearchResult};
use crate::index::plan::sort_by_first;
use crate::index::recording::{counted, lemma_counted_concat, lemma_room_left};
use crate::index::search::{counters_fit, lemma_course, lemma_fresh, lemma_gap_bound, lemma_opened_next,
    lemma_unopened, opened_before};
use crate::index::stats::{no_stats, SearchDetails, SearchStats, SearchTiming};
use crate::index::tour::{fresh_tour, lemma_open, Finish, Opening, Tour};
use crate::index::{Index, IndexView, BUCKETS, DIMS, IVF_CELLS, SECTORS};

verus! {

/// `std::time::Instant`, carried through without looking inside.
#[verifier::external_type_specification]
#[verifier::external_body]
pub struct ExInstant(std::time::Instant);

/// Reads the clock with `Instant::now`; nothing is claimed of the result.
#[verifier::external_body]
fn clock_now() -> (now: Instant) {
    Instant::now()
}

/// The time since an instant, from `Instant::elapsed`; nothing is claimed of the result.
#[verifier::external_body]
fn time_since(before: &Instant) -> (passed: Duration) {
    before.elapsed()
}

/// Sum of a quantity over the buckets opened.
pub open spec fn total(opened: Seq<Opening>, quantity: spec_fn(Opening) -> int) -> int
    decreases opened.len(),
{
    if opened.len() == 0 {
        0
    } else {
        total(opened.drop_last(), quantity) + quantity(opened.last())
    }
}

/// The largest number of points that one opened bucket contributed.
pub open spec fn largest(opened: Seq<Opening>) -> int
    decreases opened.len(),
{
    if opened.len() == 0 {
        0
    } else {
        let earlier = largest(opened.drop_last());
        let points = opened.last().walk.seen.len() as int;
        if earlier < points { points } else { earlier }
    }
}

impl IndexView {
    /// Whether an opened bucket is subdivided.
    pub open spec fn is_split(self, opening: Opening) -> bool {
        !(self.layouts[opening.bucket] is Whole)
    }

    /// One for an opened bucket that is subdivided or not, as asked, zero for another.
    pub open spec fn one_if(self, split: bool) -> spec_fn(Opening) -> int {
        |opening: Opening| if self.is_split(opening) == split { 1int } else { 0 }
    }

    /// The points that an opened bucket contributed, if it is subdivided or not, as asked.
    pub open spec fn points_if(self, split: bool) -> spec_fn(Opening) -> int {
        |opening: Opening|
            if self.is_split(opening) == split {
                opening.walk.seen.len() as int
            } else {
                0
            }
    }

    /// The sectors of an opened bucket that were scanned.
    pub open spec fn sectors_of(self) -> spec_fn(Opening) -> int {
        |opening: Opening| self.sectors_scanned(opening.bucket, opening.walk)
    }

    /// The plan entries of an opened bucket that the bound made superfluous.
    pub open spec fn pruned_of(self) -> spec_fn(Opening) -> int {
        |opening: Opening| if self.is_split(opening) { opening.walk.pruned } else { 0 }
    }

    /// The points that the primary bucket, or the other ones, contributed.
    pub open spec fn points_by_role(self, primary: int, is_primary: bool) -> spec_fn(Opening) -> int {
        |opening: Opening|
            if (opening.bucket == primary) == is_primary {
                opening.walk.seen.len() as int
            } else {
                0
            }
    }

    /// One for the primary bucket, or for another one, that is subdivided.
    pub open spec fn split_by_role(self, primary: int, is_primary: bool) -> spec_fn(Opening) -> int {
        |opening: Opening|
            if (opening.bucket == primary) == is_primary && self.is_split(opening) {
                1int
            } else {
                0
            }
    }

    /// The counters that a tour's openings add up to.
    pub open spec fn opened_stats(self, tour: Tour) -> SearchStats {
        SearchStats {
            buckets_scanned: tour.opened.len() as u32,
            points_scanned: tour.seen.len() as u32,
            linear_buckets_scanned: total(tour.opened, self.one_if(false)) as u32,
            sectorized_buckets_scanned: total(tour.opened, self.one_if(true)) as u32,
            linear_points_scanned: total(tour.opened, self.points_if(false)) as u32,
            sectorized_points_scanned: total(tour.opened, self.points_if(true)) as u32,
            sectors_scanned: total(tour.opened, self.sectors_of()) as u32,
            sectors_pruned_by_bound: total(tour.opened, self.pruned_of()) as u32,
            ..no_stats()
        }
    }

    /// The counters of an instrumented search.
    pub open spec fn instrumented_totals(
        self,
        vector: Seq<i16>,
        plans: Plans,
        finish: Finish,
    ) -> SearchStats {
        let base = self.limited_stats(vector, plans, finish);
        SearchStats {
            candidates_considered: base.candidates_considered,
            candidates_pruned_by_bound: base.candidates_pruned_by_bound,
            candidates_pruned_by_limit: base.candidates_pruned_by_limit,
            worst_distance: base.worst_distance,
            ..self.opened_stats(finish.tour)
        }
    }

    /// The openings' sums fit the counters.
    pub open spec fn totals_fit(self, primary: int, tour: Tour) -> bool {
        &&& tour.opened.len() <= BUCKETS + 1
        &&& tour.seen.len() <= u32::MAX
        &&& 0 <= total(tour.opened, self.one_if(false)) <= tour.opened.len()
        &&& 0 <= total(tour.opened, self.one_if(true)) <= tour.opened.len()
        &&& 0 <= total(tour.opened, self.points_if(false)) <= tour.seen.len()
        &&& 0 <= total(tour.opened, self.points_if(true)) <= tour.seen.len()
        &&& 0 <= total(tour.opened, self.sectors_of()) <= tour.opened.len() * SECTORS
        &&& 0 <= total(tour.opened, self.pruned_of()) <= tour.opened.len() * IVF_CELLS
        &&& 0 <= total(tour.opened, self.points_by_role(primary, true)) <= tour.seen.len()
        &&& 0 <= total(tour.opened, self.points_by_role(primary, false)) <= tour.seen.len()
        &&& 0 <= total(tour.opened, self.split_by_role(primary, true)) <= tour.opened.len()
        &&& 0 <= total(tour.opened, self.split_by_role(primary, false)) <= tour.opened.len()
        &&& 0 <= largest(tour.opened) <= tour.seen.len()
        &&& tour.stops.len() == tour.seen.len()
    }

    /// The finer counters that a tour's openings add up to.
    pub open spec fn opened_details(self, primary: int, tour: Tour, details: SearchDetails) -> bool {
        &&& details.primary_points_scanned == total(tour.opened, self.points_by_role(primary, true))
        &&& details.secondary_points_scanned == total(
            tour.opened,
            self.points_by_role(primary, false),
        )
        &&& details.primary_bucket_sectorized == total(tour.opened, self.split_by_role(primary, true))
        &&& details.secondary_sectorized_buckets == total(
            tour.opened,
            self.split_by_role(primary, false),
        )
        &&& details.largest_bucket_points == largest(tour.opened)
        &&& forall|d: int|
            0 <= d < DIMS ==> #[trigger] details.distance_steps@[d]
                == crate::index::recording::reaching(tour.stops, d)
        &&& forall|d: int|
            0 <= d < DIMS ==> #[trigger] details.distance_cutoffs@[d]
                == crate::index::recording::stopping(tour.stops, d)
        &&& details.distance_full == crate::index::recording::stopping(tour.stops, DIMS as int)
        &&& details.neighbor_insertions == crate::index::recording::stopping(tour.stops, DIMS as int)
    }
}

/// One more bucket opened adds its quantity.
pub proof fn lemma_total_push(opened: Seq<Opening>, opening: Opening, quantity: spec_fn(Opening) -> int)
    ensures
        total(opened.push(opening), quantity) == total(opened, quantity) + quantity(opening),
{
    assert(opened.push(opening).drop_last() =~= opened);
}

/// One more bucket opened adds to every counter.
proof fn lemma_opened_more(index: IndexView, primary: int, tour: Tour, next: Tour, opening: Opening)
    requires
        next.opened == tour.opened.push(opening),
        next.seen == tour.seen + opening.walk.seen,
    ensures
        forall|quantity: spec_fn(Opening) -> int| #[trigger]
            total(next.opened, quantity) == total(tour.opened, quantity) + quantity(opening),
        largest(next.opened) == if largest(tour.opened) < opening.walk.seen.len() {
            opening.walk.seen.len() as int
        } else {
            largest(tour.opened)
        },
{
    assert forall|quantity: spec_fn(Opening) -> int| #[trigger]
        total(next.opened, quantity) == total(tour.opened, quantity) + quantity(opening) by {
        lemma_total_push(tour.opened, opening, quantity);
    }
    assert(next.opened.drop_last() =~= tour.opened);
}

/// The counters that openings add up to, whatever the other ones hold.
pub open spec fn counts_openings(index: IndexView, tour: Tour, stats: SearchStats) -> bool {
    stats == SearchStats {
        candidates_considered: stats.candidates_considered,
        candidates_pruned_by_bound: stats.candidates_pruned_by_bound,
        candidates_pruned_by_limit: stats.candidates_pruned_by_limit,
        worst_distance: stats.worst_distance,
        ..index.opened_stats(tour)
    }
}

/// The finer counters are all zero.
spec fn blank(details: SearchDetails) -> bool {
    &&& forall|d: int| 0 <= d < DIMS ==> details.distance_steps@[d] == 0
    &&& forall|d: int| 0 <= d < DIMS ==> details.distance_cutoffs@[d] == 0
    &&& details.distance_full == 0
    &&& details.neighbor_insertions == 0
}

/// Counting the stops of a tour is counting from blank counters.
proof fn lemma_details_counted(index: IndexView, primary: int, tour: Tour, zero: SearchDetails, details: SearchDetails)
    requires
        blank(zero),
        index.opened_details(primary, tour, details),
    ensures
        counted(zero, details, tour.stops),
{
}

/// Opening one more bucket keeps all counters in step with the tour.
proof fn lemma_instrumented_step(
    index: IndexView,
    primary: int,
    tour: Tour,
    next: Tour,
    opening: Opening,
    zero: SearchDetails,
    stats: (SearchStats, SearchStats),
    details: (SearchDetails, SearchDetails),
)
    requires
        next.opened == tour.opened.push(opening),
        next.seen == tour.seen + opening.walk.seen,
        next.stops == tour.stops + opening.walk.stops,
        next.seen.len() <= u32::MAX,
        tour.opened.len() <= BUCKETS,
        index.totals_fit(primary, tour),
        counts_openings(index, tour, stats.0),
        index.opened_details(primary, tour, details.0),
        stats.1 == instrumented_stats(index, opening.bucket, stats.0, opening.walk),
        instrumented_details(
            index,
            opening.bucket,
            opening.bucket == primary,
            details.0,
            details.1,
            opening.walk,
        ),
        opening.walk.stops.len() == opening.walk.seen.len(),
        0 <= index.sectors_scanned(opening.bucket, opening.walk) <= SECTORS,
        0 <= opening.walk.pruned <= IVF_CELLS,
        opening.bucket == primary ==> tour.opened.len() == 0,
        blank(zero),
    ensures
        index.totals_fit(primary, next),
        counts_openings(index, next, stats.1),
        index.opened_details(primary, next, details.1),
{
    lemma_opened_more(index, primary, tour, next, opening);
    lemma_details_counted(index, primary, tour, zero, details.0);
    lemma_counted_concat(zero, details.0, details.1, tour.stops, opening.walk.stops);
    assert(total(next.opened, index.one_if(false)) == total(tour.opened, index.one_if(false))
        + index.one_if(false)(opening));
    assert(total(next.opened, index.one_if(true)) == total(tour.opened, index.one_if(true))
        + index.one_if(true)(opening));
    assert(total(next.opened, index.points_if(false)) == total(tour.opened, index.points_if(false))
        + index.points_if(false)(opening));
    assert(total(next.opened, index.points_if(true)) == total(tour.opened, index.points_if(true))
        + index.points_if(true)(opening));
    assert(total(next.opened, index.sectors_of()) == total(tour.opened, index.sectors_of())
        + index.sectors_of()(opening));
    assert(total(next.opened, index.pruned_of()) == total(tour.opened, index.pruned_of())
        + index.pruned_of()(opening));
    assert(total(next.opened, index.points_by_role(primary, true)) == total(
        tour.opened,
        index.points_by_role(primary, true),
    ) + index.points_by_role(primary, true)(opening));
    assert(total(next.opened, index.points_by_role(primary, false)) == total(
        tour.opened,
        index.points_by_role(primary, false),
    ) + index.points_by_role(primary, false)(opening));
    assert(total(next.opened, index.split_by_role(primary, true)) == total(
        tour.opened,
        index.split_by_role(primary, true),
    ) + index.split_by_role(primary, true)(opening));
    assert(total(next.opened, index.split_by_role(primary, false)) == total(
        tour.opened,
        index.split_by_role(primary, false),
    ) + index.split_by_role(primary, false)(opening));
}

/// Room for one more bucket in all counters.
proof fn lemma_instrumented_room(
    index: IndexView,
    primary: int,
    tour: Tour,
    zero: SearchDetails,
    details: SearchDetails,
    points: int,
)
    requires
        blank(zero),
        index.totals_fit(primary, tour),
        index.opened_details(primary, tour, details),
        0 <= points,
        tour.seen.len() + points <= u32::MAX,
    ensures
        crate::index::recording::has_room(details, points),
{
    lemma_details_counted(index, primary, tour, zero, details);
    lemma_room_left(zero, details, tour.stops, points);
}

impl Index {
    /// The vote of the nearest points, found in order of the bounds until about `max_points` points
    /// were looked at, with all counters and times.
    pub fn search_limited_instrumented(&self, query: &[i16; DIMS], max_points: u32) -> (found: (
        SearchResult,
        SearchStats,
        SearchTiming,
        SearchDetails,
    ))
        requires
            self.wf(),
            self@.admits(query@),
        ensures
            exists|plans: Plans, order: Seq<(i64, usize)>| #[trigger]
                self@.valid_course(query@, plans, order) && {
                    let finish = self@.limited_search(query@, plans, order, Some(max_points));
                    &&& found.0.fraud_count == vote(finish.tour.near)
                    &&& found.1 == self@.instrumented_totals(query@, plans, finish)
                    &&& self@.opened_details(bucket_of_vector(query@), finish.tour, found.3)
                    &&& found.3.limit_overshoot_points == if finish.tour.seen.len() > max_points {
                        finish.tour.seen.len() - max_points
                    } else {
                        0
                    }
                    &&& self@.totals_fit(bucket_of_vector(query@), finish.tour)
                    &&& counters_fit(self@, query@, plans, finish)
                },
    {
        let mut neighbors = NeighborSet::default();
        let mut stats = SearchStats::default();
        let mut details = SearchDetails::default();
        let ghost zero = details;
        let scan_query: [i16; DIMS] = scan_order(query);
        let primary_bucket: usize = vector_bucket(query);
        let query_flags: usize = vector_flags(query);
        let plans: ScanPlans = self.scan_plans(&scan_query);
        let ghost mut tour = fresh_tour();
        let ghost primary = primary_bucket as int;
        proof {
            lemma_fresh(self@, query@);
            lemma_open(self@, tour, primary);
            lemma_instrumented_room(
                self@,
                primary,
                tour,
                zero,
                details,
                self@.offsets[primary + 1] - self@.offsets[primary],
            );
        }
        let before: Instant = clock_now();
        let ghost old_parts = (stats, details);
        self.search_bucket_instrumented_capped(
            primary_bucket,
            0,
            &scan_query,
            &plans,
            &mut neighbors,
            &mut stats,
            &mut details,
            true,
            None,
        );
        proof {
            let next = self@.primary_tour(query@, plans@);
            if self@.opens(primary, None) {
                lemma_instrumented_step(
                    self@,
                    primary,
                    tour,
                    next,
                    next.opened.last(),
                    zero,
                    (old_parts.0, stats),
                    (old_parts.1, details),
                );
            }
            tour = next;
        }
        let primary_time: Duration = time_since(&before);
        let before: Instant = clock_now();
        let worst_bound: Option<i64> = if neighbors.is_full() {
            Some(neighbors.worst())
        } else {
            None
        };
        let mut candidates: Vec<(i64, usize)> = Vec::new();
        let prefiltered_by_bound: u32 = self.build_candidate_buckets(
            query,
            query_flags,
            primary_bucket,
            worst_bound,
            &mut candidates,
        );
        stats.candidates_pruned_by_bound = prefiltered_by_bound;
        let candidate_build: Duration = time_since(&before);
        let before: Instant = clock_now();
        sort_by_first(&mut candidates);
        let candidate_sort: Duration = time_since(&before);
        let ghost order = candidates@;
        let ghost whole = self@.limited_search(query@, plans@, order, Some(max_points));
        let ghost prefiltered = self@.prefiltered(query@, plans@);
        proof {
            lemma_course(self@, query@, plans@, order);
        }
        let before: Instant = clock_now();
        let mut k: usize = 0;
        let mut running: bool = true;
        while running && k < candidates.len()
            invariant
                self.wf(),
                self@.admits(query@),
                scan_query@ == scanned(query@),
                primary == bucket_of_vector(query@),
                self.plans_fit(plans),
                order == candidates@,
                self@.valid_course(query@, plans@, order),
                prefiltered == self@.prefiltered(query@, plans@),
                order.len() + prefiltered <= BUCKETS,
                prefiltered >= 0,
                forall|i: int|
                    0 <= i < order.len() ==> {
                        &&& (#[trigger] order[i]).1 < BUCKETS
                        &&& order[i].1 != bucket_of_vector(query@)
                        &&& order[i].0 == bucket_gap(query@, order[i].1 as int) as i64
                    },
                forall|i: int, j: int|
                    0 <= i < order.len() && 0 <= j < order.len() && i != j ==> order[i].1
                        != order[j].1,
                k <= candidates.len(),
                whole == self@.limited_search(query@, plans@, order, Some(max_points)),
                running ==> whole == self@.limited_tour(
                    query@,
                    plans@,
                    order,
                    Some(max_points),
                    k as int,
                    tour,
                ),
                !running ==> whole.tour == tour,
                self@.orderly(tour),
                running ==> opened_before(query@, order, k as int, tour),
                tour.opened.len() <= k + 1,
                tour.seen.len() <= self@.points.len(),
                neighbors@ == tour.near,
                ranked(neighbors@),
                blank(zero),
                self@.totals_fit(primary, tour),
                counts_openings(self@, tour, stats),
                self@.opened_details(primary, tour, details),
                details.limit_overshoot_points == 0,
                running ==> stats.candidates_considered == k,
                running ==> stats.candidates_pruned_by_bound == prefiltered,
                running ==> stats.candidates_pruned_by_limit == 0,
                !running ==> stats.candidates_considered == whole.considered,
                !running ==> stats.candidates_pruned_by_bound == prefiltered + whole.by_bound,
                !running ==> stats.candidates_pruned_by_limit == whole.by_limit,
                stats.worst_distance == i64::MAX,
            decreases candidates.len() - k, (if running { 1int } else { 0 }),
        {
            let (lower_bound, bucket) = candidates[k];
            stats.candidates_considered = stats.candidates_considered + 1;
            if neighbors.is_full() && lower_bound >= neighbors.worst() {
                stats.candidates_pruned_by_bound = stats.candidates_pruned_by_bound + (
                candidates.len() - k) as u32;
                running = false;
            } else if neighbors.is_full() && stats.points_scanned >= max_points {
                stats.candidates_pruned_by_limit = (candidates.len() - k) as u32;
                running = false;
            } else {
                let max_bucket_points: Option<usize> = if neighbors.is_full() {
                    Some((max_points - stats.points_scanned) as usize)
                } else {
                    None
                };
                let ghost next = self@.open_bucket(
                    query@,
                    plans@,
                    tour,
                    bucket as int,
                    lower_bound as int,
                    max_bucket_points,
                );
                let ghost old_parts = (stats, details);
                proof {
                    lemma_unopened(query@, order, k as int, tour);
                    lemma_open(self@, tour, bucket as int);
                    lemma_gap_bound(query@, bucket as int);
                    lemma_opened_next(
                        self@,
                        query@,
                        plans@,
                        order,
                        k as int,
                        tour,
                        max_bucket_points,
                    );
                    assert(self@.offsets[bucket as int] <= self@.offsets[bucket + 1]);
                    lemma_instrumented_room(
                        self@,
                        primary,
                        tour,
                        zero,
                        details,
                        self@.offsets[bucket + 1] - self@.offsets[bucket as int],
                    );
                }
                self.search_bucket_instrumented_capped(
                    bucket,
                    lower_bound,
                    &scan_query,
                    &plans,
                    &mut neighbors,
                    &mut stats,
                    &mut details,
                    false,
                    max_bucket_points,
                );
                proof {
                    if self@.opens(bucket as int, max_bucket_points) {
                        lemma_instrumented_step(
                            self@,
                            primary,
                            tour,
                            next,
                            next.opened.last(),
                            zero,
                            (old_parts.0, stats),
                            (old_parts.1, details),
                        );
                    }
                    tour = next;
                }
                k = k + 1;
            }
        }
        let bucket_scan: Duration = time_since(&before);
        if stats.points_scanned > max_points {
            details.limit_overshoot_points = stats.points_scanned - max_points;
        }
        stats.worst_distance = neighbors.worst();
        let timing = SearchTiming { primary: primary_time, candidate_build, candidate_sort, bucket_scan };
        (neighbors.result(), stats, timing, details)
    }
}

} // verus!
