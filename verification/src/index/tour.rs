//! Which buckets a search opens, in which order, and when it stops.
use vstd::prelude::*;

use crate::index::buckets::Plans;
use crate::index::geometry::{bucket_gap, bucket_of_vector, scanned};
use crate::index::neighbors::{full, no_neighbors, worst_of, Neighbor};
use crate::index::plan::is_ordering;
use crate::index::stats::{no_stats, SearchStats};
use crate::index::walk::{lemma_span_sum, span_sum, Walk};
use crate::index::{occupied, IndexView, BUCKETS};

verus! {

/// A bucket that a search opened, and the walk over its points.
pub struct Opening {
    pub bucket: int,
    pub walk: Walk,
}

/// How far a search has come.
pub struct Tour {
    /// The nearest neighbours so far.
    pub near: Seq<Neighbor>,
    /// The positions of the points looked at.
    pub seen: Seq<int>,
    /// Where the comparison with each of them stopped.
    pub stops: Seq<int>,
    /// The buckets opened.
    pub opened: Seq<Opening>,
}

/// How a tour over ordered candidates ended.
pub struct Finish {
    pub tour: Tour,
    /// How many candidates were considered.
    pub considered: int,
    /// How many the bound of the last one considered made superfluous.
    pub by_bound: int,
    /// How many the limit on the number of points cut off.
    pub by_limit: int,
}

/// The search that has not begun.
pub open spec fn fresh_tour() -> Tour {
    Tour { near: no_neighbors(), seen: Seq::empty(), stops: Seq::empty(), opened: Seq::empty() }
}

/// The numbers of the buckets opened.
pub open spec fn opened_buckets(tour: Tour) -> Seq<int> {
    Seq::new(tour.opened.len(), |i: int| tour.opened[i].bucket)
}

/// How many points the next bucket may contribute under a limit on all points.
pub open spec fn allowance(near: Seq<Neighbor>, limit: Option<u32>, used: int) -> Option<usize> {
    match limit {
        Some(most) => if full(near) { Some((most - used) as usize) } else { None },
        None => None,
    }
}

/// How many points the next bucket may contribute under a limit that may already be exceeded: the
/// difference is taken modulo 2^32, as a `u32` subtraction that wraps.
pub open spec fn wrapped_allowance(near: Seq<Neighbor>, limit: u32, used: int) -> Option<usize> {
    if full(near) {
        Some(
            (if used <= limit {
                limit - used
            } else {
                limit - used + 0x1_0000_0000
            }) as usize,
        )
    } else {
        None
    }
}

/// The candidates among the given buckets: all but the primary one, unless their bound reaches the
/// ceiling.
pub open spec fn candidate_list(
    vector: Seq<i16>,
    ceiling: Option<int>,
    buckets: Seq<int>,
) -> Seq<(i64, usize)>
    decreases buckets.len(),
{
    if buckets.len() == 0 {
        Seq::empty()
    } else {
        let earlier = candidate_list(vector, ceiling, buckets.drop_last());
        let bucket = buckets.last();
        if bucket == bucket_of_vector(vector) || beyond(vector, ceiling, bucket) {
            earlier
        } else {
            earlier.push((bucket_gap(vector, bucket) as i64, bucket as usize))
        }
    }
}

/// How many of the given buckets, the primary one left out, have a bound that reaches the ceiling.
pub open spec fn candidates_beyond(
    vector: Seq<i16>,
    ceiling: Option<int>,
    buckets: Seq<int>,
) -> int
    decreases buckets.len(),
{
    if buckets.len() == 0 {
        0
    } else {
        let bucket = buckets.last();
        candidates_beyond(vector, ceiling, buckets.drop_last()) + if bucket != bucket_of_vector(
            vector,
        ) && beyond(vector, ceiling, bucket) {
            1int
        } else {
            0
        }
    }
}

/// The bound of a bucket reaches the ceiling.
pub open spec fn beyond(vector: Seq<i16>, ceiling: Option<int>, bucket: int) -> bool {
    ceiling matches Some(worst) && bucket_gap(vector, bucket) >= worst
}

/// The ceiling that the neighbours found so far set.
pub open spec fn ceiling_of(near: Seq<Neighbor>) -> Option<int> {
    if full(near) { Some(worst_of(near)) } else { None }
}

impl IndexView {
    /// Opens a bucket.
    pub open spec fn open_bucket(
        self,
        vector: Seq<i16>,
        plans: Plans,
        tour: Tour,
        bucket: int,
        bound: int,
        cap: Option<usize>,
    ) -> Tour {
        if self.opens(bucket, cap) {
            let walk = self.bucket_walk(scanned(vector), plans, bucket, bound, cap, tour.near);
            Tour {
                near: walk.near,
                seen: tour.seen + walk.seen,
                stops: tour.stops + walk.stops,
                opened: tour.opened.push(Opening { bucket, walk }),
            }
        } else {
            tour
        }
    }

    /// The search after the query's own bucket.
    pub open spec fn primary_tour(self, vector: Seq<i16>, plans: Plans) -> Tour {
        self.open_bucket(vector, plans, fresh_tour(), bucket_of_vector(vector), 0, None)
    }

    /// The candidates that remain after the query's own bucket.
    pub open spec fn candidates(self, vector: Seq<i16>, plans: Plans) -> Seq<(i64, usize)> {
        candidate_list(
            vector,
            ceiling_of(self.primary_tour(vector, plans).near),
            occupied(self.offsets, BUCKETS as int),
        )
    }

    /// How many buckets the neighbours from the query's own bucket rule out.
    pub open spec fn prefiltered(self, vector: Seq<i16>, plans: Plans) -> int {
        candidates_beyond(
            vector,
            ceiling_of(self.primary_tour(vector, plans).near),
            occupied(self.offsets, BUCKETS as int),
        )
    }

    /// The plans and the candidate order belong to the query; parts and candidates with equal
    /// bounds stand in any order.
    pub open spec fn valid_course(
        self,
        vector: Seq<i16>,
        plans: Plans,
        order: Seq<(i64, usize)>,
    ) -> bool {
        &&& self.plans_for(scanned(vector), plans)
        &&& is_ordering(order, self.candidates(vector, plans))
    }

    /// The tour over the candidates from entry `k` on. It ends when the next bound reaches the
    /// farthest of five neighbours and when, with five neighbours, the limit is used up.
    pub open spec fn limited_tour(
        self,
        vector: Seq<i16>,
        plans: Plans,
        order: Seq<(i64, usize)>,
        limit: Option<u32>,
        k: int,
        tour: Tour,
    ) -> Finish
        decreases order.len() - k,
    {
        if k >= order.len() {
            Finish { tour, considered: order.len() as int, by_bound: 0, by_limit: 0 }
        } else if full(tour.near) && order[k].0 >= worst_of(tour.near) {
            Finish { tour, considered: k + 1, by_bound: order.len() - k, by_limit: 0 }
        } else if full(tour.near) && (limit matches Some(most) && tour.seen.len() >= most) {
            Finish { tour, considered: k + 1, by_bound: 0, by_limit: order.len() - k }
        } else {
            self.limited_tour(
                vector,
                plans,
                order,
                limit,
                k + 1,
                self.open_bucket(
                    vector,
                    plans,
                    tour,
                    order[k].1 as int,
                    order[k].0 as int,
                    allowance(tour.near, limit, tour.seen.len() as int),
                ),
            )
        }
    }

    /// A whole search over ordered candidates.
    pub open spec fn limited_search(
        self,
        vector: Seq<i16>,
        plans: Plans,
        order: Seq<(i64, usize)>,
        limit: Option<u32>,
    ) -> Finish {
        self.limited_tour(vector, plans, order, limit, 0, self.primary_tour(vector, plans))
    }

    /// The counters of a search over ordered candidates.
    pub open spec fn limited_stats(
        self,
        vector: Seq<i16>,
        plans: Plans,
        finish: Finish,
    ) -> SearchStats {
        SearchStats {
            buckets_scanned: finish.tour.opened.len() as u32,
            points_scanned: finish.tour.seen.len() as u32,
            candidates_considered: finish.considered as u32,
            candidates_pruned_by_bound: (self.prefiltered(vector, plans) + finish.by_bound) as u32,
            candidates_pruned_by_limit: finish.by_limit as u32,
            worst_distance: worst_of(finish.tour.near) as i64,
            ..no_stats()
        }
    }

    /// The tour over the buckets that hold points, from number `k` on, in their own order.
    pub open spec fn eager_tour(
        self,
        vector: Seq<i16>,
        plans: Plans,
        buckets: Seq<int>,
        k: int,
        tour: Tour,
    ) -> Tour
        decreases buckets.len() - k,
    {
        if k >= buckets.len() {
            tour
        } else {
            let bucket = buckets[k];
            let bound = bucket_gap(vector, bucket);
            let next = if bucket == bucket_of_vector(vector) || full(tour.near) && bound >= worst_of(
                tour.near,
            ) {
                tour
            } else {
                self.open_bucket(vector, plans, tour, bucket, bound, None)
            };
            self.eager_tour(vector, plans, buckets, k + 1, next)
        }
    }

    /// A whole search in bucket order.
    pub open spec fn eager_search(self, vector: Seq<i16>, plans: Plans) -> Tour {
        self.eager_tour(
            vector,
            plans,
            occupied(self.offsets, BUCKETS as int),
            0,
            self.primary_tour(vector, plans),
        )
    }

    /// Every bucket was opened at most once and contributed no more than its points.
    pub open spec fn orderly(self, tour: Tour) -> bool {
        &&& opened_buckets(tour).no_duplicates()
        &&& forall|i: int| 0 <= i < tour.opened.len() ==> 0 <= (#[trigger] tour.opened[i]).bucket < BUCKETS
        &&& tour.seen.len() <= span_sum(self.offsets, opened_buckets(tour))
    }
}

/// The buckets that hold points ascend, are in range, and are all of them.
pub proof fn lemma_occupied(offsets: Seq<u32>, limit: int)
    requires
        0 <= limit <= BUCKETS,
    ensures
        forall|i: int|
            0 <= i < occupied(offsets, limit).len() ==> 0 <= #[trigger] occupied(offsets, limit)[i]
                < limit && offsets[occupied(offsets, limit)[i]] != offsets[occupied(offsets, limit)[i]
                + 1],
        forall|i: int, j: int|
            0 <= i < j < occupied(offsets, limit).len() ==> occupied(offsets, limit)[i] < occupied(
                offsets,
                limit,
            )[j],
        forall|b: int|
            0 <= b < limit && offsets[b] != offsets[b + 1] ==> #[trigger] occupied(offsets, limit).contains(b),
        occupied(offsets, limit).len() <= limit,
    decreases limit,
{
    if limit > 0 {
        lemma_occupied(offsets, limit - 1);
        let earlier = occupied(offsets, limit - 1);
        let all = occupied(offsets, limit);
        assert forall|b: int| 0 <= b < limit && offsets[b] != offsets[b + 1] implies #[trigger] all.contains(
            b,
        ) by {
            if b < limit - 1 {
                assert(earlier.contains(b));
                let i = choose|i: int| 0 <= i < earlier.len() && earlier[i] == b;
                assert(all[i] == b);
            } else {
                assert(all[all.len() - 1] == b);
            }
        }
    }
}

/// The candidates are buckets from the list, each once, without the primary one, with their bounds.
pub proof fn lemma_candidates(vector: Seq<i16>, ceiling: Option<int>, buckets: Seq<int>)
    requires
        forall|i: int| 0 <= i < buckets.len() ==> 0 <= #[trigger] buckets[i] < BUCKETS,
        forall|i: int, j: int| 0 <= i < j < buckets.len() ==> buckets[i] < buckets[j],
    ensures
        candidate_list(vector, ceiling, buckets).len() + candidates_beyond(vector, ceiling, buckets)
            <= buckets.len(),
        candidates_beyond(vector, ceiling, buckets) >= 0,
        forall|i: int|
            0 <= i < candidate_list(vector, ceiling, buckets).len() ==> {
                let candidate = #[trigger] candidate_list(vector, ceiling, buckets)[i];
                &&& candidate.1 < BUCKETS
                &&& candidate.1 != bucket_of_vector(vector)
                &&& candidate.0 == bucket_gap(vector, candidate.1 as int) as i64
                &&& buckets.contains(candidate.1 as int)
                &&& !beyond(vector, ceiling, candidate.1 as int)
            },
        forall|i: int, j: int|
            0 <= i < j < candidate_list(vector, ceiling, buckets).len() ==> candidate_list(
                vector,
                ceiling,
                buckets,
            )[i].1 < candidate_list(vector, ceiling, buckets)[j].1,
        forall|b: int| #[trigger]
            buckets.contains(b) && b != bucket_of_vector(vector) && !beyond(vector, ceiling, b)
                ==> candidate_list(vector, ceiling, buckets).contains(
                (bucket_gap(vector, b) as i64, b as usize),
            ),
    decreases buckets.len(),
{
    if buckets.len() > 0 {
        let shorter = buckets.drop_last();
        lemma_candidates(vector, ceiling, shorter);
        let earlier = candidate_list(vector, ceiling, shorter);
        let all = candidate_list(vector, ceiling, buckets);
        assert forall|i: int| 0 <= i < all.len() implies {
            let candidate = #[trigger] all[i];
            &&& candidate.1 < BUCKETS
            &&& candidate.1 != bucket_of_vector(vector)
            &&& candidate.0 == bucket_gap(vector, candidate.1 as int) as i64
            &&& buckets.contains(candidate.1 as int)
            &&& !beyond(vector, ceiling, candidate.1 as int)
        } by {
            if i < earlier.len() {
                assert(all[i] == earlier[i]);
                let j = choose|j: int| 0 <= j < shorter.len() && shorter[j] == earlier[i].1;
                assert(buckets[j] == earlier[i].1);
            } else {
                assert(buckets[buckets.len() - 1] == all[i].1);
            }
        }
        assert forall|i: int, j: int| 0 <= i < j < all.len() implies all[i].1 < all[j].1 by {
            assert(all[i] == earlier[i]);
            if j == earlier.len() {
                let n = choose|n: int| 0 <= n < shorter.len() && shorter[n] == earlier[i].1;
                assert(buckets[n] < buckets[buckets.len() - 1]);
            } else {
                assert(all[j] == earlier[j]);
            }
        }
        assert forall|b: int| #[trigger]
            buckets.contains(b) && b != bucket_of_vector(vector) && !beyond(vector, ceiling, b) implies all.contains(
        (bucket_gap(vector, b) as i64, b as usize)) by {
            let n = choose|n: int| 0 <= n < buckets.len() && buckets[n] == b;
            if n < shorter.len() {
                assert(shorter[n] == b);
                assert(shorter.contains(b));
                let i = choose|i: int|
                    0 <= i < earlier.len() && earlier[i] == (bucket_gap(vector, b) as i64, b as usize);
                assert(all[i] == earlier[i]);
            } else {
                assert(all[all.len() - 1] == (bucket_gap(vector, b) as i64, b as usize));
            }
        }
    }
}

/// Opening a bucket that was not opened keeps a tour orderly and leaves room for its points.
pub proof fn lemma_open(index: IndexView, tour: Tour, bucket: int)
    requires
        index.wf(),
        index.orderly(tour),
        0 <= bucket < BUCKETS,
        !opened_buckets(tour).contains(bucket),
    ensures
        tour.seen.len() + index.offsets[bucket + 1] - index.offsets[bucket] <= index.points.len(),
        forall|walk: Walk|
            walk.seen.len() <= index.offsets[bucket + 1] - index.offsets[bucket]
                ==> #[trigger] index.orderly(
                Tour {
                    near: walk.near,
                    seen: tour.seen + walk.seen,
                    stops: tour.stops + walk.stops,
                    opened: tour.opened.push(Opening { bucket, walk }),
                },
            ),
{
    let ids = opened_buckets(tour);
    let more = ids.push(bucket);
    assert(more.no_duplicates()) by {
        assert forall|i: int, j: int| 0 <= i < more.len() && 0 <= j < more.len() && i != j implies more[i]
            != more[j] by {
            if i < ids.len() {
                assert(ids.contains(ids[i]));
            }
            if j < ids.len() {
                assert(ids.contains(ids[j]));
            }
        }
    }
    assert forall|i: int| 0 <= i < more.len() implies 0 <= #[trigger] more[i] < BUCKETS by {
        if i < ids.len() {
            assert(0 <= tour.opened[i].bucket < BUCKETS);
        }
    }
    assert(more.drop_last() =~= ids);
    lemma_span_sum(index.offsets, more, BUCKETS as int);
    assert forall|walk: Walk|
        walk.seen.len() <= index.offsets[bucket + 1] - index.offsets[bucket] implies #[trigger] index.orderly(
        Tour {
            near: walk.near,
            seen: tour.seen + walk.seen,
            stops: tour.stops + walk.stops,
            opened: tour.opened.push(Opening { bucket, walk }),
        },
    ) by {
        let next = Tour {
            near: walk.near,
            seen: tour.seen + walk.seen,
            stops: tour.stops + walk.stops,
            opened: tour.opened.push(Opening { bucket, walk }),
        };
        assert(opened_buckets(next) =~= more);
        assert forall|i: int| 0 <= i < next.opened.len() implies 0 <= (
        #[trigger] next.opened[i]).bucket < BUCKETS by {
            assert(more[i] == next.opened[i].bucket);
        }
    }
}

} // verus!
