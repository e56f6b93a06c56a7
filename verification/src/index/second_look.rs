//! Where a vote calls for it, a search goes on to its second limit.
use vstd::prelude::*;

use crate::index::buckets::Plans;
use crate::index::neighbors::{full, vote, worst_of, Neighbor};
use crate::index::plan::lemma_ordering;
use crate::index::repair::{early_cleared, in_mask, repair_called, settle, AdaptivePhase, AdaptivePolicy, RepairPolicy};
use crate::index::search::lemma_course;
use crate::index::tour::{ceiling_of, lemma_candidates, lemma_occupied, opened_buckets,
    wrapped_allowance, Tour};
use crate::index::{occupied, IndexView, BUCKETS};

verus! {

/// How an adaptive search goes from one limit to the next: on under the same limit while that is not
/// used up or there are not five neighbours; ended by an early vote that is final; on to the second
/// limit by any other early vote, and to the third by a vote of its mask; and ended at the third.
pub proof fn lemma_phases(policy: AdaptivePolicy, v: Seq<i16>, near: Seq<Neighbor>, used: int, limit: u32)
    ensures
        ({
            let score = vote(near) as u8;
            let open = worst_of(near) == i64::MAX || used < limit;
            let fast = settle(policy, v, near, used, AdaptivePhase::Fast, policy.fast_points);
            let repair = settle(policy, v, near, used, AdaptivePhase::Repair, policy.repair_points);
            &&& open ==> settle(policy, v, near, used, AdaptivePhase::Early, limit) == Some(
                (AdaptivePhase::Early, limit),
            )
            &&& open ==> settle(policy, v, near, used, AdaptivePhase::Fast, limit) == Some(
                (AdaptivePhase::Fast, limit),
            )
            &&& settle(policy, v, near, used, AdaptivePhase::Repair, limit) == if open {
                Some((AdaptivePhase::Repair, limit))
            } else {
                None
            }
            &&& !open && early_cleared(policy, score, worst_of(near), v) ==> settle(
                policy,
                v,
                near,
                used,
                AdaptivePhase::Early,
                limit,
            ) is None
            &&& !open && !early_cleared(policy, score, worst_of(near), v) ==> settle(
                policy,
                v,
                near,
                used,
                AdaptivePhase::Early,
                limit,
            ) == fast
            &&& !open && in_mask(policy.repair_scores_mask, score) ==> settle(
                policy,
                v,
                near,
                used,
                AdaptivePhase::Fast,
                limit,
            ) == repair
            &&& !open && !in_mask(policy.repair_scores_mask, score) ==> settle(
                policy,
                v,
                near,
                used,
                AdaptivePhase::Fast,
                limit,
            ) is None
        }),
{
    reveal_with_fuel(settle, 4);
}

/// Every candidate was opened, or lies no nearer than the farthest of five neighbours.
pub open spec fn all_done(order: Seq<(i64, usize)>, tour: Tour) -> bool {
    forall|j: int|
        0 <= j < order.len() ==> opened_buckets(tour).contains((#[trigger] order[j]).1 as int) || worst_of(
            tour.near,
        ) != i64::MAX && order[j].0 >= worst_of(tour.near)
}

/// What was looked at only grows.
proof fn lemma_repair_grows(
    index: IndexView,
    vector: Seq<i16>,
    plans: Plans,
    order: Seq<(i64, usize)>,
    policy: RepairPolicy,
    repair_points: u32,
    limit: u32,
    repairing: bool,
    k: int,
    tour: Tour,
)
    ensures
        tour.seen.len() <= index.repair_tour(
            vector,
            plans,
            order,
            policy,
            repair_points,
            limit,
            repairing,
            k,
            tour,
        ).seen.len(),
    decreases order.len() - k,
{
    let used_up = full(tour.near) && tour.seen.len() >= limit;
    if k >= order.len() || full(tour.near) && order[k].0 >= worst_of(tour.near) {
    } else if used_up && (repairing || !repair_called(policy, vote(tour.near) as u8, worst_of(tour.near), vector)) {
    } else {
        let now = if used_up { repair_points } else { limit };
        let cap = wrapped_allowance(tour.near, now, tour.seen.len() as int);
        let next = index.open_bucket(vector, plans, tour, order[k].1 as int, order[k].0 as int, cap);
        lemma_repair_grows(
            index,
            vector,
            plans,
            order,
            policy,
            repair_points,
            now,
            repairing || used_up,
            k + 1,
            next,
        );
    }
}

/// The rest of a search whose votes always call for a second look.
proof fn lemma_goes_to_second_limit(
    index: IndexView,
    vector: Seq<i16>,
    plans: Plans,
    order: Seq<(i64, usize)>,
    policy: RepairPolicy,
    repair_points: u32,
    limit: u32,
    repairing: bool,
    k: int,
    tour: Tour,
)
    requires
        0 <= k <= order.len(),
        repairing ==> limit == repair_points,
        forall|score: u8, worst: int| #[trigger] repair_called(policy, score, worst, vector),
        forall|i: int, j: int| 0 <= i <= j < order.len() ==> order[i].0 <= order[j].0,
        forall|j: int|
            0 <= j < order.len() ==> index.offsets[(#[trigger] order[j]).1 as int] != index.offsets[order[j].1
                + 1],
        forall|j: int| 0 <= j < k ==> opened_buckets(tour).contains((#[trigger] order[j]).1 as int),
    ensures
        ({
            let end = index.repair_tour(
                vector,
                plans,
                order,
                policy,
                repair_points,
                limit,
                repairing,
                k,
                tour,
            );
            end.seen.len() >= repair_points || all_done(order, end)
        }),
    decreases order.len() - k,
{
    let used_up = full(tour.near) && tour.seen.len() >= limit;
    if k >= order.len() {
    } else if full(tour.near) && order[k].0 >= worst_of(tour.near) {
        assert forall|j: int| 0 <= j < order.len() implies opened_buckets(tour).contains(
            (#[trigger] order[j]).1 as int,
        ) || worst_of(tour.near) != i64::MAX && order[j].0 >= worst_of(tour.near) by {
            if j >= k {
                assert(order[k].0 <= order[j].0);
            }
        }
    } else if used_up && repairing {
    } else {
        assert(repair_called(policy, vote(tour.near) as u8, worst_of(tour.near), vector));
        let now = if used_up { repair_points } else { limit };
        let cap = wrapped_allowance(tour.near, now, tour.seen.len() as int);
        let bucket = order[k].1 as int;
        let next = index.open_bucket(vector, plans, tour, bucket, order[k].0 as int, cap);
        assert(index.offsets[order[k].1 as int] != index.offsets[order[k].1 + 1]);
        if used_up && tour.seen.len() >= repair_points {
            lemma_repair_grows(
                index,
                vector,
                plans,
                order,
                policy,
                repair_points,
                limit,
                repairing,
                k,
                tour,
            );
        } else {
            assert(index.opens(bucket, cap)) by {
                assert(tour.seen.len() < now || !full(tour.near));
            }
            assert forall|j: int| 0 <= j < k + 1 implies opened_buckets(next).contains(
                (#[trigger] order[j]).1 as int,
            ) by {
                if j < k {
                    let b = order[j].1 as int;
                    assert(opened_buckets(tour).contains(b));
                    let n = choose|n: int| 0 <= n < opened_buckets(tour).len() && opened_buckets(tour)[n] == b;
                    assert(opened_buckets(next)[n] == b);
                } else {
                    assert(opened_buckets(next)[tour.opened.len() as int] == bucket);
                }
            }
            lemma_goes_to_second_limit(
                index,
                vector,
                plans,
                order,
                policy,
                repair_points,
                now,
                repairing || used_up,
                k + 1,
                next,
            );
        }
    }
}

/// A search whose policy calls for a second look at every vote goes on until as many points as the
/// second limit allows were looked at, or every candidate was opened or lies no nearer than the farthest
/// of five neighbours.
pub proof fn lemma_second_limit_is_used(
    index: IndexView,
    vector: Seq<i16>,
    plans: Plans,
    order: Seq<(i64, usize)>,
    policy: RepairPolicy,
    fast_points: u32,
    repair_points: u32,
)
    requires
        index.wf(),
        index.valid_course(vector, plans, order),
        forall|score: u8, worst: int| #[trigger] repair_called(policy, score, worst, vector),
    ensures
        ({
            let end = index.repair_search(vector, plans, order, policy, fast_points, repair_points);
            end.seen.len() >= repair_points || all_done(order, end)
        }),
{
    let buckets = occupied(index.offsets, BUCKETS as int);
    let own = index.primary_tour(vector, plans);
    let listing = index.candidates(vector, plans);
    lemma_course(index, vector, plans, order);
    lemma_occupied(index.offsets, BUCKETS as int);
    lemma_candidates(vector, ceiling_of(own.near), buckets);
    lemma_ordering(order, listing);
    assert forall|j: int| 0 <= j < order.len() implies index.offsets[(#[trigger] order[j]).1 as int]
        != index.offsets[order[j].1 + 1] by {
        assert(listing.contains(order[j]));
        let n = choose|n: int| 0 <= n < listing.len() && listing[n] == order[j];
        assert(buckets.contains(listing[n].1 as int));
        let b = choose|b: int| 0 <= b < buckets.len() && buckets[b] == listing[n].1;
        assert(index.offsets[buckets[b]] != index.offsets[buckets[b] + 1]);
    }
    lemma_goes_to_second_limit(
        index,
        vector,
        plans,
        order,
        policy,
        repair_points,
        fast_points,
        false,
        0,
        own,
    );
}

} // verus!
