//! The counters of a search add up.
use vstd::prelude::*;

use crate::index::buckets::Plans;
use crate::index::geometry::{bucket_gap, bucket_of_vector};
use crate::index::instrument::{largest, total};
use crate::index::neighbors::{full, worst_of};
use crate::index::tour::{allowance, candidate_list, candidates_beyond, Finish, Opening, Tour};
use crate::index::{occupied, IndexView, BUCKETS};

verus! {

/// Every bucket of a list but the query's own is a candidate or ruled out by the ceiling.
proof fn lemma_candidates_add_up(vector: Seq<i16>, ceiling: Option<int>, buckets: Seq<int>)
    ensures
        candidate_list(vector, ceiling, buckets).len() + candidates_beyond(vector, ceiling, buckets)
            == buckets.filter(|b: int| b != bucket_of_vector(vector)).len(),
    decreases buckets.len(),
{
    reveal(Seq::filter);
    if buckets.len() > 0 {
        lemma_candidates_add_up(vector, ceiling, buckets.drop_last());
    }
}

/// A bucket is ruled out beforehand if and only if there are five neighbours and its bound is not below
/// the farthest of them.
proof fn lemma_ruled_out(vector: Seq<i16>, ceiling: Option<int>, buckets: Seq<int>)
    ensures
        candidates_beyond(vector, ceiling, buckets) == buckets.filter(
            |b: int|
                b != bucket_of_vector(vector) && ceiling is Some && bucket_gap(vector, b) >= ceiling->0,
        ).len(),
    decreases buckets.len(),
{
    reveal(Seq::filter);
    if buckets.len() > 0 {
        lemma_ruled_out(vector, ceiling, buckets.drop_last());
    }
}

/// How many candidates the rest of a search considers and leaves.
proof fn lemma_finish_adds_up(
    index: IndexView,
    vector: Seq<i16>,
    plans: Plans,
    order: Seq<(i64, usize)>,
    limit: Option<u32>,
    k: int,
    tour: Tour,
)
    requires
        0 <= k <= order.len(),
    ensures
        adds_up(index.limited_tour(vector, plans, order, limit, k, tour), order.len() as int),
        limit is None ==> index.limited_tour(vector, plans, order, limit, k, tour).by_limit == 0,
    decreases order.len() - k,
{
    if k >= order.len() || full(tour.near) && order[k].0 >= worst_of(tour.near) || full(tour.near) && (
    limit matches Some(most) && tour.seen.len() >= most) {
    } else {
        let cap = allowance(tour.near, limit, tour.seen.len() as int);
        let next = index.open_bucket(vector, plans, tour, order[k].1 as int, order[k].0 as int, cap);
        lemma_finish_adds_up(index, vector, plans, order, limit, k + 1, next);
    }
}

/// All candidates were considered, or the last one considered is one of those left out, all for the
/// same reason.
pub open spec fn adds_up(finish: Finish, candidates: int) -> bool {
    &&& 0 <= finish.by_bound
    &&& 0 <= finish.by_limit
    &&& finish.by_bound == 0 || finish.by_limit == 0
    &&& finish.by_bound + finish.by_limit == 0 ==> finish.considered == candidates
    &&& finish.by_bound + finish.by_limit > 0 ==> finish.considered - 1 + finish.by_bound + finish.by_limit
        == candidates
}

/// The counters of a search say what it did: how many buckets it opened and points it looked at, how far
/// its farthest neighbour is, and what became of every other bucket that holds points: it was ruled out
/// beforehand, or is a candidate that was considered or left out.
pub proof fn lemma_counters_add_up(
    index: IndexView,
    vector: Seq<i16>,
    plans: Plans,
    order: Seq<(i64, usize)>,
    limit: Option<u32>,
)
    requires
        index.wf(),
        index.valid_course(vector, plans, order),
    ensures
        ({
            let finish = index.limited_search(vector, plans, order, limit);
            let stats = index.limited_stats(vector, plans, finish);
            let own = index.primary_tour(vector, plans).near;
            let others = occupied(index.offsets, BUCKETS as int).filter(
                |b: int| b != bucket_of_vector(vector),
            );
            &&& adds_up(finish, order.len() as int)
            &&& limit is None ==> finish.by_limit == 0
            &&& order.len() + index.prefiltered(vector, plans) == others.len()
            &&& index.prefiltered(vector, plans) == occupied(index.offsets, BUCKETS as int).filter(
                |b: int|
                    b != bucket_of_vector(vector) && worst_of(own) != i64::MAX && bucket_gap(vector, b)
                        >= worst_of(own),
            ).len()
            &&& stats.buckets_scanned == finish.tour.opened.len() as u32
            &&& stats.points_scanned == finish.tour.seen.len() as u32
            &&& stats.candidates_considered == finish.considered as u32
            &&& stats.candidates_pruned_by_bound == (index.prefiltered(vector, plans) + finish.by_bound) as u32
            &&& stats.candidates_pruned_by_limit == finish.by_limit as u32
            &&& stats.worst_distance == worst_of(finish.tour.near) as i64
        }),
{
    let buckets = occupied(index.offsets, BUCKETS as int);
    let own = index.primary_tour(vector, plans).near;
    let ceiling = crate::index::tour::ceiling_of(own);
    lemma_finish_adds_up(index, vector, plans, order, limit, 0, index.primary_tour(vector, plans));
    lemma_candidates_add_up(vector, ceiling, buckets);
    lemma_ruled_out(vector, ceiling, buckets);
    crate::index::plan::lemma_ordering(order, index.candidates(vector, plans));
    let f = |b: int| b != bucket_of_vector(vector) && ceiling is Some && bucket_gap(vector, b) >= ceiling->0;
    let g = |b: int|
        b != bucket_of_vector(vector) && worst_of(own) != i64::MAX && bucket_gap(vector, b) >= worst_of(own);
    assert(forall|b: int| #[trigger] f(b) == g(b));
    lemma_same_filter(buckets, f, g);
}

/// Filters that say the same leave the same.
proof fn lemma_same_filter(items: Seq<int>, f: spec_fn(int) -> bool, g: spec_fn(int) -> bool)
    requires
        forall|b: int| #[trigger] f(b) == g(b),
    ensures
        items.filter(f) == items.filter(g),
    decreases items.len(),
{
    reveal(Seq::filter);
    if items.len() > 0 {
        lemma_same_filter(items.drop_last(), f, g);
        assert(f(items.last()) == g(items.last()));
    }
}

/// The points of all openings.
pub open spec fn contributed(opened: Seq<Opening>) -> int
    decreases opened.len(),
{
    if opened.len() == 0 {
        0
    } else {
        contributed(opened.drop_last()) + opened.last().walk.seen.len()
    }
}

/// The finer counters of a search divide the coarser ones: every opened bucket is divided or not, every
/// point belongs to a divided bucket or another one, and to the query's own bucket or another one; the
/// largest contribution is that of an opened bucket, and none is larger.
pub proof fn lemma_openings_add_up(index: IndexView, opened: Seq<Opening>, primary: int)
    ensures
        total(opened, index.one_if(true)) + total(opened, index.one_if(false)) == opened.len(),
        total(opened, index.points_if(true)) + total(opened, index.points_if(false)) == contributed(opened),
        total(opened, index.points_by_role(primary, true)) + total(
            opened,
            index.points_by_role(primary, false),
        ) == contributed(opened),
        total(opened, index.split_by_role(primary, true)) + total(
            opened,
            index.split_by_role(primary, false),
        ) == total(opened, index.one_if(true)),
        total(opened, index.one_if(true)) == opened.filter(
            |o: Opening| !(index.layouts[o.bucket] is Whole),
        ).len(),
        forall|i: int| 0 <= i < opened.len() ==> (#[trigger] opened[i]).walk.seen.len() <= largest(opened),
        opened.len() > 0 ==> exists|i: int|
            0 <= i < opened.len() && (#[trigger] opened[i]).walk.seen.len() == largest(opened),
        opened.len() == 0 ==> largest(opened) == 0,
    decreases opened.len(),
{
    reveal(Seq::filter);
    if opened.len() > 0 {
        let fewer = opened.drop_last();
        let n = opened.len() - 1;
        lemma_openings_add_up(index, fewer, primary);
        assert forall|i: int| 0 <= i < opened.len() implies (#[trigger] opened[i]).walk.seen.len() <= largest(
            opened,
        ) by {
            if i < n {
                assert(fewer[i] == opened[i]);
            }
        }
        if largest(opened) == opened[n].walk.seen.len() {
            assert(opened[n].walk.seen.len() == largest(opened));
        } else {
            let i = choose|i: int|
                0 <= i < fewer.len() && (#[trigger] fewer[i]).walk.seen.len() == largest(fewer);
            assert(opened[i].walk.seen.len() == largest(opened));
        }
    }
}

} // verus!
