//! What limits on the number of points do, and when they do nothing.
use vstd::prelude::*;

use crate::index::buckets::Plans;
use crate::index::geometry::scanned;
use crate::index::neighbors::{full, vote, worst_of, Neighbor};
use crate::index::repair::{early_cleared, in_mask, repair_called, scores_policy, settle, AdaptivePhase,
    AdaptivePolicy, RepairPolicy};
use crate::index::tour::{allowance, Tour};
use crate::index::walk::{fresh_walk, Sweep, Walk};
use crate::index::{IndexView, Layout};

verus! {

impl Sweep {
    /// The same sweep without a cap.
    pub open spec fn uncapped(self) -> Sweep {
        Sweep { cap: None, ..self }
    }

    /// Looking at a part adds to what was seen.
    proof fn lemma_uncapped_visit(self, walk: Walk, part: int)
        ensures
            walk.seen.len() <= self.uncapped().visit(walk, part).seen.len(),
            self.offsets[part] <= self.offsets[part + 1] ==> self.uncapped().visit(walk, part).seen.len()
                == walk.seen.len() + self.offsets[part + 1] - self.offsets[part],
    {
    }

    /// A walk only adds to what was seen.
    proof fn lemma_walk_grows(self, plan: Seq<(i64, usize)>, k: int, walk: Walk)
        ensures
            walk.seen.len() <= self.uncapped().walk_parts(plan, k, walk).seen.len(),
        decreases plan.len() - k,
    {
        if k < plan.len() {
            self.lemma_uncapped_visit(walk, plan[k].1 as int);
            self.lemma_walk_grows(plan, k + 1, walk);
            self.lemma_walk_grows(plan, k + 1, self.uncapped().visit(walk, plan[k].1 as int));
        }
    }

    /// A cap above what a walk looks at without it does nothing.
    pub proof fn lemma_cap_does_nothing(self, plan: Seq<(i64, usize)>, k: int, walk: Walk)
        requires
            self.cap matches Some(most) && self.uncapped().walk_parts(plan, k, walk).seen.len() < most,
        ensures
            self.walk_parts(plan, k, walk) == self.uncapped().walk_parts(plan, k, walk),
        decreases plan.len() - k,
    {
        self.lemma_walk_grows(plan, k, walk);
        if k < plan.len() && !self.hopeless(walk, plan[k].0 as int) {
            let part = plan[k].1 as int;
            if self.empty_part(part) {
                self.lemma_cap_does_nothing(plan, k + 1, walk);
            } else {
                let next = self.uncapped().visit(walk, part);
                self.lemma_uncapped_visit(walk, part);
                self.lemma_walk_grows(plan, k + 1, next);
                self.lemma_cap_does_nothing(plan, k + 1, next);
            }
        }
    }

    /// A walk over cells only adds to what was seen.
    proof fn lemma_cells_grow(
        self,
        sectors: Seq<(i64, usize)>,
        subcells: Seq<(i64, usize)>,
        i: int,
        j: int,
        touched: bool,
        walk: Walk,
    )
        ensures
            walk.seen.len() <= self.uncapped().walk_cells(
                sectors,
                subcells,
                i,
                j,
                touched,
                walk,
            ).seen.len(),
        decreases sectors.len() - i, subcells.len() - j,
    {
        let left = Walk { sectors: walk.sectors + if touched { 1int } else { 0 }, ..walk };
        if i >= sectors.len() {
        } else if j >= subcells.len() || self.hopeless(walk, sectors[i].0 + subcells[j].0) {
            self.lemma_cells_grow(sectors, subcells, i + 1, 0, false, left);
        } else {
            let cell = Sweep::cell(sectors, subcells, i, j);
            self.lemma_uncapped_visit(walk, cell);
            self.lemma_cells_grow(sectors, subcells, i, j + 1, touched, walk);
            self.lemma_cells_grow(
                sectors,
                subcells,
                i,
                j + 1,
                true,
                self.uncapped().visit(walk, cell),
            );
        }
    }

    /// A cap above what a walk over cells looks at without it does nothing.
    pub proof fn lemma_cell_cap_does_nothing(
        self,
        sectors: Seq<(i64, usize)>,
        subcells: Seq<(i64, usize)>,
        i: int,
        j: int,
        touched: bool,
        walk: Walk,
    )
        requires
            self.cap matches Some(most) && self.uncapped().walk_cells(
                sectors,
                subcells,
                i,
                j,
                touched,
                walk,
            ).seen.len() < most,
        ensures
            self.walk_cells(sectors, subcells, i, j, touched, walk) == self.uncapped().walk_cells(
                sectors,
                subcells,
                i,
                j,
                touched,
                walk,
            ),
        decreases sectors.len() - i, subcells.len() - j,
    {
        let left = Walk { sectors: walk.sectors + if touched { 1int } else { 0 }, ..walk };
        self.lemma_cells_grow(sectors, subcells, i, j, touched, walk);
        if i >= sectors.len() {
        } else if j >= subcells.len() {
            self.lemma_cell_cap_does_nothing(sectors, subcells, i + 1, 0, false, left);
        } else if self.hopeless(walk, sectors[i].0 + subcells[j].0) {
            if j != 0 {
                self.lemma_cell_cap_does_nothing(sectors, subcells, i + 1, 0, false, left);
            }
        } else {
            let cell = Sweep::cell(sectors, subcells, i, j);
            if self.empty_part(cell) {
                self.lemma_cell_cap_does_nothing(sectors, subcells, i, j + 1, touched, walk);
            } else {
                let next = self.uncapped().visit(walk, cell);
                self.lemma_uncapped_visit(walk, cell);
                self.lemma_cells_grow(sectors, subcells, i, j + 1, true, next);
                self.lemma_cell_cap_does_nothing(sectors, subcells, i, j + 1, true, next);
            }
        }
    }
}

impl IndexView {
    /// A cap above what is looked at in a bucket without it does nothing.
    proof fn lemma_bucket_cap(
        self,
        query: Seq<i16>,
        plans: Plans,
        bucket: int,
        bound: int,
        cap: usize,
        near: Seq<Neighbor>,
    )
        requires
            self.bucket_walk(query, plans, bucket, bound, None, near).seen.len() < cap,
        ensures
            self.bucket_walk(query, plans, bucket, bound, Some(cap), near) == self.bucket_walk(
                query,
                plans,
                bucket,
                bound,
                None,
                near,
            ),
    {
        let points = self.points;
        match self.layouts[bucket] {
            Layout::Whole => {},
            Layout::Sectors(offsets) => {
                let sweep = Sweep { points, query, offsets, bound, cap: Some(cap) };
                sweep.lemma_cap_does_nothing(plans.sectors, 0, fresh_walk(near));
            },
            Layout::Cells(offsets) => {
                let sweep = Sweep { points, query, offsets, bound, cap: Some(cap) };
                if self.global {
                    sweep.lemma_cap_does_nothing(plans.cells, 0, fresh_walk(near));
                } else {
                    sweep.lemma_cell_cap_does_nothing(
                        plans.sectors,
                        plans.subcells,
                        0,
                        0,
                        false,
                        fresh_walk(near),
                    );
                }
            },
        }
    }

    /// A search only adds to what was seen.
    proof fn lemma_tour_grows(
        self,
        vector: Seq<i16>,
        plans: Plans,
        order: Seq<(i64, usize)>,
        k: int,
        tour: Tour,
    )
        ensures
            tour.seen.len() <= self.limited_tour(vector, plans, order, None, k, tour).tour.seen.len(),
        decreases order.len() - k,
    {
        if k < order.len() && !(full(tour.near) && order[k].0 >= worst_of(tour.near)) {
            let next = self.open_bucket(
                vector,
                plans,
                tour,
                order[k].1 as int,
                order[k].0 as int,
                None,
            );
            self.lemma_tour_grows(vector, plans, order, k + 1, next);
        }
    }

    /// A limit above what the rest of a search looks at without it does nothing.
    proof fn lemma_tour_limit(
        self,
        vector: Seq<i16>,
        plans: Plans,
        order: Seq<(i64, usize)>,
        limit: u32,
        k: int,
        tour: Tour,
    )
        requires
            self.limited_tour(vector, plans, order, None, k, tour).tour.seen.len() < limit,
        ensures
            self.limited_tour(vector, plans, order, Some(limit), k, tour) == self.limited_tour(
                vector,
                plans,
                order,
                None,
                k,
                tour,
            ),
        decreases order.len() - k,
    {
        self.lemma_tour_grows(vector, plans, order, k, tour);
        if k < order.len() && !(full(tour.near) && order[k].0 >= worst_of(tour.near)) {
            let bucket = order[k].1 as int;
            let bound = order[k].0 as int;
            let next = self.open_bucket(vector, plans, tour, bucket, bound, None);
            self.lemma_tour_grows(vector, plans, order, k + 1, next);
            if let Some(cap) = allowance(tour.near, Some(limit), tour.seen.len() as int) {
                if self.opens(bucket, None) {
                    self.lemma_bucket_cap(scanned(vector), plans, bucket, bound, cap, tour.near);
                }
            }
            self.lemma_tour_limit(vector, plans, order, limit, k + 1, next);
        }
    }

    /// The tour of a search that is not called to look again at what the first limit gives is that of
    /// a search with the first limit alone.
    proof fn lemma_uncalled_tour(
        self,
        vector: Seq<i16>,
        plans: Plans,
        order: Seq<(i64, usize)>,
        policy: RepairPolicy,
        repair_points: u32,
        limit: u32,
        k: int,
        tour: Tour,
    )
        requires
            ({
                let near = self.limited_tour(vector, plans, order, Some(limit), k, tour).tour.near;
                !repair_called(policy, vote(near) as u8, worst_of(near), vector)
            }),
        ensures
            self.repair_tour(vector, plans, order, policy, repair_points, limit, false, k, tour)
                == self.limited_tour(vector, plans, order, Some(limit), k, tour).tour,
        decreases order.len() - k,
    {
        let used_up = full(tour.near) && tour.seen.len() >= limit;
        if k < order.len() && !(full(tour.near) && order[k].0 >= worst_of(tour.near)) && !used_up {
            let next = self.open_bucket(
                vector,
                plans,
                tour,
                order[k].1 as int,
                order[k].0 as int,
                allowance(tour.near, Some(limit), tour.seen.len() as int),
            );
            self.lemma_uncalled_tour(
                vector,
                plans,
                order,
                policy,
                repair_points,
                limit,
                k + 1,
                next,
            );
        }
    }

    /// The tour of an adaptive search whose early vote is final is that of a search with the early
    /// limit alone.
    proof fn lemma_cleared_tour(
        self,
        vector: Seq<i16>,
        plans: Plans,
        order: Seq<(i64, usize)>,
        policy: AdaptivePolicy,
        limit: u32,
        k: int,
        tour: Tour,
    )
        requires
            ({
                let near = self.limited_tour(vector, plans, order, Some(limit), k, tour).tour.near;
                early_cleared(policy, vote(near) as u8, worst_of(near), vector)
            }),
        ensures
            self.adaptive_tour(vector, plans, order, policy, AdaptivePhase::Early, limit, k, tour)
                == self.limited_tour(vector, plans, order, Some(limit), k, tour).tour,
        decreases order.len() - k,
    {
        let used_up = full(tour.near) && tour.seen.len() >= limit;
        if k < order.len() && !(full(tour.near) && order[k].0 >= worst_of(tour.near)) && !used_up {
            let next = self.open_bucket(
                vector,
                plans,
                tour,
                order[k].1 as int,
                order[k].0 as int,
                allowance(tour.near, Some(limit), tour.seen.len() as int),
            );
            self.lemma_cleared_tour(vector, plans, order, policy, limit, k + 1, next);
        }
    }

    /// The tour of an adaptive search without masks and with equal first limits is that of a search
    /// with that limit alone.
    proof fn lemma_unadapted_tour(
        self,
        vector: Seq<i16>,
        plans: Plans,
        order: Seq<(i64, usize)>,
        policy: AdaptivePolicy,
        k: int,
        tour: Tour,
    )
        requires
            policy.clear_scores_mask == 0,
            policy.repair_scores_mask == 0,
        ensures
            self.adaptive_tour(
                vector,
                plans,
                order,
                policy,
                AdaptivePhase::Early,
                policy.fast_points,
                k,
                tour,
            ) == self.limited_tour(vector, plans, order, Some(policy.fast_points), k, tour).tour,
        decreases order.len() - k,
    {
        if k < order.len() && !(full(tour.near) && order[k].0 >= worst_of(tour.near)) {
            let limit = policy.fast_points;
            let used = tour.seen.len() as int;
            lemma_empty_mask(vote(tour.near) as u8);
            reveal_with_fuel(settle, 3);
            if full(tour.near) && used >= limit {
                assert(settle(policy, vector, tour.near, used, AdaptivePhase::Early, limit) is None);
            } else {
                let next = self.open_bucket(
                    vector,
                    plans,
                    tour,
                    order[k].1 as int,
                    order[k].0 as int,
                    allowance(tour.near, Some(limit), used),
                );
                self.lemma_unadapted_tour(vector, plans, order, policy, k + 1, next);
            }
        }
    }
}

/// No score is in the empty mask.
proof fn lemma_empty_mask(score: u8)
    ensures
        !in_mask(0, score),
{
    let bit = 1u8 << (score % 8);
    assert(0u8 & bit == 0) by (bit_vector);
}

/// A limit above the number of points that a search looks at without one does nothing.
pub proof fn lemma_large_limit_is_none(
    index: IndexView,
    vector: Seq<i16>,
    plans: Plans,
    order: Seq<(i64, usize)>,
    limit: u32,
)
    requires
        index.limited_search(vector, plans, order, None).tour.seen.len() < limit,
    ensures
        index.limited_search(vector, plans, order, Some(limit)) == index.limited_search(
            vector,
            plans,
            order,
            None,
        ),
{
    index.lemma_tour_limit(vector, plans, order, limit, 0, index.primary_tour(vector, plans));
}

/// A search whose policy does not call for a second look at what the first limit gives, by its score,
/// its farthest distance or its vector, is a search with its first limit, whatever the second is.
pub proof fn lemma_uncalled_is_limited(
    index: IndexView,
    vector: Seq<i16>,
    plans: Plans,
    order: Seq<(i64, usize)>,
    policy: RepairPolicy,
    fast_points: u32,
    repair_points: u32,
)
    requires
        ({
            let near = index.limited_search(vector, plans, order, Some(fast_points)).tour.near;
            !repair_called(policy, vote(near) as u8, worst_of(near), vector)
        }),
    ensures
        index.repair_search(vector, plans, order, policy, fast_points, repair_points)
            == index.limited_search(vector, plans, order, Some(fast_points)).tour,
{
    let start = index.primary_tour(vector, plans);
    index.lemma_uncalled_tour(vector, plans, order, policy, repair_points, fast_points, 0, start);
}

/// A score outside the mask is not looked at again: the result is that of the first limit.
pub proof fn lemma_score_outside_mask_stays(
    index: IndexView,
    vector: Seq<i16>,
    plans: Plans,
    order: Seq<(i64, usize)>,
    scores_mask: u8,
    fast_points: u32,
    repair_points: u32,
)
    requires
        !in_mask(
            scores_mask,
            vote(index.limited_search(vector, plans, order, Some(fast_points)).tour.near) as u8,
        ),
    ensures
        index.repair_search(
            vector,
            plans,
            order,
            scores_policy(scores_mask),
            fast_points,
            repair_points,
        ) == index.limited_search(vector, plans, order, Some(fast_points)).tour,
{
    lemma_uncalled_is_limited(
        index,
        vector,
        plans,
        order,
        scores_policy(scores_mask),
        fast_points,
        repair_points,
    );
}

/// An early score that is cleared is final: the result is that of the early limit, whatever the other
/// limits and the mask of scores to look at again are.
pub proof fn lemma_cleared_score_is_final(
    index: IndexView,
    vector: Seq<i16>,
    plans: Plans,
    order: Seq<(i64, usize)>,
    policy: AdaptivePolicy,
    early_points: u32,
)
    requires
        ({
            let near = index.limited_search(vector, plans, order, Some(early_points)).tour.near;
            early_cleared(policy, vote(near) as u8, worst_of(near), vector)
        }),
    ensures
        index.adaptive_search(vector, plans, order, policy, early_points) == index.limited_search(
            vector,
            plans,
            order,
            Some(early_points),
        ).tour,
{
    let start = index.primary_tour(vector, plans);
    index.lemma_cleared_tour(vector, plans, order, policy, early_points, 0, start);
}

/// A search that looks again at no score is a search with its first limit.
pub proof fn lemma_no_repair_is_limited(
    index: IndexView,
    vector: Seq<i16>,
    plans: Plans,
    order: Seq<(i64, usize)>,
    fast_points: u32,
    repair_points: u32,
)
    ensures
        index.repair_search(vector, plans, order, scores_policy(0), fast_points, repair_points)
            == index.limited_search(vector, plans, order, Some(fast_points)).tour,
{
    let near = index.limited_search(vector, plans, order, Some(fast_points)).tour.near;
    lemma_empty_mask(vote(near) as u8);
    lemma_score_outside_mask_stays(index, vector, plans, order, 0, fast_points, repair_points);
}

/// An adaptive search that clears no score early and looks again at none, with equal first limits,
/// is a search with that limit.
pub proof fn lemma_no_adaptation_is_limited(
    index: IndexView,
    vector: Seq<i16>,
    plans: Plans,
    order: Seq<(i64, usize)>,
    policy: AdaptivePolicy,
)
    requires
        policy.clear_scores_mask == 0,
        policy.repair_scores_mask == 0,
    ensures
        index.adaptive_search(vector, plans, order, policy, policy.fast_points)
            == index.limited_search(vector, plans, order, Some(policy.fast_points)).tour,
{
    index.lemma_unadapted_tour(vector, plans, order, policy, 0, index.primary_tour(vector, plans));
}

} // verus!
