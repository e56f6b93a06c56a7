//! Searches that look further when the first vote is doubtful.
use vstd::prelude::*;

use crate::index::buckets::{Plans, ScanPlans};
use crate::index::geometry::{bucket_gap, bucket_of_vector, scanned};
use crate::index::neighbors::{full, ranked, vote, worst_of, Neighbor, NeighborSet, SearchResult};
use crate::index::search::{lemma_course, lemma_gap_bound, lemma_opened_next, lemma_unopened,
    opened_before, Started};
use crate::index::stats::SearchStats;
use crate::index::tour::{lemma_open, wrapped_allowance, Tour};
use crate::index::{Index, IndexView, BUCKETS, DIMS};

verus! {

/// When an early vote of an adaptive search is final.
#[derive(Clone, Copy, Debug)]
pub enum AdaptiveClearRule {
    Always,
    TailRatio70Tx45Home40,
    TailMccNonGaming,
}

/// When a vote of five is looked at again.
#[derive(Clone, Copy, Debug)]
pub enum Score5RepairRule {
    Fp70Tight,
    Fp70Narrow,
}

/// The scores whose bits are set in the default mask: two and three.
pub const DEFAULT_REPAIR_SCORES_MASK: u8 = 12;

/// Whether a score's bit is set in a mask; scores count modulo eight.
pub open spec fn in_mask(mask: u8, score: u8) -> bool {
    (mask & (1u8 << (score % 8))) != 0
}

/// The vectors that a clear rule is about.
pub open spec fn clear_rule_holds(rule: AdaptiveClearRule, v: Seq<i16>) -> bool {
    let offline_card_known = v[9] == 0 && v[10] != 0 && v[11] == 0;
    match rule {
        AdaptiveClearRule::Always => true,
        AdaptiveClearRule::TailRatio70Tx45Home40 => offline_card_known && v[5] >= 10_000 && v[2]
            <= 7_000 && v[8] <= 4_500 && v[7] <= 4_000,
        AdaptiveClearRule::TailMccNonGaming => offline_card_known && v[5] >= 10_000 && v[2] <= 8_000
            && v[8] <= 5_000 && v[12] < 7_500,
    }
}

/// The vectors that a score-five rule is about.
pub open spec fn score5_rule_holds(rule: Score5RepairRule, v: Seq<i16>) -> bool {
    let common = v[2] >= 10_000 && v[5] >= 10_000 && 5_000 <= v[8] <= 6_000 && v[9] >= 10_000 && v[10]
        == 0 && v[11] >= 10_000 && v[12] >= 7_500;
    match rule {
        Score5RepairRule::Fp70Tight => common && v[6] >= 2_000 && v[7] >= 3_000,
        Score5RepairRule::Fp70Narrow => common && 2_900 <= v[0] <= 4_100 && 5_000 <= v[1] <= 7_500
            && v[3] <= 2_700 && 2_000 <= v[6] <= 3_300 && 3_600 <= v[7] <= 4_500,
    }
}

/// Which votes are looked at again once the first limit is used up.
#[derive(Clone, Copy)]
pub struct RepairPolicy {
    /// Scores that are always looked at again.
    pub scores_mask: u8,
    /// Scores of four and more are, when the farthest neighbour is at least this far.
    pub score4_worst: Option<i64>,
    /// Scores of four and more are, when the farthest neighbour is at most this far.
    pub high_score_worst_below: Option<i64>,
    /// A score of five is, for the vectors of this rule.
    pub score5_rule: Option<Score5RepairRule>,
    /// A score of three is, when the farthest neighbour is at least this far.
    pub score3_worst: Option<i64>,
    /// A score of four is, when the farthest neighbour is at least this far.
    pub score4_only_worst: Option<i64>,
}

/// Whether a vote is looked at again.
pub open spec fn repair_called(policy: RepairPolicy, score: u8, worst: int, v: Seq<i16>) -> bool {
    ||| in_mask(policy.scores_mask, score)
    ||| score >= 4 && (policy.score4_worst matches Some(t) && worst >= t)
    ||| score >= 4 && (policy.high_score_worst_below matches Some(t) && worst <= t)
    ||| score == 3 && (policy.score3_worst matches Some(t) && worst >= t)
    ||| score == 4 && (policy.score4_only_worst matches Some(t) && worst >= t)
    ||| score == 5 && (policy.score5_rule matches Some(rule) && score5_rule_holds(rule, v))
}

/// How an adaptive search moves from one limit to the next.
#[derive(Clone, Copy)]
pub struct AdaptivePolicy {
    pub fast_points: u32,
    pub repair_points: u32,
    pub clear_scores_mask: u8,
    pub repair_scores_mask: u8,
    pub clear_worst_max: Option<i64>,
    pub clear_rule: AdaptiveClearRule,
}

/// Which limit of an adaptive search applies.
#[derive(Clone, Copy, PartialEq, Eq, Structural)]
pub enum AdaptivePhase {
    Early,
    Fast,
    Repair,
}

/// How many limits are still to come.
pub open spec fn phases_left(phase: AdaptivePhase) -> int {
    match phase {
        AdaptivePhase::Early => 2,
        AdaptivePhase::Fast => 1,
        AdaptivePhase::Repair => 0,
    }
}

/// Whether an early vote is final.
pub open spec fn early_cleared(policy: AdaptivePolicy, score: u8, worst: int, v: Seq<i16>) -> bool {
    &&& in_mask(policy.clear_scores_mask, score)
    &&& policy.clear_worst_max matches Some(t) ==> worst <= t
    &&& clear_rule_holds(policy.clear_rule, v)
}

/// The phase and limit under which an adaptive search goes on after `used` points, if it does.
pub open spec fn settle(
    policy: AdaptivePolicy,
    v: Seq<i16>,
    near: Seq<Neighbor>,
    used: int,
    phase: AdaptivePhase,
    limit: u32,
) -> Option<(AdaptivePhase, u32)>
    decreases phases_left(phase),
{
    if !full(near) || used < limit {
        Some((phase, limit))
    } else {
        match phase {
            AdaptivePhase::Early => if early_cleared(policy, vote(near) as u8, worst_of(near), v) {
                None
            } else {
                settle(policy, v, near, used, AdaptivePhase::Fast, policy.fast_points)
            },
            AdaptivePhase::Fast => if in_mask(policy.repair_scores_mask, vote(near) as u8) {
                settle(policy, v, near, used, AdaptivePhase::Repair, policy.repair_points)
            } else {
                None
            },
            AdaptivePhase::Repair => None,
        }
    }
}

impl IndexView {
    /// The tour over the candidates from entry `k` on that goes on to a second limit when the vote
    /// at the first one calls for it.
    pub open spec fn repair_tour(
        self,
        vector: Seq<i16>,
        plans: Plans,
        order: Seq<(i64, usize)>,
        policy: RepairPolicy,
        repair_points: u32,
        limit: u32,
        repairing: bool,
        k: int,
        tour: Tour,
    ) -> Tour
        decreases order.len() - k,
    {
        let used_up = full(tour.near) && tour.seen.len() >= limit;
        if k >= order.len() || full(tour.near) && order[k].0 >= worst_of(tour.near) {
            tour
        } else if used_up && (repairing || !repair_called(
            policy,
            vote(tour.near) as u8,
            worst_of(tour.near),
            vector,
        )) {
            tour
        } else {
            let now = if used_up { repair_points } else { limit };
            self.repair_tour(
                vector,
                plans,
                order,
                policy,
                repair_points,
                now,
                repairing || used_up,
                k + 1,
                self.open_bucket(
                    vector,
                    plans,
                    tour,
                    order[k].1 as int,
                    order[k].0 as int,
                    wrapped_allowance(tour.near, now, tour.seen.len() as int),
                ),
            )
        }
    }

    /// A whole search with a second limit.
    pub open spec fn repair_search(
        self,
        vector: Seq<i16>,
        plans: Plans,
        order: Seq<(i64, usize)>,
        policy: RepairPolicy,
        fast_points: u32,
        repair_points: u32,
    ) -> Tour {
        self.repair_tour(
            vector,
            plans,
            order,
            policy,
            repair_points,
            fast_points,
            false,
            0,
            self.primary_tour(vector, plans),
        )
    }

    /// The tour over the candidates from entry `k` on under the limits of an adaptive policy.
    pub open spec fn adaptive_tour(
        self,
        vector: Seq<i16>,
        plans: Plans,
        order: Seq<(i64, usize)>,
        policy: AdaptivePolicy,
        phase: AdaptivePhase,
        limit: u32,
        k: int,
        tour: Tour,
    ) -> Tour
        decreases order.len() - k,
    {
        if k >= order.len() || full(tour.near) && order[k].0 >= worst_of(tour.near) {
            tour
        } else {
            match settle(policy, vector, tour.near, tour.seen.len() as int, phase, limit) {
                None => tour,
                Some((next_phase, next_limit)) => self.adaptive_tour(
                    vector,
                    plans,
                    order,
                    policy,
                    next_phase,
                    next_limit,
                    k + 1,
                    self.open_bucket(
                        vector,
                        plans,
                        tour,
                        order[k].1 as int,
                        order[k].0 as int,
                        wrapped_allowance(tour.near, next_limit, tour.seen.len() as int),
                    ),
                ),
            }
        }
    }

    /// A whole adaptive search.
    pub open spec fn adaptive_search(
        self,
        vector: Seq<i16>,
        plans: Plans,
        order: Seq<(i64, usize)>,
        policy: AdaptivePolicy,
        early_points: u32,
    ) -> Tour {
        self.adaptive_tour(
            vector,
            plans,
            order,
            policy,
            AdaptivePhase::Early,
            early_points,
            0,
            self.primary_tour(vector, plans),
        )
    }
}

/// Whether a score's bit is set in a mask.
fn mask_holds(mask: u8, score: u8) -> (set: bool)
    ensures
        set == in_mask(mask, score),
{
    let shift: u8 = score % 8;
    (mask & (1u8 << shift)) != 0
}

/// Whether a clear rule is about the query.
pub fn adaptive_clear_rule_matches(rule: AdaptiveClearRule, query: &[i16; DIMS]) -> (matching: bool)
    ensures
        matching == clear_rule_holds(rule, query@),
{
    match rule {
        AdaptiveClearRule::Always => true,
        AdaptiveClearRule::TailRatio70Tx45Home40 => {
            query[9] == 0 && query[10] != 0 && query[11] == 0 && query[5] >= 10_000 && query[2]
                <= 7_000 && query[8] <= 4_500 && query[7] <= 4_000
        },
        AdaptiveClearRule::TailMccNonGaming => {
            query[9] == 0 && query[10] != 0 && query[11] == 0 && query[5] >= 10_000 && query[2]
                <= 8_000 && query[8] <= 5_000 && query[12] < 7_500
        },
    }
}

/// Whether a score-five rule is about the query.
pub fn score5_repair_rule_matches(rule: Score5RepairRule, query: &[i16; DIMS]) -> (matching: bool)
    ensures
        matching == score5_rule_holds(rule, query@),
{
    match rule {
        Score5RepairRule::Fp70Tight => {
            query[2] >= 10_000 && query[5] >= 10_000 && 5_000 <= query[8] && query[8] <= 6_000
                && query[9] >= 10_000 && query[10] == 0 && query[11] >= 10_000 && query[12] >= 7_500
                && query[6] >= 2_000 && query[7] >= 3_000
        },
        Score5RepairRule::Fp70Narrow => {
            2_900 <= query[0] && query[0] <= 4_100 && 5_000 <= query[1] && query[1] <= 7_500
                && query[2] >= 10_000 && query[3] <= 2_700 && query[5] >= 10_000 && 2_000 <= query[6]
                && query[6] <= 3_300 && 3_600 <= query[7] && query[7] <= 4_500 && 5_000 <= query[8]
                && query[8] <= 6_000 && query[9] >= 10_000 && query[10] == 0 && query[11] >= 10_000
                && query[12] >= 7_500
        },
    }
}

fn at_least(threshold: Option<i64>, worst: i64) -> (reached: bool)
    ensures
        reached == (threshold matches Some(t) && worst >= t),
{
    match threshold {
        Some(t) => worst >= t,
        None => false,
    }
}

impl RepairPolicy {
    /// Whether a vote is looked at again.
    pub fn calls(&self, score: u8, worst: i64, query: &[i16; DIMS]) -> (called: bool)
        ensures
            called == repair_called(*self, score, worst as int, query@),
    {
        let below: bool = match self.high_score_worst_below {
            Some(t) => worst <= t,
            None => false,
        };
        let ruled: bool = match self.score5_rule {
            Some(rule) => score5_repair_rule_matches(rule, query),
            None => false,
        };
        mask_holds(self.scores_mask, score) || (score >= 4 && at_least(self.score4_worst, worst)) || (
        score >= 4 && below) || (score == 3 && at_least(self.score3_worst, worst)) || (score == 4
            && at_least(self.score4_only_worst, worst)) || (score == 5 && ruled)
    }

    /// The policy that looks again at the scores of a mask.
    pub fn for_scores(scores_mask: u8) -> (policy: RepairPolicy)
        ensures
            policy == scores_policy(scores_mask),
    {
        RepairPolicy {
            scores_mask,
            score4_worst: None,
            high_score_worst_below: None,
            score5_rule: None,
            score3_worst: None,
            score4_only_worst: None,
        }
    }
}

/// The policy that looks again at the scores of a mask.
pub open spec fn scores_policy(scores_mask: u8) -> RepairPolicy {
    RepairPolicy {
        scores_mask,
        score4_worst: None,
        high_score_worst_below: None,
        score5_rule: None,
        score3_worst: None,
        score4_only_worst: None,
    }
}

/// The phase and limit under which an adaptive search goes on, if it does.
fn next_limit(
    policy: &AdaptivePolicy,
    query: &[i16; DIMS],
    neighbors: &NeighborSet,
    used: u32,
    from_phase: AdaptivePhase,
    from_limit: u32,
) -> (next: Option<(AdaptivePhase, u32)>)
    ensures
        next == settle(*policy, query@, neighbors@, used as int, from_phase, from_limit),
{
    let mut phase: AdaptivePhase = from_phase;
    let mut limit: u32 = from_limit;
    while neighbors.is_full() && used >= limit
        invariant
            settle(*policy, query@, neighbors@, used as int, phase, limit) == settle(
                *policy,
                query@,
                neighbors@,
                used as int,
                from_phase,
                from_limit,
            ),
        decreases phases_left(phase),
    {
        let fraud_count: u8 = neighbors.result().fraud_count;
        match phase {
            AdaptivePhase::Early => {
                let near_enough: bool = match policy.clear_worst_max {
                    Some(threshold) => neighbors.worst() <= threshold,
                    None => true,
                };
                if mask_holds(policy.clear_scores_mask, fraud_count) && near_enough
                    && adaptive_clear_rule_matches(policy.clear_rule, query) {
                    return None;
                }
                phase = AdaptivePhase::Fast;
                limit = policy.fast_points;
            },
            AdaptivePhase::Fast => {
                if mask_holds(policy.repair_scores_mask, fraud_count) {
                    phase = AdaptivePhase::Repair;
                    limit = policy.repair_points;
                } else {
                    return None;
                }
            },
            AdaptivePhase::Repair => {
                return None;
            },
        }
    }
    Some((phase, limit))
}

impl Index {
    /// The vote after a first limit, and after a second one where the policy calls for it.
    fn search_repaired(
        &self,
        query: &[i16; DIMS],
        fast_points: u32,
        repair_points: u32,
        policy: RepairPolicy,
    ) -> (result: SearchResult)
        requires
            self.wf(),
            self@.admits(query@),
        ensures
            exists|plans: Plans, order: Seq<(i64, usize)>| #[trigger]
                self@.valid_course(query@, plans, order) && result.fraud_count == vote(
                    self@.repair_search(
                        query@,
                        plans,
                        order,
                        policy,
                        fast_points,
                        repair_points,
                    ).near,
                ),
    {
        let start: Started = self.start_search(query);
        let mut neighbors: NeighborSet = start.neighbors;
        let mut stats: SearchStats = start.stats;
        let scan_query: [i16; DIMS] = start.scan_query;
        let plans: ScanPlans = start.plans;
        let candidates: Vec<(i64, usize)> = start.candidates;
        let ghost order = candidates@;
        let ghost mut tour = self@.primary_tour(query@, plans@);
        let ghost whole = self@.repair_search(query@, plans@, order, policy, fast_points, repair_points);
        proof {
            lemma_course(self@, query@, plans@, order);
        }
        let mut limit: u32 = fast_points;
        let mut repairing: bool = false;
        let mut k: usize = 0;
        while k < candidates.len()
            invariant
                self.wf(),
                self@.admits(query@),
                scan_query@ == scanned(query@),
                self.plans_fit(plans),
                order == candidates@,
                self@.valid_course(query@, plans@, order),
                order.len() <= BUCKETS,
                forall|i: int|
                    0 <= i < order.len() ==> {
                        &&& (#[trigger] order[i]).1 < BUCKETS
                        &&& order[i].1 != bucket_of_vector(query@)
                        &&& order[i].0 == bucket_gap(query@, order[i].1 as int) as i64
                    },
                forall|i: int, j: int|
                    0 <= i < order.len() && 0 <= j < order.len() && i != j ==> order[i].1
                        != order[j].1,
                k <= candidates.len(),
                self@.orderly(tour),
                opened_before(query@, order, k as int, tour),
                tour.opened.len() <= k + 1,
                tour.seen.len() <= self@.points.len(),
                neighbors@ == tour.near,
                ranked(neighbors@),
                stats.buckets_scanned == tour.opened.len(),
                stats.points_scanned == tour.seen.len(),
                whole == self@.repair_search(
                    query@,
                    plans@,
                    order,
                    policy,
                    fast_points,
                    repair_points,
                ),
                whole == self@.repair_tour(
                    query@,
                    plans@,
                    order,
                    policy,
                    repair_points,
                    limit,
                    repairing,
                    k as int,
                    tour,
                ),
            decreases candidates.len() - k,
        {
            let (lower_bound, bucket) = candidates[k];
            if neighbors.is_full() && lower_bound >= neighbors.worst() {
                return neighbors.result();
            }
            if neighbors.is_full() && stats.points_scanned >= limit {
                let result: SearchResult = neighbors.result();
                if repairing || !policy.calls(result.fraud_count, neighbors.worst(), query) {
                    return result;
                }
                repairing = true;
                limit = repair_points;
            }
            let max_bucket_points: Option<usize> = if neighbors.is_full() {
                Some(limit.wrapping_sub(stats.points_scanned) as usize)
            } else {
                None
            };
            proof {
                lemma_unopened(query@, order, k as int, tour);
                lemma_open(self@, tour, bucket as int);
                lemma_gap_bound(query@, bucket as int);
                lemma_opened_next(
                    self@,
                    query@,
                    plans@,
                    order,
                    k as int,
                    tour,
                    max_bucket_points,
                );
            }
            self.search_bucket_capped(
                bucket,
                lower_bound,
                &scan_query,
                &plans,
                &mut neighbors,
                max_bucket_points,
                &mut stats,
            );
            proof {
                tour = self@.open_bucket(
                    query@,
                    plans@,
                    tour,
                    bucket as int,
                    lower_bound as int,
                    max_bucket_points,
                );
            }
            k = k + 1;
        }
        neighbors.result()
    }

    /// The vote under the successive limits of an adaptive policy.
    fn search_adaptive(
        &self,
        query: &[i16; DIMS],
        early_points: u32,
        policy: AdaptivePolicy,
    ) -> (result: SearchResult)
        requires
            self.wf(),
            self@.admits(query@),
        ensures
            exists|plans: Plans, order: Seq<(i64, usize)>| #[trigger]
                self@.valid_course(query@, plans, order) && result.fraud_count == vote(
                    self@.adaptive_search(query@, plans, order, policy, early_points).near,
                ),
    {
        let start: Started = self.start_search(query);
        let mut neighbors: NeighborSet = start.neighbors;
        let mut stats: SearchStats = start.stats;
        let scan_query: [i16; DIMS] = start.scan_query;
        let plans: ScanPlans = start.plans;
        let candidates: Vec<(i64, usize)> = start.candidates;
        let ghost order = candidates@;
        let ghost mut tour = self@.primary_tour(query@, plans@);
        let ghost whole = self@.adaptive_search(query@, plans@, order, policy, early_points);
        proof {
            lemma_course(self@, query@, plans@, order);
        }
        let mut phase: AdaptivePhase = AdaptivePhase::Early;
        let mut limit: u32 = early_points;
        let mut k: usize = 0;
        while k < candidates.len()
            invariant
                self.wf(),
                self@.admits(query@),
                scan_query@ == scanned(query@),
                self.plans_fit(plans),
                order == candidates@,
                self@.valid_course(query@, plans@, order),
                order.len() <= BUCKETS,
                forall|i: int|
                    0 <= i < order.len() ==> {
                        &&& (#[trigger] order[i]).1 < BUCKETS
                        &&& order[i].1 != bucket_of_vector(query@)
                        &&& order[i].0 == bucket_gap(query@, order[i].1 as int) as i64
                    },
                forall|i: int, j: int|
                    0 <= i < order.len() && 0 <= j < order.len() && i != j ==> order[i].1
                        != order[j].1,
                k <= candidates.len(),
                self@.orderly(tour),
                opened_before(query@, order, k as int, tour),
                tour.opened.len() <= k + 1,
                tour.seen.len() <= self@.points.len(),
                neighbors@ == tour.near,
                ranked(neighbors@),
                stats.buckets_scanned == tour.opened.len(),
                stats.points_scanned == tour.seen.len(),
                whole == self@.adaptive_search(query@, plans@, order, policy, early_points),
                whole == self@.adaptive_tour(
                    query@,
                    plans@,
                    order,
                    policy,
                    phase,
                    limit,
                    k as int,
                    tour,
                ),
            decreases candidates.len() - k,
        {
            let (lower_bound, bucket) = candidates[k];
            if neighbors.is_full() && lower_bound >= neighbors.worst() {
                return neighbors.result();
            }
            match next_limit(&policy, query, &neighbors, stats.points_scanned, phase, limit) {
                None => {
                    return neighbors.result();
                },
                Some((next_phase, next)) => {
                    phase = next_phase;
                    limit = next;
                },
            }
            let max_bucket_points: Option<usize> = if neighbors.is_full() {
                Some(limit.wrapping_sub(stats.points_scanned) as usize)
            } else {
                None
            };
            proof {
                lemma_unopened(query@, order, k as int, tour);
                lemma_open(self@, tour, bucket as int);
                lemma_gap_bound(query@, bucket as int);
                lemma_opened_next(
                    self@,
                    query@,
                    plans@,
                    order,
                    k as int,
                    tour,
                    max_bucket_points,
                );
            }
            self.search_bucket_capped(
                bucket,
                lower_bound,
                &scan_query,
                &plans,
                &mut neighbors,
                max_bucket_points,
                &mut stats,
            );
            proof {
                tour = self@.open_bucket(
                    query@,
                    plans@,
                    tour,
                    bucket as int,
                    lower_bound as int,
                    max_bucket_points,
                );
            }
            k = k + 1;
        }
        neighbors.result()
    }

    /// The vote after `fast_points` points; votes of two and three are looked at again up to
    /// `repair_points`.
    pub fn search_limited_boundary_repair_result(
        &self,
        query: &[i16; DIMS],
        fast_points: u32,
        repair_points: u32,
    ) -> (result: SearchResult)
        requires
            self.wf(),
            self@.admits(query@),
        ensures
            exists|plans: Plans, order: Seq<(i64, usize)>| #[trigger]
                self@.valid_course(query@, plans, order) && result.fraud_count == vote(
                    self@.repair_search(
                        query@,
                        plans,
                        order,
                        scores_policy(DEFAULT_REPAIR_SCORES_MASK),
                        fast_points,
                        repair_points,
                    ).near,
                ),
    {
        let policy: RepairPolicy = RepairPolicy::for_scores(DEFAULT_REPAIR_SCORES_MASK);
        self.search_repaired(query, fast_points, repair_points, policy)
    }

    /// The vote after `fast_points` points; the votes of a mask are looked at again up to
    /// `repair_points`.
    pub fn search_limited_repair_mask_result(
        &self,
        query: &[i16; DIMS],
        fast_points: u32,
        repair_points: u32,
        repair_scores_mask: u8,
    ) -> (result: SearchResult)
        requires
            self.wf(),
            self@.admits(query@),
        ensures
            exists|plans: Plans, order: Seq<(i64, usize)>| #[trigger]
                self@.valid_course(query@, plans, order) && result.fraud_count == vote(
                    self@.repair_search(
                        query@,
                        plans,
                        order,
                        scores_policy(repair_scores_mask),
                        fast_points,
                        repair_points,
                    ).near,
                ),
    {
        let policy: RepairPolicy = RepairPolicy::for_scores(repair_scores_mask);
        self.search_repaired(query, fast_points, repair_points, policy)
    }

    /// Like `search_limited_repair_mask_result`, and a vote of five is looked at again for the
    /// vectors of a rule.
    pub fn search_limited_repair_mask_score5_rule_result(
        &self,
        query: &[i16; DIMS],
        fast_points: u32,
        repair_points: u32,
        repair_scores_mask: u8,
        score5_repair_rule: Score5RepairRule,
    ) -> (result: SearchResult)
        requires
            self.wf(),
            self@.admits(query@),
        ensures
            exists|plans: Plans, order: Seq<(i64, usize)>| #[trigger]
                self@.valid_course(query@, plans, order) && result.fraud_count == vote(
                    self@.repair_search(
                        query@,
                        plans,
                        order,
                        (RepairPolicy {
                            score5_rule: Some(score5_repair_rule),
                            ..scores_policy(repair_scores_mask)
                        }),
                        fast_points,
                        repair_points,
                    ).near,
                ),
    {
        let policy: RepairPolicy = RepairPolicy {
            score5_rule: Some(score5_repair_rule),
            ..RepairPolicy::for_scores(repair_scores_mask)
        };
        self.search_repaired(query, fast_points, repair_points, policy)
    }

    /// Like `search_limited_repair_mask_result`, with thresholds for votes of three and four and a
    /// rule for votes of five.
    pub fn search_limited_selective_repair_result(
        &self,
        query: &[i16; DIMS],
        fast_points: u32,
        repair_points: u32,
        repair_scores_mask: u8,
        score3_worst_threshold: Option<i64>,
        score4_only_worst_threshold: Option<i64>,
        score5_repair_rule: Option<Score5RepairRule>,
    ) -> (result: SearchResult)
        requires
            self.wf(),
            self@.admits(query@),
        ensures
            exists|plans: Plans, order: Seq<(i64, usize)>| #[trigger]
                self@.valid_course(query@, plans, order) && result.fraud_count == vote(
                    self@.repair_search(
                        query@,
                        plans,
                        order,
                        (RepairPolicy {
                            score5_rule: score5_repair_rule,
                            score3_worst: score3_worst_threshold,
                            score4_only_worst: score4_only_worst_threshold,
                            ..scores_policy(repair_scores_mask)
                        }),
                        fast_points,
                        repair_points,
                    ).near,
                ),
    {
        let policy: RepairPolicy = RepairPolicy {
            score5_rule: score5_repair_rule,
            score3_worst: score3_worst_threshold,
            score4_only_worst: score4_only_worst_threshold,
            ..RepairPolicy::for_scores(repair_scores_mask)
        };
        self.search_repaired(query, fast_points, repair_points, policy)
    }

    /// Like `search_limited_repair_mask_result`, and votes of four and more are looked at again when
    /// the farthest neighbour is near.
    pub fn search_limited_repair_mask_high_below_result(
        &self,
        query: &[i16; DIMS],
        fast_points: u32,
        repair_points: u32,
        repair_scores_mask: u8,
        high_score_worst_below_threshold: i64,
    ) -> (result: SearchResult)
        requires
            self.wf(),
            self@.admits(query@),
        ensures
            exists|plans: Plans, order: Seq<(i64, usize)>| #[trigger]
                self@.valid_course(query@, plans, order) && result.fraud_count == vote(
                    self@.repair_search(
                        query@,
                        plans,
                        order,
                        (RepairPolicy {
                            high_score_worst_below: Some(high_score_worst_below_threshold),
                            ..scores_policy(repair_scores_mask)
                        }),
                        fast_points,
                        repair_points,
                    ).near,
                ),
    {
        let policy: RepairPolicy = RepairPolicy {
            high_score_worst_below: Some(high_score_worst_below_threshold),
            ..RepairPolicy::for_scores(repair_scores_mask)
        };
        self.search_repaired(query, fast_points, repair_points, policy)
    }

    /// The vote after `fast_points` points; votes of two and more are looked at again up to
    /// `repair_points`.
    pub fn search_limited_score4_repair_result(
        &self,
        query: &[i16; DIMS],
        fast_points: u32,
        repair_points: u32,
    ) -> (result: SearchResult)
        requires
            self.wf(),
            self@.admits(query@),
        ensures
            exists|plans: Plans, order: Seq<(i64, usize)>| #[trigger]
                self@.valid_course(query@, plans, order) && result.fraud_count == vote(
                    self@.repair_search(
                        query@,
                        plans,
                        order,
                        (RepairPolicy {
                            score4_worst: Some(i64::MIN),
                            ..scores_policy(DEFAULT_REPAIR_SCORES_MASK)
                        }),
                        fast_points,
                        repair_points,
                    ).near,
                ),
    {
        let policy: RepairPolicy = RepairPolicy {
            score4_worst: Some(i64::MIN),
            ..RepairPolicy::for_scores(DEFAULT_REPAIR_SCORES_MASK)
        };
        self.search_repaired(query, fast_points, repair_points, policy)
    }

    /// The vote after `fast_points` points; votes of two and three, and votes of four and more with a
    /// far neighbour, are looked at again up to `repair_points`.
    pub fn search_limited_score4_threshold_repair_result(
        &self,
        query: &[i16; DIMS],
        fast_points: u32,
        repair_points: u32,
        score4_worst_threshold: i64,
    ) -> (result: SearchResult)
        requires
            self.wf(),
            self@.admits(query@),
        ensures
            exists|plans: Plans, order: Seq<(i64, usize)>| #[trigger]
                self@.valid_course(query@, plans, order) && result.fraud_count == vote(
                    self@.repair_search(
                        query@,
                        plans,
                        order,
                        (RepairPolicy {
                            score4_worst: Some(score4_worst_threshold),
                            ..scores_policy(DEFAULT_REPAIR_SCORES_MASK)
                        }),
                        fast_points,
                        repair_points,
                    ).near,
                ),
    {
        let policy: RepairPolicy = RepairPolicy {
            score4_worst: Some(score4_worst_threshold),
            ..RepairPolicy::for_scores(DEFAULT_REPAIR_SCORES_MASK)
        };
        self.search_repaired(query, fast_points, repair_points, policy)
    }

    /// The vote after `early_points` points where it is clear, after `fast_points` otherwise, and
    /// after `repair_points` where the votes of a mask call for it.
    pub fn search_limited_adaptive_boundary_repair_result(
        &self,
        query: &[i16; DIMS],
        early_points: u32,
        fast_points: u32,
        repair_points: u32,
        clear_scores_mask: u8,
        repair_scores_mask: u8,
        clear_worst_max: Option<i64>,
        clear_rule: AdaptiveClearRule,
    ) -> (result: SearchResult)
        requires
            self.wf(),
            self@.admits(query@),
        ensures
            exists|plans: Plans, order: Seq<(i64, usize)>| #[trigger]
                self@.valid_course(query@, plans, order) && result.fraud_count == vote(
                    self@.adaptive_search(
                        query@,
                        plans,
                        order,
                        (AdaptivePolicy {
                            fast_points,
                            repair_points,
                            clear_scores_mask,
                            repair_scores_mask,
                            clear_worst_max,
                            clear_rule,
                        }),
                        early_points,
                    ).near,
                ),
    {
        let policy = AdaptivePolicy {
            fast_points,
            repair_points,
            clear_scores_mask,
            repair_scores_mask,
            clear_worst_max,
            clear_rule,
        };
        self.search_adaptive(query, early_points, policy)
    }
}

} // verus!
