//! Walking the parts of a subdivided bucket, nearest bound first.
use vstd::prelude::*;

use crate::index::kernels::all_in_reach;
use crate::index::neighbors::{full, lemma_scan, ranked, scan, worst_of, Neighbor, NeighborSet};
use crate::index::plan::{plan_distinct, plan_fits};
use crate::index::recording::{cuts, has_room, lemma_counted_concat, lemma_cuts_len, lemma_room_left,
    recorded};
use crate::index::stats::{SearchDetails, SectorScan};
use crate::index::{monotone, Index, Point, DIMS, IVF_CELLS, IVF_SUBCELLS, SECTORS};

verus! {

/// What a walk over a bucket's points works on.
pub struct Sweep {
    /// The points of the index.
    pub points: Seq<Point>,
    /// The query in scan order.
    pub query: Seq<i16>,
    /// Where the parts of the bucket begin.
    pub offsets: Seq<u32>,
    /// A lower bound for the distance to every point of the bucket.
    pub bound: int,
    /// How many points may be looked at.
    pub cap: Option<usize>,
}

/// How far a walk has come.
pub struct Walk {
    /// The nearest neighbours so far.
    pub near: Seq<Neighbor>,
    /// The positions of the points looked at.
    pub seen: Seq<int>,
    /// Where the comparison with each of them stopped.
    pub stops: Seq<int>,
    /// The parts looked at.
    pub visited: Seq<int>,
    /// The sectors that were left after at least one of their cells was looked at.
    pub sectors: int,
    /// How many entries of the plan the bound made superfluous.
    pub pruned: int,
}

/// The walk that has not begun.
pub open spec fn fresh_walk(near: Seq<Neighbor>) -> Walk {
    Walk {
        near,
        seen: Seq::empty(),
        stops: Seq::empty(),
        visited: Seq::empty(),
        sectors: 0,
        pruned: 0,
    }
}

/// The positions of a range.
pub open spec fn positions(start: int, end: int) -> Seq<int> {
    Seq::new((end - start) as nat, |i: int| start + i)
}

/// How many points may still be looked at.
pub open spec fn left_of(cap: Option<usize>, used: int) -> Option<int> {
    match cap {
        None => None,
        Some(most) => Some(if used < most { most - used } else { 0 }),
    }
}

/// The end of a range that may have to be cut short.
pub open spec fn clip(start: int, end: int, left: Option<int>) -> int {
    match left {
        None => end,
        Some(most) => if start + most < end { start + most } else { end },
    }
}

/// Total length of the given parts.
pub open spec fn span_sum(offsets: Seq<u32>, parts: Seq<int>) -> int
    decreases parts.len(),
{
    if parts.len() == 0 {
        0
    } else {
        span_sum(offsets, parts.drop_last()) + offsets[parts.last() + 1] - offsets[parts.last()]
    }
}

/// Offsets of `parts` parts within the points.
pub open spec fn parts_within(offsets: Seq<u32>, parts: int, points: int) -> bool {
    &&& offsets.len() == parts + 1
    &&& monotone(offsets)
    &&& offsets[parts] <= points
}

/// The total length of some parts without one of them.
proof fn lemma_span_sum_remove(offsets: Seq<u32>, parts: Seq<int>, at: int)
    requires
        0 <= at < parts.len(),
    ensures
        span_sum(offsets, parts) == span_sum(offsets, parts.remove(at)) + offsets[parts[at] + 1]
            - offsets[parts[at]],
    decreases parts.len(),
{
    if at == parts.len() - 1 {
        assert(parts.remove(at) =~= parts.drop_last());
    } else {
        lemma_span_sum_remove(offsets, parts.drop_last(), at);
        assert(parts.remove(at).drop_last() =~= parts.drop_last().remove(at));
        assert(parts.remove(at).last() == parts.last());
    }
}

/// Distinct parts are together no longer than all parts.
pub proof fn lemma_span_sum(offsets: Seq<u32>, parts: Seq<int>, count: int)
    requires
        monotone(offsets),
        0 <= count < offsets.len(),
        parts.no_duplicates(),
        forall|i: int| 0 <= i < parts.len() ==> 0 <= #[trigger] parts[i] < count,
    ensures
        0 <= span_sum(offsets, parts) <= offsets[count] - offsets[0],
    decreases count,
{
    if count == 0 {
        if parts.len() > 0 {
            assert(0 <= parts[0] < count);
        }
    } else if parts.contains(count - 1) {
        let at = choose|i: int| 0 <= i < parts.len() && parts[i] == count - 1;
        let rest = parts.remove(at);
        assert(parts[at] == count - 1);
        lemma_span_sum_remove(offsets, parts, at);
        assert forall|i: int| 0 <= i < rest.len() implies 0 <= #[trigger] rest[i] < count - 1 by {
            let j = if i < at { i } else { i + 1 };
            assert(rest[i] == parts[j]);
            assert(parts[j] != parts[at]);
        }
        assert(rest.no_duplicates()) by {
            assert forall|i: int, j: int| 0 <= i < rest.len() && 0 <= j < rest.len() && i != j implies rest[i]
                != rest[j] by {
                let a = if i < at { i } else { i + 1 };
                let b = if j < at { j } else { j + 1 };
                assert(rest[i] == parts[a]);
                assert(rest[j] == parts[b]);
            }
        }
        lemma_span_sum(offsets, rest, count - 1);
    } else {
        assert forall|i: int| 0 <= i < parts.len() implies 0 <= #[trigger] parts[i] < count - 1 by {
            assert(parts.contains(parts[i]));
        }
        lemma_span_sum(offsets, parts, count - 1);
        assert(offsets[count - 1] <= offsets[count]);
    }
}

/// How many groups of `fan` consecutive parts the given parts belong to.
pub open spec fn groups_of(parts: Seq<int>, fan: int) -> int
    decreases parts.len(),
{
    if parts.len() == 0 {
        0
    } else {
        groups_of(parts.drop_last(), fan) + if in_group(parts.drop_last(), fan, parts.last() / fan) {
            0int
        } else {
            1
        }
    }
}

/// Whether one of the parts belongs to a group.
pub open spec fn in_group(parts: Seq<int>, fan: int, group: int) -> bool {
    exists|i: int| 0 <= i < parts.len() && #[trigger] parts[i] / fan == group
}

impl Sweep {
    /// Where the look at a part ends.
    pub open spec fn stop(self, walk: Walk, part: int) -> int {
        clip(
            self.offsets[part] as int,
            self.offsets[part + 1] as int,
            left_of(self.cap, walk.seen.len() as int),
        )
    }

    /// Looks at a range of points.
    pub open spec fn look(self, walk: Walk, start: int, stop: int) -> Walk {
        Walk {
            near: scan(walk.near, self.query, self.points.subrange(start, stop)),
            seen: walk.seen + positions(start, stop),
            stops: walk.stops + cuts(walk.near, self.query, self.points.subrange(start, stop)),
            ..walk
        }
    }

    /// Looks at a part.
    pub open spec fn visit(self, walk: Walk, part: int) -> Walk {
        Walk {
            visited: walk.visited.push(part),
            ..self.look(walk, self.offsets[part] as int, self.stop(walk, part))
        }
    }

    /// No further point may be looked at.
    pub open spec fn spent(self, walk: Walk) -> bool {
        left_of(self.cap, walk.seen.len() as int) == Some(0int)
    }

    /// Nothing beyond the given bound can still be among the nearest.
    pub open spec fn hopeless(self, walk: Walk, bound: int) -> bool {
        full(walk.near) && self.bound + bound >= worst_of(walk.near)
    }

    /// A part without points.
    pub open spec fn empty_part(self, part: int) -> bool {
        self.offsets[part] == self.offsets[part + 1]
    }

    /// The look at a part has to stop before its end.
    pub open spec fn cut_short(self, walk: Walk, part: int) -> bool {
        self.stop(walk, part) < self.offsets[part + 1]
    }

    /// The walk over the parts of a plan from its entry `k` on. It ends when no further point may
    /// be looked at, and when the bound of the next part is hopeless.
    pub open spec fn walk_parts(self, plan: Seq<(i64, usize)>, k: int, walk: Walk) -> Walk
        decreases plan.len() - k,
    {
        if k >= plan.len() || self.spent(walk) {
            walk
        } else if self.hopeless(walk, plan[k].0 as int) {
            Walk { pruned: plan.len() - k, ..walk }
        } else if self.empty_part(plan[k].1 as int) {
            self.walk_parts(plan, k + 1, walk)
        } else if self.cut_short(walk, plan[k].1 as int) {
            self.visit(walk, plan[k].1 as int)
        } else {
            self.walk_parts(plan, k + 1, self.visit(walk, plan[k].1 as int))
        }
    }

    /// The cell that two plans meet in.
    pub open spec fn cell(sectors: Seq<(i64, usize)>, subcells: Seq<(i64, usize)>, i: int, j: int) -> int {
        sectors[i].1 * IVF_SUBCELLS + subcells[j].1
    }

    /// The walk over the subcells `j` and on of sector entry `i`, and over the sectors after it. A
    /// hopeless subcell ends its sector, and the whole walk when it is the sector's first.
    pub open spec fn walk_cells(
        self,
        sectors: Seq<(i64, usize)>,
        subcells: Seq<(i64, usize)>,
        i: int,
        j: int,
        touched: bool,
        walk: Walk,
    ) -> Walk
        decreases sectors.len() - i, subcells.len() - j,
    {
        let left = Walk { sectors: walk.sectors + if touched { 1int } else { 0 }, ..walk };
        if i >= sectors.len() {
            walk
        } else if j >= subcells.len() {
            self.walk_cells(sectors, subcells, i + 1, 0, false, left)
        } else if self.spent(walk) {
            walk
        } else if self.hopeless(walk, sectors[i].0 + subcells[j].0) {
            if j == 0 {
                Walk { pruned: sectors.len() - i, ..walk }
            } else {
                self.walk_cells(sectors, subcells, i + 1, 0, false, left)
            }
        } else {
            let cell = Sweep::cell(sectors, subcells, i, j);
            if self.empty_part(cell) {
                self.walk_cells(sectors, subcells, i, j + 1, touched, walk)
            } else if self.cut_short(walk, cell) {
                self.visit(walk, cell)
            } else {
                self.walk_cells(sectors, subcells, i, j + 1, true, self.visit(walk, cell))
            }
        }
    }

    /// The walk has looked at each of `parts` parts at most once.
    pub open spec fn orderly(self, walk: Walk, parts: int) -> bool {
        &&& ranked(walk.near)
        &&& walk.visited.no_duplicates()
        &&& forall|i: int| 0 <= i < walk.visited.len() ==> 0 <= #[trigger] walk.visited[i] < parts
        &&& walk.seen.len() <= span_sum(self.offsets, walk.visited)
        &&& walk.stops.len() == walk.seen.len()
    }

    /// Looking at a part that was not looked at keeps the walk orderly.
    pub proof fn lemma_visit(self, walk: Walk, part: int, parts: int)
        requires
            self.orderly(walk, parts),
            parts_within(self.offsets, parts, self.points.len() as int),
            0 <= part < parts,
            !walk.visited.contains(part),
        ensures
            self.orderly(self.visit(walk, part), parts),
            self.offsets[part] <= self.stop(walk, part) <= self.offsets[part + 1] <= self.points.len(),
            self.visit(walk, part).seen.len() == walk.seen.len() + self.stop(walk, part)
                - self.offsets[part],
            self.visit(walk, part).seen.len() <= self.offsets[parts] - self.offsets[0],
            self.cap matches Some(most) ==> walk.seen.len() <= most ==> self.visit(walk, part).seen.len()
                <= most,
    {
        let next = self.visit(walk, part);
        let start = self.offsets[part] as int;
        let stop = self.stop(walk, part);
        assert(self.offsets[part] <= self.offsets[part + 1]);
        assert(self.offsets[part + 1] <= self.offsets[parts]);
        lemma_scan(walk.near, self.query, self.points.subrange(start, stop));
        lemma_cuts_len(walk.near, self.query, self.points.subrange(start, stop));
        assert(next.visited.drop_last() =~= walk.visited);
        assert(next.visited.no_duplicates()) by {
            assert forall|i: int, j: int|
                0 <= i < next.visited.len() && 0 <= j < next.visited.len() && i != j implies next.visited[i]
                != next.visited[j] by {
                if i < walk.visited.len() {
                    assert(walk.visited.contains(walk.visited[i]));
                }
                if j < walk.visited.len() {
                    assert(walk.visited.contains(walk.visited[j]));
                }
            }
        }
        lemma_span_sum(self.offsets, next.visited, parts);
    }
}

/// How many points may still be looked at.
pub(crate) fn remaining_points(max_points: Option<usize>, used: usize) -> (remaining: Option<usize>)
    ensures
        match remaining {
            Some(most) => left_of(max_points, used as int) == Some(most as int),
            None => left_of(max_points, used as int) is None,
        },
{
    match max_points {
        Some(max) => Some(if used < max { max - used } else { 0 }),
        None => None,
    }
}

/// The end of a range that may have to be cut short.
pub(crate) fn scan_stop(start: usize, end: usize, remaining: Option<usize>) -> (stop: usize)
    requires
        start <= end,
    ensures
        stop == clip(
            start as int,
            end as int,
            match remaining {
                Some(most) => Some(most as int),
                None => None,
            },
        ),
        start <= stop <= end,
{
    match remaining {
        Some(max) => if max < end - start { start + max } else { end },
        None => end,
    }
}

impl Index {
    /// What a walk over a subdivided bucket works on.
    pub open spec fn sweep(
        &self,
        offsets: Seq<u32>,
        query: Seq<i16>,
        bound: i64,
        cap: Option<usize>,
    ) -> Sweep {
        Sweep { points: self@.points, query, offsets, bound: bound as int, cap }
    }

    /// Walks the parts of a bucket in the order of a plan; returns how many points were looked at.
    pub(crate) fn search_parts(
        &self,
        offsets: &Vec<u32>,
        bucket_lower_bound: i64,
        scan_query: &[i16; DIMS],
        plan: &Vec<(i64, usize)>,
        neighbors: &mut NeighborSet,
        max_points: Option<usize>,
    ) -> (scanned: usize)
        requires
            self.wf(),
            parts_within(offsets@, plan@.len() as int, self@.points.len() as int),
            all_in_reach(scan_query@, self@.points),
            ranked(old(neighbors)@),
            0 <= bucket_lower_bound <= 15_000_000_000,
            plan_fits(plan@, plan@.len() as int),
            plan_distinct(plan@),
        ensures
            ({
                let sweep = self.sweep(offsets@, scan_query@, bucket_lower_bound, max_points);
                let walk = sweep.walk_parts(plan@, 0, fresh_walk(old(neighbors)@));
                &&& final(neighbors)@ == walk.near
                &&& scanned == walk.seen.len()
                &&& ranked(walk.near)
                &&& scanned <= offsets@[plan@.len() as int] - offsets@[0]
                &&& max_points matches Some(most) ==> scanned <= most
            }),
    {
        let ghost sweep = self.sweep(offsets@, scan_query@, bucket_lower_bound, max_points);
        let ghost whole = sweep.walk_parts(plan@, 0, fresh_walk(neighbors@));
        let ghost mut walk = fresh_walk(neighbors@);
        let mut points_scanned: usize = 0;
        let mut k: usize = 0;
        while k < plan.len()
            invariant
                self.wf(),
                parts_within(offsets@, plan@.len() as int, self@.points.len() as int),
                all_in_reach(scan_query@, self@.points),
                0 <= bucket_lower_bound <= 15_000_000_000,
                plan_fits(plan@, plan@.len() as int),
                plan_distinct(plan@),
                k <= plan.len(),
                sweep == self.sweep(offsets@, scan_query@, bucket_lower_bound, max_points),
                whole == sweep.walk_parts(plan@, 0, fresh_walk(old(neighbors)@)),
                whole == sweep.walk_parts(plan@, k as int, walk),
                neighbors@ == walk.near,
                points_scanned == walk.seen.len(),
                points_scanned <= offsets@[plan@.len() as int] - offsets@[0],
                max_points matches Some(most) ==> points_scanned <= most,
                sweep.orderly(walk, plan@.len() as int),
                forall|i: int|
                    0 <= i < walk.visited.len() ==> exists|j: int|
                        0 <= j < k && #[trigger] plan@[j].1 == #[trigger] walk.visited[i],
            decreases plan.len() - k,
        {
            let (part_lower_bound, part) = plan[k];
            let remaining: Option<usize> = remaining_points(max_points, points_scanned);
            if remaining == Some(0) {
                return points_scanned;
            }
            if neighbors.is_full() && bucket_lower_bound + part_lower_bound >= neighbors.worst() {
                return points_scanned;
            }
            let start: usize = offsets[part] as usize;
            let end: usize = offsets[part + 1] as usize;
            if start != end {
                proof {
                    assert(!walk.visited.contains(part as int));
                    sweep.lemma_visit(walk, part as int, plan@.len() as int);
                }
                let scan_end: usize = scan_stop(start, end, remaining);
                self.search_range(start, scan_end, scan_query, neighbors);
                points_scanned = points_scanned + (scan_end - start);
                proof {
                    let before = walk;
                    walk = sweep.visit(before, part as int);
                    assert forall|i: int| 0 <= i < walk.visited.len() implies exists|j: int|
                        0 <= j < k + 1 && #[trigger] plan@[j].1 == #[trigger] walk.visited[i] by {
                        if i < before.visited.len() {
                            assert(walk.visited[i] == before.visited[i]);
                        } else {
                            assert(plan@[k as int].1 == walk.visited[i]);
                        }
                    }
                }
                if scan_end < end {
                    return points_scanned;
                }
            }
            k = k + 1;
        }
        points_scanned
    }

    /// Walks the parts of a bucket in the order of a plan, counting comparisons and the groups of
    /// `fan` parts that were looked at.
    pub(crate) fn search_parts_instrumented(
        &self,
        offsets: &Vec<u32>,
        bucket_lower_bound: i64,
        scan_query: &[i16; DIMS],
        plan: &Vec<(i64, usize)>,
        fan: usize,
        neighbors: &mut NeighborSet,
        details: &mut SearchDetails,
        max_points: Option<usize>,
    ) -> (sector_scan: SectorScan)
        requires
            self.wf(),
            parts_within(offsets@, plan@.len() as int, self@.points.len() as int),
            all_in_reach(scan_query@, self@.points),
            ranked(old(neighbors)@),
            0 <= bucket_lower_bound <= 15_000_000_000,
            plan_fits(plan@, plan@.len() as int),
            plan_distinct(plan@),
            plan@.len() <= u32::MAX,
            fan > 0,
            plan@.len() <= SECTORS * fan,
            has_room(*old(details), offsets@[plan@.len() as int] - offsets@[0]),
        ensures
            ({
                let sweep = self.sweep(offsets@, scan_query@, bucket_lower_bound, max_points);
                let walk = sweep.walk_parts(plan@, 0, fresh_walk(old(neighbors)@));
                &&& final(neighbors)@ == walk.near
                &&& sector_scan.points_scanned == walk.seen.len()
                &&& sector_scan.sectors_scanned == groups_of(walk.visited, fan as int)
                &&& sector_scan.sectors_pruned_by_bound == walk.pruned
                &&& recorded(*old(details), *final(details), walk.stops)
                &&& ranked(walk.near)
                &&& walk.stops.len() == walk.seen.len()
                &&& walk.seen.len() <= offsets@[plan@.len() as int] - offsets@[0]
                &&& max_points matches Some(most) ==> walk.seen.len() <= most
                &&& sector_scan.sectors_scanned <= SECTORS
                &&& sector_scan.sectors_pruned_by_bound <= plan@.len()
            }),
    {
        let ghost sweep = self.sweep(offsets@, scan_query@, bucket_lower_bound, max_points);
        let ghost whole = sweep.walk_parts(plan@, 0, fresh_walk(neighbors@));
        let ghost mut walk = fresh_walk(neighbors@);
        let ghost before_details = *details;
        let mut scan = SectorScan {
            points_scanned: 0,
            sectors_scanned: 0,
            sectors_pruned_by_bound: 0,
        };
        let mut sectors_touched: [bool; SECTORS] = [false; SECTORS];
        let mut k: usize = 0;
        proof {
            lemma_none_touched(sectors_touched@);
        }
        while k < plan.len()
            invariant
                self.wf(),
                parts_within(offsets@, plan@.len() as int, self@.points.len() as int),
                all_in_reach(scan_query@, self@.points),
                0 <= bucket_lower_bound <= 15_000_000_000,
                plan_fits(plan@, plan@.len() as int),
                plan_distinct(plan@),
                k <= plan.len(),
                sweep == self.sweep(offsets@, scan_query@, bucket_lower_bound, max_points),
                whole == sweep.walk_parts(plan@, 0, fresh_walk(old(neighbors)@)),
                whole == sweep.walk_parts(plan@, k as int, walk),
                neighbors@ == walk.near,
                fan > 0,
                plan@.len() <= SECTORS * fan,
                plan@.len() <= u32::MAX,
                before_details == *old(details),
                has_room(before_details, offsets@[plan@.len() as int] - offsets@[0]),
                recorded(before_details, *details, walk.stops),
                scan.points_scanned == walk.seen.len(),
                scan.points_scanned <= offsets@[plan@.len() as int] - offsets@[0],
                max_points matches Some(most) ==> scan.points_scanned <= most,
                scan.sectors_scanned == groups_of(walk.visited, fan as int),
                scan.sectors_scanned == touched_count(sectors_touched@),
                scan.sectors_pruned_by_bound == walk.pruned,
                walk.pruned == 0,
                forall|g: int|
                    0 <= g < SECTORS ==> #[trigger] sectors_touched@[g] == in_group(
                        walk.visited,
                        fan as int,
                        g,
                    ),
                sweep.orderly(walk, plan@.len() as int),
                forall|i: int|
                    0 <= i < walk.visited.len() ==> exists|j: int|
                        0 <= j < k && #[trigger] plan@[j].1 == #[trigger] walk.visited[i],
            decreases plan.len() - k,
        {
            let (part_lower_bound, part) = plan[k];
            let remaining: Option<usize> = remaining_points(max_points, scan.points_scanned);
            proof {
                lemma_touched_bound(sectors_touched@);
            }
            if remaining == Some(0) {
                return scan;
            }
            if neighbors.is_full() && bucket_lower_bound + part_lower_bound >= neighbors.worst() {
                scan.sectors_pruned_by_bound = (plan.len() - k) as u32;
                return scan;
            }
            let start: usize = offsets[part] as usize;
            let end: usize = offsets[part + 1] as usize;
            if start != end {
                proof {
                    assert(!walk.visited.contains(part as int));
                    sweep.lemma_visit(walk, part as int, plan@.len() as int);
                }
                let scan_end: usize = scan_stop(start, end, remaining);
                let ghost middle = *details;
                let ghost stops = cuts(
                    walk.near,
                    scan_query@,
                    self@.points.subrange(start as int, scan_end as int),
                );
                proof {
                    lemma_room_left(
                        before_details,
                        middle,
                        walk.stops,
                        offsets@[plan@.len() as int] - offsets@[0] - walk.stops.len(),
                    );
                }
                self.search_range_instrumented(start, scan_end, scan_query, neighbors, details);
                scan.points_scanned = scan.points_scanned + (scan_end - start);
                let sector: usize = part / fan;
                let ghost touched_before = sectors_touched@;
                proof {
                    lemma_counted_concat(before_details, middle, *details, walk.stops, stops);
                    assert(sector < SECTORS) by (nonlinear_arith)
                        requires
                            part < SECTORS * fan,
                            fan > 0,
                            sector == part / fan,
                    ;
                    assert(walk.visited.push(part as int).drop_last() =~= walk.visited);
                    assert(sectors_touched@[sector as int] == in_group(
                        walk.visited,
                        fan as int,
                        sector as int,
                    ));
                }
                if !sectors_touched[sector] {
                    proof {
                        lemma_touch(sectors_touched@, sector as int);
                        lemma_touched_bound(sectors_touched@.update(sector as int, true));
                    }
                    sectors_touched[sector] = true;
                    scan.sectors_scanned = scan.sectors_scanned + 1;
                }
                proof {
                    let before = walk;
                    walk = sweep.visit(before, part as int);
                    assert forall|i: int| 0 <= i < walk.visited.len() implies exists|j: int|
                        0 <= j < k + 1 && #[trigger] plan@[j].1 == #[trigger] walk.visited[i] by {
                        if i < before.visited.len() {
                            assert(walk.visited[i] == before.visited[i]);
                        } else {
                            assert(plan@[k as int].1 == walk.visited[i]);
                        }
                    }
                    assert forall|g: int| 0 <= g < SECTORS implies #[trigger] sectors_touched@[g]
                        == in_group(walk.visited, fan as int, g) by {
                        assert(touched_before[g] == in_group(before.visited, fan as int, g));
                        assert(walk.visited.last() == part);
                        if in_group(before.visited, fan as int, g) {
                            let i = choose|i: int|
                                0 <= i < before.visited.len() && #[trigger] before.visited[i]
                                    / fan as int == g;
                            assert(walk.visited[i] / fan as int == g);
                        }
                        if in_group(walk.visited, fan as int, g) && g != sector {
                            let i = choose|i: int|
                                0 <= i < walk.visited.len() && #[trigger] walk.visited[i]
                                    / fan as int == g;
                            assert(before.visited[i] / fan as int == g);
                        }
                        if g == sector {
                            assert(walk.visited[walk.visited.len() - 1] / fan as int == g);
                        }
                    }
                    lemma_touched_bound(sectors_touched@);
                }
                if scan_end < end {
                    return scan;
                }
            }
            k = k + 1;
        }
        proof {
            lemma_touched_bound(sectors_touched@);
        }
        scan
    }
}

impl Index {
    /// Walks the cells of a bucket sector by sector, the subcells of each in their own order; returns
    /// how many points were looked at.
    pub(crate) fn search_ivf_cells(
        &self,
        offsets: &Vec<u32>,
        bucket_lower_bound: i64,
        scan_query: &[i16; DIMS],
        sector_plan: &Vec<(i64, usize)>,
        sub_plan: &Vec<(i64, usize)>,
        neighbors: &mut NeighborSet,
        max_points: Option<usize>,
    ) -> (scanned: usize)
        requires
            self.wf(),
            parts_within(offsets@, IVF_CELLS as int, self@.points.len() as int),
            all_in_reach(scan_query@, self@.points),
            ranked(old(neighbors)@),
            0 <= bucket_lower_bound <= 15_000_000_000,
            sector_plan@.len() == SECTORS,
            plan_fits(sector_plan@, SECTORS as int),
            plan_distinct(sector_plan@),
            sub_plan@.len() == IVF_SUBCELLS,
            plan_fits(sub_plan@, IVF_SUBCELLS as int),
            plan_distinct(sub_plan@),
        ensures
            ({
                let sweep = self.sweep(offsets@, scan_query@, bucket_lower_bound, max_points);
                let walk = sweep.walk_cells(
                    sector_plan@,
                    sub_plan@,
                    0,
                    0,
                    false,
                    fresh_walk(old(neighbors)@),
                );
                &&& final(neighbors)@ == walk.near
                &&& scanned == walk.seen.len()
                &&& ranked(walk.near)
                &&& walk.seen.len() <= offsets@[IVF_CELLS as int] - offsets@[0]
                &&& max_points matches Some(most) ==> walk.seen.len() <= most
            }),
    {
        let ghost sweep = self.sweep(offsets@, scan_query@, bucket_lower_bound, max_points);
        let ghost whole = sweep.walk_cells(sector_plan@, sub_plan@, 0, 0, false, fresh_walk(neighbors@));
        let ghost mut walk = fresh_walk(neighbors@);
        let mut points_scanned: usize = 0;
        let mut i: usize = 0;
        while i < sector_plan.len()
            invariant
                i <= SECTORS,
                self.wf(),
                parts_within(offsets@, IVF_CELLS as int, self@.points.len() as int),
                all_in_reach(scan_query@, self@.points),
                0 <= bucket_lower_bound <= 15_000_000_000,
                sector_plan@.len() == SECTORS,
                plan_fits(sector_plan@, SECTORS as int),
                plan_distinct(sector_plan@),
                sub_plan@.len() == IVF_SUBCELLS,
                plan_fits(sub_plan@, IVF_SUBCELLS as int),
                plan_distinct(sub_plan@),
                sweep == self.sweep(offsets@, scan_query@, bucket_lower_bound, max_points),
                whole == sweep.walk_cells(
                    sector_plan@,
                    sub_plan@,
                    0,
                    0,
                    false,
                    fresh_walk(old(neighbors)@),
                ),
                neighbors@ == walk.near,
                sweep.orderly(walk, IVF_CELLS as int),
                max_points matches Some(most) ==> walk.seen.len() <= most,
                walk.seen.len() <= offsets@[IVF_CELLS as int] - offsets@[0],
                walk.pruned == 0,
                points_scanned == walk.seen.len(),
                whole == sweep.walk_cells(sector_plan@, sub_plan@, i as int, 0, false, walk),
                forall|n: int|
                    0 <= n < walk.visited.len() ==> cell_before(
                        sector_plan@,
                        sub_plan@,
                        #[trigger] walk.visited[n],
                        i as int,
                        0,
                    ),
            decreases SECTORS - i,
        {
            let (sector_lower_bound, sector) = sector_plan[i];
            let mut sector_touched: bool = false;
            let mut sector_open: bool = true;
            let mut j: usize = 0;
            while j < sub_plan.len() && sector_open
                invariant
                    i < SECTORS,
                    (sector_lower_bound, sector) == sector_plan@[i as int],
                    j <= IVF_SUBCELLS,
                    self.wf(),
                    parts_within(offsets@, IVF_CELLS as int, self@.points.len() as int),
                    all_in_reach(scan_query@, self@.points),
                    0 <= bucket_lower_bound <= 15_000_000_000,
                    sector_plan@.len() == SECTORS,
                    plan_fits(sector_plan@, SECTORS as int),
                    plan_distinct(sector_plan@),
                    sub_plan@.len() == IVF_SUBCELLS,
                    plan_fits(sub_plan@, IVF_SUBCELLS as int),
                    plan_distinct(sub_plan@),
                    sweep == self.sweep(offsets@, scan_query@, bucket_lower_bound, max_points),
                    whole == sweep.walk_cells(
                        sector_plan@,
                        sub_plan@,
                        0,
                        0,
                        false,
                        fresh_walk(old(neighbors)@),
                    ),
                    neighbors@ == walk.near,
                    sweep.orderly(walk, IVF_CELLS as int),
                    max_points matches Some(most) ==> walk.seen.len() <= most,
                    walk.seen.len() <= offsets@[IVF_CELLS as int] - offsets@[0],
                    walk.pruned == 0,
                    points_scanned == walk.seen.len(),
                    sector_open ==> whole == sweep.walk_cells(
                        sector_plan@,
                        sub_plan@,
                        i as int,
                        j as int,
                        sector_touched,
                        walk,
                    ),
                    !sector_open ==> whole == sweep.walk_cells(
                        sector_plan@,
                        sub_plan@,
                        i + 1,
                        0,
                        false,
                        Walk { sectors: walk.sectors + if sector_touched { 1int } else { 0 }, ..walk },
                    ),
                    forall|n: int|
                        0 <= n < walk.visited.len() ==> cell_before(
                            sector_plan@,
                            sub_plan@,
                            #[trigger] walk.visited[n],
                            i as int,
                            j as int,
                        ),
                decreases IVF_SUBCELLS - j, (if sector_open { 1int } else { 0 }),
            {
                let (sub_lower_bound, subcell) = sub_plan[j];
                let remaining: Option<usize> = remaining_points(max_points, points_scanned);
                if remaining == Some(0) {
                    return points_scanned;
                }
                let lower_bound: i64 = bucket_lower_bound + sector_lower_bound + sub_lower_bound;
                if neighbors.is_full() && lower_bound >= neighbors.worst() {
                    if j == 0 {
                        return points_scanned;
                    }
                    sector_open = false;
                } else {
                    let cell: usize = sector * IVF_SUBCELLS + subcell;
                    let start: usize = offsets[cell] as usize;
                    let end: usize = offsets[cell + 1] as usize;
                    let ghost before = walk;
                    if start != end {
                        proof {
                            lemma_new_cell(sector_plan@, sub_plan@, walk.visited, i as int, j as int);
                            sweep.lemma_visit(walk, cell as int, IVF_CELLS as int);
                        }
                        let scan_end: usize = scan_stop(start, end, remaining);
                        self.search_range(start, scan_end, scan_query, neighbors);
                        points_scanned = points_scanned + (scan_end - start);
                        sector_touched = true;
                        proof {
                            walk = sweep.visit(before, cell as int);
                        }
                        if scan_end < end {
                            return points_scanned;
                        }
                    }
                    proof {
                        lemma_cells_before(
                            sector_plan@,
                            sub_plan@,
                            before.visited,
                            walk.visited,
                            i as int,
                            j as int,
                        );
                    }
                    j = j + 1;
                }
            }
            proof {
                walk = Walk { sectors: walk.sectors + if sector_touched { 1int } else { 0 }, ..walk };
                lemma_sector_before(sector_plan@, sub_plan@, walk.visited, i as int, j as int);
            }
            i = i + 1;
        }
        points_scanned
    }

    /// Walks the cells of a bucket sector by sector, the subcells of each in their own order, counting
    /// comparisons and sectors.
    pub(crate) fn search_ivf_cells_instrumented(
        &self,
        offsets: &Vec<u32>,
        bucket_lower_bound: i64,
        scan_query: &[i16; DIMS],
        sector_plan: &Vec<(i64, usize)>,
        sub_plan: &Vec<(i64, usize)>,
        neighbors: &mut NeighborSet,
        details: &mut SearchDetails,
        max_points: Option<usize>,
    ) -> (sector_scan: SectorScan)
        requires
            self.wf(),
            parts_within(offsets@, IVF_CELLS as int, self@.points.len() as int),
            all_in_reach(scan_query@, self@.points),
            ranked(old(neighbors)@),
            0 <= bucket_lower_bound <= 15_000_000_000,
            sector_plan@.len() == SECTORS,
            plan_fits(sector_plan@, SECTORS as int),
            plan_distinct(sector_plan@),
            sub_plan@.len() == IVF_SUBCELLS,
            plan_fits(sub_plan@, IVF_SUBCELLS as int),
            plan_distinct(sub_plan@),
            has_room(*old(details), offsets@[IVF_CELLS as int] - offsets@[0]),
        ensures
            ({
                let sweep = self.sweep(offsets@, scan_query@, bucket_lower_bound, max_points);
                let walk = sweep.walk_cells(
                    sector_plan@,
                    sub_plan@,
                    0,
                    0,
                    false,
                    fresh_walk(old(neighbors)@),
                );
                &&& final(neighbors)@ == walk.near
                &&& sector_scan.points_scanned == walk.seen.len()
                &&& sector_scan.sectors_scanned == walk.sectors
                &&& sector_scan.sectors_pruned_by_bound == walk.pruned
                &&& recorded(*old(details), *final(details), walk.stops)
                &&& walk.stops.len() == walk.seen.len()
                &&& sector_scan.sectors_scanned <= SECTORS
                &&& sector_scan.sectors_pruned_by_bound <= SECTORS
                &&& ranked(walk.near)
                &&& walk.seen.len() <= offsets@[IVF_CELLS as int] - offsets@[0]
                &&& max_points matches Some(most) ==> walk.seen.len() <= most
            }),
    {
        let ghost sweep = self.sweep(offsets@, scan_query@, bucket_lower_bound, max_points);
        let ghost whole = sweep.walk_cells(sector_plan@, sub_plan@, 0, 0, false, fresh_walk(neighbors@));
        let ghost mut walk = fresh_walk(neighbors@);
        let ghost before_details = *details;
        let mut scan = SectorScan {
            points_scanned: 0,
            sectors_scanned: 0,
            sectors_pruned_by_bound: 0,
        };
        let mut i: usize = 0;
        while i < sector_plan.len()
            invariant
                i <= SECTORS,
                self.wf(),
                parts_within(offsets@, IVF_CELLS as int, self@.points.len() as int),
                all_in_reach(scan_query@, self@.points),
                0 <= bucket_lower_bound <= 15_000_000_000,
                sector_plan@.len() == SECTORS,
                plan_fits(sector_plan@, SECTORS as int),
                plan_distinct(sector_plan@),
                sub_plan@.len() == IVF_SUBCELLS,
                plan_fits(sub_plan@, IVF_SUBCELLS as int),
                plan_distinct(sub_plan@),
                sweep == self.sweep(offsets@, scan_query@, bucket_lower_bound, max_points),
                whole == sweep.walk_cells(
                    sector_plan@,
                    sub_plan@,
                    0,
                    0,
                    false,
                    fresh_walk(old(neighbors)@),
                ),
                neighbors@ == walk.near,
                sweep.orderly(walk, IVF_CELLS as int),
                max_points matches Some(most) ==> walk.seen.len() <= most,
                walk.seen.len() <= offsets@[IVF_CELLS as int] - offsets@[0],
                walk.pruned == 0,
                before_details == *old(details),
                has_room(before_details, offsets@[IVF_CELLS as int] - offsets@[0]),
                recorded(before_details, *details, walk.stops),
                scan.points_scanned == walk.seen.len(),
                scan.sectors_scanned == walk.sectors,
                scan.sectors_pruned_by_bound == 0,
                scan.sectors_scanned <= i,
                whole == sweep.walk_cells(sector_plan@, sub_plan@, i as int, 0, false, walk),
                forall|n: int|
                    0 <= n < walk.visited.len() ==> cell_before(
                        sector_plan@,
                        sub_plan@,
                        #[trigger] walk.visited[n],
                        i as int,
                        0,
                    ),
            decreases SECTORS - i,
        {
            let (sector_lower_bound, sector) = sector_plan[i];
            let mut sector_touched: bool = false;
            let mut sector_open: bool = true;
            let mut j: usize = 0;
            while j < sub_plan.len() && sector_open
                invariant
                    i < SECTORS,
                    (sector_lower_bound, sector) == sector_plan@[i as int],
                    j <= IVF_SUBCELLS,
                    self.wf(),
                    parts_within(offsets@, IVF_CELLS as int, self@.points.len() as int),
                    all_in_reach(scan_query@, self@.points),
                    0 <= bucket_lower_bound <= 15_000_000_000,
                    sector_plan@.len() == SECTORS,
                    plan_fits(sector_plan@, SECTORS as int),
                    plan_distinct(sector_plan@),
                    sub_plan@.len() == IVF_SUBCELLS,
                    plan_fits(sub_plan@, IVF_SUBCELLS as int),
                    plan_distinct(sub_plan@),
                    sweep == self.sweep(offsets@, scan_query@, bucket_lower_bound, max_points),
                    whole == sweep.walk_cells(
                        sector_plan@,
                        sub_plan@,
                        0,
                        0,
                        false,
                        fresh_walk(old(neighbors)@),
                    ),
                    neighbors@ == walk.near,
                    sweep.orderly(walk, IVF_CELLS as int),
                    max_points matches Some(most) ==> walk.seen.len() <= most,
                    walk.seen.len() <= offsets@[IVF_CELLS as int] - offsets@[0],
                    walk.pruned == 0,
                    before_details == *old(details),
                    has_room(before_details, offsets@[IVF_CELLS as int] - offsets@[0]),
                    recorded(before_details, *details, walk.stops),
                    scan.points_scanned == walk.seen.len(),
                    scan.sectors_scanned == walk.sectors,
                    scan.sectors_pruned_by_bound == 0,
                    scan.sectors_scanned <= i,
                    sector_open ==> whole == sweep.walk_cells(
                        sector_plan@,
                        sub_plan@,
                        i as int,
                        j as int,
                        sector_touched,
                        walk,
                    ),
                    !sector_open ==> whole == sweep.walk_cells(
                        sector_plan@,
                        sub_plan@,
                        i + 1,
                        0,
                        false,
                        Walk { sectors: walk.sectors + if sector_touched { 1int } else { 0 }, ..walk },
                    ),
                    forall|n: int|
                        0 <= n < walk.visited.len() ==> cell_before(
                            sector_plan@,
                            sub_plan@,
                            #[trigger] walk.visited[n],
                            i as int,
                            j as int,
                        ),
                decreases IVF_SUBCELLS - j, (if sector_open { 1int } else { 0 }),
            {
                let (sub_lower_bound, subcell) = sub_plan[j];
                let remaining: Option<usize> = remaining_points(max_points, scan.points_scanned);
                if remaining == Some(0) {
                    return scan;
                }
                let lower_bound: i64 = bucket_lower_bound + sector_lower_bound + sub_lower_bound;
                if neighbors.is_full() && lower_bound >= neighbors.worst() {
                    if j == 0 {
                        scan.sectors_pruned_by_bound = (SECTORS - i) as u32;
                        return scan;
                    }
                    sector_open = false;
                } else {
                    let cell: usize = sector * IVF_SUBCELLS + subcell;
                    let start: usize = offsets[cell] as usize;
                    let end: usize = offsets[cell + 1] as usize;
                    let ghost before = walk;
                    if start != end {
                        proof {
                            lemma_new_cell(sector_plan@, sub_plan@, walk.visited, i as int, j as int);
                            sweep.lemma_visit(walk, cell as int, IVF_CELLS as int);
                        }
                        let scan_end: usize = scan_stop(start, end, remaining);
                        let ghost middle = *details;
                        let ghost stops = cuts(
                            walk.near,
                            scan_query@,
                            self@.points.subrange(start as int, scan_end as int),
                        );
                        proof {
                            lemma_room_left(
                                before_details,
                                middle,
                                walk.stops,
                                offsets@[IVF_CELLS as int] - offsets@[0] - walk.stops.len(),
                            );
                        }
                        self.search_range_instrumented(start, scan_end, scan_query, neighbors, details);
                        proof {
                            lemma_counted_concat(before_details, middle, *details, walk.stops, stops);
                        }
                        scan.points_scanned = scan.points_scanned + (scan_end - start);
                        sector_touched = true;
                        proof {
                            walk = sweep.visit(before, cell as int);
                        }
                        if scan_end < end {
                            return scan;
                        }
                    }
                    proof {
                        lemma_cells_before(
                            sector_plan@,
                            sub_plan@,
                            before.visited,
                            walk.visited,
                            i as int,
                            j as int,
                        );
                    }
                    j = j + 1;
                }
            }
            proof {
                walk = Walk { sectors: walk.sectors + if sector_touched { 1int } else { 0 }, ..walk };
                lemma_sector_before(sector_plan@, sub_plan@, walk.visited, i as int, j as int);
            }
            if sector_touched {
                scan.sectors_scanned = scan.sectors_scanned + 1;
            }
            i = i + 1;
        }
        scan
    }
}

/// A cell that stands before entry `j` of sector entry `i` in the order of two plans.
spec fn cell_before(
    sectors: Seq<(i64, usize)>,
    subcells: Seq<(i64, usize)>,
    cell: int,
    i: int,
    j: int,
) -> bool {
    exists|a: int, b: int|
        0 <= a < sectors.len() && 0 <= b < subcells.len() && (a < i || a == i && b < j)
            && #[trigger] Sweep::cell(sectors, subcells, a, b) == cell
}

/// The next cell of two plans is not among those before it.
proof fn lemma_new_cell(
    sectors: Seq<(i64, usize)>,
    subcells: Seq<(i64, usize)>,
    visited: Seq<int>,
    i: int,
    j: int,
)
    requires
        0 <= i < sectors.len(),
        0 <= j < subcells.len(),
        plan_distinct(sectors),
        plan_distinct(subcells),
        plan_fits(subcells, IVF_SUBCELLS as int),
        forall|n: int|
            0 <= n < visited.len() ==> cell_before(sectors, subcells, #[trigger] visited[n], i, j),
    ensures
        !visited.contains(Sweep::cell(sectors, subcells, i, j)),
{
    let cell = Sweep::cell(sectors, subcells, i, j);
    if visited.contains(cell) {
        let n = choose|n: int| 0 <= n < visited.len() && visited[n] == cell;
        assert(cell_before(sectors, subcells, visited[n], i, j));
        let (a, b) = choose|a: int, b: int|
            0 <= a < sectors.len() && 0 <= b < subcells.len() && (a < i || a == i && b < j)
                && #[trigger] Sweep::cell(sectors, subcells, a, b) == cell;
        assert(subcells[b].1 < IVF_SUBCELLS);
        assert(subcells[j].1 < IVF_SUBCELLS);
        assert(sectors[a].1 == sectors[i].1);
        assert(subcells[b].1 == subcells[j].1);
    }
}

/// Looking at the next cell, or at none, keeps the cells in the order of the plans.
proof fn lemma_cells_before(
    sectors: Seq<(i64, usize)>,
    subcells: Seq<(i64, usize)>,
    before: Seq<int>,
    after: Seq<int>,
    i: int,
    j: int,
)
    requires
        0 <= i < sectors.len(),
        0 <= j < subcells.len(),
        after == before || after == before.push(Sweep::cell(sectors, subcells, i, j)),
        forall|n: int|
            0 <= n < before.len() ==> cell_before(sectors, subcells, #[trigger] before[n], i, j),
    ensures
        forall|n: int|
            0 <= n < after.len() ==> cell_before(sectors, subcells, #[trigger] after[n], i, j + 1),
{
    assert forall|n: int| 0 <= n < after.len() implies cell_before(
        sectors,
        subcells,
        #[trigger] after[n],
        i,
        j + 1,
    ) by {
        if n < before.len() {
            assert(cell_before(sectors, subcells, before[n], i, j));
            let (a, b) = choose|a: int, b: int|
                0 <= a < sectors.len() && 0 <= b < subcells.len() && (a < i || a == i && b < j)
                    && #[trigger] Sweep::cell(sectors, subcells, a, b) == before[n];
            assert(Sweep::cell(sectors, subcells, a, b) == after[n]);
        } else {
            assert(Sweep::cell(sectors, subcells, i, j) == after[n]);
        }
    }
}

/// The cells of a sector stand before the next sector.
proof fn lemma_sector_before(
    sectors: Seq<(i64, usize)>,
    subcells: Seq<(i64, usize)>,
    visited: Seq<int>,
    i: int,
    j: int,
)
    requires
        forall|n: int|
            0 <= n < visited.len() ==> cell_before(sectors, subcells, #[trigger] visited[n], i, j),
    ensures
        forall|n: int|
            0 <= n < visited.len() ==> cell_before(sectors, subcells, #[trigger] visited[n], i + 1, 0),
{
    assert forall|n: int| 0 <= n < visited.len() implies cell_before(
        sectors,
        subcells,
        #[trigger] visited[n],
        i + 1,
        0,
    ) by {
        assert(cell_before(sectors, subcells, visited[n], i, j));
        let (a, b) = choose|a: int, b: int|
            0 <= a < sectors.len() && 0 <= b < subcells.len() && (a < i || a == i && b < j)
                && #[trigger] Sweep::cell(sectors, subcells, a, b) == visited[n];
        assert(Sweep::cell(sectors, subcells, a, b) == visited[n]);
    }
}

/// How many of the marks are set.
spec fn touched_count(touched: Seq<bool>) -> int
    decreases touched.len(),
{
    if touched.len() == 0 {
        0
    } else {
        touched_count(touched.drop_last()) + if touched.last() { 1int } else { 0 }
    }
}

proof fn lemma_touched_bound(touched: Seq<bool>)
    ensures
        0 <= touched_count(touched) <= touched.len(),
    decreases touched.len(),
{
    if touched.len() > 0 {
        lemma_touched_bound(touched.drop_last());
    }
}

proof fn lemma_none_touched(touched: Seq<bool>)
    requires
        forall|i: int| 0 <= i < touched.len() ==> !#[trigger] touched[i],
    ensures
        touched_count(touched) == 0,
    decreases touched.len(),
{
    if touched.len() > 0 {
        assert(!touched[touched.len() - 1]);
        lemma_none_touched(touched.drop_last());
    }
}

proof fn lemma_touch(touched: Seq<bool>, at: int)
    requires
        0 <= at < touched.len(),
        !touched[at],
    ensures
        touched_count(touched.update(at, true)) == touched_count(touched) + 1,
    decreases touched.len(),
{
    let after = touched.update(at, true);
    if at == touched.len() - 1 {
        assert(after.drop_last() =~= touched.drop_last());
    } else {
        lemma_touch(touched.drop_last(), at);
        assert(after.drop_last() =~= touched.drop_last().update(at, true));
    }
}

} // verus!
