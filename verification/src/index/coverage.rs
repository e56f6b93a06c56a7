//! A walk over a bucket leaves out only points that cannot be among the nearest.
use vstd::prelude::*;

use crate::index::geometry::distance;
use crate::index::nearest::pick;
use crate::index::neighbors::{lemma_scan, lemma_scan_concat, ranked, scan, worst_of, Neighbor};
use crate::index::plan::{ascending, plan_distinct, plan_fits};
use crate::index::walk::{parts_within, positions, Sweep, Walk};
use crate::index::{Point, IVF_CELLS, IVF_SUBCELLS, SECTORS};

verus! {

/// The neighbours after looking at the points at the given positions, each once and all within a
/// range.
pub open spec fn looked_at(
    points: Seq<Point>,
    query: Seq<i16>,
    before: Seq<Neighbor>,
    near: Seq<Neighbor>,
    seen: Seq<int>,
    low: int,
    high: int,
) -> bool {
    &&& ranked(near)
    &&& near == scan(before, query, pick(points, seen))
    &&& seen.no_duplicates()
    &&& forall|k: int| 0 <= k < seen.len() ==> low <= #[trigger] seen[k] < high
}

/// A point was looked at or is not nearer than the farthest neighbour, give or take a slack.
pub open spec fn settled(
    points: Seq<Point>,
    query: Seq<i16>,
    near: Seq<Neighbor>,
    seen: Seq<int>,
    i: int,
    slack: int,
) -> bool {
    seen.contains(i) || distance(query, points[i].values@) + slack >= worst_of(near)
}

/// Looking at a range that was not looked at.
pub proof fn lemma_look(
    sweep: Sweep,
    walk: Walk,
    before: Seq<Neighbor>,
    low: int,
    high: int,
    start: int,
    end: int,
)
    requires
        looked_at(sweep.points, sweep.query, before, walk.near, walk.seen, low, high),
        0 <= low <= start <= end <= high <= sweep.points.len(),
        forall|x: int| #[trigger] walk.seen.contains(x) ==> !(start <= x < end),
    ensures
        ({
            let next = sweep.look(walk, start, end);
            &&& looked_at(sweep.points, sweep.query, before, next.near, next.seen, low, high)
            &&& worst_of(next.near) <= worst_of(walk.near)
            &&& forall|x: int| #[trigger]
                next.seen.contains(x) <==> walk.seen.contains(x) || start <= x < end
        }),
{
    let next = sweep.look(walk, start, end);
    let range = positions(start, end);
    let part = sweep.points.subrange(start, end);
    assert(pick(sweep.points, next.seen) =~= pick(sweep.points, walk.seen) + part);
    lemma_scan_concat(before, sweep.query, pick(sweep.points, walk.seen), part);
    lemma_scan(walk.near, sweep.query, part);
    assert forall|x: int| #[trigger]
        next.seen.contains(x) <==> walk.seen.contains(x) || start <= x < end by {
        if walk.seen.contains(x) {
            let k = choose|k: int| 0 <= k < walk.seen.len() && walk.seen[k] == x;
            assert(next.seen[k] == x);
        }
        if start <= x < end {
            assert(next.seen[walk.seen.len() + (x - start)] == x);
        }
        if next.seen.contains(x) {
            let k = choose|k: int| 0 <= k < next.seen.len() && next.seen[k] == x;
            if k < walk.seen.len() {
                assert(walk.seen[k] == x);
            }
        }
    }
    assert(next.seen.no_duplicates()) by {
        assert forall|a: int, b: int| 0 <= a < next.seen.len() && 0 <= b < next.seen.len() && a != b implies next.seen[a]
            != next.seen[b] by {
            if a < walk.seen.len() {
                assert(walk.seen.contains(walk.seen[a]));
            }
            if b < walk.seen.len() {
                assert(walk.seen.contains(walk.seen[b]));
            }
        }
    }
    assert forall|k: int| 0 <= k < next.seen.len() implies low <= #[trigger] next.seen[k] < high by {
        if k < walk.seen.len() {
            assert(next.seen[k] == walk.seen[k]);
        }
    }
}

impl Sweep {
    /// A position lies in a part.
    pub open spec fn part_has(self, part: int, i: int) -> bool {
        self.offsets[part] <= i < self.offsets[part + 1]
    }

    /// A bound on top of the bucket's own holds for every point of a part, give or take a slack.
    pub open spec fn bound_holds(self, part: int, bound: int, slack: int) -> bool {
        forall|i: int| #[trigger]
            self.part_has(part, i) ==> self.bound + bound <= distance(
                self.query,
                self.points[i].values@,
            ) + slack
    }

    /// The walk has looked at points of the bucket, each once.
    pub open spec fn honest(self, before: Seq<Neighbor>, walk: Walk, parts: int) -> bool {
        looked_at(
            self.points,
            self.query,
            before,
            walk.near,
            walk.seen,
            self.offsets[0] as int,
            self.offsets[parts] as int,
        )
    }

    /// No point of a part was looked at.
    pub open spec fn untouched(self, walk: Walk, part: int) -> bool {
        forall|x: int| #[trigger] walk.seen.contains(x) ==> !self.part_has(part, x)
    }

    /// Every point of a part is settled, give or take a slack.
    pub open spec fn part_settled(self, walk: Walk, part: int, slack: int) -> bool {
        forall|i: int| #[trigger]
            self.part_has(part, i) ==> settled(
                self.points,
                self.query,
                walk.near,
                walk.seen,
                i,
                slack,
            )
    }

    /// Different parts have no point in common.
    proof fn lemma_disjoint(self, a: int, b: int, parts: int)
        requires
            parts_within(self.offsets, parts, self.points.len() as int),
            0 <= a < parts,
            0 <= b < parts,
            a != b,
        ensures
            forall|i: int| !(#[trigger] self.part_has(a, i) && self.part_has(b, i)),
    {
        if a < b {
            assert(self.offsets[a + 1] <= self.offsets[b]);
        } else {
            assert(self.offsets[b + 1] <= self.offsets[a]);
        }
    }

    /// Looking at a whole part settles it and leaves the other parts untouched.
    proof fn lemma_visit_whole(
        self,
        before: Seq<Neighbor>,
        walk: Walk,
        part: int,
        parts: int,
        slack: int,
    )
        requires
            self.cap is None,
            parts_within(self.offsets, parts, self.points.len() as int),
            self.honest(before, walk, parts),
            0 <= part < parts,
            self.untouched(walk, part),
        ensures
            self.honest(before, self.visit(walk, part), parts),
            worst_of(self.visit(walk, part).near) <= worst_of(walk.near),
            self.part_settled(self.visit(walk, part), part, slack),
            forall|x: int| #[trigger]
                self.visit(walk, part).seen.contains(x) <==> walk.seen.contains(x) || self.part_has(
                    part,
                    x,
                ),
            !self.cut_short(walk, part),
    {
        let start = self.offsets[part] as int;
        let end = self.offsets[part + 1] as int;
        assert(self.offsets[0] <= self.offsets[part]);
        assert(self.offsets[part] <= self.offsets[part + 1]);
        assert(self.offsets[part + 1] <= self.offsets[parts]);
        assert(self.stop(walk, part) == end);
        assert forall|x: int| #[trigger] walk.seen.contains(x) implies !(start <= x < end) by {
            assert(!self.part_has(part, x));
        }
        lemma_look(
            self,
            walk,
            before,
            self.offsets[0] as int,
            self.offsets[parts] as int,
            start,
            end,
        );
        let next = self.visit(walk, part);
        assert(next.seen == self.look(walk, start, end).seen);
        assert forall|i: int| #[trigger] self.part_has(part, i) implies settled(
            self.points,
            self.query,
            next.near,
            next.seen,
            i,
            slack,
        ) by {
            assert(next.seen.contains(i));
        }
    }

    /// A walk without a cap over an ordered plan settles every part of the rest of the plan and keeps
    /// what was settled.
    pub proof fn lemma_walk_parts(
        self,
        plan: Seq<(i64, usize)>,
        k: int,
        walk: Walk,
        before: Seq<Neighbor>,
        parts: int,
        slack: int,
    )
        requires
            self.cap is None,
            parts_within(self.offsets, parts, self.points.len() as int),
            plan_fits(plan, parts),
            plan_distinct(plan),
            ascending(plan),
            0 <= k <= plan.len(),
            self.honest(before, walk, parts),
            forall|j: int| k <= j < plan.len() ==> self.untouched(walk, (#[trigger] plan[j]).1 as int),
            forall|j: int|
                k <= j < plan.len() ==> self.bound_holds(
                    (#[trigger] plan[j]).1 as int,
                    plan[j].0 as int,
                    slack,
                ),
        ensures
            ({
                let end = self.walk_parts(plan, k, walk);
                &&& self.honest(before, end, parts)
                &&& worst_of(end.near) <= worst_of(walk.near)
                &&& forall|x: int| walk.seen.contains(x) ==> #[trigger] end.seen.contains(x)
                &&& forall|j: int|
                    k <= j < plan.len() ==> self.part_settled(
                        end,
                        (#[trigger] plan[j]).1 as int,
                        slack,
                    )
            }),
        decreases plan.len() - k,
    {
        let end = self.walk_parts(plan, k, walk);
        if k >= plan.len() {
        } else {
            let part = plan[k].1 as int;
            if self.hopeless(walk, plan[k].0 as int) {
                assert forall|j: int| k <= j < plan.len() implies self.part_settled(
                    end,
                    (#[trigger] plan[j]).1 as int,
                    slack,
                ) by {
                    assert(self.bound_holds(plan[j].1 as int, plan[j].0 as int, slack));
                    assert(plan[k].0 <= plan[j].0);
                }
            } else if self.empty_part(part) {
                self.lemma_walk_parts(plan, k + 1, walk, before, parts, slack);
                assert forall|j: int| k <= j < plan.len() implies self.part_settled(
                    end,
                    (#[trigger] plan[j]).1 as int,
                    slack,
                ) by {}
            } else {
                assert(self.untouched(walk, plan[k].1 as int));
                self.lemma_visit_whole(before, walk, part, parts, slack);
                let next = self.visit(walk, part);
                assert forall|j: int| k + 1 <= j < plan.len() implies self.untouched(
                    next,
                    (#[trigger] plan[j]).1 as int,
                ) by {
                    assert(plan[j].1 != plan[k].1);
                    self.lemma_disjoint(part, plan[j].1 as int, parts);
                    assert(self.untouched(walk, plan[j].1 as int));
                    assert forall|x: int| #[trigger] next.seen.contains(x) implies !self.part_has(
                        plan[j].1 as int,
                        x,
                    ) by {
                        assert(walk.seen.contains(x) || self.part_has(part, x));
                    }
                }
                self.lemma_walk_parts(plan, k + 1, next, before, parts, slack);
                assert forall|x: int| walk.seen.contains(x) implies #[trigger] end.seen.contains(x) by {
                    assert(next.seen.contains(x));
                }
                assert forall|j: int| k <= j < plan.len() implies self.part_settled(
                    end,
                    (#[trigger] plan[j]).1 as int,
                    slack,
                ) by {
                    if j == k {
                        self.lemma_keep_settled(next, end, part, slack);
                    }
                }
            }
        }
    }

    /// A settled part stays settled while more points are looked at.
    proof fn lemma_keep_settled(self, walk: Walk, later: Walk, part: int, slack: int)
        requires
            self.part_settled(walk, part, slack),
            worst_of(later.near) <= worst_of(walk.near),
            forall|x: int| walk.seen.contains(x) ==> #[trigger] later.seen.contains(x),
        ensures
            self.part_settled(later, part, slack),
    {
        assert forall|i: int| #[trigger] self.part_has(part, i) implies settled(
            self.points,
            self.query,
            later.near,
            later.seen,
            i,
            slack,
        ) by {
            assert(settled(self.points, self.query, walk.near, walk.seen, i, slack));
        }
    }

    /// The cell of two plan entries is a cell, and different entries have different cells.
    proof fn lemma_cell_of(
        self,
        sectors: Seq<(i64, usize)>,
        subcells: Seq<(i64, usize)>,
        i: int,
        j: int,
        a: int,
        b: int,
    )
        requires
            plan_fits(sectors, SECTORS as int),
            plan_distinct(sectors),
            plan_fits(subcells, IVF_SUBCELLS as int),
            plan_distinct(subcells),
            0 <= i < sectors.len(),
            0 <= a < sectors.len(),
            0 <= j < subcells.len(),
            0 <= b < subcells.len(),
        ensures
            0 <= Sweep::cell(sectors, subcells, i, j) < IVF_CELLS,
            (i != a || j != b) ==> Sweep::cell(sectors, subcells, i, j) != Sweep::cell(
                sectors,
                subcells,
                a,
                b,
            ),
    {
        assert(sectors[i].1 < SECTORS && subcells[j].1 < IVF_SUBCELLS);
        assert(sectors[a].1 < SECTORS && subcells[b].1 < IVF_SUBCELLS);
        if i != a {
            assert(sectors[i].1 != sectors[a].1);
        }
        if j != b {
            assert(subcells[j].1 != subcells[b].1);
        }
    }

    /// A walk without a cap over two ordered plans settles every cell of the rest and keeps what was
    /// settled.
    pub proof fn lemma_walk_cells(
        self,
        sectors: Seq<(i64, usize)>,
        subcells: Seq<(i64, usize)>,
        i: int,
        j: int,
        touched: bool,
        walk: Walk,
        before: Seq<Neighbor>,
        slack: int,
    )
        requires
            self.cap is None,
            parts_within(self.offsets, IVF_CELLS as int, self.points.len() as int),
            plan_fits(sectors, SECTORS as int),
            plan_distinct(sectors),
            ascending(sectors),
            plan_fits(subcells, IVF_SUBCELLS as int),
            plan_distinct(subcells),
            ascending(subcells),
            0 <= i <= sectors.len(),
            0 <= j <= subcells.len(),
            self.honest(before, walk, IVF_CELLS as int),
            forall|a: int, b: int|
                0 <= b < subcells.len() && a < sectors.len() && (i < a || i == a && j <= b)
                    ==> self.untouched(walk, #[trigger] Sweep::cell(sectors, subcells, a, b)),
            forall|a: int, b: int|
                0 <= a < sectors.len() && 0 <= b < subcells.len() ==> self.bound_holds(
                    #[trigger] Sweep::cell(sectors, subcells, a, b),
                    sectors[a].0 + subcells[b].0,
                    slack,
                ),
        ensures
            ({
                let end = self.walk_cells(sectors, subcells, i, j, touched, walk);
                &&& self.honest(before, end, IVF_CELLS as int)
                &&& worst_of(end.near) <= worst_of(walk.near)
                &&& forall|x: int| walk.seen.contains(x) ==> #[trigger] end.seen.contains(x)
                &&& forall|a: int, b: int|
                    0 <= b < subcells.len() && a < sectors.len() && (i < a || i == a && j <= b)
                        ==> self.part_settled(
                        end,
                        #[trigger] Sweep::cell(sectors, subcells, a, b),
                        slack,
                    )
            }),
        decreases sectors.len() - i, subcells.len() - j,
    {
        let end = self.walk_cells(sectors, subcells, i, j, touched, walk);
        let left = Walk { sectors: walk.sectors + if touched { 1int } else { 0 }, ..walk };
        if i >= sectors.len() {
        } else if j >= subcells.len() {
            self.lemma_walk_cells(sectors, subcells, i + 1, 0, false, left, before, slack);
        } else if self.hopeless(walk, sectors[i].0 + subcells[j].0) {
            if j == 0 {
                assert forall|a: int, b: int|
                    0 <= b < subcells.len() && a < sectors.len() && (i < a || i == a && j <= b) implies self.part_settled(
                end, #[trigger] Sweep::cell(sectors, subcells, a, b), slack) by {
                    assert(self.bound_holds(
                        Sweep::cell(sectors, subcells, a, b),
                        sectors[a].0 + subcells[b].0,
                        slack,
                    ));
                    assert(sectors[i].0 <= sectors[a].0);
                    assert(subcells[0].0 <= subcells[b].0);
                }
            } else {
                self.lemma_walk_cells(sectors, subcells, i + 1, 0, false, left, before, slack);
                assert forall|a: int, b: int|
                    0 <= b < subcells.len() && a < sectors.len() && (i < a || i == a && j <= b) implies self.part_settled(
                end, #[trigger] Sweep::cell(sectors, subcells, a, b), slack) by {
                    if a == i {
                        assert(self.bound_holds(
                            Sweep::cell(sectors, subcells, a, b),
                            sectors[a].0 + subcells[b].0,
                            slack,
                        ));
                        assert(subcells[j].0 <= subcells[b].0);
                    }
                }
            }
        } else {
            let cell = Sweep::cell(sectors, subcells, i, j);
            self.lemma_cell_of(sectors, subcells, i, j, i, j);
            if self.empty_part(cell) {
                self.lemma_walk_cells(sectors, subcells, i, j + 1, touched, walk, before, slack);
                assert(self.part_settled(end, cell, slack));
            } else {
                assert(self.untouched(walk, cell));
                self.lemma_visit_whole(before, walk, cell, IVF_CELLS as int, slack);
                let next = self.visit(walk, cell);
                assert forall|a: int, b: int|
                    0 <= b < subcells.len() && a < sectors.len() && (i < a || i == a && j + 1 <= b) implies self.untouched(
                next, #[trigger] Sweep::cell(sectors, subcells, a, b)) by {
                    let other = Sweep::cell(sectors, subcells, a, b);
                    self.lemma_cell_of(sectors, subcells, i, j, a, b);
                    self.lemma_cell_of(sectors, subcells, a, b, a, b);
                    self.lemma_disjoint(cell, other, IVF_CELLS as int);
                    assert(self.untouched(walk, other));
                    assert forall|x: int| #[trigger] next.seen.contains(x) implies !self.part_has(
                        other,
                        x,
                    ) by {
                        assert(walk.seen.contains(x) || self.part_has(cell, x));
                    }
                }
                self.lemma_walk_cells(sectors, subcells, i, j + 1, true, next, before, slack);
                assert forall|x: int| walk.seen.contains(x) implies #[trigger] end.seen.contains(x) by {
                    assert(next.seen.contains(x));
                }
                assert forall|a: int, b: int|
                    0 <= b < subcells.len() && a < sectors.len() && (i < a || i == a && j <= b) implies self.part_settled(
                end, #[trigger] Sweep::cell(sectors, subcells, a, b), slack) by {
                    if a == i && b == j {
                        self.lemma_keep_settled(next, end, cell, slack);
                    }
                }
            }
        }
    }

    /// Every position of a bucket lies in one of its parts.
    pub proof fn lemma_part_of(self, parts: int, i: int) -> (part: int)
        requires
            parts_within(self.offsets, parts, self.points.len() as int),
            0 <= parts,
            self.offsets[0] <= i < self.offsets[parts],
        ensures
            0 <= part < parts,
            self.part_has(part, i),
        decreases parts,
    {
        self.lemma_part_below(parts, parts, i)
    }

    proof fn lemma_part_below(self, parts: int, limit: int, i: int) -> (part: int)
        requires
            parts_within(self.offsets, parts, self.points.len() as int),
            0 <= limit <= parts,
            self.offsets[0] <= i < self.offsets[limit],
        ensures
            0 <= part < limit,
            self.part_has(part, i),
        decreases limit,
    {
        if limit == 0 {
            0
        } else if i < self.offsets[limit - 1] {
            self.lemma_part_below(parts, limit - 1, i)
        } else {
            limit - 1
        }
    }
}

} // verus!
