//! The five nearest points seen so far.
use vstd::prelude::*;

use crate::index::geometry::distance;
use crate::index::Point;

verus! {

/// A neighbour: its squared distance to the query and its label.
pub type Neighbor = (int, u8);

/// Number of neighbours that vote.
pub const NEIGHBORS: usize = 5;

/// The distance of a slot that no point has taken yet.
pub open spec fn vacant() -> int {
    i64::MAX as int
}

/// No neighbour yet: five vacant slots.
pub open spec fn no_neighbors() -> Seq<Neighbor> {
    Seq::new(5, |i: int| (vacant(), 0u8))
}

/// The distance of the farthest slot.
pub open spec fn worst_of(near: Seq<Neighbor>) -> int {
    near[0].0
}

/// Whether five points have been taken.
pub open spec fn full(near: Seq<Neighbor>) -> bool {
    worst_of(near) != vacant()
}

/// The slots are ordered from the farthest to the nearest.
pub open spec fn descending(near: Seq<Neighbor>) -> bool {
    forall|i: int, j: int| 0 <= i <= j < near.len() ==> near[i].0 >= near[j].0
}

/// Five slots, the farthest first.
pub open spec fn ranked(near: Seq<Neighbor>) -> bool {
    near.len() == 5 && descending(near)
}

/// Puts a neighbour in its place: behind everything farther, before everything as near.
pub open spec fn place(near: Seq<Neighbor>, new: Neighbor) -> Seq<Neighbor>
    decreases near.len(),
{
    if near.len() == 0 {
        seq![new]
    } else if new.0 < near[0].0 {
        seq![near[0]] + place(near.drop_first(), new)
    } else {
        seq![new] + near
    }
}

/// Takes a neighbour that is nearer than the farthest slot, which it replaces.
pub open spec fn offer(near: Seq<Neighbor>, new: Neighbor) -> Seq<Neighbor> {
    if new.0 < worst_of(near) {
        place(near.drop_first(), new)
    } else {
        near
    }
}

/// Offers neighbours one after the other.
pub open spec fn absorb(near: Seq<Neighbor>, items: Seq<Neighbor>) -> Seq<Neighbor>
    decreases items.len(),
{
    if items.len() == 0 {
        near
    } else {
        offer(absorb(near, items.drop_last()), items.last())
    }
}

/// A point as a neighbour of a query.
pub open spec fn as_neighbor(query: Seq<i16>, point: Point) -> Neighbor {
    (distance(query, point.values@), point.label)
}

/// Points as neighbours of a query.
pub open spec fn as_neighbors(query: Seq<i16>, points: Seq<Point>) -> Seq<Neighbor> {
    Seq::new(points.len(), |i: int| as_neighbor(query, points[i]))
}

/// The neighbours after looking at points one after the other.
pub open spec fn scan(near: Seq<Neighbor>, query: Seq<i16>, points: Seq<Point>) -> Seq<Neighbor> {
    absorb(near, as_neighbors(query, points))
}

/// Sum of the labels of the neighbours.
pub open spec fn label_sum(near: Seq<Neighbor>) -> int
    decreases near.len(),
{
    if near.len() == 0 {
        0
    } else {
        label_sum(near.drop_last()) + near.last().1
    }
}

/// The vote of the neighbours: the sum of their labels, as a byte.
pub open spec fn vote(near: Seq<Neighbor>) -> int {
    label_sum(near) % 256
}

/// Placing a neighbour keeps the order, adds one slot and no other distance.
pub proof fn lemma_place(near: Seq<Neighbor>, new: Neighbor)
    requires
        descending(near),
    ensures
        descending(place(near, new)),
        place(near, new).len() == near.len() + 1,
        forall|i: int|
            0 <= i < place(near, new).len() ==> (#[trigger] place(near, new)[i] == new || exists|j: int|
                0 <= j < near.len() && near[j] == place(near, new)[i]),
    decreases near.len(),
{
    let all = place(near, new);
    if near.len() == 0 {
    } else if new.0 < near[0].0 {
        let rest = near.drop_first();
        lemma_place(rest, new);
        let tail = place(rest, new);
        assert forall|i: int| 0 <= i < all.len() implies (#[trigger] all[i] == new || exists|j: int|
            0 <= j < near.len() && near[j] == all[i]) by {
            if i == 0 {
                assert(near[0] == all[0]);
            } else if tail[i - 1] != new {
                let j = choose|j: int| 0 <= j < rest.len() && rest[j] == tail[i - 1];
                assert(near[j + 1] == all[i]);
            }
        }
        assert forall|i: int, j: int| 0 <= i <= j < all.len() implies all[i].0 >= all[j].0 by {
            if i == 0 && j > 0 {
                assert(all[j] == tail[j - 1]);
                if tail[j - 1] != new {
                    let m = choose|m: int| 0 <= m < rest.len() && rest[m] == tail[j - 1];
                    assert(near[m + 1] == all[j]);
                }
            } else if i > 0 {
                assert(tail[i - 1].0 >= tail[j - 1].0);
            }
        }
    } else {
        assert forall|i: int| 0 <= i < all.len() implies (#[trigger] all[i] == new || exists|j: int|
            0 <= j < near.len() && near[j] == all[i]) by {
            if i > 0 {
                assert(near[i - 1] == all[i]);
            }
        }
    }
}

/// Offering a neighbour keeps five ranked slots and never raises the farthest distance.
pub proof fn lemma_offer(near: Seq<Neighbor>, new: Neighbor)
    requires
        ranked(near),
    ensures
        ranked(offer(near, new)),
        worst_of(offer(near, new)) <= worst_of(near),
{
    if new.0 < worst_of(near) {
        let rest = near.drop_first();
        lemma_place(rest, new);
        let all = place(rest, new);
        assert(all[0] == all[0]);
        if all[0] != new {
            let j = choose|j: int| 0 <= j < rest.len() && rest[j] == all[0];
            assert(near[j + 1] == all[0]);
        }
    }
}

/// Offering neighbours keeps five ranked slots and never raises the farthest distance.
pub proof fn lemma_absorb(near: Seq<Neighbor>, items: Seq<Neighbor>)
    requires
        ranked(near),
    ensures
        ranked(absorb(near, items)),
        worst_of(absorb(near, items)) <= worst_of(near),
    decreases items.len(),
{
    if items.len() > 0 {
        lemma_absorb(near, items.drop_last());
        lemma_offer(absorb(near, items.drop_last()), items.last());
    }
}

/// Offering two runs of neighbours is offering their concatenation.
pub proof fn lemma_absorb_concat(near: Seq<Neighbor>, first: Seq<Neighbor>, second: Seq<Neighbor>)
    ensures
        absorb(near, first + second) == absorb(absorb(near, first), second),
    decreases second.len(),
{
    if second.len() == 0 {
        assert(first + second =~= first);
    } else {
        lemma_absorb_concat(near, first, second.drop_last());
        assert((first + second).drop_last() =~= first + second.drop_last());
    }
}

/// Looking at two runs of points is looking at their concatenation.
pub proof fn lemma_scan_concat(
    near: Seq<Neighbor>,
    query: Seq<i16>,
    first: Seq<Point>,
    second: Seq<Point>,
)
    ensures
        scan(near, query, first + second) == scan(scan(near, query, first), query, second),
{
    lemma_absorb_concat(near, as_neighbors(query, first), as_neighbors(query, second));
    assert(as_neighbors(query, first + second) =~= as_neighbors(query, first) + as_neighbors(
        query,
        second,
    ));
}

/// Looking at one more point offers that point.
pub proof fn lemma_scan_push(near: Seq<Neighbor>, query: Seq<i16>, points: Seq<Point>, point: Point)
    ensures
        scan(near, query, points.push(point)) == offer(
            scan(near, query, points),
            as_neighbor(query, point),
        ),
{
    let items = as_neighbors(query, points.push(point));
    assert(items.drop_last() =~= as_neighbors(query, points));
}

/// Looking at points keeps five ranked slots and never raises the farthest distance.
pub proof fn lemma_scan(near: Seq<Neighbor>, query: Seq<i16>, points: Seq<Point>)
    requires
        ranked(near),
    ensures
        ranked(scan(near, query, points)),
        worst_of(scan(near, query, points)) <= worst_of(near),
{
    lemma_absorb(near, as_neighbors(query, points));
}

/// The outcome of a search: how many of the five nearest points are fraudulent.
#[derive(Clone, Copy)]
pub struct SearchResult {
    pub fraud_count: u8,
}

impl SearchResult {
    /// A transaction is approved when fewer than three neighbours are fraudulent.
    pub fn approved(self) -> (approved: bool)
        ensures
            approved == (self.fraud_count < 3),
    {
        self.fraud_count < 3
    }

    /// The share of fraudulent neighbours as text.
    pub fn score_text(self) -> (text: &'static str)
        requires
            self.fraud_count <= 5,
        ensures
            text@ == score_digits(self.fraud_count as int),
    {
        match self.fraud_count {
            0 => "0.0",
            1 => "0.2",
            2 => "0.4",
            3 => "0.6",
            4 => "0.8",
            _ => "1.0",
        }
    }
}

/// The share of fraudulent neighbours, out of five, with one decimal.
pub open spec fn score_digits(fraud_count: int) -> Seq<char> {
    if fraud_count == 0 {
        "0.0"@
    } else if fraud_count == 1 {
        "0.2"@
    } else if fraud_count == 2 {
        "0.4"@
    } else if fraud_count == 3 {
        "0.6"@
    } else if fraud_count == 4 {
        "0.8"@
    } else {
        "1.0"@
    }
}

/// The five nearest points seen so far, the farthest first.
pub struct NeighborSet {
    pub best_dist: [i64; 5],
    pub best_label: [u8; 5],
}

impl View for NeighborSet {
    type V = Seq<Neighbor>;

    open spec fn view(&self) -> Seq<Neighbor> {
        Seq::new(5, |i: int| (self.best_dist@[i] as int, self.best_label@[i]))
    }
}

/// Replaces the farthest neighbour by a new one and restores the order.
pub fn insert_neighbor(best_dist: &mut [i64; 5], best_label: &mut [u8; 5], dist: i64, label: u8)
    ensures
        Seq::new(5, |i: int| (final(best_dist)@[i] as int, final(best_label)@[i])) == place(
            Seq::new(5, |i: int| (old(best_dist)@[i] as int, old(best_label)@[i])).drop_first(),
            (dist as int, label),
        ),
{
    let ghost before = Seq::new(5, |i: int| (best_dist@[i] as int, best_label@[i])).drop_first();
    best_dist[0] = dist;
    best_label[0] = label;
    let mut i: usize = 0;
    let ghost now = Seq::new(5, |k: int| (best_dist@[k] as int, best_label@[k]));
    assert(before.subrange(0, 4) =~= before);
    assert(now =~= before.subrange(0, 0) + seq![(dist as int, label)] + before.subrange(0, 4));
    assert(place(before, (dist as int, label)) =~= before.subrange(0, 0) + place(
        before.subrange(0, 4),
        (dist as int, label),
    ));
    while i + 1 < 5 && best_dist[i] < best_dist[i + 1]
        invariant
            0 <= i < 5,
            before.len() == 4,
            Seq::new(5, |k: int| (best_dist@[k] as int, best_label@[k])) == before.subrange(
                0,
                i as int,
            ) + seq![(dist as int, label)] + before.subrange(i as int, 4),
            place(before, (dist as int, label)) == before.subrange(0, i as int) + place(
                before.subrange(i as int, 4),
                (dist as int, label),
            ),
        decreases 5 - i,
    {
        let ghost view = Seq::new(5, |k: int| (best_dist@[k] as int, best_label@[k]));
        assert(view[i as int] == (best_dist@[i as int] as int, best_label@[i as int]));
        assert(view[i + 1] == (best_dist@[i + 1] as int, best_label@[i + 1]));
        assert(view[i + 1] == before[i as int]);
        let nearer: i64 = best_dist[i];
        let farther: i64 = best_dist[i + 1];
        best_dist[i] = farther;
        best_dist[i + 1] = nearer;
        let first: u8 = best_label[i];
        let second: u8 = best_label[i + 1];
        best_label[i] = second;
        best_label[i + 1] = first;
        proof {
            let rest = before.subrange(i as int, 4);
            assert(rest.drop_first() =~= before.subrange(i + 1, 4));
            let swapped = Seq::new(5, |k: int| (best_dist@[k] as int, best_label@[k]));
            assert(swapped =~= view.update(i as int, view[i + 1]).update(i + 1, view[i as int]));
            assert(swapped =~= before.subrange(0, i + 1) + seq![(dist as int, label)]
                + before.subrange(i + 1, 4));
            assert(before.subrange(0, i as int) + (seq![rest[0]] + place(
                rest.drop_first(),
                (dist as int, label),
            )) =~= before.subrange(0, i + 1) + place(rest.drop_first(), (dist as int, label)));
        }
        i = i + 1;
    }
    proof {
        let view = Seq::new(5, |k: int| (best_dist@[k] as int, best_label@[k]));
        assert(view[i as int] == (best_dist@[i as int] as int, best_label@[i as int]));
        let rest = before.subrange(i as int, 4);
        if i + 1 < 5 {
            assert(view[i + 1] == (best_dist@[i + 1] as int, best_label@[i + 1]));
            assert(rest[0] == view[i + 1]);
        } else {
            assert(rest.len() == 0);
        }
        assert(place(rest, (dist as int, label)) =~= seq![(dist as int, label)] + rest);
        assert(view =~= before.subrange(0, i as int) + (seq![(dist as int, label)] + rest));
    }
}

impl NeighborSet {
    /// Replaces the farthest neighbour.
    pub fn insert(&mut self, dist: i64, label: u8)
        ensures
            final(self)@ == place(old(self)@.drop_first(), (dist as int, label)),
    {
        insert_neighbor(&mut self.best_dist, &mut self.best_label, dist, label);
    }

    /// Whether five points have been taken.
    pub fn is_full(&self) -> (is: bool)
        ensures
            is == full(self@),
    {
        self.best_dist[0] != i64::MAX
    }

    /// The distance of the farthest neighbour.
    pub fn worst(&self) -> (dist: i64)
        ensures
            dist == worst_of(self@),
    {
        self.best_dist[0]
    }

    /// The vote of the neighbours.
    pub fn result(&self) -> (result: SearchResult)
        ensures
            result.fraud_count == vote(self@),
    {
        let mut sum: u8 = 0;
        let mut i: usize = 0;
        while i < 5
            invariant
                i <= 5,
                sum == label_sum(self@.take(i as int)) % 256,
            decreases 5 - i,
        {
            proof {
                let next = self@.take(i + 1);
                assert(next.drop_last() =~= self@.take(i as int));
            }
            sum = sum.wrapping_add(self.best_label[i]);
            i = i + 1;
        }
        assert(self@.take(5) =~= self@);
        SearchResult { fraud_count: sum }
    }
}

impl Default for NeighborSet {
    fn default() -> (set: Self)
        ensures
            set@ == no_neighbors(),
    {
        let set = NeighborSet { best_dist: [i64::MAX; 5], best_label: [0u8; 5] };
        assert(set@ =~= no_neighbors());
        set
    }
}

} // verus!
