//! Five slots hold the five smallest distances.
use vstd::prelude::*;

use crate::index::geometry::distance;
use crate::index::kernels::all_in_reach;
use crate::index::neighbors::{absorb, as_neighbors, lemma_absorb, no_neighbors, offer, place,
    ranked, scan, vacant, worst_of, Neighbor};
use crate::index::Point;

verus! {

/// How many neighbours are nearer than a distance.
pub open spec fn closer(items: Seq<Neighbor>, dist: int) -> int
    decreases items.len(),
{
    if items.len() == 0 {
        0
    } else {
        closer(items.drop_last(), dist) + if items.last().0 < dist { 1int } else { 0 }
    }
}

/// At most five.
pub open spec fn five_at_most(count: int) -> int {
    if count < 5 { count } else { 5 }
}

/// The distances of neighbours.
pub open spec fn distances(items: Seq<Neighbor>) -> Seq<int> {
    items.map_values(|item: Neighbor| item.0)
}

/// The points at the given positions.
pub open spec fn pick(points: Seq<Point>, positions: Seq<int>) -> Seq<Point> {
    positions.map_values(|i: int| points[i])
}

/// Counting from the front.
proof fn lemma_closer_first(items: Seq<Neighbor>, dist: int)
    requires
        items.len() > 0,
    ensures
        closer(items, dist) == closer(items.drop_first(), dist) + if items[0].0 < dist {
            1int
        } else {
            0
        },
    decreases items.len(),
{
    if items.len() == 1 {
        assert(items.drop_last() =~= Seq::<Neighbor>::empty());
        assert(items.drop_first() =~= Seq::<Neighbor>::empty());
    } else {
        lemma_closer_first(items.drop_last(), dist);
        assert(items.drop_first().drop_last() =~= items.drop_last().drop_first());
        assert(items.drop_first().last() == items.last());
    }
}

/// Placing a neighbour counts it.
proof fn lemma_closer_place(near: Seq<Neighbor>, new: Neighbor, dist: int)
    ensures
        closer(place(near, new), dist) == closer(near, dist) + if new.0 < dist { 1int } else { 0 },
    decreases near.len(),
{
    if near.len() == 0 {
        assert(seq![new].drop_last() =~= Seq::<Neighbor>::empty());
        assert(closer(Seq::<Neighbor>::empty(), dist) == 0);
        assert(near =~= Seq::<Neighbor>::empty());
    } else if new.0 < near[0].0 {
        let rest = near.drop_first();
        lemma_closer_place(rest, new, dist);
        lemma_closer_first(near, dist);
        let all = seq![near[0]] + place(rest, new);
        lemma_closer_first(all, dist);
        assert(all.drop_first() =~= place(rest, new));
    } else {
        let all = seq![new] + near;
        lemma_closer_first(all, dist);
        assert(all.drop_first() =~= near);
    }
}

/// Of ranked slots, exactly the last ones are nearer than a distance.
pub proof fn lemma_closer_ranked(near: Seq<Neighbor>, dist: int)
    requires
        ranked(near),
    ensures
        0 <= closer(near, dist) <= 5,
        forall|i: int| 0 <= i < 5 ==> (#[trigger] near[i].0 < dist <==> closer(near, dist) >= 5 - i),
{
    let n5 = near;
    let n4 = n5.drop_first();
    let n3 = n4.drop_first();
    let n2 = n3.drop_first();
    let n1 = n2.drop_first();
    lemma_closer_first(n5, dist);
    lemma_closer_first(n4, dist);
    lemma_closer_first(n3, dist);
    lemma_closer_first(n2, dist);
    lemma_closer_first(n1, dist);
    assert(n1.drop_first() =~= Seq::<Neighbor>::empty());
    assert(n4[0] == near[1] && n3[0] == near[2] && n2[0] == near[3] && n1[0] == near[4]);
    assert(near[0].0 >= near[1].0 >= near[2].0);
    assert(near[2].0 >= near[3].0 >= near[4].0);
}

/// Ranked slots with equal counts have equal distances.
pub proof fn lemma_equal_counts(left: Seq<Neighbor>, right: Seq<Neighbor>)
    requires
        ranked(left),
        ranked(right),
        forall|i: int| 0 <= i < 5 ==> #[trigger] left[i].0 <= vacant(),
        forall|i: int| 0 <= i < 5 ==> #[trigger] right[i].0 <= vacant(),
        forall|dist: int| dist <= vacant() ==> #[trigger] closer(left, dist) == closer(right, dist),
    ensures
        distances(left) == distances(right),
{
    assert forall|i: int| 0 <= i < 5 implies left[i].0 == right[i].0 by {
        lemma_closer_ranked(left, left[i].0);
        lemma_closer_ranked(right, left[i].0);
        lemma_closer_ranked(left, right[i].0);
        lemma_closer_ranked(right, right[i].0);
        assert(closer(left, left[i].0) == closer(right, left[i].0));
        assert(closer(left, right[i].0) == closer(right, right[i].0));
        assert(!(left[i].0 < left[i].0));
        assert(!(right[i].0 < right[i].0));
        if left[i].0 < right[i].0 {
            assert(closer(left, right[i].0) >= 5 - i);
        } else if right[i].0 < left[i].0 {
            assert(closer(right, left[i].0) >= 5 - i);
        }
    }
    assert(distances(left) =~= distances(right));
}

/// Offering a neighbour counts it, up to five.
proof fn lemma_closer_offer(near: Seq<Neighbor>, new: Neighbor, dist: int)
    requires
        ranked(near),
    ensures
        closer(offer(near, new), dist) == five_at_most(
            closer(near, dist) + if new.0 < dist { 1int } else { 0 },
        ),
{
    lemma_closer_ranked(near, dist);
    lemma_closer_first(near, dist);
    assert(near[0].0 < dist <==> closer(near, dist) >= 5);
    if new.0 < worst_of(near) {
        lemma_closer_place(near.drop_first(), new, dist);
    }
}

/// The slots hold the five nearest of everything offered: for every distance, as many slots are
/// nearer as were offered nearer, up to five.
pub proof fn lemma_closer_absorb(near: Seq<Neighbor>, items: Seq<Neighbor>, dist: int)
    requires
        ranked(near),
    ensures
        closer(absorb(near, items), dist) == five_at_most(closer(near, dist) + closer(items, dist)),
        closer(items, dist) >= 0,
    decreases items.len(),
{
    lemma_closer_ranked(near, dist);
    if items.len() > 0 {
        lemma_closer_absorb(near, items.drop_last(), dist);
        lemma_absorb(near, items.drop_last());
        lemma_closer_offer(absorb(near, items.drop_last()), items.last(), dist);
    }
}

/// Vacant slots are never nearer.
pub proof fn lemma_none_closer(dist: int)
    requires
        dist <= vacant(),
    ensures
        closer(no_neighbors(), dist) == 0,
        ranked(no_neighbors()),
{
    lemma_closer_ranked(no_neighbors(), dist);
    assert(!(no_neighbors()[4].0 < dist));
}

/// Looking at all points finds the five nearest: for every distance, as many slots are nearer as
/// points are, up to five.
pub proof fn lemma_brute_is_nearest(query: Seq<i16>, points: Seq<Point>, dist: int)
    requires
        dist <= vacant(),
    ensures
        closer(scan(no_neighbors(), query, points), dist) == five_at_most(
            closer(as_neighbors(query, points), dist),
        ),
{
    lemma_none_closer(dist);
    lemma_closer_absorb(no_neighbors(), as_neighbors(query, points), dist);
}

/// The slots never hold more than a vacant distance.
pub proof fn lemma_slots_bounded(near: Seq<Neighbor>, items: Seq<Neighbor>)
    requires
        ranked(near),
        near[0].0 <= vacant(),
    ensures
        forall|i: int| 0 <= i < 5 ==> #[trigger] absorb(near, items)[i].0 <= vacant(),
        ranked(absorb(near, items)),
{
    lemma_absorb(near, items);
    let all = absorb(near, items);
    assert forall|i: int| 0 <= i < 5 implies #[trigger] all[i].0 <= vacant() by {
        assert(all[0].0 >= all[i].0);
    }
}

/// How many of the positions are nearer than a distance.
pub open spec fn closer_at(query: Seq<i16>, points: Seq<Point>, positions: Seq<int>, dist: int) -> int {
    closer(as_neighbors(query, pick(points, positions)), dist)
}

/// One more position.
proof fn lemma_closer_at_push(query: Seq<i16>, points: Seq<Point>, positions: Seq<int>, dist: int)
    requires
        positions.len() > 0,
    ensures
        closer_at(query, points, positions, dist) == closer_at(
            query,
            points,
            positions.drop_last(),
            dist,
        ) + if distance(query, points[positions.last()].values@) < dist { 1int } else { 0 },
{
    let items = as_neighbors(query, pick(points, positions));
    assert(items.drop_last() =~= as_neighbors(query, pick(points, positions.drop_last())));
}

/// Counting without one position.
proof fn lemma_closer_at_remove(
    query: Seq<i16>,
    points: Seq<Point>,
    positions: Seq<int>,
    at: int,
    dist: int,
)
    requires
        0 <= at < positions.len(),
    ensures
        closer_at(query, points, positions, dist) == closer_at(
            query,
            points,
            positions.remove(at),
            dist,
        ) + if distance(query, points[positions[at]].values@) < dist { 1int } else { 0 },
    decreases positions.len(),
{
    lemma_closer_at_push(query, points, positions, dist);
    if at == positions.len() - 1 {
        assert(positions.remove(at) =~= positions.drop_last());
    } else {
        lemma_closer_at_remove(query, points, positions.drop_last(), at, dist);
        let rest = positions.remove(at);
        lemma_closer_at_push(query, points, rest, dist);
        assert(rest.drop_last() =~= positions.drop_last().remove(at));
        assert(rest.last() == positions.last());
    }
}

/// Distinct positions below `count` are no more often nearer than all positions below it, and as
/// often when the other positions are not nearer.
pub proof fn lemma_closer_subset(
    query: Seq<i16>,
    points: Seq<Point>,
    positions: Seq<int>,
    count: int,
    dist: int,
)
    requires
        0 <= count <= points.len(),
        positions.no_duplicates(),
        forall|k: int| 0 <= k < positions.len() ==> 0 <= #[trigger] positions[k] < count,
    ensures
        closer_at(query, points, positions, dist) <= closer(
            as_neighbors(query, points.take(count)),
            dist,
        ),
        (forall|i: int|
            0 <= i < count && !#[trigger] positions.contains(i) ==> distance(
                query,
                points[i].values@,
            ) >= dist) ==> closer_at(query, points, positions, dist) == closer(
            as_neighbors(query, points.take(count)),
            dist,
        ),
    decreases count,
{
    if count == 0 {
        if positions.len() > 0 {
            assert(0 <= positions[0] < count);
        }
        assert(positions =~= Seq::<int>::empty());
        assert(as_neighbors(query, points.take(0)) =~= Seq::<Neighbor>::empty());
        assert(as_neighbors(query, pick(points, positions)) =~= Seq::<Neighbor>::empty());
    } else {
        let items = as_neighbors(query, points.take(count));
        assert(items.drop_last() =~= as_neighbors(query, points.take(count - 1)));
        assert(items.last().0 == distance(query, points[count - 1].values@));
        if positions.contains(count - 1) {
            let at = choose|k: int| 0 <= k < positions.len() && positions[k] == count - 1;
            let rest = positions.remove(at);
            lemma_closer_at_remove(query, points, positions, at, dist);
            assert forall|k: int| 0 <= k < rest.len() implies 0 <= #[trigger] rest[k] < count - 1 by {
                let j = if k < at { k } else { k + 1 };
                assert(rest[k] == positions[j]);
                assert(positions[j] != positions[at]);
            }
            assert(rest.no_duplicates()) by {
                assert forall|i: int, j: int| 0 <= i < rest.len() && 0 <= j < rest.len() && i != j implies rest[i]
                    != rest[j] by {
                    let a = if i < at { i } else { i + 1 };
                    let b = if j < at { j } else { j + 1 };
                    assert(rest[i] == positions[a]);
                    assert(rest[j] == positions[b]);
                }
            }
            lemma_closer_subset(query, points, rest, count - 1, dist);
            if forall|i: int|
                0 <= i < count && !#[trigger] positions.contains(i) ==> distance(
                    query,
                    points[i].values@,
                ) >= dist {
                assert forall|i: int| 0 <= i < count - 1 && !#[trigger] rest.contains(i) implies distance(
                    query,
                    points[i].values@,
                ) >= dist by {
                    if positions.contains(i) {
                        let k = choose|k: int| 0 <= k < positions.len() && positions[k] == i;
                        let j = if k < at { k } else { k - 1 };
                        assert(rest[j] == i);
                    }
                }
            }
        } else {
            assert forall|k: int| 0 <= k < positions.len() implies 0 <= #[trigger] positions[k] < count
                - 1 by {
                assert(positions.contains(positions[k]));
            }
            lemma_closer_subset(query, points, positions, count - 1, dist);
        }
    }
}

/// A search that looked at some of the points, each once, and left out only points that are not
/// nearer than its farthest neighbour finds the same distances as one that looks at all points.
pub proof fn lemma_pruned_is_nearest(query: Seq<i16>, points: Seq<Point>, seen: Seq<int>)
    requires
        all_in_reach(query, points),
        seen.no_duplicates(),
        forall|k: int| 0 <= k < seen.len() ==> 0 <= #[trigger] seen[k] < points.len(),
        forall|i: int|
            0 <= i < points.len() && !#[trigger] seen.contains(i) ==> distance(
                query,
                points[i].values@,
            ) >= worst_of(scan(no_neighbors(), query, pick(points, seen))),
    ensures
        distances(scan(no_neighbors(), query, pick(points, seen))) == distances(
            scan(no_neighbors(), query, points),
        ),
{
    let some = scan(no_neighbors(), query, pick(points, seen));
    let all = scan(no_neighbors(), query, points);
    lemma_none_closer(0);
    lemma_slots_bounded(no_neighbors(), as_neighbors(query, pick(points, seen)));
    lemma_slots_bounded(no_neighbors(), as_neighbors(query, points));
    assert forall|dist: int| dist <= vacant() implies #[trigger] closer(some, dist) == closer(all, dist) by {
        lemma_brute_is_nearest(query, points, dist);
        lemma_brute_is_nearest(query, pick(points, seen), dist);
        lemma_closer_subset(query, points, seen, points.len() as int, dist);
        assert(points.take(points.len() as int) =~= points);
        lemma_closer_ranked(some, dist);
        if dist <= worst_of(some) {
            assert forall|i: int| 0 <= i < points.len() && !#[trigger] seen.contains(i) implies distance(
                query,
                points[i].values@,
            ) >= dist by {}
        } else {
            assert(some[0].0 < dist);
        }
    }
    lemma_equal_counts(some, all);
}

} // verus!
