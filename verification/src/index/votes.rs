//! The vote of the nearest points does not depend on how they were found.
use vstd::prelude::*;

use crate::index::geometry::distance;
use crate::index::kernels::{all_in_reach, in_reach, lemma_partial_distance};
use crate::index::nearest::{closer, distances, lemma_brute_is_nearest, lemma_closer_absorb,
    lemma_closer_ranked, lemma_closer_subset, lemma_none_closer, lemma_pruned_is_nearest,
    lemma_slots_bounded, pick};
use crate::index::neighbors::{absorb, as_neighbor, as_neighbors, label_sum, lemma_absorb, lemma_offer,
    lemma_place, no_neighbors, place, ranked, scan, vacant, vote, worst_of, Neighbor};
use crate::index::{Point, DIMS};

verus! {

/// The sum of the labels of the neighbours that are nearer than a distance.
pub open spec fn labels_within(items: Seq<Neighbor>, dist: int) -> int
    decreases items.len(),
{
    if items.len() == 0 {
        0
    } else {
        labels_within(items.drop_last(), dist) + counted_label(items.last(), dist)
    }
}

/// The label of a neighbour that is nearer than a distance, else nothing.
pub open spec fn counted_label(item: Neighbor, dist: int) -> int {
    if item.0 < dist { item.1 as int } else { 0 }
}

/// Points at the same distance, where it is the given one, have the same label.
pub open spec fn agreed(query: Seq<i16>, points: Seq<Point>, dist: int) -> bool {
    forall|i: int, j: int|
        0 <= i < points.len() && 0 <= j < points.len() && #[trigger] as_neighbor(query, points[i]).0
            == dist && #[trigger] as_neighbor(query, points[j]).0 == dist ==> points[i].label
            == points[j].label
}

/// The border of the five nearest points is clear: points at the distance of the fifth have the same
/// label, or no sixth point is as near.
pub open spec fn clear_border(query: Seq<i16>, points: Seq<Point>, dist: int) -> bool {
    ||| agreed(query, points, dist)
    ||| closer(as_neighbors(query, points), dist + 1) <= 5
}

/// Summing from the front.
proof fn lemma_labels_first(items: Seq<Neighbor>, dist: int)
    requires
        items.len() > 0,
    ensures
        labels_within(items, dist) == counted_label(items[0], dist) + labels_within(
            items.drop_first(),
            dist,
        ),
    decreases items.len(),
{
    if items.len() == 1 {
        assert(items.drop_last() =~= Seq::<Neighbor>::empty());
        assert(items.drop_first() =~= Seq::<Neighbor>::empty());
    } else {
        lemma_labels_first(items.drop_last(), dist);
        assert(items.drop_first().drop_last() =~= items.drop_last().drop_first());
        assert(items.drop_first().last() == items.last());
    }
}

/// Placing a neighbour adds its label.
proof fn lemma_labels_place(near: Seq<Neighbor>, new: Neighbor, dist: int)
    ensures
        labels_within(place(near, new), dist) == labels_within(near, dist) + counted_label(new, dist),
    decreases near.len(),
{
    if near.len() == 0 {
        assert(seq![new].drop_last() =~= Seq::<Neighbor>::empty());
        assert(near =~= Seq::<Neighbor>::empty());
    } else if new.0 < near[0].0 {
        let rest = near.drop_first();
        lemma_labels_place(rest, new, dist);
        lemma_labels_first(near, dist);
        let all = seq![near[0]] + place(rest, new);
        lemma_labels_first(all, dist);
        assert(all.drop_first() =~= place(rest, new));
    } else {
        let all = seq![new] + near;
        lemma_labels_first(all, dist);
        assert(all.drop_first() =~= near);
    }
}

/// What is nearer than the farthest slot in the end was never put out.
pub proof fn lemma_labels_absorb(near: Seq<Neighbor>, items: Seq<Neighbor>, dist: int)
    requires
        ranked(near),
        dist <= worst_of(absorb(near, items)),
    ensures
        labels_within(absorb(near, items), dist) == labels_within(near, dist) + labels_within(
            items,
            dist,
        ),
    decreases items.len(),
{
    if items.len() > 0 {
        let earlier = absorb(near, items.drop_last());
        let new = items.last();
        lemma_absorb(near, items.drop_last());
        lemma_offer(earlier, new);
        lemma_labels_absorb(near, items.drop_last(), dist);
        lemma_labels_first(earlier, dist);
        if new.0 < worst_of(earlier) {
            lemma_labels_place(earlier.drop_first(), new, dist);
        }
    }
}

/// Vacant slots have no labels.
pub proof fn lemma_no_labels(dist: int)
    requires
        dist <= vacant(),
    ensures
        labels_within(no_neighbors(), dist) == 0,
{
    reveal_with_fuel(labels_within, 6);
}

/// One position less.
proof fn lemma_labels_without(items: Seq<Neighbor>, at: int, dist: int)
    requires
        0 <= at < items.len(),
    ensures
        labels_within(items, dist) == labels_within(items.remove(at), dist) + counted_label(
            items[at],
            dist,
        ),
    decreases items.len(),
{
    if at == items.len() - 1 {
        assert(items.remove(at) =~= items.drop_last());
    } else {
        lemma_labels_without(items.drop_last(), at, dist);
        assert(items.remove(at).drop_last() =~= items.drop_last().remove(at));
        assert(items.remove(at).last() == items.last());
    }
}

/// The order of neighbours does not matter to the sum of their labels.
pub proof fn lemma_labels_same(left: Seq<Neighbor>, right: Seq<Neighbor>, dist: int)
    requires
        left.to_multiset() == right.to_multiset(),
    ensures
        labels_within(left, dist) == labels_within(right, dist),
    decreases left.len(),
{
    broadcast use vstd::multiset::group_multiset_axioms;

    left.to_multiset_ensures();
    right.to_multiset_ensures();
    assert(left.len() == right.len());
    if left.len() > 0 {
        let last = left.last();
        let rest = left.drop_last();
        assert(left.contains(last));
        assert(right.to_multiset().count(last) > 0);
        assert(right.contains(last));
        let i = choose|i: int| 0 <= i < right.len() && right[i] == last;
        let other = right.remove(i);
        rest.to_multiset_ensures();
        assert(rest.push(last) =~= left);
        assert(left.to_multiset() =~= rest.to_multiset().insert(last));
        assert(other.to_multiset() =~= right.to_multiset().remove(last));
        assert(rest.to_multiset() =~= other.to_multiset());
        lemma_labels_same(rest, other, dist);
        lemma_labels_without(right, i, dist);
    }
}

/// Where the points that were left out are not nearer, the labels of those looked at are all there
/// are.
proof fn lemma_labels_subset(
    query: Seq<i16>,
    points: Seq<Point>,
    positions: Seq<int>,
    count: int,
    dist: int,
)
    requires
        0 <= count <= points.len(),
        positions.no_duplicates(),
        forall|k: int| 0 <= k < positions.len() ==> 0 <= #[trigger] positions[k] < count,
        forall|i: int|
            0 <= i < count && !#[trigger] positions.contains(i) ==> distance(
                query,
                points[i].values@,
            ) >= dist,
    ensures
        labels_within(as_neighbors(query, pick(points, positions)), dist) == labels_within(
            as_neighbors(query, points.take(count)),
            dist,
        ),
    decreases count,
{
    let items = as_neighbors(query, pick(points, positions));
    if count == 0 {
        if positions.len() > 0 {
            assert(0 <= positions[0] < count);
        }
        assert(as_neighbors(query, points.take(0)) =~= Seq::<Neighbor>::empty());
        assert(items =~= Seq::<Neighbor>::empty());
    } else {
        let all = as_neighbors(query, points.take(count));
        assert(all.drop_last() =~= as_neighbors(query, points.take(count - 1)));
        assert(all.last() == as_neighbor(query, points[count - 1]));
        if positions.contains(count - 1) {
            let at = choose|k: int| 0 <= k < positions.len() && positions[k] == count - 1;
            let rest = positions.remove(at);
            lemma_labels_without(items, at, dist);
            assert(items.remove(at) =~= as_neighbors(query, pick(points, rest)));
            assert forall|k: int| 0 <= k < rest.len() implies 0 <= #[trigger] rest[k] < count - 1 by {
                let j = if k < at { k } else { k + 1 };
                assert(rest[k] == positions[j]);
                assert(positions[j] != positions[at]);
            }
            assert(rest.no_duplicates()) by {
                assert forall|i: int, j: int| 0 <= i < rest.len() && 0 <= j < rest.len() && i != j implies rest[i]
                    != rest[j] by {
                    let a = if i < at { i } else { i + 1 };
                    let b = if j < at { j } else { j + 1 };
                    assert(rest[i] == positions[a]);
                    assert(rest[j] == positions[b]);
                }
            }
            assert forall|i: int| 0 <= i < count - 1 && !#[trigger] rest.contains(i) implies distance(
                query,
                points[i].values@,
            ) >= dist by {
                if positions.contains(i) {
                    let k = choose|k: int| 0 <= k < positions.len() && positions[k] == i;
                    let j = if k < at { k } else { k - 1 };
                    assert(rest[j] == i);
                }
            }
            lemma_labels_subset(query, points, rest, count - 1, dist);
        } else {
            assert forall|k: int| 0 <= k < positions.len() implies 0 <= #[trigger] positions[k] < count
                - 1 by {
                assert(positions.contains(positions[k]));
            }
            lemma_labels_subset(query, points, positions, count - 1, dist);
        }
    }
}

/// A slot is one of the slots before or one of the neighbours that were offered.
pub(crate) proof fn lemma_slot_source(near: Seq<Neighbor>, items: Seq<Neighbor>, i: int)
    requires
        ranked(near),
        0 <= i < 5,
    ensures
        near.contains(absorb(near, items)[i]) || items.contains(absorb(near, items)[i]),
    decreases items.len(),
{
    lemma_absorb(near, items);
    if items.len() > 0 {
        let earlier = absorb(near, items.drop_last());
        let new = items.last();
        let slot = absorb(near, items)[i];
        lemma_absorb(near, items.drop_last());
        if new.0 < worst_of(earlier) {
            let rest = earlier.drop_first();
            lemma_place(rest, new);
            assert(items[items.len() - 1] == new);
            if slot != new {
                let j = choose|j: int| 0 <= j < rest.len() && rest[j] == slot;
                assert(earlier[j + 1] == slot);
                lemma_slot_source(near, items.drop_last(), j + 1);
            }
        } else {
            lemma_slot_source(near, items.drop_last(), i);
        }
        if items.drop_last().contains(slot) {
            let k = choose|k: int| 0 <= k < items.drop_last().len() && items.drop_last()[k] == slot;
            assert(items[k] == slot);
        }
    }
}

/// Distances within reach stay below a vacant slot.
proof fn lemma_reach_below_vacant(query: Seq<i16>, values: Seq<i16>)
    requires
        in_reach(query, values),
    ensures
        0 <= distance(query, values) < vacant(),
{
    lemma_partial_distance(query, values, 0, DIMS as int);
}

/// The label of a slot at the distance of the farthest one: the label of the points there, or that
/// of a vacant slot.
pub proof fn lemma_border_slot(query: Seq<i16>, points: Seq<Point>, some: Seq<Point>, i: int, dist: int)
    requires
        all_in_reach(query, points),
        agreed(query, points, dist),
        forall|x: Point| some.contains(x) ==> #[trigger] points.contains(x),
        0 <= i < 5,
        scan(no_neighbors(), query, some)[i].0 == dist,
    ensures
        dist == vacant() ==> scan(no_neighbors(), query, some)[i].1 == 0,
        dist != vacant() ==> forall|j: int|
            0 <= j < points.len() && #[trigger] as_neighbor(query, points[j]).0 == dist
                ==> points[j].label == scan(no_neighbors(), query, some)[i].1,
        dist != vacant() ==> exists|j: int|
            0 <= j < points.len() && #[trigger] as_neighbor(query, points[j]).0 == dist,
{
    let items = as_neighbors(query, some);
    let slot = scan(no_neighbors(), query, some)[i];
    lemma_none_closer(0);
    lemma_slot_source(no_neighbors(), items, i);
    if items.contains(slot) {
        let k = choose|k: int| 0 <= k < items.len() && items[k] == slot;
        assert(some.contains(some[k]));
        assert(points.contains(some[k]));
        let p = choose|p: int| 0 <= p < points.len() && points[p] == some[k];
        lemma_reach_below_vacant(query, points[p].values@);
        assert(as_neighbor(query, points[p]) == slot);
    }
}

/// Slots with the same distances, the same labels below the farthest, and the same labels at the
/// farthest distance have the same sum of labels.
pub proof fn lemma_same_label_sum(left: Seq<Neighbor>, right: Seq<Neighbor>)
    requires
        ranked(left),
        ranked(right),
        distances(left) == distances(right),
        labels_within(left, worst_of(left)) == labels_within(right, worst_of(left)),
        forall|i: int|
            0 <= i < 5 && #[trigger] left[i].0 == worst_of(left) ==> left[i].1 == right[i].1,
    ensures
        label_sum(left) == label_sum(right),
{
    let dist = worst_of(left);
    assert forall|i: int| 0 <= i < 5 implies #[trigger] left[i].0 == right[i].0 && left[i].0 <= dist by {
        assert(distances(left)[i] == left[i].0);
        assert(distances(right)[i] == right[i].0);
        assert(left[0].0 >= left[i].0);
    }
    reveal_with_fuel(labels_within, 6);
    reveal_with_fuel(label_sum, 6);
    assert(left[0].0 == right[0].0 && left[1].0 == right[1].0 && left[2].0 == right[2].0 && left[3].0
        == right[3].0 && left[4].0 == right[4].0);
}

/// Where no more than five are nearer than a distance, none of these is ever put out.
pub(crate) proof fn lemma_labels_absorb_few(near: Seq<Neighbor>, items: Seq<Neighbor>, dist: int)
    requires
        ranked(near),
        closer(near, dist) + closer(items, dist) <= 5,
    ensures
        labels_within(absorb(near, items), dist) == labels_within(near, dist) + labels_within(
            items,
            dist,
        ),
    decreases items.len(),
{
    if items.len() > 0 {
        let rest = items.drop_last();
        let earlier = absorb(near, rest);
        let new = items.last();
        lemma_absorb(near, rest);
        lemma_closer_absorb(near, rest, dist);
        lemma_closer_ranked(near, dist);
        lemma_closer_ranked(earlier, dist);
        lemma_labels_absorb_few(near, rest, dist);
        lemma_labels_first(earlier, dist);
        assert(earlier[0].0 < dist <==> closer(earlier, dist) >= 5);
        if new.0 < worst_of(earlier) {
            lemma_labels_place(earlier.drop_first(), new, dist);
        }
    }
}

/// Where no sixth point is as near as the fifth, the slots hold the labels of all points that are.
pub proof fn lemma_few_label_sum(query: Seq<i16>, points: Seq<Point>)
    requires
        worst_of(scan(no_neighbors(), query, points)) < vacant(),
        closer(
            as_neighbors(query, points),
            worst_of(scan(no_neighbors(), query, points)) + 1,
        ) <= 5,
    ensures
        label_sum(scan(no_neighbors(), query, points)) == labels_within(
            as_neighbors(query, points),
            worst_of(scan(no_neighbors(), query, points)) + 1,
        ),
{
    let near = scan(no_neighbors(), query, points);
    let dist = worst_of(near) + 1;
    lemma_none_closer(dist);
    lemma_absorb(no_neighbors(), as_neighbors(query, points));
    lemma_no_labels(dist);
    lemma_labels_absorb_few(no_neighbors(), as_neighbors(query, points), dist);
    assert(near[0].0 >= near[1].0 && near[0].0 >= near[2].0 && near[0].0 >= near[3].0 && near[0].0
        >= near[4].0);
    reveal_with_fuel(labels_within, 6);
    reveal_with_fuel(label_sum, 6);
}

/// Where no sixth point is as near as the fifth, a search that left out only points that are not
/// nearer than its farthest neighbour votes like one that looks at all points.
proof fn lemma_few_vote(query: Seq<i16>, points: Seq<Point>, seen: Seq<int>)
    requires
        all_in_reach(query, points),
        seen.no_duplicates(),
        forall|k: int| 0 <= k < seen.len() ==> 0 <= #[trigger] seen[k] < points.len(),
        forall|i: int|
            0 <= i < points.len() && !#[trigger] seen.contains(i) ==> distance(
                query,
                points[i].values@,
            ) >= worst_of(scan(no_neighbors(), query, pick(points, seen))),
        worst_of(scan(no_neighbors(), query, points)) < vacant(),
        closer(
            as_neighbors(query, points),
            worst_of(scan(no_neighbors(), query, points)) + 1,
        ) <= 5,
    ensures
        vote(scan(no_neighbors(), query, pick(points, seen))) == vote(
            scan(no_neighbors(), query, points),
        ),
{
    let looked = pick(points, seen);
    let some = scan(no_neighbors(), query, looked);
    let all = scan(no_neighbors(), query, points);
    let dist = worst_of(all) + 1;
    let count = points.len() as int;
    lemma_none_closer(dist);
    lemma_absorb(no_neighbors(), as_neighbors(query, looked));
    lemma_absorb(no_neighbors(), as_neighbors(query, points));
    lemma_pruned_is_nearest(query, points, seen);
    assert(distances(some)[0] == some[0].0 && distances(all)[0] == all[0].0);
    assert(points.take(count) =~= points);
    lemma_closer_subset(query, points, seen, count, dist);
    lemma_brute_is_nearest(query, looked, dist);
    lemma_closer_ranked(some, dist);
    assert(some[0].0 < dist);
    assert(closer(as_neighbors(query, looked), dist) >= 5);
    assert forall|i: int| 0 <= i < count && !#[trigger] seen.contains(i) implies distance(
        query,
        points[i].values@,
    ) >= dist by {
        if distance(query, points[i].values@) < dist {
            let more = seen.push(i);
            assert(more.no_duplicates()) by {
                assert forall|a: int, b: int| 0 <= a < more.len() && 0 <= b < more.len() && a != b implies more[a]
                    != more[b] by {
                    if a < seen.len() {
                        assert(seen.contains(seen[a]));
                    }
                    if b < seen.len() {
                        assert(seen.contains(seen[b]));
                    }
                }
            }
            assert forall|k: int| 0 <= k < more.len() implies 0 <= #[trigger] more[k] < count by {
                if k < seen.len() {
                    assert(more[k] == seen[k]);
                }
            }
            lemma_closer_subset(query, points, more, count, dist);
            let items = as_neighbors(query, pick(points, more));
            assert(items.drop_last() =~= as_neighbors(query, looked));
            assert(items.last() == as_neighbor(query, points[i]));
        }
    }
    lemma_labels_subset(query, points, seen, count, dist);
    lemma_few_label_sum(query, points);
    lemma_few_label_sum(query, looked);
}

/// A search that looked at some of the points, each once, and left out only points that are not
/// nearer than its farthest neighbour votes like one that looks at all points, where points as far as
/// the farthest neighbour agree.
proof fn lemma_agreed_vote(query: Seq<i16>, points: Seq<Point>, seen: Seq<int>)
    requires
        all_in_reach(query, points),
        seen.no_duplicates(),
        forall|k: int| 0 <= k < seen.len() ==> 0 <= #[trigger] seen[k] < points.len(),
        forall|i: int|
            0 <= i < points.len() && !#[trigger] seen.contains(i) ==> distance(
                query,
                points[i].values@,
            ) >= worst_of(scan(no_neighbors(), query, pick(points, seen))),
        agreed(query, points, worst_of(scan(no_neighbors(), query, points))),
    ensures
        vote(scan(no_neighbors(), query, pick(points, seen))) == vote(
            scan(no_neighbors(), query, points),
        ),
{
    let looked = pick(points, seen);
    let some = scan(no_neighbors(), query, looked);
    let all = scan(no_neighbors(), query, points);
    let dist = worst_of(all);
    lemma_none_closer(0);
    lemma_absorb(no_neighbors(), as_neighbors(query, looked));
    lemma_absorb(no_neighbors(), as_neighbors(query, points));
    lemma_pruned_is_nearest(query, points, seen);
    assert(distances(some)[0] == distances(all)[0]);
    assert(worst_of(some) == dist);
    assert(dist <= vacant()) by {
        lemma_slots_bounded(no_neighbors(), as_neighbors(query, points));
    }
    lemma_no_labels(dist);
    lemma_labels_absorb(no_neighbors(), as_neighbors(query, looked), dist);
    lemma_labels_absorb(no_neighbors(), as_neighbors(query, points), dist);
    lemma_labels_subset(query, points, seen, points.len() as int, dist);
    assert(points.take(points.len() as int) =~= points);
    assert forall|x: Point| looked.contains(x) implies #[trigger] points.contains(x) by {
        let k = choose|k: int| 0 <= k < looked.len() && looked[k] == x;
        assert(points[seen[k]] == x);
    }
    assert forall|i: int| 0 <= i < 5 && #[trigger] some[i].0 == worst_of(some) implies some[i].1
        == all[i].1 by {
        assert(distances(some)[i] == distances(all)[i]);
        lemma_border_slot(query, points, looked, i, dist);
        lemma_border_slot(query, points, points, i, dist);
    }
    lemma_same_label_sum(some, all);
}

/// A search that looked at some of the points, each once, and left out only points that are not
/// nearer than its farthest neighbour votes like one that looks at all points, unless points as far
/// as the farthest neighbour disagree and there are more of them than slots.
pub proof fn lemma_pruned_vote(query: Seq<i16>, points: Seq<Point>, seen: Seq<int>)
    requires
        all_in_reach(query, points),
        seen.no_duplicates(),
        forall|k: int| 0 <= k < seen.len() ==> 0 <= #[trigger] seen[k] < points.len(),
        forall|i: int|
            0 <= i < points.len() && !#[trigger] seen.contains(i) ==> distance(
                query,
                points[i].values@,
            ) >= worst_of(scan(no_neighbors(), query, pick(points, seen))),
        clear_border(query, points, worst_of(scan(no_neighbors(), query, points))),
    ensures
        vote(scan(no_neighbors(), query, pick(points, seen))) == vote(
            scan(no_neighbors(), query, points),
        ),
{
    let dist = worst_of(scan(no_neighbors(), query, points));
    lemma_none_closer(0);
    lemma_slots_bounded(no_neighbors(), as_neighbors(query, points));
    if agreed(query, points, dist) {
        lemma_agreed_vote(query, points, seen);
    } else if dist == vacant() {
        lemma_vacant_agreed(query, points);
        lemma_agreed_vote(query, points, seen);
    } else {
        lemma_few_vote(query, points, seen);
    }
}

/// No point is as far as a vacant slot.
pub proof fn lemma_vacant_agreed(query: Seq<i16>, points: Seq<Point>)
    requires
        all_in_reach(query, points),
    ensures
        agreed(query, points, vacant()),
{
    assert forall|i: int, j: int|
        0 <= i < points.len() && 0 <= j < points.len() && #[trigger] as_neighbor(query, points[i]).0
            == vacant() && #[trigger] as_neighbor(query, points[j]).0 == vacant() implies points[i].label
        == points[j].label by {
        lemma_reach_below_vacant(query, points[i].values@);
    }
}

} // verus!
