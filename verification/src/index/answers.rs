//! What searches answer, in terms of the references alone.
use vstd::prelude::*;

use crate::index::buckets::Plans;
use crate::index::geometry::{distance, scanned};
use crate::index::grouping::Division;
use crate::index::kernels::{all_in_reach, in_reach};
use crate::index::loading::IndexConfig;
use crate::index::nearest::{closer, lemma_brute_is_nearest, lemma_closer_ranked, lemma_none_closer,
    lemma_slots_bounded};
use crate::index::neighbors::{as_neighbor, as_neighbors, label_sum, lemma_absorb, no_neighbors, scan, vacant, vote,
    worst_of, Neighbor};
use crate::index::ordering::{lemma_scanned_point, scanned_point, scanned_points};
use crate::index::references::{lemma_closer_same, lemma_grid_in_reach, lemma_loaded_is_ready,
    lemma_scan_ignores_order, lemma_vote_ignores_order, loaded, plain_references, stores};
use crate::index::settling::lemma_near_search_is_exact;
use crate::index::soundness::{free_axes, lemma_distance_sum, on_grid, plain_query};
use crate::index::votes::{clear_border, labels_within, lemma_few_label_sum, lemma_vacant_agreed};
use crate::index::Point;

verus! {

/// The square of a difference of two components.
pub open spec fn apart(a: i16, b: i16) -> int {
    (a - b) * (a - b)
}

/// The squared Euclidean distance of two feature vectors.
pub open spec fn squared_distance(a: Seq<i16>, b: Seq<i16>) -> int {
    apart(a[0], b[0]) + apart(a[1], b[1]) + apart(a[2], b[2]) + apart(a[3], b[3]) + apart(a[4], b[4]) + apart(
        a[5],
        b[5],
    ) + apart(a[6], b[6]) + apart(a[7], b[7]) + apart(a[8], b[8]) + apart(a[9], b[9]) + apart(a[10], b[10])
        + apart(a[11], b[11]) + apart(a[12], b[12]) + apart(a[13], b[13])
}

/// The references that are nearer to a vector than a squared distance.
pub open spec fn nearer(references: Seq<Point>, vector: Seq<i16>, dist: int) -> Seq<Point> {
    references.filter(|r: Point| squared_distance(vector, r.values@) < dist)
}

/// How many references are labelled fraud.
pub open spec fn frauds(references: Seq<Point>) -> int {
    references.filter(|r: Point| r.label == 1).len() as int
}

/// Every reference is labelled fraud or legit.
pub open spec fn labelled(references: Seq<Point>) -> bool {
    forall|i: int| 0 <= i < references.len() ==> (#[trigger] references[i]).label <= 1
}

/// The distance that searches compare is the squared Euclidean distance.
pub proof fn lemma_distance_is_euclidean(vector: Seq<i16>, values: Seq<i16>)
    requires
        vector.len() == 14,
        values.len() == 14,
    ensures
        distance(scanned(vector), scanned(values)) == squared_distance(vector, values),
{
    lemma_distance_sum(scanned(vector), scanned(values));
}

/// A point's distance.
proof fn lemma_point_distance(vector: Seq<i16>, point: Point)
    requires
        vector.len() == 14,
    ensures
        as_neighbor(scanned(vector), scanned_point(point)) == (
            squared_distance(vector, point.values@),
            point.label,
        ),
{
    lemma_scanned_point(point);
    lemma_distance_is_euclidean(vector, point.values@);
}

/// As many are nearer as are counted, and as many of them are fraud as their labels add up to.
proof fn lemma_counts(references: Seq<Point>, vector: Seq<i16>, dist: int)
    requires
        vector.len() == 14,
        labelled(references),
    ensures
        closer(as_neighbors(scanned(vector), scanned_points(references)), dist) == nearer(
            references,
            vector,
            dist,
        ).len(),
        labels_within(as_neighbors(scanned(vector), scanned_points(references)), dist) == frauds(
            nearer(references, vector, dist),
        ),
        labelled(nearer(references, vector, dist)),
    decreases references.len(),
{
    reveal(Seq::filter);
    let items = as_neighbors(scanned(vector), scanned_points(references));
    if references.len() > 0 {
        let fewer = references.drop_last();
        lemma_counts(fewer, vector, dist);
        assert(items.drop_last() =~= as_neighbors(scanned(vector), scanned_points(fewer)));
        lemma_point_distance(vector, references.last());
        assert(items.last() == as_neighbor(scanned(vector), scanned_point(references.last())));
        let before = nearer(fewer, vector, dist);
        let all = nearer(references, vector, dist);
        if squared_distance(vector, references.last().values@) < dist {
            assert(all == before.push(references.last()));
            assert(all.drop_last() =~= before);
        } else {
            assert(all == before);
        }
    }
}

/// No more are fraud than there are.
proof fn lemma_frauds_at_most(references: Seq<Point>)
    ensures
        0 <= frauds(references) <= references.len(),
    decreases references.len(),
{
    reveal(Seq::filter);
    if references.len() > 0 {
        lemma_frauds_at_most(references.drop_last());
    }
}

/// Two counts that agree are of the same references, and so are their frauds.
proof fn lemma_frauds_between(references: Seq<Point>, vector: Seq<i16>, low: int, high: int)
    requires
        low <= high,
    ensures
        nearer(references, vector, low).len() <= nearer(references, vector, high).len(),
        nearer(references, vector, low).len() == nearer(references, vector, high).len() ==> nearer(
            references,
            vector,
            low,
        ) == nearer(references, vector, high),
    decreases references.len(),
{
    reveal(Seq::filter);
    if references.len() > 0 {
        lemma_frauds_between(references.drop_last(), vector, low, high);
    }
}

/// Where exactly five references are nearer than some distance, the vote of the five nearest is the
/// number of those labelled fraud; the border of the five is then clear, and the fifth nearer than the
/// distance.
pub proof fn lemma_vote_of_five(references: Seq<Point>, vector: Seq<i16>, dist: int)
    requires
        vector.len() == 14,
        labelled(references),
        dist <= vacant(),
        nearer(references, vector, dist).len() == 5,
    ensures
        ({
            let near = scan(no_neighbors(), scanned(vector), scanned_points(references));
            &&& vote(near) == frauds(nearer(references, vector, dist))
            &&& worst_of(near) < dist
            &&& closer(as_neighbors(scanned(vector), scanned_points(references)), worst_of(near) + 1) <= 5
        }),
{
    let query = scanned(vector);
    let points = scanned_points(references);
    let near = scan(no_neighbors(), query, points);
    lemma_none_closer(0);
    lemma_slots_bounded(no_neighbors(), as_neighbors(query, points));
    lemma_brute_is_nearest(query, points, dist);
    lemma_counts(references, vector, dist);
    lemma_closer_ranked(near, dist);
    assert(near[0].0 < dist);
    let next = worst_of(near) + 1;
    lemma_counts(references, vector, next);
    lemma_frauds_between(references, vector, next, dist);
    lemma_brute_is_nearest(query, points, next);
    lemma_closer_ranked(near, next);
    assert(near[0].0 < next);
    lemma_few_label_sum(query, points);
    lemma_frauds_at_most(nearer(references, vector, dist));
}

/// Fewer than five references all vote.
pub proof fn lemma_vote_of_few(references: Seq<Point>, vector: Seq<i16>)
    requires
        vector.len() == 14,
        labelled(references),
        references.len() < 5,
        plain_references(references),
    ensures
        vote(scan(no_neighbors(), scanned(vector), scanned_points(references))) == frauds(references),
{
    let query = scanned(vector);
    let points = scanned_points(references);
    lemma_few_absorbed(as_neighbors(query, points));
    lemma_in_reach(references, vector);
    lemma_counts(references, vector, vacant());
    lemma_all_nearer(references, vector);
    lemma_frauds_at_most(references);
    lemma_all_labels(as_neighbors(query, points), vacant());
}

/// Plain references are in reach of every query.
proof fn lemma_in_reach(references: Seq<Point>, vector: Seq<i16>)
    requires
        plain_references(references),
    ensures
        all_in_reach(scanned(vector), scanned_points(references)),
{
    let points = scanned_points(references);
    assert forall|i: int| 0 <= i < points.len() implies in_reach(
        scanned(vector),
        #[trigger] points[i].values@,
    ) by {
        assert(on_grid(scanned(references[i].values@)));
        lemma_scanned_point(references[i]);
        lemma_grid_in_reach(scanned(vector), points[i].values@);
    }
}

/// Every reference in reach is nearer than a vacant slot.
proof fn lemma_all_nearer(references: Seq<Point>, vector: Seq<i16>)
    requires
        vector.len() == 14,
        plain_references(references),
    ensures
        nearer(references, vector, vacant()) == references,
        forall|k: int|
            0 <= k < references.len() ==> #[trigger] as_neighbors(
                scanned(vector),
                scanned_points(references),
            )[k].0 < vacant(),
    decreases references.len(),
{
    reveal(Seq::filter);
    lemma_in_reach(references, vector);
    let points = scanned_points(references);
    assert forall|k: int| 0 <= k < references.len() implies #[trigger] as_neighbors(
        scanned(vector),
        points,
    )[k].0 < vacant() by {
        assert(in_reach(scanned(vector), points[k].values@));
        crate::index::kernels::lemma_partial_distance(scanned(vector), points[k].values@, 0, 14);
    }
    if references.len() > 0 {
        let fewer = references.drop_last();
        assert(plain_references(fewer)) by {
            assert forall|i: int| 0 <= i < fewer.len() implies on_grid(
                scanned((#[trigger] fewer[i]).values@),
            ) by {
                assert(fewer[i] == references[i]);
            }
        }
        lemma_all_nearer(fewer, vector);
        let k = references.len() - 1;
        lemma_point_distance(vector, references[k]);
        assert(as_neighbors(scanned(vector), points)[k] == as_neighbor(
            scanned(vector),
            scanned_point(references[k]),
        ));
        assert(as_neighbors(scanned(vector), points)[k].0 < vacant());
        assert(squared_distance(vector, references.last().values@) < vacant());
        assert(nearer(references, vector, vacant()) == nearer(fewer, vector, vacant()).push(
            references.last(),
        ));
        assert(fewer.push(references.last()) =~= references);
    } else {
        assert(nearer(references, vector, vacant()) =~= references);
    }
}

/// Labels of neighbours that are all nearer than a distance.
proof fn lemma_all_labels(items: Seq<Neighbor>, dist: int)
    requires
        forall|k: int| 0 <= k < items.len() ==> (#[trigger] items[k]).0 < dist,
    ensures
        labels_within(items, dist) == label_sum(items),
    decreases items.len(),
{
    if items.len() > 0 {
        let fewer = items.drop_last();
        assert forall|k: int| 0 <= k < fewer.len() implies (#[trigger] fewer[k]).0 < dist by {
            assert(fewer[k] == items[k]);
        }
        lemma_all_labels(fewer, dist);
        assert(items[items.len() - 1].0 < dist);
    }
}

/// Fewer than five neighbours all take slots.
proof fn lemma_few_absorbed(items: Seq<Neighbor>)
    requires
        items.len() < 5,
    ensures
        (forall|k: int| 0 <= k < items.len() ==> (#[trigger] items[k]).0 < vacant()) ==> label_sum(
            crate::index::neighbors::absorb(no_neighbors(), items),
        ) == label_sum(items),
{
    if forall|k: int| 0 <= k < items.len() ==> (#[trigger] items[k]).0 < vacant() {
        let near = crate::index::neighbors::absorb(no_neighbors(), items);
        lemma_none_closer(vacant());
        crate::index::votes::lemma_no_labels(vacant());
        lemma_absorb(no_neighbors(), items);
        crate::index::nearest::lemma_closer_absorb(no_neighbors(), items, vacant());
        lemma_few_closer(items, vacant());
        crate::index::votes::lemma_labels_absorb_few(no_neighbors(), items, vacant());
        lemma_all_labels(items, vacant());
        lemma_vacant_labels(items);
    }
}

/// No more neighbours are nearer than there are.
proof fn lemma_few_closer(items: Seq<Neighbor>, dist: int)
    ensures
        0 <= closer(items, dist) <= items.len(),
    decreases items.len(),
{
    if items.len() > 0 {
        lemma_few_closer(items.drop_last(), dist);
    }
}

/// Vacant slots have no label.
proof fn lemma_vacant_labels(items: Seq<Neighbor>)
    requires
        forall|k: int| 0 <= k < items.len() ==> (#[trigger] items[k]).0 < vacant(),
    ensures
        ({
            let near = crate::index::neighbors::absorb(no_neighbors(), items);
            labels_within(near, vacant()) == label_sum(near)
        }),
{
    let near = crate::index::neighbors::absorb(no_neighbors(), items);
    lemma_none_closer(0);
    lemma_slots_bounded(no_neighbors(), items);
    assert forall|i: int| 0 <= i < 5 implies (#[trigger] near[i]).0 < vacant() || near[i].1 == 0 by {
        crate::index::votes::lemma_slot_source(no_neighbors(), items, i);
        if items.contains(near[i]) {
            let k = choose|k: int| 0 <= k < items.len() && items[k] == near[i];
            assert(items[k].0 < vacant());
        }
    }
    lemma_zero_labels(near, vacant());
}

/// Labels that are not counted are zero.
proof fn lemma_zero_labels(items: Seq<Neighbor>, dist: int)
    requires
        forall|k: int| 0 <= k < items.len() ==> (#[trigger] items[k]).0 < dist || items[k].1 == 0,
    ensures
        labels_within(items, dist) == label_sum(items),
    decreases items.len(),
{
    if items.len() > 0 {
        let fewer = items.drop_last();
        assert forall|k: int| 0 <= k < fewer.len() implies (#[trigger] fewer[k]).0 < dist || fewer[k].1 == 0 by {
            assert(fewer[k] == items[k]);
        }
        lemma_zero_labels(fewer, dist);
        assert(items[items.len() - 1].0 < dist || items[items.len() - 1].1 == 0);
    }
}

/// References that are ordered, written and loaded again vote: where exactly five of them are nearer to
/// a query than some distance, the answer of a search without a limit is the number of those labelled
/// fraud. For a query without an earlier transaction the distance is at most 200 000 000, within which
/// no reference with one stands.
pub proof fn lemma_answer_is_vote_of_five(
    references: Seq<Point>,
    stored: Seq<Point>,
    division: Division,
    config: IndexConfig,
    vector: Seq<i16>,
    plans: Plans,
    order: Seq<(i64, usize)>,
    dist: int,
)
    requires
        stores(stored, references, division),
        config.wf(),
        plain_references(references),
        labelled(references),
        plain_query(vector),
        loaded(stored, config).has_cells() ==> free_axes(loaded(stored, config).grid->0),
        loaded(stored, config).valid_course(vector, plans, order),
        nearer(references, vector, dist).len() == 5,
        dist <= if vector[5] == -10_000 { 200_000_000int } else { i64::MAX as int },
    ensures
        vote(loaded(stored, config).limited_search(vector, plans, order, None).tour.near) == frauds(
            nearer(references, vector, dist),
        ),
        vote(loaded(stored, config).eager_search(vector, plans).near) == frauds(
            nearer(references, vector, dist),
        ),
        vote(scan(no_neighbors(), scanned(vector), loaded(stored, config).points)) == frauds(
            nearer(references, vector, dist),
        ),
{
    let view = loaded(stored, config);
    let query = scanned(vector);
    let points = scanned_points(references);
    lemma_loaded_is_ready(references, stored, division, config, vector);
    lemma_vote_of_five(references, vector, dist);
    lemma_scan_ignores_order(query, view.points, points);
    lemma_same_border(query, view.points, points);
    lemma_vote_ignores_order(query, view.points, points);
    lemma_near_search_is_exact(view, vector, plans, order);
}

/// The border of the five nearest does not depend on the order of the points.
proof fn lemma_same_border(query: Seq<i16>, left: Seq<Point>, right: Seq<Point>)
    requires
        left.to_multiset() == right.to_multiset(),
        closer(as_neighbors(query, right), worst_of(scan(no_neighbors(), query, right)) + 1) <= 5,
    ensures
        worst_of(scan(no_neighbors(), query, left)) == worst_of(scan(no_neighbors(), query, right)),
        closer(as_neighbors(query, left), worst_of(scan(no_neighbors(), query, left)) + 1) <= 5,
{
    let f = |point: Point| as_neighbor(query, point);
    lemma_scan_ignores_order(query, left, right);
    let near = scan(no_neighbors(), query, left);
    let other = scan(no_neighbors(), query, right);
    lemma_none_closer(0);
    lemma_absorb(no_neighbors(), as_neighbors(query, left));
    lemma_absorb(no_neighbors(), as_neighbors(query, right));
    assert(crate::index::nearest::distances(near)[0] == near[0].0);
    assert(crate::index::nearest::distances(other)[0] == other[0].0);
    crate::index::ordering::lemma_same_items(left, right, f);
    assert(as_neighbors(query, left) =~= left.map_values(f));
    assert(as_neighbors(query, right) =~= right.map_values(f));
    lemma_closer_same(as_neighbors(query, left), as_neighbors(query, right), worst_of(near) + 1);
}

/// Fewer than five points have a clear border.
proof fn lemma_few_border(query: Seq<i16>, points: Seq<Point>)
    requires
        points.len() < 5,
        all_in_reach(query, points),
    ensures
        clear_border(query, points, worst_of(scan(no_neighbors(), query, points))),
{
    let near = scan(no_neighbors(), query, points);
    lemma_none_closer(0);
    lemma_slots_bounded(no_neighbors(), as_neighbors(query, points));
    lemma_brute_is_nearest(query, points, vacant());
    lemma_few_closer(as_neighbors(query, points), vacant());
    lemma_closer_ranked(near, vacant());
    assert(!(near[0].0 < vacant()));
    lemma_vacant_agreed(query, points);
}

/// Fewer than five references that are ordered, written and loaded again all vote.
pub proof fn lemma_answer_is_vote_of_few(
    references: Seq<Point>,
    stored: Seq<Point>,
    division: Division,
    config: IndexConfig,
    vector: Seq<i16>,
    plans: Plans,
    order: Seq<(i64, usize)>,
)
    requires
        stores(stored, references, division),
        config.wf(),
        plain_references(references),
        labelled(references),
        plain_query(vector),
        loaded(stored, config).has_cells() ==> free_axes(loaded(stored, config).grid->0),
        loaded(stored, config).valid_course(vector, plans, order),
        references.len() < 5,
    ensures
        vote(loaded(stored, config).limited_search(vector, plans, order, None).tour.near) == frauds(references),
        vote(loaded(stored, config).eager_search(vector, plans).near) == frauds(references),
{
    let view = loaded(stored, config);
    let query = scanned(vector);
    let points = scanned_points(references);
    lemma_loaded_is_ready(references, stored, division, config, vector);
    lemma_vote_of_few(references, vector);
    lemma_scan_ignores_order(query, view.points, points);
    assert(view.points.len() == references.len()) by {
        view.points.to_multiset_ensures();
        points.to_multiset_ensures();
    }
    lemma_few_border(query, view.points);
    lemma_vote_ignores_order(query, view.points, points);
    lemma_near_search_is_exact(view, vector, plans, order);
}

} // verus!
