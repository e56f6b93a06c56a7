//! From references to answers: what is ordered, written, loaded and searched is found.
use vstd::prelude::*;

use crate::index::buckets::Plans;
use crate::index::exactness::{lemma_eager_search_is_exact, lemma_sorted_search_is_exact};
use crate::index::faithfulness::{lemma_built_is_faithful, lemma_built_keeps_points};
use crate::index::format::{index_bytes, lemma_write_load, offsets_of, stored_offsets, stored_points,
    INDEX_HEADER_LEN, POINT_LEN};
use crate::index::geometry::scanned;
use crate::index::grouping::{in_key_order, Division};
use crate::index::kernels::{all_in_reach, in_reach};
use crate::index::loading::{built_view, IndexConfig};
use crate::index::nearest::{closer, distances, lemma_brute_is_nearest, lemma_equal_counts,
    lemma_none_closer, lemma_slots_bounded};
use crate::index::neighbors::{as_neighbor, as_neighbors, lemma_absorb, no_neighbors, scan, vacant, vote,
    worst_of, Neighbor};
use crate::index::ordering::{lemma_same_items, lemma_scanned_point, lemma_storage_order,
    scanned_points, storage_key};
use crate::index::soundness::{free_axes, has_last, on_grid, plain_query};
use crate::index::votes::{agreed, clear_border, lemma_border_slot, lemma_few_label_sum,
    lemma_labels_absorb, lemma_labels_same, lemma_no_labels, lemma_same_label_sum, lemma_vacant_agreed};
use crate::index::{IndexView, Point, DIMS};

verus! {

/// Taking one neighbour out lowers the count by it.
proof fn lemma_closer_without(items: Seq<Neighbor>, i: int, dist: int)
    requires
        0 <= i < items.len(),
    ensures
        closer(items, dist) == closer(items.remove(i), dist) + if items[i].0 < dist { 1int } else { 0 },
    decreases items.len(),
{
    if i == items.len() - 1 {
        assert(items.remove(i) =~= items.drop_last());
    } else {
        lemma_closer_without(items.drop_last(), i, dist);
        assert(items.remove(i).drop_last() =~= items.drop_last().remove(i));
        assert(items.remove(i).last() == items.last());
    }
}

/// How many neighbours are nearer than a distance does not depend on their order.
pub(crate) proof fn lemma_closer_same(left: Seq<Neighbor>, right: Seq<Neighbor>, dist: int)
    requires
        left.to_multiset() == right.to_multiset(),
    ensures
        closer(left, dist) == closer(right, dist),
    decreases left.len(),
{
    broadcast use vstd::multiset::group_multiset_axioms;

    left.to_multiset_ensures();
    right.to_multiset_ensures();
    assert(left.len() == right.len());
    if left.len() > 0 {
        let last = left.last();
        let rest = left.drop_last();
        assert(left.contains(last));
        assert(right.to_multiset().count(last) > 0);
        assert(right.contains(last));
        let i = choose|i: int| 0 <= i < right.len() && right[i] == last;
        let other = right.remove(i);
        rest.to_multiset_ensures();
        assert(rest.push(last) =~= left);
        assert(left.to_multiset() =~= rest.to_multiset().insert(last));
        assert(other.to_multiset() =~= right.to_multiset().remove(last));
        assert(rest.to_multiset() =~= other.to_multiset());
        lemma_closer_same(rest, other, dist);
        lemma_closer_without(right, i, dist);
    }
}

/// The distances of the five nearest points do not depend on the order of the points.
pub proof fn lemma_scan_ignores_order(query: Seq<i16>, left: Seq<Point>, right: Seq<Point>)
    requires
        left.to_multiset() == right.to_multiset(),
    ensures
        distances(scan(no_neighbors(), query, left)) == distances(scan(no_neighbors(), query, right)),
{
    let f = |point: Point| as_neighbor(query, point);
    lemma_same_items(left, right, f);
    assert(as_neighbors(query, left) =~= left.map_values(f));
    assert(as_neighbors(query, right) =~= right.map_values(f));
    lemma_none_closer(0);
    lemma_absorb(no_neighbors(), as_neighbors(query, left));
    lemma_absorb(no_neighbors(), as_neighbors(query, right));
    lemma_slots_bounded(no_neighbors(), as_neighbors(query, left));
    lemma_slots_bounded(no_neighbors(), as_neighbors(query, right));
    let near = scan(no_neighbors(), query, left);
    let other = scan(no_neighbors(), query, right);
    assert forall|dist: int| dist <= vacant() implies #[trigger] closer(near, dist) == closer(
        other,
        dist,
    ) by {
        lemma_brute_is_nearest(query, left, dist);
        lemma_brute_is_nearest(query, right, dist);
        lemma_closer_same(as_neighbors(query, left), as_neighbors(query, right), dist);
    }
    lemma_equal_counts(near, other);
}

/// The vote of the five nearest points does not depend on the order of the points, where points as
/// far as the fifth agree.
proof fn lemma_agreed_vote_ignores_order(query: Seq<i16>, left: Seq<Point>, right: Seq<Point>)
    requires
        left.to_multiset() == right.to_multiset(),
        all_in_reach(query, left),
        agreed(query, left, worst_of(scan(no_neighbors(), query, left))),
    ensures
        vote(scan(no_neighbors(), query, left)) == vote(scan(no_neighbors(), query, right)),
{
    let f = |point: Point| as_neighbor(query, point);
    let near = scan(no_neighbors(), query, left);
    let other = scan(no_neighbors(), query, right);
    let dist = worst_of(near);
    lemma_same_items(left, right, f);
    assert(as_neighbors(query, left) =~= left.map_values(f));
    assert(as_neighbors(query, right) =~= right.map_values(f));
    lemma_none_closer(0);
    lemma_absorb(no_neighbors(), as_neighbors(query, left));
    lemma_absorb(no_neighbors(), as_neighbors(query, right));
    lemma_slots_bounded(no_neighbors(), as_neighbors(query, left));
    lemma_scan_ignores_order(query, left, right);
    assert(distances(near)[0] == near[0].0 && distances(other)[0] == other[0].0);
    lemma_no_labels(dist);
    lemma_labels_absorb(no_neighbors(), as_neighbors(query, left), dist);
    lemma_labels_absorb(no_neighbors(), as_neighbors(query, right), dist);
    lemma_labels_same(as_neighbors(query, left), as_neighbors(query, right), dist);
    left.to_multiset_ensures();
    right.to_multiset_ensures();
    assert forall|x: Point| right.contains(x) implies #[trigger] left.contains(x) by {
        assert(right.to_multiset().count(x) > 0);
        assert(left.to_multiset().count(x) > 0);
    }
    assert forall|i: int| 0 <= i < 5 && #[trigger] near[i].0 == worst_of(near) implies near[i].1
        == other[i].1 by {
        assert(distances(near)[i] == near[i].0 && distances(other)[i] == other[i].0);
        lemma_border_slot(query, left, left, i, dist);
        lemma_border_slot(query, left, right, i, dist);
    }
    lemma_same_label_sum(near, other);
}

/// The vote of the five nearest points does not depend on the order of the points, unless points as
/// far as the fifth disagree and a sixth is as near.
pub proof fn lemma_vote_ignores_order(query: Seq<i16>, left: Seq<Point>, right: Seq<Point>)
    requires
        left.to_multiset() == right.to_multiset(),
        all_in_reach(query, left),
        clear_border(query, left, worst_of(scan(no_neighbors(), query, left))),
    ensures
        vote(scan(no_neighbors(), query, left)) == vote(scan(no_neighbors(), query, right)),
{
    let f = |point: Point| as_neighbor(query, point);
    let near = scan(no_neighbors(), query, left);
    let other = scan(no_neighbors(), query, right);
    let dist = worst_of(near);
    lemma_none_closer(0);
    lemma_absorb(no_neighbors(), as_neighbors(query, left));
    lemma_absorb(no_neighbors(), as_neighbors(query, right));
    lemma_slots_bounded(no_neighbors(), as_neighbors(query, left));
    if agreed(query, left, dist) {
        lemma_agreed_vote_ignores_order(query, left, right);
    } else if dist == vacant() {
        lemma_vacant_agreed(query, left);
    } else {
        lemma_same_items(left, right, f);
        assert(as_neighbors(query, left) =~= left.map_values(f));
        assert(as_neighbors(query, right) =~= right.map_values(f));
        lemma_scan_ignores_order(query, left, right);
        assert(distances(near)[0] == near[0].0 && distances(other)[0] == other[0].0);
        lemma_closer_same(as_neighbors(query, left), as_neighbors(query, right), dist + 1);
        lemma_labels_same(as_neighbors(query, left), as_neighbors(query, right), dist + 1);
        lemma_few_label_sum(query, left);
        lemma_few_label_sum(query, right);
    }
}

/// References are stored in an index file: all of them, in scan order, bucket by bucket and part by
/// part.
pub open spec fn stores(stored: Seq<Point>, references: Seq<Point>, division: Division) -> bool {
    &&& stored.to_multiset() == scanned_points(references).to_multiset()
    &&& in_key_order(stored, storage_key(division))
    &&& stored.len() <= u32::MAX
    &&& INDEX_HEADER_LEN + stored.len() * POINT_LEN <= usize::MAX
}

/// The index that is loaded from the file of some points.
pub open spec fn loaded(stored: Seq<Point>, config: IndexConfig) -> IndexView {
    built_view(stored_points(index_bytes(stored)), stored_offsets(index_bytes(stored)), config)
}

/// Every reference has values such as features have.
pub open spec fn plain_references(references: Seq<Point>) -> bool {
    forall|i: int| 0 <= i < references.len() ==> on_grid(scanned((#[trigger] references[i]).values@))
}

/// A query fits an index: it is plain, it has an earlier transaction unless no bucket is divided, and
/// the axes of a cell grid are free.
pub open spec fn fits(index: IndexView, vector: Seq<i16>) -> bool {
    &&& plain_query(vector)
    &&& has_last(vector) || index.undivided()
    &&& index.has_cells() ==> free_axes(index.grid->0)
}

/// Values on the grid are in reach of every query.
pub(crate) proof fn lemma_grid_in_reach(query: Seq<i16>, values: Seq<i16>)
    requires
        on_grid(values),
    ensures
        in_reach(query, values),
{
    assert forall|d: int| 0 <= d < DIMS implies -46_340 <= query[d] - #[trigger] values[d] <= 46_340 by {
        assert(-10_000 <= values[d] <= 10_000);
    }
}

/// Points that are plain references in scan order have values on the grid.
proof fn lemma_points_on_grid(points: Seq<Point>, references: Seq<Point>)
    requires
        points.to_multiset() == scanned_points(references).to_multiset(),
        plain_references(references),
    ensures
        forall|i: int| 0 <= i < points.len() ==> on_grid(#[trigger] points[i].values@),
{
    let given = scanned_points(references);
    points.to_multiset_ensures();
    given.to_multiset_ensures();
    assert forall|i: int| 0 <= i < points.len() implies on_grid(#[trigger] points[i].values@) by {
        let x = points[i];
        assert(points.contains(x));
        assert(given.to_multiset().count(x) > 0);
        assert(given.contains(x));
        let k = choose|k: int| 0 <= k < given.len() && given[k] == x;
        assert(on_grid(scanned(references[k].values@)));
        lemma_scanned_point(references[k]);
    }
}

/// A loaded index is ready for plain queries.
pub(crate) proof fn lemma_loaded_is_ready(
    references: Seq<Point>,
    stored: Seq<Point>,
    division: Division,
    config: IndexConfig,
    vector: Seq<i16>,
)
    requires
        stores(stored, references, division),
        config.wf(),
        plain_references(references),
        plain_query(vector),
        loaded(stored, config).has_cells() ==> free_axes(loaded(stored, config).grid->0),
    ensures
        loaded(stored, config).ready_for(vector),
        loaded(stored, config).points.to_multiset() == scanned_points(references).to_multiset(),
{
    let view = loaded(stored, config);
    lemma_write_load(stored);
    lemma_storage_order(stored, division);
    lemma_built_is_faithful(stored, config);
    lemma_built_keeps_points(stored, offsets_of(stored), config);
    lemma_points_on_grid(view.points, references);
    assert(view.admits(vector)) by {
        assert forall|i: int| 0 <= i < view.points.len() implies in_reach(
            scanned(vector),
            #[trigger] view.points[i].values@,
        ) by {
            lemma_grid_in_reach(scanned(vector), view.points[i].values@);
        }
    }
}

/// The bounds of a loaded index hold for the queries that fit it.
proof fn lemma_loaded_bounds_hold(
    references: Seq<Point>,
    stored: Seq<Point>,
    division: Division,
    config: IndexConfig,
    vector: Seq<i16>,
)
    requires
        stores(stored, references, division),
        config.wf(),
        plain_references(references),
        fits(loaded(stored, config), vector),
    ensures
        loaded(stored, config).bounds_hold(vector),
        loaded(stored, config).points.to_multiset() == scanned_points(references).to_multiset(),
{
    lemma_loaded_is_ready(references, stored, division, config, vector);
}

/// References that are ordered, written and loaded again are found: a search without a limit gives
/// the distances of the five nearest references, and their vote, unless references as far as the
/// fifth disagree and a sixth is as near.
pub proof fn lemma_references_are_found(
    references: Seq<Point>,
    stored: Seq<Point>,
    division: Division,
    config: IndexConfig,
    vector: Seq<i16>,
    plans: Plans,
    order: Seq<(i64, usize)>,
)
    requires
        stores(stored, references, division),
        config.wf(),
        plain_references(references),
        fits(loaded(stored, config), vector),
        loaded(stored, config).valid_course(vector, plans, order),
    ensures
        distances(loaded(stored, config).limited_search(vector, plans, order, None).tour.near)
            == distances(scan(no_neighbors(), scanned(vector), scanned_points(references))),
        distances(loaded(stored, config).eager_search(vector, plans).near) == distances(
            scan(no_neighbors(), scanned(vector), scanned_points(references)),
        ),
        loaded(stored, config).border_clear(vector) ==> vote(
            loaded(stored, config).limited_search(vector, plans, order, None).tour.near,
        ) == vote(scan(no_neighbors(), scanned(vector), scanned_points(references))) && vote(
            loaded(stored, config).eager_search(vector, plans).near,
        ) == vote(scan(no_neighbors(), scanned(vector), scanned_points(references))),
{
    let view = loaded(stored, config);
    lemma_loaded_bounds_hold(references, stored, division, config, vector);
    lemma_sorted_search_is_exact(view, vector, plans, order);
    lemma_eager_search_is_exact(view, vector, plans);
    lemma_scan_ignores_order(scanned(vector), view.points, scanned_points(references));
    if view.border_clear(vector) {
        lemma_vote_ignores_order(scanned(vector), view.points, scanned_points(references));
    }
}

} // verus!
