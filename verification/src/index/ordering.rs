//! Putting points in the order in which an index keeps them.
use vstd::prelude::*;

use crate::index::geometry::{bucket_of_point, point_bucket, scan_order, scanned};
use crate::index::grouping::{bucket_key, in_key_order, Division, Key};
use crate::index::plan::sort_by_first;
use crate::index::{Point, DIMS};

verus! {

/// A point with its values in scan order.
pub open spec fn scanned_point(point: Point) -> Point {
    let v = point.values@;
    Point {
        values: [
            v[5], v[6], v[0], v[2], v[7], v[8], v[12], v[1], v[11], v[9], v[10], v[3], v[4], v[13],
        ],
        label: point.label,
        reserved: point.reserved,
    }
}

/// Points with their values in scan order.
pub open spec fn scanned_points(points: Seq<Point>) -> Seq<Point> {
    points.map_values(|point: Point| scanned_point(point))
}

/// Bucket first, then the part of a division within the bucket.
pub open spec fn storage_key(division: Division) -> Key {
    |point: Point| bucket_of_point(point.values@) * division.parts() + division.key()(point)
}

/// Applying a function keeps equal multisets equal.
pub proof fn lemma_same_items<A, B>(left: Seq<A>, right: Seq<A>, f: spec_fn(A) -> B)
    requires
        left.to_multiset() == right.to_multiset(),
    ensures
        left.map_values(f).to_multiset() == right.map_values(f).to_multiset(),
    decreases left.len(),
{
    broadcast use vstd::multiset::group_multiset_axioms;

    left.to_multiset_ensures();
    right.to_multiset_ensures();
    if left.len() == 0 {
        assert(left.map_values(f) =~= right.map_values(f));
    } else {
        let last = left.last();
        let rest = left.drop_last();
        assert(left.contains(last));
        assert(right.to_multiset().count(last) > 0);
        assert(right.contains(last));
        let i = choose|i: int| 0 <= i < right.len() && right[i] == last;
        let other = right.remove(i);
        rest.to_multiset_ensures();
        assert(rest.push(last) =~= left);
        assert(left.to_multiset() =~= rest.to_multiset().insert(last));
        assert(other.to_multiset() =~= right.to_multiset().remove(last));
        assert(rest.to_multiset() =~= other.to_multiset());
        lemma_same_items(rest, other, f);
        let left_image = left.map_values(f);
        let right_image = right.map_values(f);
        assert(left_image =~= rest.map_values(f).push(f(last)));
        assert(right_image.remove(i) =~= other.map_values(f));
        rest.map_values(f).to_multiset_ensures();
        right_image.to_multiset_ensures();
        assert(right_image[i] == f(last));
        assert(right_image.contains(f(last)));
        assert(right_image.to_multiset().remove(f(last)) =~= other.map_values(f).to_multiset());
        assert(right_image.to_multiset() =~= other.map_values(f).to_multiset().insert(f(last)));
    }
}

/// The scan-order values of a point, as an array.
pub proof fn lemma_scanned_point(point: Point)
    ensures
        scanned_point(point).values@ == scanned(point.values@),
{
    assert(scanned_point(point).values@ =~= scanned(point.values@));
}

/// Puts points in scan order and orders them by bucket and part.
fn order_points(points: &mut [Point], division: Division)
    requires
        division.wf(),
    ensures
        final(points)@.to_multiset() == scanned_points(old(points)@).to_multiset(),
        final(points)@.len() == old(points)@.len(),
        in_key_order(final(points)@, storage_key(division)),
{
    let ghost before = points@;
    let ghost key = storage_key(division);
    let ghost value = |pair: (i64, Point)| pair.1;
    let parts: usize = division.part_count();
    let mut pairs: Vec<(i64, Point)> = Vec::new();
    let mut i: usize = 0;
    while i < points.len()
        invariant
            i <= points@.len(),
            points@ == before,
            division.wf(),
            parts == division.parts(),
            key == storage_key(division),
            pairs@.len() == i,
            forall|k: int|
                0 <= k < i ==> (#[trigger] pairs@[k]).1 == scanned_point(before[k]) && pairs@[k].0
                    == key(pairs@[k].1),
        decreases points@.len() - i,
    {
        let values: [i16; DIMS] = scan_order(&points[i].values);
        let point = Point { values, label: points[i].label, reserved: points[i].reserved };
        proof {
            lemma_scanned_point(before[i as int]);
            assert(point.values =~= scanned_point(before[i as int]).values);
        }
        let bucket: usize = point_bucket(&point.values);
        let part: usize = division.part_of(&point);
        assert(0 <= bucket * parts <= 26_880 * 1_024) by (nonlinear_arith)
            requires
                0 <= bucket < 26_880,
                0 <= parts <= 1_024,
        ;
        pairs.push(((bucket * parts + part) as i64, point));
        i = i + 1;
    }
    let ghost listing = pairs@;
    assert(listing.map_values(value) =~= scanned_points(before));
    sort_by_first(&mut pairs);
    proof {
        lemma_same_items(pairs@, listing, value);
        crate::index::plan::lemma_ordering(pairs@, listing);
        assert forall|k: int| 0 <= k < pairs@.len() implies (#[trigger] pairs@[k]).0 == key(
            pairs@[k].1,
        ) by {
            assert(listing.contains(pairs@[k]));
        }
    }
    let mut i: usize = 0;
    while i < pairs.len()
        invariant
            i <= pairs@.len(),
            pairs@.len() == before.len(),
            points@.len() == before.len(),
            forall|k: int| 0 <= k < i ==> #[trigger] points@[k] == pairs@[k].1,
        decreases pairs@.len() - i,
    {
        points[i] = pairs[i].1;
        i = i + 1;
    }
    proof {
        assert(points@ =~= pairs@.map_values(value));
        assert forall|a: int, b: int| 0 <= a <= b < points@.len() implies #[trigger] key(points@[a])
            <= #[trigger] key(points@[b]) by {
            assert(pairs@[a].0 <= pairs@[b].0);
        }
    }
}

/// Puts feature vectors in scan order, ordered by bucket and by sector within a bucket.
pub fn order_points_by_bucket(points: &mut [Point])
    ensures
        final(points)@.to_multiset() == scanned_points(old(points)@).to_multiset(),
        final(points)@.len() == old(points)@.len(),
        in_key_order(final(points)@, storage_key(Division::Sectors)),
{
    order_points(points, Division::Sectors)
}

/// Puts feature vectors in scan order, ordered by bucket and by grid cell within a bucket.
pub fn order_points_by_bucket_ivf(points: &mut [Point], dims: (usize, usize))
    requires
        dims.0 < DIMS,
        dims.1 < DIMS,
    ensures
        final(points)@.to_multiset() == scanned_points(old(points)@).to_multiset(),
        final(points)@.len() == old(points)@.len(),
        in_key_order(final(points)@, storage_key(Division::Cells(dims))),
{
    order_points(points, Division::Cells(dims))
}

/// Points ordered by bucket and part are ordered by bucket.
pub proof fn lemma_storage_order(points: Seq<Point>, division: Division)
    requires
        in_key_order(points, storage_key(division)),
    ensures
        in_key_order(points, bucket_key()),
{
    let key = storage_key(division);
    let parts = division.parts();
    assert forall|a: int, b: int| 0 <= a <= b < points.len() implies #[trigger] bucket_key()(points[a])
        <= #[trigger] bucket_key()(points[b]) by {
        assert(key(points[a]) <= key(points[b]));
        division.lemma_key_range(points[a]);
        division.lemma_key_range(points[b]);
        let left = bucket_of_point(points[a].values@);
        let right = bucket_of_point(points[b].values@);
        let low = division.key()(points[a]);
        let high = division.key()(points[b]);
        if left > right {
            assert(left * parts >= right * parts + parts) by (nonlinear_arith)
                requires
                    left >= right + 1,
                    parts > 0,
            ;
        }
    }
}

} // verus!
