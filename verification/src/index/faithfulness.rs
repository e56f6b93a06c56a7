//! An index holds every point that went into it, where it belongs.
use vstd::prelude::*;
use vstd::seq_lib::lemma_multiset_commutative;

use crate::index::assembly::{divides, divisible, lemma_gathered_len, lemma_regrouped, lemma_same_parts,
    ordered_bucket, parts_of, points_of, regrouped, Divided, SECTORIZE_THRESHOLD};
use crate::index::dividing::{all_ordered, parts_in_place, parts_regrouped};
use crate::index::format::offsets_of;
use crate::index::geometry::{bucket_of_point, cell_of_point, lemma_axis_step_range,
    lemma_bucket_of_point_range, sector_of_point};
use crate::index::grouping::{bucket_key, count_below, gathered, in_key_order, lemma_count_all,
    lemma_count_bounds, lemma_count_split, lemma_gathered, lemma_gathered_unique, lemma_group_of,
    lemma_matching_key, matching, Division, Key};
use crate::index::loading::{built_view, gridded, lemma_parts_valid, sectors_ordered, IndexConfig};
use crate::index::{valid_offsets, Layout, Point, BUCKETS, IVF_CELLS, IVF_SUBCELLS, SECTORS};

verus! {

/// Among ordered points exactly the first ones have a key below a value.
pub proof fn lemma_ordered_count(points: Seq<Point>, key: Key, value: int)
    requires
        in_key_order(points, key),
    ensures
        forall|i: int|
            0 <= i < points.len() ==> (#[trigger] key(points[i]) < value <==> i < count_below(
                points,
                key,
                value,
            )),
    decreases points.len(),
{
    lemma_count_bounds(points, key, value, value);
    if points.len() > 0 {
        let rest = points.drop_last();
        let last = points.len() - 1;
        assert forall|i: int, j: int| 0 <= i <= j < rest.len() implies #[trigger] key(rest[i])
            <= #[trigger] key(rest[j]) by {
            assert(key(points[i]) <= key(points[j]));
        }
        lemma_ordered_count(rest, key, value);
        lemma_count_bounds(rest, key, value, value);
        assert forall|i: int| 0 <= i < points.len() implies (#[trigger] key(points[i]) < value <==> i
            < count_below(points, key, value)) by {
            assert(key(points[i]) <= key(points[last]));
            if i < last {
                assert(key(rest[i]) == key(points[i]));
            }
            if key(points[last]) < value && last > 0 {
                assert(key(points[last - 1]) <= key(points[last]));
                assert(key(rest[last - 1]) < value);
            }
        }
    }
}

/// A group holds each of its points as often as all points do.
proof fn lemma_matching_count(points: Seq<Point>, key: Key, value: int, x: Point)
    ensures
        matching(points, key, value).to_multiset().count(x) == if key(x) == value {
            points.to_multiset().count(x)
        } else {
            0
        },
    decreases points.len(),
{
    broadcast use vstd::multiset::group_multiset_axioms;

    matching(points, key, value).to_multiset_ensures();
    points.to_multiset_ensures();
    if points.len() == 0 {
        assert(matching(points, key, value) =~= points);
    } else {
        let rest = points.drop_last();
        let earlier = matching(rest, key, value);
        lemma_matching_count(rest, key, value, x);
        rest.to_multiset_ensures();
        earlier.to_multiset_ensures();
        assert(points =~= rest.push(points.last()));
    }
}

/// Gathered points hold each point as often as all points do, if its key is among the groups.
proof fn lemma_gathered_count(points: Seq<Point>, key: Key, count: int, x: Point)
    requires
        0 <= key(x),
        0 <= count,
    ensures
        gathered(points, key, count).to_multiset().count(x) == if key(x) < count {
            points.to_multiset().count(x)
        } else {
            0
        },
    decreases count,
{
    broadcast use vstd::multiset::group_multiset_axioms;

    gathered(points, key, count).to_multiset_ensures();
    if count > 0 {
        lemma_gathered_count(points, key, count - 1, x);
        lemma_matching_count(points, key, count - 1, x);
        lemma_multiset_commutative(gathered(points, key, count - 1), matching(points, key, count - 1));
    }
}

/// Gathering only moves points.
proof fn lemma_gathered_same(points: Seq<Point>, division: Division)
    ensures
        gathered(points, division.key(), division.parts()).to_multiset() == points.to_multiset(),
{
    broadcast use vstd::multiset::group_multiset_axioms;

    let all = gathered(points, division.key(), division.parts());
    assert forall|x: Point| all.to_multiset().count(x) == points.to_multiset().count(x) by {
        division.lemma_key_range(x);
        lemma_gathered_count(points, division.key(), division.parts(), x);
    }
    assert(all.to_multiset() =~= points.to_multiset());
}

/// Regrouping only moves points.
proof fn lemma_regrouped_same(
    points: Seq<Point>,
    offsets: Seq<u32>,
    division: Division,
    threshold: int,
    limit: int,
)
    requires
        valid_offsets(offsets, points.len() as int),
        0 <= limit <= BUCKETS,
    ensures
        regrouped(points, offsets, division, threshold, limit).to_multiset() == points.to_multiset(),
    decreases limit,
{
    if limit > 0 {
        let bucket = limit - 1;
        let earlier = regrouped(points, offsets, division, threshold, bucket);
        lemma_regrouped(points, offsets, division, threshold, bucket);
        lemma_regrouped_same(points, offsets, division, threshold, bucket);
        if divides(points, offsets, division, threshold, bucket) {
            let start = offsets[bucket] as int;
            let end = offsets[bucket + 1] as int;
            let own = points_of(points, offsets, bucket);
            let put = gathered(own, division.key(), division.parts());
            assert(offsets[bucket] <= offsets[bucket + 1]);
            assert(offsets[bucket + 1] <= offsets[BUCKETS as int]);
            lemma_gathered_same(own, division);
            lemma_multiset_commutative(earlier.take(start), own);
            lemma_multiset_commutative(earlier.take(start) + own, earlier.skip(end));
            lemma_multiset_commutative(earlier.take(start), put);
            lemma_multiset_commutative(earlier.take(start) + put, earlier.skip(end));
            assert(earlier =~= earlier.take(start) + own + earlier.skip(end));
        }
    }
}

/// The position of a point within its bucket.
proof fn lemma_bucket_position(points: Seq<Point>, offsets: Seq<u32>, bucket: int, i: int)
    requires
        valid_offsets(offsets, points.len() as int),
        0 <= bucket < BUCKETS,
        offsets[bucket] <= i < offsets[bucket + 1],
    ensures
        i < points.len(),
        points_of(points, offsets, bucket)[i - offsets[bucket]] == points[i],
{
    assert(offsets[bucket + 1] <= offsets[BUCKETS as int]);
}

/// Where points stand part by part, the parts hold the points that belong in them.
proof fn lemma_parts_in_place(
    points: Seq<Point>,
    offsets: Seq<u32>,
    division: Division,
    bucket: int,
    part: int,
    i: int,
)
    requires
        points.len() <= u32::MAX,
        valid_offsets(offsets, points.len() as int),
        0 <= bucket < BUCKETS,
        0 <= part < division.parts(),
        ordered_bucket(points, offsets, division, bucket),
        parts_of(points, offsets, division, bucket)[part] <= i < parts_of(
            points,
            offsets,
            division,
            bucket,
        )[part + 1],
    ensures
        division.key()(points[i]) == part,
{
    let own = points_of(points, offsets, bucket);
    let key = division.key();
    let start = offsets[bucket] as int;
    assert(offsets[bucket] <= offsets[bucket + 1]);
    assert(offsets[bucket + 1] <= offsets[BUCKETS as int]);
    lemma_count_bounds(own, key, part, part + 1);
    lemma_count_bounds(own, key, 0, part);
    lemma_ordered_count(own, key, part);
    lemma_ordered_count(own, key, part + 1);
    lemma_bucket_position(points, offsets, bucket, i);
    assert(key(own[i - start]) == key(points[i]));
}

/// Where points were put part by part, the parts hold the points that belong in them.
proof fn lemma_parts_regrouped(
    points: Seq<Point>,
    offsets: Seq<u32>,
    division: Division,
    threshold: int,
    bucket: int,
    part: int,
    i: int,
)
    requires
        points.len() <= u32::MAX,
        valid_offsets(offsets, points.len() as int),
        0 <= bucket < BUCKETS,
        0 <= part < division.parts(),
        divides(points, offsets, division, threshold, bucket),
        parts_of(points, offsets, division, bucket)[part] <= i < parts_of(
            points,
            offsets,
            division,
            bucket,
        )[part + 1],
    ensures
        division.key()(
            regrouped(points, offsets, division, threshold, BUCKETS as int)[i],
        ) == part,
{
    let all = regrouped(points, offsets, division, threshold, BUCKETS as int);
    let own = points_of(points, offsets, bucket);
    let key = division.key();
    let start = offsets[bucket] as int;
    assert(offsets[bucket] <= offsets[bucket + 1]);
    assert(offsets[bucket + 1] <= offsets[BUCKETS as int]);
    assert forall|k: int| 0 <= k < own.len() implies 0 <= #[trigger] key(own[k]) < division.parts() by {
        division.lemma_key_range(own[k]);
    }
    lemma_count_bounds(own, key, part, part + 1);
    lemma_count_bounds(own, key, 0, part);
    lemma_count_bounds(own, key, part + 1, division.parts());
    lemma_count_split(own, key, part);
    lemma_gathered(own, key, division.parts());
    lemma_matching_key(own, key, part);
    lemma_regrouped(points, offsets, division, threshold, BUCKETS as int);
    lemma_bucket_position(all, offsets, bucket, i);
    let j = i - start - count_below(own, key, part);
    assert(gathered(own, key, division.parts())[count_below(own, key, part) + j] == matching(
        own,
        key,
        part,
    )[j]);
    assert(points_of(all, offsets, bucket) == gathered(own, key, division.parts()));
}

/// Every bucket holds points of its own only.
pub open spec fn bucketed(points: Seq<Point>, offsets: Seq<u32>) -> bool {
    &&& valid_offsets(offsets, points.len() as int)
    &&& offsets[0] == 0
    &&& offsets[BUCKETS as int] == points.len()
    &&& forall|b: int, i: int|
        0 <= b < BUCKETS && offsets[b] <= i < offsets[b + 1] ==> #[trigger] belongs(points, b, i)
}

/// A point belongs in a bucket.
pub open spec fn belongs(points: Seq<Point>, bucket: int, i: int) -> bool {
    bucket_of_point(points[i].values@) == bucket
}

/// Points that stand bucket by bucket are where their offsets say.
proof fn lemma_bucketed(points: Seq<Point>)
    requires
        points.len() <= u32::MAX,
        in_key_order(points, bucket_key()),
    ensures
        bucketed(points, offsets_of(points)),
{
    let key = bucket_key();
    let offsets = offsets_of(points);
    assert forall|k: int| 0 <= k < points.len() implies 0 <= #[trigger] key(points[k]) < BUCKETS by {
        lemma_bucket_of_point_range(points[k].values@);
    }
    lemma_count_all(points, key, BUCKETS as int);
    assert forall|a: int, b: int| 0 <= a <= b < offsets.len() implies offsets[a] <= offsets[b] by {
        lemma_count_bounds(points, key, a, b);
        lemma_count_bounds(points, key, b, BUCKETS as int);
    }
    lemma_count_bounds(points, key, 0, BUCKETS as int);
    assert forall|b: int, i: int|
        0 <= b < BUCKETS && offsets[b] <= i < offsets[b + 1] implies #[trigger] belongs(points, b, i) by {
        lemma_count_bounds(points, key, 0, b);
        lemma_count_bounds(points, key, b, b + 1);
        lemma_count_bounds(points, key, b + 1, BUCKETS as int);
        lemma_ordered_count(points, key, b);
        lemma_ordered_count(points, key, b + 1);
        assert(key(points[i]) == b);
    }
}

/// Regrouping leaves every point in its bucket.
proof fn lemma_regrouped_bucketed(
    points: Seq<Point>,
    offsets: Seq<u32>,
    division: Division,
    threshold: int,
)
    requires
        bucketed(points, offsets),
    ensures
        bucketed(regrouped(points, offsets, division, threshold, BUCKETS as int), offsets),
{
    let all = regrouped(points, offsets, division, threshold, BUCKETS as int);
    lemma_regrouped(points, offsets, division, threshold, BUCKETS as int);
    assert forall|b: int, i: int|
        0 <= b < BUCKETS && offsets[b] <= i < offsets[b + 1] implies #[trigger] belongs(all, b, i) by {
        let own = points_of(points, offsets, b);
        let now = points_of(all, offsets, b);
        let k = i - offsets[b];
        lemma_bucket_position(all, offsets, b, i);
        lemma_gathered_same(own, division);
        lemma_gathered_len(own, division);
        own.to_multiset_ensures();
        now.to_multiset_ensures();
        assert(offsets[b + 1] <= offsets[BUCKETS as int]);
        assert(now.contains(now[k]));
        assert(own.to_multiset().count(now[k]) > 0);
        assert(own.contains(now[k]));
        let j = choose|j: int| 0 <= j < own.len() && own[j] == now[k];
        lemma_bucket_position(points, offsets, b, offsets[b] + j);
        assert(belongs(points, b, offsets[b] + j));
    }
}

/// In ordered points a group is a stretch.
proof fn lemma_matching_ordered(points: Seq<Point>, key: Key, value: int)
    requires
        in_key_order(points, key),
    ensures
        matching(points, key, value) == points.subrange(
            count_below(points, key, value),
            count_below(points, key, value + 1),
        ),
    decreases points.len(),
{
    lemma_count_bounds(points, key, value, value + 1);
    let stretch = points.subrange(
        count_below(points, key, value),
        count_below(points, key, value + 1),
    );
    if points.len() == 0 {
        assert(stretch =~= matching(points, key, value));
    } else {
        let rest = points.drop_last();
        let last = points.len() - 1;
        assert forall|i: int, j: int| 0 <= i <= j < rest.len() implies #[trigger] key(rest[i])
            <= #[trigger] key(rest[j]) by {
            assert(key(points[i]) <= key(points[j]));
        }
        lemma_matching_ordered(rest, key, value);
        lemma_count_bounds(rest, key, value, value + 1);
        lemma_ordered_count(rest, key, value);
        lemma_ordered_count(rest, key, value + 1);
        if rest.len() > 0 {
            assert(key(points[last - 1]) <= key(points[last]));
            assert(key(rest[last - 1]) == key(points[last - 1]));
        }
        assert(stretch =~= matching(points, key, value));
    }
}

/// Gathering leaves ordered points as they are.
proof fn lemma_gathered_ordered(points: Seq<Point>, division: Division)
    requires
        in_key_order(points, division.key()),
    ensures
        gathered(points, division.key(), division.parts()) == points,
{
    let key = division.key();
    assert forall|i: int| 0 <= i < points.len() implies 0 <= #[trigger] key(points[i])
        < division.parts() by {
        division.lemma_key_range(points[i]);
    }
    assert forall|c: int, j: int|
        0 <= c < division.parts() && 0 <= j < matching(points, key, c).len() implies points[count_below(
        points,
        key,
        c,
    ) + j] == #[trigger] matching(points, key, c)[j] by {
        lemma_matching_ordered(points, key, c);
        lemma_count_bounds(points, key, c, c + 1);
    }
    lemma_gathered_unique(points, key, division.parts(), points);
}

/// Gathered points are ordered.
proof fn lemma_gathered_in_order(points: Seq<Point>, division: Division)
    ensures
        in_key_order(gathered(points, division.key(), division.parts()), division.key()),
{
    let key = division.key();
    let parts = division.parts();
    let all = gathered(points, key, parts);
    lemma_gathered_len(points, division);
    assert forall|i: int| 0 <= i < points.len() implies 0 <= #[trigger] key(points[i]) < parts by {
        division.lemma_key_range(points[i]);
    }
    lemma_gathered(points, key, parts);
    assert forall|i: int, j: int| 0 <= i <= j < all.len() implies #[trigger] key(all[i])
        <= #[trigger] key(all[j]) by {
        let c = lemma_group_of(points, key, parts, i);
        let d = lemma_group_of(points, key, parts, j);
        lemma_group_key(points, division, c, i);
        lemma_group_key(points, division, d, j);
        if d < c {
            lemma_count_bounds(points, key, d + 1, c);
        }
    }
}

/// A gathered point has the key of its group.
proof fn lemma_group_key(points: Seq<Point>, division: Division, group: int, i: int)
    requires
        0 <= group < division.parts(),
        count_below(points, division.key(), group) <= i < count_below(
            points,
            division.key(),
            group + 1,
        ),
    ensures
        division.key()(gathered(points, division.key(), division.parts())[i]) == group,
{
    let key = division.key();
    assert forall|k: int| 0 <= k < points.len() implies 0 <= #[trigger] key(points[k])
        < division.parts() by {
        division.lemma_key_range(points[k]);
    }
    lemma_gathered(points, key, division.parts());
    lemma_count_split(points, key, group);
    lemma_matching_key(points, key, group);
    let j = i - count_below(points, key, group);
    assert(gathered(points, key, division.parts())[count_below(points, key, group) + j] == matching(
        points,
        key,
        group,
    )[j]);
}

/// Points that stand cell by cell stand sector by sector.
proof fn lemma_cells_in_sectors(points: Seq<Point>, dims: (usize, usize))
    requires
        in_key_order(points, Division::Cells(dims).key()),
    ensures
        in_key_order(points, Division::Sectors.key()),
{
    let cells = Division::Cells(dims).key();
    let sectors = Division::Sectors.key();
    assert forall|i: int, j: int| 0 <= i <= j < points.len() implies #[trigger] sectors(points[i])
        <= #[trigger] sectors(points[j]) by {
        assert(cells(points[i]) <= cells(points[j]));
        lemma_subcell_range(points[i].values@, dims);
        lemma_subcell_range(points[j].values@, dims);
    }
}

/// The cell of a point lies in its sector.
proof fn lemma_subcell_range(values: Seq<i16>, dims: (usize, usize))
    ensures
        sector_of_point(values) * IVF_SUBCELLS <= cell_of_point(values, dims) < (sector_of_point(values)
            + 1) * IVF_SUBCELLS,
{
    lemma_axis_step_range(values[dims.0 as int] as int, 2_500, 4);
    lemma_axis_step_range(values[dims.1 as int] as int, 2_500, 4);
}

/// Putting the points sector by sector moves nothing in a bucket that was put cell by cell.
proof fn lemma_cells_stay(
    points: Seq<Point>,
    offsets: Seq<u32>,
    dims: (usize, usize),
    threshold: int,
    bucket: int,
    i: int,
)
    requires
        valid_offsets(offsets, points.len() as int),
        0 <= bucket < BUCKETS,
        divides(points, offsets, Division::Cells(dims), threshold, bucket),
        offsets[bucket] <= i < offsets[bucket + 1],
    ensures
        ({
            let middle = regrouped(points, offsets, Division::Cells(dims), threshold, BUCKETS as int);
            let all = regrouped(
                middle,
                offsets,
                Division::Sectors,
                SECTORIZE_THRESHOLD as int,
                BUCKETS as int,
            );
            all[i] == middle[i]
        }),
{
    let large = SECTORIZE_THRESHOLD as int;
    let middle = regrouped(points, offsets, Division::Cells(dims), threshold, BUCKETS as int);
    let all = regrouped(middle, offsets, Division::Sectors, large, BUCKETS as int);
    lemma_regrouped(points, offsets, Division::Cells(dims), threshold, BUCKETS as int);
    lemma_regrouped(middle, offsets, Division::Sectors, large, BUCKETS as int);
    let own = points_of(points, offsets, bucket);
    let put = points_of(middle, offsets, bucket);
    lemma_gathered_in_order(own, Division::Cells(dims));
    lemma_cells_in_sectors(put, dims);
    lemma_gathered_ordered(put, Division::Sectors);
    assert(points_of(all, offsets, bucket) == put);
    lemma_bucket_position(all, offsets, bucket, i);
    lemma_bucket_position(middle, offsets, bucket, i);
}

/// Regrouping moves nothing where the large buckets stand part by part.
proof fn lemma_regrouped_ordered(
    points: Seq<Point>,
    offsets: Seq<u32>,
    division: Division,
    threshold: int,
    limit: int,
)
    requires
        valid_offsets(offsets, points.len() as int),
        0 <= limit <= BUCKETS,
        all_ordered(points, offsets, division, threshold, BUCKETS as int),
    ensures
        regrouped(points, offsets, division, threshold, limit) == points,
    decreases limit,
{
    if limit > 0 {
        let bucket = limit - 1;
        lemma_regrouped_ordered(points, offsets, division, threshold, bucket);
        if divides(points, offsets, division, threshold, bucket) {
            let start = offsets[bucket] as int;
            let end = offsets[bucket + 1] as int;
            let own = points_of(points, offsets, bucket);
            assert(offsets[bucket] <= offsets[bucket + 1]);
            assert(offsets[bucket + 1] <= offsets[BUCKETS as int]);
            assert(divisible(offsets, threshold, bucket));
            lemma_gathered_ordered(own, division);
            assert(points =~= points.take(start) + own + points.skip(end));
        }
    }
}

/// Where the large buckets already stand part by part, dividing them in place and dividing them anew
/// come to the same: no point moves, and every bucket has the same parts.
pub proof fn lemma_dividing_in_place_is_dividing(
    points: Seq<Point>,
    offsets: Seq<u32>,
    division: Division,
    threshold: int,
)
    requires
        valid_offsets(offsets, points.len() as int),
        all_ordered(points, offsets, division, threshold, BUCKETS as int),
    ensures
        regrouped(points, offsets, division, threshold, BUCKETS as int) == points,
        forall|b: int|
            0 <= b < BUCKETS ==> #[trigger] parts_in_place(points, offsets, division, threshold, b)
                == parts_regrouped(points, offsets, division, threshold, b),
{
    lemma_regrouped_ordered(points, offsets, division, threshold, BUCKETS as int);
    assert forall|b: int| 0 <= b < BUCKETS implies #[trigger] parts_in_place(
        points,
        offsets,
        division,
        threshold,
        b,
    ) == parts_regrouped(points, offsets, division, threshold, b) by {
        if divides(points, offsets, division, threshold, b) {
            assert(divisible(offsets, threshold, b));
        }
    }
}

/// Sectors found in ordered points are those that putting the points sector by sector gives, slot by
/// slot, and that moves nothing.
pub proof fn lemma_sectors_in_place(points: Seq<Point>, offsets: Seq<u32>, found: Divided, made: Divided)
    requires
        valid_offsets(offsets, points.len() as int),
        sectors_ordered(points, offsets),
        found.wf(),
        made.wf(),
        forall|b: int|
            0 <= b < BUCKETS ==> #[trigger] found.parts(b) == parts_in_place(
                points,
                offsets,
                Division::Sectors,
                SECTORIZE_THRESHOLD as int,
                b,
            ),
        forall|b: int|
            0 <= b < BUCKETS ==> #[trigger] made.parts(b) == parts_regrouped(
                points,
                offsets,
                Division::Sectors,
                SECTORIZE_THRESHOLD as int,
                b,
            ),
    ensures
        regrouped(
            points,
            offsets,
            Division::Sectors,
            SECTORIZE_THRESHOLD as int,
            BUCKETS as int,
        ) == points,
        found.map@ == made.map@,
        found.buckets@.len() == made.buckets@.len(),
        forall|i: int|
            0 <= i < found.buckets@.len() ==> (#[trigger] found.buckets@[i]).offsets@
                == made.buckets@[i].offsets@,
{
    let large = SECTORIZE_THRESHOLD as int;
    lemma_dividing_in_place_is_dividing(points, offsets, Division::Sectors, large);
    assert forall|b: int| 0 <= b < BUCKETS implies #[trigger] found.parts(b) == made.parts(b) by {
        assert(made.parts(b) == parts_regrouped(points, offsets, Division::Sectors, large, b));
        assert(parts_in_place(points, offsets, Division::Sectors, large, b) == parts_regrouped(
            points,
            offsets,
            Division::Sectors,
            large,
            b,
        ));
    }
    lemma_same_parts(found, made);
}

/// The points of an index are the points that went into it.
pub proof fn lemma_built_keeps_points(points: Seq<Point>, offsets: Seq<u32>, config: IndexConfig)
    requires
        valid_offsets(offsets, points.len() as int),
    ensures
        built_view(points, offsets, config).points.to_multiset() == points.to_multiset(),
        built_view(points, offsets, config).points.len() == points.len(),
{
    let middle = gridded(points, offsets, config);
    if let Some(dims) = config.grid {
        let threshold = config.grid_threshold as int;
        lemma_regrouped(points, offsets, Division::Cells(dims), threshold, BUCKETS as int);
        lemma_regrouped_same(points, offsets, Division::Cells(dims), threshold, BUCKETS as int);
    }
    lemma_regrouped(middle, offsets, Division::Sectors, SECTORIZE_THRESHOLD as int, BUCKETS as int);
    lemma_regrouped_same(
        middle,
        offsets,
        Division::Sectors,
        SECTORIZE_THRESHOLD as int,
        BUCKETS as int,
    );
}

/// A part of a bucket lies within the bucket.
proof fn lemma_part_in_bucket(
    points: Seq<Point>,
    offsets: Seq<u32>,
    division: Division,
    bucket: int,
    part: int,
    i: int,
)
    requires
        valid_offsets(offsets, points.len() as int),
        0 <= bucket < BUCKETS,
        0 <= part < division.parts(),
        parts_of(points, offsets, division, bucket)[part] <= i < parts_of(
            points,
            offsets,
            division,
            bucket,
        )[part + 1],
    ensures
        offsets[bucket] <= i < offsets[bucket + 1],
{
    lemma_parts_valid(points, offsets, division, bucket);
    let parts = parts_of(points, offsets, division, bucket);
    assert(parts[0] <= parts[part]);
    assert(parts[part + 1] <= parts[division.parts()]);
}

/// The parts of the divided buckets are valid and hold what belongs in them.
proof fn lemma_built_layouts(points: Seq<Point>, offsets: Seq<u32>, config: IndexConfig, bucket: int)
    requires
        points.len() <= u32::MAX,
        config.wf(),
        bucketed(points, offsets),
        0 <= bucket < BUCKETS,
    ensures
        built_view(points, offsets, config).valid_layout(bucket),
        built_view(points, offsets, config).faithful_layout(bucket),
{
    let view = built_view(points, offsets, config);
    let middle = gridded(points, offsets, config);
    let sectors = Division::Sectors;
    let large = SECTORIZE_THRESHOLD as int;
    let mapped = config.use_mmap && sectors_ordered(points, offsets);
    let ordered = sectors_ordered(middle, offsets);
    if let Some(dims) = config.grid {
        lemma_regrouped(
            points,
            offsets,
            Division::Cells(dims),
            config.grid_threshold as int,
            BUCKETS as int,
        );
        lemma_parts_valid(points, offsets, Division::Cells(dims), bucket);
    }
    lemma_parts_valid(points, offsets, sectors, bucket);
    lemma_parts_valid(middle, offsets, sectors, bucket);
    match view.layouts[bucket] {
        Layout::Whole => {},
        Layout::Sectors(parts) => {
            assert forall|p: int, i: int|
                0 <= p < SECTORS && #[trigger] view.part_has(
                    parts,
                    p,
                    i,
                ) implies sector_of_point(view.points[i].values@) == p by {
                if mapped {
                    lemma_parts_in_place(points, offsets, sectors, bucket, p, i);
                } else if ordered {
                    lemma_parts_in_place(middle, offsets, sectors, bucket, p, i);
                } else {
                    lemma_parts_regrouped(middle, offsets, sectors, large, bucket, p, i);
                }
            }
        },
        Layout::Cells(parts) => {
            let dims = config.grid->0;
            let cells = Division::Cells(dims);
            assert forall|p: int, i: int|
                0 <= p < IVF_CELLS && #[trigger] view.part_has(
                    parts,
                    p,
                    i,
                ) implies cell_of_point(view.points[i].values@, dims) == p by {
                if mapped {
                    lemma_parts_in_place(points, offsets, cells, bucket, p, i);
                } else {
                    let threshold = config.grid_threshold as int;
                    lemma_parts_regrouped(points, offsets, cells, threshold, bucket, p, i);
                    lemma_part_in_bucket(points, offsets, cells, bucket, p, i);
                    if !ordered {
                        lemma_cells_stay(points, offsets, dims, threshold, bucket, i);
                    }
                }
            }
        },
    }
}

/// An index over points that stand bucket by bucket holds every point in its bucket and in its part
/// of the bucket.
pub proof fn lemma_built_is_faithful(points: Seq<Point>, config: IndexConfig)
    requires
        points.len() <= u32::MAX,
        config.wf(),
        in_key_order(points, bucket_key()),
    ensures
        built_view(points, offsets_of(points), config).faithful(),
{
    let offsets = offsets_of(points);
    let view = built_view(points, offsets, config);
    let middle = gridded(points, offsets, config);
    lemma_bucketed(points);
    lemma_built_keeps_points(points, offsets, config);
    if let Some(dims) = config.grid {
        lemma_regrouped_bucketed(
            points,
            offsets,
            Division::Cells(dims),
            config.grid_threshold as int,
        );
    }
    lemma_regrouped_bucketed(middle, offsets, Division::Sectors, SECTORIZE_THRESHOLD as int);
    assert(bucketed(view.points, offsets));
    assert forall|b: int, i: int|
        0 <= b < BUCKETS && #[trigger] view.bucket_has(b, i) implies bucket_of_point(
        view.points[i].values@,
    ) == b by {
        assert(belongs(view.points, b, i));
    }
    assert forall|b: int| 0 <= b < BUCKETS implies #[trigger] view.valid_layout(b) by {
        lemma_built_layouts(points, offsets, config, b);
    }
    assert forall|b: int| 0 <= b < BUCKETS implies #[trigger] view.faithful_layout(b) by {
        lemma_built_layouts(points, offsets, config, b);
    }
}

} // verus!
