//! Counting points by a key and putting them in groups of equal keys.
use vstd::prelude::*;

use crate::index::geometry::{bucket_of_point, cell_of_point, ivf_cell, lemma_axis_step_range,
    point_sector, sector_of_point};
use crate::index::{Point, DIMS, IVF_CELLS, SECTORS};

verus! {

/// A number by which points are grouped.
pub type Key = spec_fn(Point) -> int;

/// The coarse bucket of a point.
pub open spec fn bucket_key() -> Key {
    |point: Point| bucket_of_point(point.values@)
}

/// How the points of a bucket are divided: by sector or by grid cell.
#[derive(Clone, Copy)]
pub enum Division {
    Sectors,
    Cells((usize, usize)),
}

impl Division {
    /// The key of the division.
    pub open spec fn key(self) -> Key {
        match self {
            Division::Sectors => |point: Point| sector_of_point(point.values@),
            Division::Cells(dims) => |point: Point| cell_of_point(point.values@, dims),
        }
    }

    /// The number of parts.
    pub open spec fn parts(self) -> int {
        match self {
            Division::Sectors => SECTORS as int,
            Division::Cells(_) => IVF_CELLS as int,
        }
    }

    /// The axes of the division exist.
    pub open spec fn wf(self) -> bool {
        self matches Division::Cells(dims) ==> dims.0 < DIMS && dims.1 < DIMS
    }

    /// The part that a point belongs to.
    pub fn part_of(self, point: &Point) -> (part: usize)
        requires
            self.wf(),
        ensures
            part == self.key()(*point),
            part < self.parts(),
    {
        match self {
            Division::Sectors => point_sector(&point.values),
            Division::Cells(dims) => ivf_cell(&point.values, dims),
        }
    }

    /// The number of parts.
    pub fn part_count(self) -> (count: usize)
        ensures
            count == self.parts(),
    {
        match self {
            Division::Sectors => SECTORS,
            Division::Cells(_) => IVF_CELLS,
        }
    }

    /// Every point belongs to one of the parts.
    pub proof fn lemma_key_range(self, point: Point)
        ensures
            0 <= self.key()(point) < self.parts(),
    {
        let v = point.values@;
        lemma_axis_step_range(v[0] as int, 1_250, 8);
        lemma_axis_step_range(v[1] as int, 1_250, 8);
        if let Division::Cells(dims) = self {
            lemma_axis_step_range(v[dims.0 as int] as int, 2_500, 4);
            lemma_axis_step_range(v[dims.1 as int] as int, 2_500, 4);
        }
    }
}

/// The points with a key, in their order.
pub open spec fn matching(points: Seq<Point>, key: Key, value: int) -> Seq<Point>
    decreases points.len(),
{
    if points.len() == 0 {
        Seq::empty()
    } else {
        let earlier = matching(points.drop_last(), key, value);
        if key(points.last()) == value {
            earlier.push(points.last())
        } else {
            earlier
        }
    }
}

/// How many points have a key below a value.
pub open spec fn count_below(points: Seq<Point>, key: Key, value: int) -> int
    decreases points.len(),
{
    if points.len() == 0 {
        0
    } else {
        count_below(points.drop_last(), key, value) + if key(points.last()) < value {
            1int
        } else {
            0
        }
    }
}

/// The points group by group, for the keys below `count`; each group keeps its order.
pub open spec fn gathered(points: Seq<Point>, key: Key, count: int) -> Seq<Point>
    decreases count,
{
    if count <= 0 {
        Seq::empty()
    } else {
        gathered(points, key, count - 1) + matching(points, key, count - 1)
    }
}

/// The keys never decrease.
pub open spec fn in_key_order(points: Seq<Point>, key: Key) -> bool {
    forall|i: int, j: int| 0 <= i <= j < points.len() ==> #[trigger] key(points[i]) <= #[trigger] key(points[j])
}

/// Not all points have the same key.
pub open spec fn varied(points: Seq<Point>, key: Key) -> bool {
    exists|i: int, j: int|
        0 <= i < points.len() && 0 <= j < points.len() && #[trigger] key(points[i])
            != #[trigger] key(points[j])
}

/// Where the groups begin when the first one begins at `start`, with one more offset at the end.
pub open spec fn group_offsets(points: Seq<Point>, key: Key, count: int, start: int) -> Seq<u32> {
    Seq::new((count + 1) as nat, |c: int| (start + count_below(points, key, c)) as u32)
}

/// Counts over one more point.
pub proof fn lemma_count_next(points: Seq<Point>, key: Key, value: int, i: int)
    requires
        0 <= i < points.len(),
    ensures
        count_below(points.take(i + 1), key, value) == count_below(points.take(i), key, value)
            + if key(points[i]) < value { 1int } else { 0 },
        matching(points.take(i + 1), key, value) == if key(points[i]) == value {
            matching(points.take(i), key, value).push(points[i])
        } else {
            matching(points.take(i), key, value)
        },
{
    assert(points.take(i + 1).drop_last() =~= points.take(i));
}

/// The points below a value are those below the value before it and those at that value.
pub proof fn lemma_count_split(points: Seq<Point>, key: Key, value: int)
    ensures
        count_below(points, key, value + 1) == count_below(points, key, value) + matching(
            points,
            key,
            value,
        ).len(),
    decreases points.len(),
{
    if points.len() > 0 {
        lemma_count_split(points.drop_last(), key, value);
    }
}

/// Counts grow with the value and stay within the number of points.
pub proof fn lemma_count_bounds(points: Seq<Point>, key: Key, low: int, high: int)
    requires
        low <= high,
    ensures
        0 <= count_below(points, key, low) <= count_below(points, key, high) <= points.len(),
    decreases points.len(),
{
    if points.len() > 0 {
        lemma_count_bounds(points.drop_last(), key, low, high);
    }
}

/// All keys counted.
pub proof fn lemma_count_all(points: Seq<Point>, key: Key, count: int)
    requires
        forall|i: int| 0 <= i < points.len() ==> 0 <= #[trigger] key(points[i]) < count,
    ensures
        count_below(points, key, 0) == 0,
        count_below(points, key, count) == points.len(),
    decreases points.len(),
{
    if points.len() > 0 {
        let rest = points.drop_last();
        assert forall|i: int| 0 <= i < rest.len() implies 0 <= #[trigger] key(rest[i]) < count by {
            assert(rest[i] == points[i]);
        }
        assert(key(points[points.len() - 1]) < count);
        lemma_count_all(rest, key, count);
    }
}

/// Each group of gathered points stands where the counts say.
pub proof fn lemma_gathered(points: Seq<Point>, key: Key, count: int)
    requires
        0 <= count,
        forall|i: int| 0 <= i < points.len() ==> 0 <= #[trigger] key(points[i]),
    ensures
        gathered(points, key, count).len() == count_below(points, key, count),
        forall|c: int, j: int|
            0 <= c < count && 0 <= j < matching(points, key, c).len() ==> gathered(
                points,
                key,
                count,
            )[count_below(points, key, c) + j] == #[trigger] matching(points, key, c)[j],
    decreases count,
{
    if count == 0 {
        lemma_none_below(points, key);
    } else {
        lemma_gathered(points, key, count - 1);
        lemma_count_split(points, key, count - 1);
        let earlier = gathered(points, key, count - 1);
        let all = gathered(points, key, count);
        assert forall|c: int, j: int|
            0 <= c < count && 0 <= j < matching(points, key, c).len() implies all[count_below(
            points,
            key,
            c,
        ) + j] == #[trigger] matching(points, key, c)[j] by {
            lemma_count_split(points, key, c);
            lemma_count_bounds(points, key, 0, c);
            if c < count - 1 {
                lemma_count_bounds(points, key, c + 1, count - 1);
                assert(earlier[count_below(points, key, c) + j] == matching(points, key, c)[j]);
            }
        }
    }
}

proof fn lemma_none_below(points: Seq<Point>, key: Key)
    requires
        forall|i: int| 0 <= i < points.len() ==> 0 <= #[trigger] key(points[i]),
    ensures
        count_below(points, key, 0) == 0,
    decreases points.len(),
{
    if points.len() > 0 {
        let rest = points.drop_last();
        assert forall|i: int| 0 <= i < rest.len() implies 0 <= #[trigger] key(rest[i]) by {
            assert(rest[i] == points[i]);
        }
        assert(key(points[points.len() - 1]) >= 0);
        lemma_none_below(rest, key);
    }
}

/// Two sequences of the right length whose groups agree are equal.
pub proof fn lemma_gathered_unique(points: Seq<Point>, key: Key, count: int, other: Seq<Point>)
    requires
        0 <= count,
        forall|i: int| 0 <= i < points.len() ==> 0 <= #[trigger] key(points[i]) < count,
        other.len() == points.len(),
        forall|c: int, j: int|
            0 <= c < count && 0 <= j < matching(points, key, c).len() ==> other[count_below(
                points,
                key,
                c,
            ) + j] == #[trigger] matching(points, key, c)[j],
    ensures
        other == gathered(points, key, count),
{
    lemma_gathered(points, key, count);
    lemma_count_all(points, key, count);
    let all = gathered(points, key, count);
    assert forall|i: int| 0 <= i < other.len() implies other[i] == all[i] by {
        let c = lemma_group_of(points, key, count, i);
        let j = i - count_below(points, key, c);
        lemma_count_split(points, key, c);
        assert(other[count_below(points, key, c) + j] == matching(points, key, c)[j]);
        assert(all[count_below(points, key, c) + j] == matching(points, key, c)[j]);
    }
    assert(other =~= all);
}

/// Every position lies in one group.
pub proof fn lemma_group_of(points: Seq<Point>, key: Key, count: int, i: int) -> (c: int)
    requires
        0 <= count,
        count_below(points, key, 0) == 0,
        0 <= i < count_below(points, key, count),
    ensures
        0 <= c < count,
        count_below(points, key, c) <= i < count_below(points, key, c + 1),
    decreases count,
{
    if count == 0 {
        0
    } else if i < count_below(points, key, count - 1) {
        lemma_group_of(points, key, count - 1, i)
    } else {
        count - 1
    }
}

/// All matching points have the key.
pub proof fn lemma_matching_key(points: Seq<Point>, key: Key, value: int)
    ensures
        forall|j: int|
            0 <= j < matching(points, key, value).len() ==> key(
                #[trigger] matching(points, key, value)[j],
            ) == value,
        matching(points, key, value).len() <= points.len(),
    decreases points.len(),
{
    if points.len() > 0 {
        lemma_matching_key(points.drop_last(), key, value);
    }
}

} // verus!
