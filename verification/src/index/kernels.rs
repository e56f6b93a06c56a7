//! Scanning a run of points for the nearest neighbours of a query.
use vstd::prelude::*;

use crate::index::geometry::{distance, lemma_square_bound, partial_distance, squared_delta, squared_gap};
use crate::index::neighbors::{as_neighbor, lemma_offer, lemma_scan, lemma_scan_push, offer, place, ranked,
    scan, worst_of, Neighbor, NeighborSet};
use crate::index::{Point, DIMS};

verus! {

/// Every component of the two vectors is close enough for its square to fit an `i32`.
pub open spec fn in_reach(query: Seq<i16>, values: Seq<i16>) -> bool {
    forall|d: int| 0 <= d < DIMS ==> -46_340 <= query[d] - #[trigger] values[d] <= 46_340
}

/// The query is in reach of every point.
pub open spec fn all_in_reach(query: Seq<i16>, points: Seq<Point>) -> bool {
    forall|i: int| 0 <= i < points.len() ==> in_reach(query, #[trigger] points[i].values@)
}

/// A column holds one component of every point.
pub open spec fn is_column(column: Seq<i16>, points: Seq<Point>, d: int) -> bool {
    &&& column.len() == points.len()
    &&& forall|i: int| 0 <= i < points.len() ==> #[trigger] column[i] == points[i].values@[d]
}

/// Two components in one word, the first in the low half.
pub open spec fn packed_pair(first: i16, second: i16) -> u32 {
    (first as u16 as u32) | ((second as u16 as u32) << 16)
}

/// A packed column holds the first two components of every point.
pub open spec fn is_packed_column(column: Seq<u32>, points: Seq<Point>) -> bool {
    &&& column.len() == points.len()
    &&& forall|i: int|
        0 <= i < points.len() ==> #[trigger] column[i] == packed_pair(
            points[i].values@[0],
            points[i].values@[1],
        )
}

/// Partial distances grow with the number of components, up to the square of the reach for each.
pub proof fn lemma_partial_distance(query: Seq<i16>, values: Seq<i16>, from: int, to: int)
    requires
        in_reach(query, values),
        0 <= from <= to <= DIMS,
    ensures
        0 <= partial_distance(query, values, from) <= partial_distance(query, values, to),
        partial_distance(query, values, to) <= to * 2_147_395_600,
    decreases to,
{
    if to > 0 {
        lemma_square_bound(query[to - 1] - values[to - 1], 46_340);
        if from < to {
            lemma_partial_distance(query, values, from, to - 1);
        } else {
            lemma_partial_distance(query, values, from - 1, to - 1);
        }
    }
}

/// Packs two components into one word.
pub fn pack_hot2(first: i16, second: i16) -> (packed: u32)
    ensures
        packed == packed_pair(first, second),
{
    (first as u16 as u32) | ((second as u16 as u32) << 16)
}

/// The two components of a packed word.
pub fn unpack_hot2(packed: u32) -> (pair: (i16, i16))
    ensures
        packed_pair(pair.0, pair.1) == packed,
        forall|first: i16, second: i16|
            packed == #[trigger] packed_pair(first, second) ==> pair == (first, second),
{
    let first: i16 = packed as u16 as i16;
    let second: i16 = (packed >> 16) as u16 as i16;
    assert(((packed as u16 as i16) as u16 as u32) | (((packed >> 16) as u16 as i16) as u16 as u32) << 16
        == packed) by (bit_vector);
    assert forall|a: i16, b: i16| packed == #[trigger] packed_pair(a, b) implies (first, second) == (
    a, b) by {
        assert(((a as u16 as u32) | ((b as u16 as u32) << 16)) as u16 as i16 == a) by (bit_vector);
        assert(((((a as u16 as u32) | ((b as u16 as u32) << 16))) >> 16) as u16 as i16 == b)
            by (bit_vector);
    }
    (first, second)
}

/// The components from `from` on are in reach.
pub open spec fn rest_in_reach(query: Seq<i16>, values: Seq<i16>, from: int) -> bool {
    forall|d: int| from <= d < DIMS ==> -46_340 <= query[d] - #[trigger] values[d] <= 46_340
}

/// The squared distance over the components from `from` on.
pub open spec fn rest_distance(query: Seq<i16>, values: Seq<i16>, from: int) -> int
    decreases DIMS - from,
{
    if from >= DIMS {
        0
    } else {
        squared_gap(query[from] as int, values[from] as int) + rest_distance(query, values, from + 1)
    }
}

/// The neighbours after a point whose distance is `total`, taken if that is below a ceiling.
pub open spec fn taken_below(near: Seq<Neighbor>, total: int, label: u8, ceiling: int) -> Seq<Neighbor> {
    if total < ceiling { place(near.drop_first(), (total, label)) } else { near }
}

/// Distances over components are not negative and of ordinary size.
proof fn lemma_rest_distance(query: Seq<i16>, values: Seq<i16>, from: int)
    requires
        0 <= from <= DIMS,
        rest_in_reach(query, values, from),
    ensures
        0 <= rest_distance(query, values, from) <= (DIMS - from) * 2_147_395_600,
    decreases DIMS - from,
{
    if from < DIMS {
        assert(-46_340 <= query[from] - values[from] <= 46_340);
        lemma_square_bound(query[from] - values[from], 46_340);
        lemma_rest_distance(query, values, from + 1);
    }
}

/// A distance is the part over the first components and the part over the rest.
proof fn lemma_distance_parts(query: Seq<i16>, values: Seq<i16>, from: int)
    requires
        0 <= from <= DIMS,
    ensures
        distance(query, values) == partial_distance(query, values, from) + rest_distance(
            query,
            values,
            from,
        ),
    decreases DIMS - from,
{
    if from < DIMS {
        lemma_distance_parts(query, values, from + 1);
    }
}

/// Adds the components from `from` on to a sum, giving up as soon as it reaches the ceiling.
pub fn finish_distance(query: &[i16; DIMS], values: &[i16; DIMS], from: usize, known: i64, ceiling: i64) -> (whole: Option<i64>)
    requires
        from <= DIMS,
        rest_in_reach(query@, values@, from as int),
        known + (DIMS - from) * 2_147_395_600 <= i64::MAX,
    ensures
        match whole {
            Some(sum) => sum == known + rest_distance(query@, values@, from as int) && sum < ceiling,
            None => known + rest_distance(query@, values@, from as int) >= ceiling,
        },
{
    let mut acc: i64 = known;
    let mut d: usize = from;
    proof {
        lemma_rest_distance(query@, values@, from as int);
    }
    if acc >= ceiling {
        return None;
    }
    while d < DIMS
        invariant
            from <= d <= DIMS,
            rest_in_reach(query@, values@, from as int),
            acc + (DIMS - d) * 2_147_395_600 <= i64::MAX,
            acc + rest_distance(query@, values@, d as int) == known + rest_distance(
                query@,
                values@,
                from as int,
            ),
            acc < ceiling,
        decreases DIMS - d,
    {
        proof {
            assert(-46_340 <= query@[d as int] - values@[d as int] <= 46_340);
        }
        acc = acc + squared_delta(query[d], values[d]);
        d = d + 1;
        if acc >= ceiling {
            proof {
                lemma_rest_distance(query@, values@, d as int);
            }
            return None;
        }
    }
    Some(acc)
}

/// Takes a point whose first two components add up to `acc` if its distance is below the ceiling.
pub fn search_point_tail_from_dim2(
    point: &Point,
    query: &[i16; DIMS],
    acc: i64,
    ceiling: i64,
    neighbors: &mut NeighborSet,
)
    requires
        rest_in_reach(query@, point.values@, 2),
        acc + 12 * 2_147_395_600 <= i64::MAX,
    ensures
        final(neighbors)@ == taken_below(
            old(neighbors)@,
            acc + rest_distance(query@, point.values@, 2),
            point.label,
            ceiling as int,
        ),
        acc == partial_distance(query@, point.values@, 2) && ceiling == worst_of(old(neighbors)@)
            ==> final(neighbors)@ == offer(old(neighbors)@, as_neighbor(query@, *point)),
{
    proof {
        lemma_distance_parts(query@, point.values@, 2);
    }
    if let Some(dist) = finish_distance(query, &point.values, 2, acc, ceiling) {
        neighbors.insert(dist, point.label);
    }
}

/// Takes a point whose first four components add up to `acc` if its distance is below the ceiling.
pub fn search_point_tail_from_dim4(
    point: &Point,
    query: &[i16; DIMS],
    acc: i64,
    ceiling: i64,
    neighbors: &mut NeighborSet,
)
    requires
        rest_in_reach(query@, point.values@, 4),
        acc + 10 * 2_147_395_600 <= i64::MAX,
    ensures
        final(neighbors)@ == taken_below(
            old(neighbors)@,
            acc + rest_distance(query@, point.values@, 4),
            point.label,
            ceiling as int,
        ),
        acc == partial_distance(query@, point.values@, 4) && ceiling == worst_of(old(neighbors)@)
            ==> final(neighbors)@ == offer(old(neighbors)@, as_neighbor(query@, *point)),
{
    proof {
        lemma_distance_parts(query@, point.values@, 4);
    }
    if let Some(dist) = finish_distance(query, &point.values, 4, acc, ceiling) {
        neighbors.insert(dist, point.label);
    }
}

/// The distance over the first two components.
fn first_two(query: &[i16; DIMS], first: i16, second: i16, Ghost(values): Ghost<Seq<i16>>) -> (acc: i64)
    requires
        in_reach(query@, values),
        first == values[0],
        second == values[1],
    ensures
        acc == partial_distance(query@, values, 2),
        acc <= 4_294_791_200,
{
    proof {
        reveal_with_fuel(partial_distance, 3);
        assert(-46_340 <= query@[0] - values[0] <= 46_340);
        assert(-46_340 <= query@[1] - values[1] <= 46_340);
    }
    squared_delta(query[0], first) + squared_delta(query[1], second)
}

/// The distance over the third and fourth components, on top of the first two.
fn next_two(query: &[i16; DIMS], acc: i64, third: i16, fourth: i16, Ghost(values): Ghost<Seq<i16>>) -> (sum: i64)
    requires
        in_reach(query@, values),
        acc == partial_distance(query@, values, 2),
        third == values[2],
        fourth == values[3],
    ensures
        sum == partial_distance(query@, values, 4),
        sum <= 8_589_582_400,
{
    proof {
        reveal_with_fuel(partial_distance, 3);
        lemma_partial_distance(query@, values, 2, 2);
        assert(-46_340 <= query@[2] - values[2] <= 46_340);
        assert(-46_340 <= query@[3] - values[3] <= 46_340);
    }
    acc + squared_delta(query[2], third) + squared_delta(query[3], fourth)
}

/// A point that a shorter sum already puts at or beyond the ceiling is not taken.
proof fn lemma_cut_point(near: Seq<Neighbor>, query: Seq<i16>, point: Point, dims: int)
    requires
        in_reach(query, point.values@),
        0 <= dims <= DIMS,
        partial_distance(query, point.values@, dims) >= worst_of(near),
    ensures
        offer(near, as_neighbor(query, point)) == near,
{
    lemma_partial_distance(query, point.values@, dims, DIMS as int);
}

/// One more point looked at.
proof fn lemma_next_point(near: Seq<Neighbor>, query: Seq<i16>, points: Seq<Point>, i: int)
    requires
        0 <= i < points.len(),
    ensures
        scan(near, query, points.take(i + 1)) == offer(
            scan(near, query, points.take(i)),
            as_neighbor(query, points[i]),
        ),
{
    assert(points.take(i + 1) =~= points.take(i).push(points[i]));
    lemma_scan_push(near, query, points.take(i), points[i]);
}

/// Scans points one by one, with their first two components packed.
pub fn search_range_scalar_packed_hot2(
    hot2: &[u32],
    points: &[Point],
    query: &[i16; DIMS],
    neighbors: &mut NeighborSet,
)
    requires
        is_packed_column(hot2@, points@),
        all_in_reach(query@, points@),
    ensures
        final(neighbors)@ == scan(old(neighbors)@, query@, points@),
{
    let ghost near = neighbors@;
    let mut index: usize = 0;
    assert(scan(near, query@, points@.take(0)) == near);
    while index < points.len()
        invariant
            index <= points.len(),
            is_packed_column(hot2@, points@),
            all_in_reach(query@, points@),
            neighbors@ == scan(near, query@, points@.take(index as int)),
        decreases points.len() - index,
    {
        let ghost values = points@[index as int].values@;
        proof {
            lemma_next_point(near, query@, points@, index as int);
            assert(in_reach(query@, values));
        }
        let (first, second) = unpack_hot2(hot2[index]);
        let acc: i64 = first_two(query, first, second, Ghost(values));
        let ceiling: i64 = neighbors.worst();
        search_point_tail_from_dim2(&points[index], query, acc, ceiling, neighbors);
        index = index + 1;
    }
    assert(points@.take(index as int) =~= points@);
}

/// Scans points one by one, with their first two components in columns.
pub fn search_range_scalar_hot2(
    c0: &[i16],
    c1: &[i16],
    points: &[Point],
    query: &[i16; DIMS],
    neighbors: &mut NeighborSet,
)
    requires
        is_column(c0@, points@, 0),
        is_column(c1@, points@, 1),
        all_in_reach(query@, points@),
    ensures
        final(neighbors)@ == scan(old(neighbors)@, query@, points@),
{
    let ghost near = neighbors@;
    let mut index: usize = 0;
    assert(scan(near, query@, points@.take(0)) == near);
    while index < points.len()
        invariant
            index <= points.len(),
            is_column(c0@, points@, 0),
            is_column(c1@, points@, 1),
            all_in_reach(query@, points@),
            neighbors@ == scan(near, query@, points@.take(index as int)),
        decreases points.len() - index,
    {
        let ghost values = points@[index as int].values@;
        proof {
            lemma_next_point(near, query@, points@, index as int);
            assert(in_reach(query@, values));
        }
        let acc: i64 = first_two(query, c0[index], c1[index], Ghost(values));
        let ceiling: i64 = neighbors.worst();
        search_point_tail_from_dim2(&points[index], query, acc, ceiling, neighbors);
        index = index + 1;
    }
    assert(points@.take(index as int) =~= points@);
}

/// Scans points one by one, with their first four components in columns.
pub fn search_range_scalar_prefix4(
    c0: &[i16],
    c1: &[i16],
    c2: &[i16],
    c3: &[i16],
    points: &[Point],
    query: &[i16; DIMS],
    neighbors: &mut NeighborSet,
)
    requires
        is_column(c0@, points@, 0),
        is_column(c1@, points@, 1),
        is_column(c2@, points@, 2),
        is_column(c3@, points@, 3),
        all_in_reach(query@, points@),
    ensures
        final(neighbors)@ == scan(old(neighbors)@, query@, points@),
{
    let ghost near = neighbors@;
    let mut index: usize = 0;
    assert(scan(near, query@, points@.take(0)) == near);
    while index < points.len()
        invariant
            index <= points.len(),
            is_column(c0@, points@, 0),
            is_column(c1@, points@, 1),
            is_column(c2@, points@, 2),
            is_column(c3@, points@, 3),
            all_in_reach(query@, points@),
            neighbors@ == scan(near, query@, points@.take(index as int)),
        decreases points.len() - index,
    {
        let ghost values = points@[index as int].values@;
        proof {
            lemma_next_point(near, query@, points@, index as int);
            assert(in_reach(query@, values));
        }
        let ceiling: i64 = neighbors.worst();
        let pair: i64 = first_two(query, c0[index], c1[index], Ghost(values));
        if pair < ceiling {
            let acc: i64 = next_two(query, pair, c2[index], c3[index], Ghost(values));
            search_point_tail_from_dim4(&points[index], query, acc, ceiling, neighbors);
        } else {
            proof {
                lemma_cut_point(neighbors@, query@, points@[index as int], 2);
            }
        }
        index = index + 1;
    }
    assert(points@.take(index as int) =~= points@);
}

/// Width of a block of points whose first components are compared together.
pub const LANES: usize = 8;

/// The sums of the first `dims` components of one block of points.
pub open spec fn block_sums(sums: Seq<i64>, query: Seq<i16>, points: Seq<Point>, at: int, dims: int) -> bool {
    forall|lane: int|
        0 <= lane < LANES ==> #[trigger] sums[lane] == partial_distance(
            query,
            points[at + lane].values@,
            dims,
        )
}

/// Offers the points of one block whose sums stay below the ceiling that held before the block.
fn offer_block_from_dim2(
    points: &[Point],
    at: usize,
    query: &[i16; DIMS],
    sums: &[i64; LANES],
    neighbors: &mut NeighborSet,
    Ghost(near): Ghost<Seq<Neighbor>>,
)
    requires
        all_in_reach(query@, points@),
        at + LANES <= points@.len(),
        ranked(near),
        block_sums(sums@, query@, points@, at as int, 2),
        old(neighbors)@ == scan(near, query@, points@.take(at as int)),
    ensures
        final(neighbors)@ == scan(near, query@, points@.take(at + LANES)),
{
    let ceiling: i64 = neighbors.worst();
    let mut lane: usize = 0;
    while lane < LANES
        invariant
            lane <= LANES,
            all_in_reach(query@, points@),
            at + LANES <= points.len(),
            ranked(near),
            block_sums(sums@, query@, points@, at as int, 2),
            neighbors@ == scan(near, query@, points@.take(at + lane)),
            worst_of(neighbors@) <= ceiling,
        decreases LANES - lane,
    {
        let ghost before = neighbors@;
        proof {
            lemma_next_point(near, query@, points@, at + lane);
            lemma_scan(near, query@, points@.take(at + lane));
            lemma_offer(before, as_neighbor(query@, points@[at + lane]));
            assert(in_reach(query@, points@[at + lane].values@));
            assert(sums@[lane as int] == partial_distance(query@, points@[at + lane].values@, 2));
            lemma_partial_distance(query@, points@[at + lane].values@, 0, 2);
        }
        if sums[lane] < ceiling {
            let worst: i64 = neighbors.worst();
            search_point_tail_from_dim2(&points[at + lane], query, sums[lane], worst, neighbors);
        } else {
            proof {
                lemma_cut_point(before, query@, points@[at + lane], 2);
            }
        }
        lane = lane + 1;
    }
}

/// Offers the points of one block whose longer sums stay below the ceiling that held before the
/// block.
fn offer_block_from_dim4(
    points: &[Point],
    at: usize,
    query: &[i16; DIMS],
    sums: &[i64; LANES],
    neighbors: &mut NeighborSet,
    Ghost(near): Ghost<Seq<Neighbor>>,
)
    requires
        all_in_reach(query@, points@),
        at + LANES <= points@.len(),
        ranked(near),
        block_sums(sums@, query@, points@, at as int, 4),
        old(neighbors)@ == scan(near, query@, points@.take(at as int)),
    ensures
        final(neighbors)@ == scan(near, query@, points@.take(at + LANES)),
{
    let ceiling: i64 = neighbors.worst();
    let mut lane: usize = 0;
    while lane < LANES
        invariant
            lane <= LANES,
            all_in_reach(query@, points@),
            at + LANES <= points.len(),
            ranked(near),
            block_sums(sums@, query@, points@, at as int, 4),
            neighbors@ == scan(near, query@, points@.take(at + lane)),
            worst_of(neighbors@) <= ceiling,
        decreases LANES - lane,
    {
        let ghost before = neighbors@;
        proof {
            lemma_next_point(near, query@, points@, at + lane);
            lemma_scan(near, query@, points@.take(at + lane));
            lemma_offer(before, as_neighbor(query@, points@[at + lane]));
            assert(in_reach(query@, points@[at + lane].values@));
            assert(sums@[lane as int] == partial_distance(query@, points@[at + lane].values@, 4));
            lemma_partial_distance(query@, points@[at + lane].values@, 0, 4);
        }
        if sums[lane] < ceiling {
            let worst: i64 = neighbors.worst();
            search_point_tail_from_dim4(&points[at + lane], query, sums[lane], worst, neighbors);
        } else {
            proof {
                lemma_cut_point(before, query@, points@[at + lane], 4);
            }
        }
        lane = lane + 1;
    }
}

/// None of the points of a block is taken when all their sums reach the ceiling.
proof fn lemma_cut_block(near: Seq<Neighbor>, query: Seq<i16>, points: Seq<Point>, at: int, lanes: int, dims: int)
    requires
        all_in_reach(query, points),
        0 <= lanes,
        0 <= at,
        at + lanes <= points.len(),
        0 <= dims <= DIMS,
        forall|lane: int|
            0 <= lane < lanes ==> partial_distance(query, #[trigger] points[at + lane].values@, dims)
                >= worst_of(scan(near, query, points.take(at))),
    ensures
        scan(near, query, points.take(at + lanes)) == scan(near, query, points.take(at)),
    decreases lanes,
{
    if lanes > 0 {
        lemma_cut_block(near, query, points, at, lanes - 1, dims);
        lemma_next_point(near, query, points, at + lanes - 1);
        assert(in_reach(query, points[at + (lanes - 1)].values@));
        lemma_cut_point(scan(near, query, points.take(at)), query, points[at + (lanes - 1)], dims);
    }
}

/// Scans points in blocks, with their first two components packed.
pub fn search_range_blocks_packed_hot2(
    hot2: &[u32],
    points: &[Point],
    query: &[i16; DIMS],
    neighbors: &mut NeighborSet,
)
    requires
        is_packed_column(hot2@, points@),
        all_in_reach(query@, points@),
        ranked(old(neighbors)@),
    ensures
        final(neighbors)@ == scan(old(neighbors)@, query@, points@),
{
    let ghost near = neighbors@;
    let mut index: usize = 0;
    assert(scan(near, query@, points@.take(0)) == near);
    while points.len() - index >= LANES
        invariant
            index <= points.len(),
            is_packed_column(hot2@, points@),
            all_in_reach(query@, points@),
            ranked(near),
            neighbors@ == scan(near, query@, points@.take(index as int)),
        decreases points.len() - index,
    {
        let mut sums: [i64; LANES] = [0i64; LANES];
        let mut lane: usize = 0;
        while lane < LANES
            invariant
                lane <= LANES,
                index + LANES <= points.len(),
                is_packed_column(hot2@, points@),
                all_in_reach(query@, points@),
                forall|k: int|
                    0 <= k < lane ==> #[trigger] sums@[k] == partial_distance(
                        query@,
                        points@[index + k].values@,
                        2,
                    ),
            decreases LANES - lane,
        {
            let ghost values = points@[index + lane].values@;
            assert(in_reach(query@, values));
            let (first, second) = unpack_hot2(hot2[index + lane]);
            sums[lane] = first_two(query, first, second, Ghost(values));
            lane = lane + 1;
        }
        offer_block_from_dim2(points, index, query, &sums, neighbors, Ghost(near));
        index = index + LANES;
    }
    while index < points.len()
        invariant
            index <= points.len(),
            is_packed_column(hot2@, points@),
            all_in_reach(query@, points@),
            neighbors@ == scan(near, query@, points@.take(index as int)),
        decreases points.len() - index,
    {
        let ghost values = points@[index as int].values@;
        proof {
            lemma_next_point(near, query@, points@, index as int);
            assert(in_reach(query@, values));
        }
        let (first, second) = unpack_hot2(hot2[index]);
        let acc: i64 = first_two(query, first, second, Ghost(values));
        let ceiling: i64 = neighbors.worst();
        search_point_tail_from_dim2(&points[index], query, acc, ceiling, neighbors);
        index = index + 1;
    }
    assert(points@.take(index as int) =~= points@);
}

/// Scans points in blocks, with their first two components in columns.
pub fn search_range_blocks_hot2(
    c0: &[i16],
    c1: &[i16],
    points: &[Point],
    query: &[i16; DIMS],
    neighbors: &mut NeighborSet,
)
    requires
        is_column(c0@, points@, 0),
        is_column(c1@, points@, 1),
        all_in_reach(query@, points@),
        ranked(old(neighbors)@),
    ensures
        final(neighbors)@ == scan(old(neighbors)@, query@, points@),
{
    let ghost near = neighbors@;
    let mut index: usize = 0;
    assert(scan(near, query@, points@.take(0)) == near);
    while points.len() - index >= LANES
        invariant
            index <= points.len(),
            is_column(c0@, points@, 0),
            is_column(c1@, points@, 1),
            all_in_reach(query@, points@),
            ranked(near),
            neighbors@ == scan(near, query@, points@.take(index as int)),
        decreases points.len() - index,
    {
        let sums: [i64; LANES] = block_of_two(c0, c1, query, index, Ghost(points@));
        offer_block_from_dim2(points, index, query, &sums, neighbors, Ghost(near));
        index = index + LANES;
    }
    while index < points.len()
        invariant
            index <= points.len(),
            is_column(c0@, points@, 0),
            is_column(c1@, points@, 1),
            all_in_reach(query@, points@),
            neighbors@ == scan(near, query@, points@.take(index as int)),
        decreases points.len() - index,
    {
        let ghost values = points@[index as int].values@;
        proof {
            lemma_next_point(near, query@, points@, index as int);
            assert(in_reach(query@, values));
        }
        let acc: i64 = first_two(query, c0[index], c1[index], Ghost(values));
        let ceiling: i64 = neighbors.worst();
        search_point_tail_from_dim2(&points[index], query, acc, ceiling, neighbors);
        index = index + 1;
    }
    assert(points@.take(index as int) =~= points@);
}

/// The sums over two components of one block.
fn block_of_two(c0: &[i16], c1: &[i16], query: &[i16; DIMS], at: usize, Ghost(points): Ghost<Seq<Point>>) -> (sums:
    [i64; LANES])
    requires
        is_column(c0@, points, 0),
        is_column(c1@, points, 1),
        all_in_reach(query@, points),
        at + LANES <= points.len(),
    ensures
        block_sums(sums@, query@, points, at as int, 2),
{
    let mut sums: [i64; LANES] = [0i64; LANES];
    let mut lane: usize = 0;
    while lane < LANES
        invariant
            lane <= LANES,
            at + LANES <= c0.len(),
            is_column(c0@, points, 0),
            is_column(c1@, points, 1),
            all_in_reach(query@, points),
            forall|k: int|
                0 <= k < lane ==> #[trigger] sums@[k] == partial_distance(
                    query@,
                    points[at + k].values@,
                    2,
                ),
        decreases LANES - lane,
    {
        let ghost values = points[at + lane].values@;
        assert(in_reach(query@, values));
        sums[lane] = first_two(query, c0[at + lane], c1[at + lane], Ghost(values));
        lane = lane + 1;
    }
    sums
}

/// The sums over four components of one block, on top of those over two.
fn block_of_four(
    sums: &[i64; LANES],
    c2: &[i16],
    c3: &[i16],
    query: &[i16; DIMS],
    at: usize,
    Ghost(points): Ghost<Seq<Point>>,
) -> (longer: [i64; LANES])
    requires
        is_column(c2@, points, 2),
        is_column(c3@, points, 3),
        all_in_reach(query@, points),
        at + LANES <= points.len(),
        block_sums(sums@, query@, points, at as int, 2),
    ensures
        block_sums(longer@, query@, points, at as int, 4),
{
    let mut longer: [i64; LANES] = [0i64; LANES];
    let mut lane: usize = 0;
    while lane < LANES
        invariant
            lane <= LANES,
            at + LANES <= c2.len(),
            is_column(c2@, points, 2),
            is_column(c3@, points, 3),
            all_in_reach(query@, points),
            block_sums(sums@, query@, points, at as int, 2),
            forall|k: int|
                0 <= k < lane ==> #[trigger] longer@[k] == partial_distance(
                    query@,
                    points[at + k].values@,
                    4,
                ),
        decreases LANES - lane,
    {
        let ghost values = points[at + lane].values@;
        assert(in_reach(query@, values));
        assert(sums@[lane as int] == partial_distance(query@, values, 2));
        longer[lane] = next_two(query, sums[lane], c2[at + lane], c3[at + lane], Ghost(values));
        lane = lane + 1;
    }
    longer
}

/// Whether any sum of a block stays below the ceiling.
fn any_below(sums: &[i64; LANES], ceiling: i64) -> (any: bool)
    ensures
        any == exists|lane: int| 0 <= lane < LANES && #[trigger] sums@[lane] < ceiling,
{
    let mut lane: usize = 0;
    while lane < LANES
        invariant
            lane <= LANES,
            forall|k: int| 0 <= k < lane ==> #[trigger] sums@[k] >= ceiling,
        decreases LANES - lane,
    {
        if sums[lane] < ceiling {
            return true;
        }
        lane = lane + 1;
    }
    false
}

/// Scans points in blocks, with their first four components in columns.
pub fn search_range_blocks_prefix4(
    c0: &[i16],
    c1: &[i16],
    c2: &[i16],
    c3: &[i16],
    points: &[Point],
    query: &[i16; DIMS],
    neighbors: &mut NeighborSet,
)
    requires
        is_column(c0@, points@, 0),
        is_column(c1@, points@, 1),
        is_column(c2@, points@, 2),
        is_column(c3@, points@, 3),
        all_in_reach(query@, points@),
        ranked(old(neighbors)@),
    ensures
        final(neighbors)@ == scan(old(neighbors)@, query@, points@),
{
    let ghost near = neighbors@;
    let mut index: usize = 0;
    assert(scan(near, query@, points@.take(0)) == near);
    while points.len() - index >= LANES
        invariant
            index <= points.len(),
            is_column(c0@, points@, 0),
            is_column(c1@, points@, 1),
            is_column(c2@, points@, 2),
            is_column(c3@, points@, 3),
            all_in_reach(query@, points@),
            ranked(near),
            neighbors@ == scan(near, query@, points@.take(index as int)),
        decreases points.len() - index,
    {
        let pairs: [i64; LANES] = block_of_two(c0, c1, query, index, Ghost(points@));
        let ceiling: i64 = neighbors.worst();
        if any_below(&pairs, ceiling) {
            let sums: [i64; LANES] = block_of_four(&pairs, c2, c3, query, index, Ghost(points@));
            offer_block_from_dim4(points, index, query, &sums, neighbors, Ghost(near));
        } else {
            proof {
                assert forall|lane: int| 0 <= lane < LANES implies partial_distance(
                    query@,
                    #[trigger] points@[index + lane].values@,
                    2,
                ) >= worst_of(neighbors@) by {
                    assert(pairs@[lane] >= ceiling);
                }
                lemma_cut_block(near, query@, points@, index as int, LANES as int, 2);
            }
        }
        index = index + LANES;
    }
    while index < points.len()
        invariant
            index <= points.len(),
            is_column(c0@, points@, 0),
            is_column(c1@, points@, 1),
            is_column(c2@, points@, 2),
            is_column(c3@, points@, 3),
            all_in_reach(query@, points@),
            neighbors@ == scan(near, query@, points@.take(index as int)),
        decreases points.len() - index,
    {
        let ghost values = points@[index as int].values@;
        proof {
            lemma_next_point(near, query@, points@, index as int);
            assert(in_reach(query@, values));
        }
        let ceiling: i64 = neighbors.worst();
        let pair: i64 = first_two(query, c0[index], c1[index], Ghost(values));
        if pair < ceiling {
            let acc: i64 = next_two(query, pair, c2[index], c3[index], Ghost(values));
            search_point_tail_from_dim4(&points[index], query, acc, ceiling, neighbors);
        } else {
            proof {
                lemma_cut_point(neighbors@, query@, points@[index as int], 2);
            }
        }
        index = index + 1;
    }
    assert(points@.take(index as int) =~= points@);
}

} // verus!
