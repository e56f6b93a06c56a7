//! Scanning a range of an index's points with whatever columns the index keeps.
use vstd::prelude::*;
use vstd::slice::slice_subrange;

use crate::index::kernels::{all_in_reach, is_column, is_packed_column, search_range_blocks_hot2,
    search_range_blocks_packed_hot2, search_range_blocks_prefix4, search_range_scalar_hot2,
    search_range_scalar_packed_hot2, search_range_scalar_prefix4, LANES};
use crate::index::neighbors::{ranked, scan, NeighborSet};
use crate::index::recording::{cuts, has_room, recorded, search_range_instrumented_hot2,
    search_range_instrumented_packed_hot2};
use crate::index::stats::SearchDetails;
use crate::index::{Index, Point, DIMS};

verus! {

/// A range of a column is a column of the range.
proof fn lemma_column_range(column: Seq<i16>, points: Seq<Point>, d: int, start: int, end: int)
    requires
        is_column(column, points, d),
        0 <= start <= end <= points.len(),
    ensures
        is_column(column.subrange(start, end), points.subrange(start, end), d),
{
    assert forall|i: int| 0 <= i < end - start implies #[trigger] column.subrange(start, end)[i]
        == points.subrange(start, end)[i].values@[d] by {
        assert(column[start + i] == points[start + i].values@[d]);
    }
}

/// A range of a packed column is a packed column of the range.
proof fn lemma_packed_range(column: Seq<u32>, points: Seq<Point>, start: int, end: int)
    requires
        is_packed_column(column, points),
        0 <= start <= end <= points.len(),
    ensures
        is_packed_column(column.subrange(start, end), points.subrange(start, end)),
{
    assert forall|i: int| 0 <= i < end - start implies #[trigger] column.subrange(start, end)[i]
        == crate::index::kernels::packed_pair(
        points.subrange(start, end)[i].values@[0],
        points.subrange(start, end)[i].values@[1],
    ) by {
        assert(column[start + i] == column[start + i]);
    }
}

/// A query in reach of all points is in reach of a range of them.
pub proof fn lemma_reach_range(query: Seq<i16>, points: Seq<Point>, start: int, end: int)
    requires
        all_in_reach(query, points),
        0 <= start <= end <= points.len(),
    ensures
        all_in_reach(query, points.subrange(start, end)),
{
    assert forall|i: int| 0 <= i < end - start implies crate::index::kernels::in_reach(
        query,
        #[trigger] points.subrange(start, end)[i].values@,
    ) by {
        assert(crate::index::kernels::in_reach(query, points[start + i].values@));
    }
}

impl Index {
    /// Looks at the points of a range one after the other.
    pub(crate) fn search_range(
        &self,
        start: usize,
        end: usize,
        query: &[i16; DIMS],
        neighbors: &mut NeighborSet,
    )
        requires
            self.wf(),
            start <= end <= self@.points.len(),
            all_in_reach(query@, self@.points),
            ranked(old(neighbors)@),
        ensures
            final(neighbors)@ == scan(old(neighbors)@, query@, self@.points.subrange(start as int, end as int)),
    {
        let len: usize = end - start;
        if len == 0 {
            assert(self@.points.subrange(start as int, end as int) =~= Seq::<Point>::empty());
            return;
        }
        proof {
            lemma_reach_range(query@, self@.points, start as int, end as int);
        }
        let points: &[Point] = slice_subrange(self.points.as_slice(), start, end);
        if let Some(packed) = &self.packed_hot2 {
            proof {
                lemma_packed_range(packed@, self.points@, start as int, end as int);
            }
            let hot2: &[u32] = slice_subrange(packed.as_slice(), start, end);
            if self.lanes && len >= LANES {
                search_range_blocks_packed_hot2(hot2, points, query, neighbors);
            } else {
                search_range_scalar_packed_hot2(hot2, points, query, neighbors);
            }
            return;
        }
        proof {
            lemma_column_range(self.hot_columns.first@, self.points@, 0, start as int, end as int);
            lemma_column_range(self.hot_columns.second@, self.points@, 1, start as int, end as int);
        }
        let c0: &[i16] = slice_subrange(self.hot_columns.first.as_slice(), start, end);
        let c1: &[i16] = slice_subrange(self.hot_columns.second.as_slice(), start, end);
        if let Some(columns) = &self.prefix4_columns {
            proof {
                lemma_column_range(columns.third@, self.points@, 2, start as int, end as int);
                lemma_column_range(columns.fourth@, self.points@, 3, start as int, end as int);
            }
            let c2: &[i16] = slice_subrange(columns.third.as_slice(), start, end);
            let c3: &[i16] = slice_subrange(columns.fourth.as_slice(), start, end);
            if self.lanes && len >= LANES {
                search_range_blocks_prefix4(c0, c1, c2, c3, points, query, neighbors);
            } else {
                search_range_scalar_prefix4(c0, c1, c2, c3, points, query, neighbors);
            }
            return;
        }
        if self.lanes && len >= LANES {
            search_range_blocks_hot2(c0, c1, points, query, neighbors);
        } else {
            search_range_scalar_hot2(c0, c1, points, query, neighbors);
        }
    }

    /// Looks at the points of a range one after the other, counting each comparison.
    pub(crate) fn search_range_instrumented(
        &self,
        start: usize,
        end: usize,
        query: &[i16; DIMS],
        neighbors: &mut NeighborSet,
        details: &mut SearchDetails,
    )
        requires
            self.wf(),
            start <= end <= self@.points.len(),
            all_in_reach(query@, self@.points),
            has_room(*old(details), end - start),
        ensures
            final(neighbors)@ == scan(old(neighbors)@, query@, self@.points.subrange(start as int, end as int)),
            recorded(
                *old(details),
                *final(details),
                cuts(old(neighbors)@, query@, self@.points.subrange(start as int, end as int)),
            ),
    {
        let len: usize = end - start;
        if len == 0 {
            assert(self@.points.subrange(start as int, end as int) =~= Seq::<Point>::empty());
            return;
        }
        proof {
            lemma_reach_range(query@, self@.points, start as int, end as int);
        }
        let points: &[Point] = slice_subrange(self.points.as_slice(), start, end);
        if let Some(packed) = &self.packed_hot2 {
            proof {
                lemma_packed_range(packed@, self.points@, start as int, end as int);
            }
            let hot2: &[u32] = slice_subrange(packed.as_slice(), start, end);
            search_range_instrumented_packed_hot2(hot2, points, query, neighbors, details);
            return;
        }
        proof {
            lemma_column_range(self.hot_columns.first@, self.points@, 0, start as int, end as int);
            lemma_column_range(self.hot_columns.second@, self.points@, 1, start as int, end as int);
        }
        let c0: &[i16] = slice_subrange(self.hot_columns.first.as_slice(), start, end);
        let c1: &[i16] = slice_subrange(self.hot_columns.second.as_slice(), start, end);
        search_range_instrumented_hot2(c0, c1, points, query, neighbors, details);
    }
}

} // verus!
