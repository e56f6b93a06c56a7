//! A bucketed index of labelled reference vectors with five-nearest-neighbour search.
use vstd::prelude::*;

pub mod answers;
pub mod assembly;
pub mod buckets;
pub mod caps;
pub mod coverage;
pub mod dividing;
pub mod exactness;
pub mod faithfulness;
pub mod format;
pub mod geometry;
pub mod grouping;
pub mod instrument;
pub mod kernels;
pub mod limits;
pub mod loading;
pub mod nearest;
pub mod neighbors;
pub mod ordering;
pub mod plan;
pub mod ranges;
pub mod reckoning;
pub mod recording;
pub mod references;
pub mod repair;
pub mod rules;
pub mod search;
pub mod second_look;
pub mod seen;
pub mod settling;
pub mod soundness;
pub mod stats;
pub mod tour;
pub mod votes;
pub mod walk;

pub use crate::index::format::IndexError;
pub use crate::index::loading::IndexConfig;
pub use crate::index::neighbors::SearchResult;
pub use crate::index::ordering::{order_points_by_bucket, order_points_by_bucket_ivf};
pub use crate::index::repair::{AdaptiveClearRule, Score5RepairRule};
pub use crate::index::stats::{SearchDetails, SearchStats, SearchTiming};
pub use crate::settings::parse_ivf_dims;

use crate::index::geometry::{grid_axes, meta_of};
use crate::index::kernels::{is_column, is_packed_column};

verus! {

/// Number of components of a feature vector.
pub const DIMS: usize = 14;

/// Number of combinations of the four presence flags.
pub const FLAG_BUCKETS: usize = 16;

/// Number of merchant-category risk levels.
pub const MCC_BUCKETS: usize = 10;

/// Number of transaction-count levels.
pub const TX_BUCKETS: usize = 21;

/// Number of amount-ratio intervals.
pub const RATIO_BUCKETS: usize = 8;

/// Number of coarse buckets: every combination of flags, category, count and ratio.
pub const BUCKETS: usize = 26_880;

/// Width of one amount-ratio interval.
pub const RATIO_WIDTH: usize = 1_250;

/// Distance between two transaction-count levels.
pub const TX_STEP: usize = 500;

/// Number of intervals along each sector axis.
pub const SECTOR_BUCKETS: usize = 8;

/// Number of sectors a large bucket is cut into.
pub const SECTORS: usize = 64;

/// Width of one sector interval.
pub const SECTOR_WIDTH: usize = 1_250;

/// Number of intervals along each subcell axis.
pub const IVF_SUB_BUCKETS: usize = 4;

/// Number of subcells a sector is cut into.
pub const IVF_SUBCELLS: usize = 16;

/// Number of cells a bucket is cut into when the cell grid is used.
pub const IVF_CELLS: usize = 1_024;

/// Width of one subcell interval.
pub const IVF_SUB_WIDTH: usize = 2_500;

/// A labelled reference vector, its values in scan order once it is part of an index.
#[derive(Clone, Copy, Debug)]
pub struct Point {
    pub values: [i16; DIMS],
    pub label: u8,
    pub reserved: u8,
}

impl Default for Point {
    fn default() -> (point: Self)
        ensures
            forall|d: int| 0 <= d < DIMS ==> point.values@[d] == 0,
            point.label == 0,
            point.reserved == 0,
    {
        Point { values: [0i16; DIMS], label: 0, reserved: 0 }
    }
}

/// What is known of every point of one coarse bucket.
#[derive(Clone, Copy, Debug)]
pub struct BucketMeta {
    pub flags: u8,
    pub mcc_value: i16,
    pub tx_value: i16,
    pub ratio_lo: i16,
    pub ratio_hi: i16,
}

/// Marks a bucket without a subdivision.
pub const NO_SECTOR: u16 = 65_535;

/// The first two components of every point, column by column.
pub struct HotColumns {
    pub first: Vec<i16>,
    pub second: Vec<i16>,
}

/// The third and fourth components of every point, column by column.
pub struct Prefix4Columns {
    pub third: Vec<i16>,
    pub fourth: Vec<i16>,
}

/// A bucket that holds points, with what is known of them.
#[derive(Clone, Copy)]
pub struct BucketEntry {
    pub bucket: usize,
    pub meta: BucketMeta,
}

/// Where the parts of a bucket begin; one more offset ends the last one.
pub struct DividedBucket {
    pub offsets: Vec<u32>,
}

/// How many points of a group are labelled below three and how many are not.
#[derive(Clone, Copy)]
pub struct BucketApprovalCounts {
    pub approved: u32,
    pub denied: u32,
}

/// A loaded index.
pub struct Index {
    pub(crate) points: Vec<Point>,
    pub(crate) hot_columns: HotColumns,
    pub(crate) packed_hot2: Option<Vec<u32>>,
    pub(crate) prefix4_columns: Option<Prefix4Columns>,
    pub(crate) bucket_offsets: Vec<u32>,
    pub(crate) bucket_approval_counts: Vec<BucketApprovalCounts>,
    pub(crate) sector_approval_counts: Option<Vec<BucketApprovalCounts>>,
    pub(crate) ivf_bucket_map: Vec<u16>,
    pub(crate) ivf_buckets: Vec<DividedBucket>,
    pub(crate) ivf_dims: Option<(usize, usize)>,
    pub(crate) ivf_global_plan: bool,
    pub(crate) bucket_sector_map: Vec<u16>,
    pub(crate) sectorized_buckets: Vec<DividedBucket>,
    pub(crate) non_empty_buckets: Vec<BucketEntry>,
    pub(crate) lanes: bool,
}

/// How a bucket's points are laid out: in one run, by sector or by cell. The offsets of a
/// subdivision say where each part begins.
pub enum Layout {
    Whole,
    Sectors(Seq<u32>),
    Cells(Seq<u32>),
}

/// What an index holds.
#[verifier::ext_equal]
pub struct IndexView {
    /// The points, bucket by bucket.
    pub points: Seq<Point>,
    /// Where each bucket begins; one more offset ends the last one.
    pub offsets: Seq<u32>,
    /// The layout of each bucket.
    pub layouts: Seq<Layout>,
    /// The scan-order axes of the cell grid, where there is one.
    pub grid: Option<(usize, usize)>,
    /// Whether the cells of a bucket are visited in one common order.
    pub global: bool,
    /// Whether decisions are kept for each sector.
    pub sector_decisions: bool,
}

/// Offsets that never decrease.
pub open spec fn monotone(offsets: Seq<u32>) -> bool {
    forall|i: int, j: int| 0 <= i <= j < offsets.len() ==> offsets[i] <= offsets[j]
}

/// Bucket offsets that stay within the points.
pub open spec fn valid_offsets(offsets: Seq<u32>, points: int) -> bool {
    &&& offsets.len() == BUCKETS + 1
    &&& monotone(offsets)
    &&& offsets[BUCKETS as int] <= points
}

/// Offsets that cut a bucket into `parts` parts.
pub open spec fn valid_parts(offsets: Seq<u32>, parts: int, start: u32, end: u32) -> bool {
    &&& offsets.len() == parts + 1
    &&& monotone(offsets)
    &&& offsets[0] == start
    &&& offsets[parts] == end
}

/// The buckets below `limit` that hold points, in ascending order.
pub open spec fn occupied(offsets: Seq<u32>, limit: int) -> Seq<int>
    decreases limit,
{
    if limit <= 0 {
        Seq::empty()
    } else if offsets[limit - 1] != offsets[limit] {
        occupied(offsets, limit - 1).push(limit - 1)
    } else {
        occupied(offsets, limit - 1)
    }
}

/// How many of the points are labelled below three (`approved`) or not, in one sector or in all.
pub open spec fn tally(points: Seq<Point>, approved: bool, sector: Option<int>) -> int
    decreases points.len(),
{
    if points.len() == 0 {
        0
    } else {
        let point = points.last();
        tally(points.drop_last(), approved, sector) + if (point.label < 3) == approved && (sector
            is None || sector == Some(geometry::sector_of_point(point.values@))) {
            1int
        } else {
            0
        }
    }
}

/// The row of the sector decision table that belongs to a sector of a bucket.
pub open spec fn decision_row(bucket: int, sector: int) -> int {
    bucket * SECTORS + sector
}

impl IndexView {
    /// The points of a bucket.
    pub open spec fn bucket_points(self, bucket: int) -> Seq<Point> {
        self.points.subrange(self.offsets[bucket] as int, self.offsets[bucket + 1] as int)
    }

    /// The layout of a bucket covers exactly the bucket.
    pub open spec fn valid_layout(self, bucket: int) -> bool {
        match self.layouts[bucket] {
            Layout::Whole => true,
            Layout::Sectors(parts) => valid_parts(
                parts,
                SECTORS as int,
                self.offsets[bucket],
                self.offsets[bucket + 1],
            ),
            Layout::Cells(parts) => self.grid is Some && valid_parts(
                parts,
                IVF_CELLS as int,
                self.offsets[bucket],
                self.offsets[bucket + 1],
            ),
        }
    }

    /// Buckets and their parts stay within the points.
    pub open spec fn wf(self) -> bool {
        &&& self.points.len() <= u32::MAX
        &&& valid_offsets(self.offsets, self.points.len() as int)
        &&& self.layouts.len() == BUCKETS
        &&& forall|b: int| 0 <= b < BUCKETS ==> #[trigger] self.valid_layout(b)
        &&& self.grid matches Some(dims) ==> grid_axes(dims)
    }
}

impl View for Index {
    type V = IndexView;

    closed spec fn view(&self) -> IndexView {
        IndexView {
            points: self.points@,
            offsets: self.bucket_offsets@,
            layouts: Seq::new(BUCKETS as nat, |b: int| self.layout_of(b)),
            grid: self.ivf_dims,
            global: self.ivf_global_plan,
            sector_decisions: self.sector_approval_counts is Some,
        }
    }
}

impl Index {
    pub(crate) closed spec fn layout_of(&self, bucket: int) -> Layout {
        if self.ivf_bucket_map@[bucket] != NO_SECTOR {
            Layout::Cells(self.ivf_buckets@[self.ivf_bucket_map@[bucket] as int].offsets@)
        } else if self.bucket_sector_map@[bucket] != NO_SECTOR {
            Layout::Sectors(
                self.sectorized_buckets@[self.bucket_sector_map@[bucket] as int].offsets@,
            )
        } else {
            Layout::Whole
        }
    }

    pub(crate) closed spec fn columns_wf(&self) -> bool {
        &&& match self.packed_hot2 {
            Some(packed) => is_packed_column(packed@, self.points@),
            None => is_column(self.hot_columns.first@, self.points@, 0) && is_column(
                self.hot_columns.second@,
                self.points@,
                1,
            ),
        }
        &&& match self.prefix4_columns {
            Some(columns) => {
                &&& self.packed_hot2 is None
                &&& is_column(columns.third@, self.points@, 2)
                &&& is_column(columns.fourth@, self.points@, 3)
            },
            None => true,
        }
    }

    pub(crate) closed spec fn slots_wf(&self) -> bool {
        &&& self.ivf_bucket_map@.len() == BUCKETS
        &&& self.bucket_sector_map@.len() == BUCKETS
        &&& forall|b: int|
            0 <= b < BUCKETS && #[trigger] self.ivf_bucket_map@[b] != NO_SECTOR
                ==> self.ivf_bucket_map@[b] < self.ivf_buckets@.len()
        &&& forall|b: int|
            0 <= b < BUCKETS && #[trigger] self.bucket_sector_map@[b] != NO_SECTOR
                ==> self.bucket_sector_map@[b] < self.sectorized_buckets@.len()
    }

    pub(crate) closed spec fn entries_wf(&self) -> bool {
        &&& self.non_empty_buckets@.len() == occupied(self.bucket_offsets@, BUCKETS as int).len()
        &&& forall|i: int|
            0 <= i < self.non_empty_buckets@.len() ==> {
                &&& (#[trigger] self.non_empty_buckets@[i]).bucket == occupied(
                    self.bucket_offsets@,
                    BUCKETS as int,
                )[i]
                &&& self.non_empty_buckets@[i].meta == meta_of(
                    self.non_empty_buckets@[i].bucket as int,
                )
            }
    }

    pub(crate) closed spec fn counts_wf(&self) -> bool {
        &&& self.bucket_approval_counts@.len() == BUCKETS
        &&& forall|b: int|
            0 <= b < BUCKETS ==> {
                &&& (#[trigger] self.bucket_approval_counts@[b]).approved == tally(
                    self@.bucket_points(b),
                    true,
                    None,
                )
                &&& self.bucket_approval_counts@[b].denied == tally(
                    self@.bucket_points(b),
                    false,
                    None,
                )
            }
        &&& self.sector_approval_counts matches Some(counts) ==> {
            &&& counts@.len() == BUCKETS * SECTORS
            &&& forall|b: int, s: int|
                0 <= b < BUCKETS && 0 <= s < SECTORS ==> {
                    &&& counts@[#[trigger] decision_row(b, s)].approved == tally(
                        self@.bucket_points(b),
                        true,
                        Some(s),
                    )
                    &&& counts@[decision_row(b, s)].denied == tally(
                        self@.bucket_points(b),
                        false,
                        Some(s),
                    )
                }
        }
    }

    /// The index is consistent: its parts stay within its points, and its columns, entries and
    /// counts agree with them.
    pub closed spec fn wf(&self) -> bool {
        &&& self@.wf()
        &&& self.columns_wf()
        &&& self.slots_wf()
        &&& self.entries_wf()
        &&& self.counts_wf()
    }

    /// A consistent index stays within its points.
    pub proof fn lemma_wf(&self)
        requires
            self.wf(),
        ensures
            self@.wf(),
    {
    }
}

} // verus!
