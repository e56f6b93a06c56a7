//! Making an index out of points and bucket offsets, and the decisions it keeps.
use vstd::prelude::*;

use crate::index::assembly::{bucket_approval_counts, bucket_entries, empty_hot_columns, hot_columns,
    lemma_gathered_len, lemma_no_more_slots, lemma_regrouped, packed_hot2_columns, parts_of, points_of, prefix4_columns,
    regrouped, sector_approval_counts, Divided, SECTORIZE_THRESHOLD};
use crate::index::dividing::{all_ordered, ivf_buckets_from_ordered_points, ivf_grid_large_buckets,
    parts_in_place, parts_regrouped, sectorize_large_buckets, sectorized_buckets_from_ordered_points};
use crate::index::geometry::{bucket_of_vector, grid_axes, sector_decision_key_query, sector_of,
    vector_bucket};
use crate::index::grouping::{lemma_count_bounds, Division};
use crate::index::{decision_row, tally, valid_offsets, valid_parts, BucketApprovalCounts, HotColumns,
    Index, IndexView, Layout, Point, Prefix4Columns, BUCKETS, DIMS, IVF_CELLS, NO_SECTOR, SECTORS};

verus! {

/// Buckets below this many points are not cut into cells, unless set otherwise.
pub const DEFAULT_IVF_THRESHOLD: usize = 4_096;

/// How an index is laid out and searched.
#[derive(Clone, Copy, Debug)]
pub struct IndexConfig {
    /// Use the points where they stand when they stand sector by sector.
    pub use_mmap: bool,
    /// The scan-order axes of the cell grid.
    pub grid: Option<(usize, usize)>,
    /// Buckets below this many points are not cut into cells.
    pub grid_threshold: usize,
    /// Visit the cells of a bucket in one common order.
    pub global_plan: bool,
    /// Keep four components in columns.
    pub prefix4: bool,
    /// Keep two components packed, unless four are kept in columns.
    pub packed_hot2: bool,
    /// Keep decisions for each sector.
    pub sector_decisions: bool,
    /// Compare points in blocks.
    pub lanes: bool,
}

impl Default for IndexConfig {
    fn default() -> (config: Self)
        ensures
            config == (IndexConfig {
                use_mmap: true,
                grid: None,
                grid_threshold: DEFAULT_IVF_THRESHOLD,
                global_plan: false,
                prefix4: false,
                packed_hot2: false,
                sector_decisions: false,
                lanes: true,
            }),
    {
        IndexConfig {
            use_mmap: true,
            grid: None,
            grid_threshold: DEFAULT_IVF_THRESHOLD,
            global_plan: false,
            prefix4: false,
            packed_hot2: false,
            sector_decisions: false,
            lanes: true,
        }
    }
}

impl IndexConfig {
    /// The grid axes exist.
    pub open spec fn wf(self) -> bool {
        self.grid matches Some(dims) ==> grid_axes(dims)
    }
}

/// The layout of a bucket; cells take precedence over sectors.
pub open spec fn layout_from(cells: Option<Seq<u32>>, sectors: Option<Seq<u32>>) -> Layout {
    match (cells, sectors) {
        (Some(offsets), _) => Layout::Cells(offsets),
        (None, Some(offsets)) => Layout::Sectors(offsets),
        (None, None) => Layout::Whole,
    }
}

/// The cells of a bucket whose points stay where they stand.
pub open spec fn cells_in_place(
    points: Seq<Point>,
    offsets: Seq<u32>,
    config: IndexConfig,
    bucket: int,
) -> Option<Seq<u32>> {
    match config.grid {
        Some(dims) => parts_in_place(
            points,
            offsets,
            Division::Cells(dims),
            config.grid_threshold as int,
            bucket,
        ),
        None => None,
    }
}

/// The cells of a bucket whose points are regrouped.
pub open spec fn cells_regrouped(
    points: Seq<Point>,
    offsets: Seq<u32>,
    config: IndexConfig,
    bucket: int,
) -> Option<Seq<u32>> {
    match config.grid {
        Some(dims) => parts_regrouped(
            points,
            offsets,
            Division::Cells(dims),
            config.grid_threshold as int,
            bucket,
        ),
        None => None,
    }
}

/// Whether every large bucket stands sector by sector.
pub open spec fn sectors_ordered(points: Seq<Point>, offsets: Seq<u32>) -> bool {
    all_ordered(points, offsets, Division::Sectors, SECTORIZE_THRESHOLD as int, BUCKETS as int)
}

/// An index with the given points and layouts.
pub open spec fn assembled(
    points: Seq<Point>,
    offsets: Seq<u32>,
    layouts: Seq<Layout>,
    config: IndexConfig,
) -> IndexView {
    IndexView {
        points,
        offsets,
        layouts,
        grid: config.grid,
        global: config.global_plan,
        sector_decisions: config.sector_decisions,
    }
}

/// The index over points that stay where they stand.
pub open spec fn mapped_view(points: Seq<Point>, offsets: Seq<u32>, config: IndexConfig) -> IndexView {
    assembled(
        points,
        offsets,
        Seq::new(
            BUCKETS as nat,
            |b: int|
                layout_from(
                    cells_in_place(points, offsets, config, b),
                    parts_in_place(
                        points,
                        offsets,
                        Division::Sectors,
                        SECTORIZE_THRESHOLD as int,
                        b,
                    ),
                ),
        ),
        config,
    )
}

/// The points after the large buckets have been put cell by cell, where there is a grid.
pub open spec fn gridded(points: Seq<Point>, offsets: Seq<u32>, config: IndexConfig) -> Seq<Point> {
    match config.grid {
        Some(dims) => regrouped(
            points,
            offsets,
            Division::Cells(dims),
            config.grid_threshold as int,
            BUCKETS as int,
        ),
        None => points,
    }
}

/// The index over points that are put in order: first cell by cell, then sector by sector unless
/// they already stand so.
pub open spec fn owned_view(points: Seq<Point>, offsets: Seq<u32>, config: IndexConfig) -> IndexView {
    let middle = gridded(points, offsets, config);
    let ordered = sectors_ordered(middle, offsets);
    assembled(
        if ordered {
            middle
        } else {
            regrouped(
                middle,
                offsets,
                Division::Sectors,
                SECTORIZE_THRESHOLD as int,
                BUCKETS as int,
            )
        },
        offsets,
        Seq::new(
            BUCKETS as nat,
            |b: int|
                layout_from(
                    cells_regrouped(points, offsets, config, b),
                    if ordered {
                        parts_in_place(
                            middle,
                            offsets,
                            Division::Sectors,
                            SECTORIZE_THRESHOLD as int,
                            b,
                        )
                    } else {
                        parts_regrouped(
                            middle,
                            offsets,
                            Division::Sectors,
                            SECTORIZE_THRESHOLD as int,
                            b,
                        )
                    },
                ),
        ),
        config,
    )
}

/// The index that points and offsets make under a configuration.
pub open spec fn built_view(points: Seq<Point>, offsets: Seq<u32>, config: IndexConfig) -> IndexView {
    if config.use_mmap && sectors_ordered(points, offsets) {
        mapped_view(points, offsets, config)
    } else {
        owned_view(points, offsets, config)
    }
}

/// The offsets of a division cut the bucket.
pub proof fn lemma_parts_valid(points: Seq<Point>, offsets: Seq<u32>, division: Division, bucket: int)
    requires
        valid_offsets(offsets, points.len() as int),
        0 <= bucket < BUCKETS,
    ensures
        valid_parts(
            parts_of(points, offsets, division, bucket),
            division.parts(),
            offsets[bucket],
            offsets[bucket + 1],
        ),
{
    let own = points_of(points, offsets, bucket);
    let parts = parts_of(points, offsets, division, bucket);
    assert(offsets[bucket] <= offsets[bucket + 1]);
    assert(offsets[bucket + 1] <= offsets[BUCKETS as int]);
    lemma_gathered_len(own, division);
    assert forall|i: int, j: int| 0 <= i <= j < parts.len() implies parts[i] <= parts[j] by {
        lemma_count_bounds(own, division.key(), i, j);
        lemma_count_bounds(own, division.key(), j, division.parts());
    }
}

/// No divided buckets.
fn nothing_divided() -> (divided: Divided)
    ensures
        divided.wf(),
        forall|b: int| 0 <= b < BUCKETS ==> #[trigger] divided.parts(b) is None,
{
    let divided = Divided { map: vec![NO_SECTOR; BUCKETS], buckets: Vec::new() };
    proof {
        lemma_no_more_slots(divided.map@, 0, BUCKETS as int);
    }
    divided
}

impl Index {
    /// Computes what an index keeps besides its points.
    fn complete(
        points: Vec<Point>,
        offsets: Vec<u32>,
        cells: Divided,
        sectors: Divided,
        config: &IndexConfig,
    ) -> (index: Index)
        requires
            points@.len() <= u32::MAX,
            valid_offsets(offsets@, points@.len() as int),
            config.wf(),
            cells.wf(),
            sectors.wf(),
            forall|b: int|
                0 <= b < BUCKETS ==> (#[trigger] cells.parts(b) matches Some(parts) ==> config.grid
                    is Some && valid_parts(parts, IVF_CELLS as int, offsets@[b], offsets@[b + 1])),
            forall|b: int|
                0 <= b < BUCKETS ==> (#[trigger] sectors.parts(b) matches Some(parts) ==> valid_parts(
                    parts,
                    SECTORS as int,
                    offsets@[b],
                    offsets@[b + 1],
                )),
        ensures
            index.wf(),
            index@ == assembled(
                points@,
                offsets@,
                Seq::new(BUCKETS as nat, |b: int| layout_from(cells.parts(b), sectors.parts(b))),
                *config,
            ),
    {
        proof {
            cells.lemma_slots();
            sectors.lemma_slots();
        }
        let use_packed: bool = config.packed_hot2 && !config.prefix4;
        let columns: HotColumns = if use_packed {
            empty_hot_columns()
        } else {
            hot_columns(&points)
        };
        let packed_hot2: Option<Vec<u32>> = if use_packed {
            Some(packed_hot2_columns(&points))
        } else {
            None
        };
        let prefix4: Option<Prefix4Columns> = if config.prefix4 {
            Some(prefix4_columns(&points))
        } else {
            None
        };
        let bucket_counts: Vec<BucketApprovalCounts> = bucket_approval_counts(&points, &offsets);
        let sector_counts: Option<Vec<BucketApprovalCounts>> = if config.sector_decisions {
            Some(sector_approval_counts(&points, &offsets))
        } else {
            None
        };
        let non_empty_buckets = bucket_entries(&offsets);
        let index = Index {
            points,
            hot_columns: columns,
            packed_hot2,
            prefix4_columns: prefix4,
            bucket_offsets: offsets,
            bucket_approval_counts: bucket_counts,
            sector_approval_counts: sector_counts,
            ivf_bucket_map: cells.map,
            ivf_buckets: cells.buckets,
            ivf_dims: config.grid,
            ivf_global_plan: config.global_plan,
            bucket_sector_map: sectors.map,
            sectorized_buckets: sectors.buckets,
            non_empty_buckets,
            lanes: config.lanes,
        };
        proof {
            let layouts = Seq::new(BUCKETS as nat, |b: int| layout_from(cells.parts(b), sectors.parts(b)));
            assert forall|b: int| 0 <= b < BUCKETS implies index@.layouts[b] == layouts[b] by {
                assert(index@.layouts[b] == index.layout_of(b));
            }
            assert(index@.layouts =~= layouts);
            assert forall|b: int| 0 <= b < BUCKETS implies #[trigger] index@.valid_layout(b) by {
                assert(index@.layouts[b] == layouts[b]);
                assert(cells.parts(b) is Some || cells.parts(b) is None);
                assert(sectors.parts(b) is Some || sectors.parts(b) is None);
            }
            assert forall|b: int| 0 <= b < BUCKETS implies index@.bucket_points(b) == #[trigger] points_of(
                points@,
                offsets@,
                b,
            ) by {}
            assert(index@.wf());
            assert(index.columns_wf());
            assert(index.slots_wf());
            assert(index.entries_wf());
            assert(index.counts_wf());
        }
        index
    }

    /// Makes an index of points, putting the large buckets in order.
    fn from_owned_points(points: Vec<Point>, offsets: Vec<u32>, config: &IndexConfig) -> (index: Index)
        requires
            points@.len() <= u32::MAX,
            valid_offsets(offsets@, points@.len() as int),
            config.wf(),
        ensures
            index.wf(),
            index@ == owned_view(points@, offsets@, *config),
    {
        let ghost whole = points@;
        let mut points: Vec<Point> = points;
        let cells: Divided = match config.grid {
            Some(dims) => {
                proof {
                    lemma_regrouped(
                        whole,
                        offsets@,
                        Division::Cells(dims),
                        config.grid_threshold as int,
                        BUCKETS as int,
                    );
                }
                ivf_grid_large_buckets(&mut points, &offsets, dims, config.grid_threshold)
            },
            None => nothing_divided(),
        };
        let ghost middle = points@;
        assert(middle == gridded(whole, offsets@, *config));
        let sectors: Divided = match sectorized_buckets_from_ordered_points(&points, &offsets) {
            Some(divided) => divided,
            None => {
                proof {
                    lemma_regrouped(
                        middle,
                        offsets@,
                        Division::Sectors,
                        SECTORIZE_THRESHOLD as int,
                        BUCKETS as int,
                    );
                }
                sectorize_large_buckets(&mut points, &offsets)
            },
        };
        proof {
            assert forall|b: int| 0 <= b < BUCKETS implies (#[trigger] cells.parts(b) matches Some(parts)
                ==> config.grid is Some && valid_parts(
                parts,
                IVF_CELLS as int,
                offsets@[b],
                offsets@[b + 1],
            )) by {
                if config.grid is Some {
                    lemma_parts_valid(whole, offsets@, Division::Cells(config.grid->0), b);
                }
            }
            assert forall|b: int| 0 <= b < BUCKETS implies (
            #[trigger] sectors.parts(b) matches Some(parts) ==> valid_parts(
                parts,
                SECTORS as int,
                offsets@[b],
                offsets@[b + 1],
            )) by {
                lemma_parts_valid(middle, offsets@, Division::Sectors, b);
            }
        }
        let index: Index = Index::complete(points, offsets, cells, sectors, config);
        proof {
            let goal = owned_view(whole, offsets@, *config);
            assert(index@.layouts =~= goal.layouts);
        }
        index
    }

    /// Makes an index of points and bucket offsets.
    pub fn from_points(points: Vec<Point>, offsets: Vec<u32>, config: &IndexConfig) -> (index: Index)
        requires
            points@.len() <= u32::MAX,
            valid_offsets(offsets@, points@.len() as int),
            config.wf(),
        ensures
            index.wf(),
            index@ == built_view(points@, offsets@, *config),
    {
        if config.use_mmap {
            if let Some(sectors) = sectorized_buckets_from_ordered_points(&points, &offsets) {
                let cells: Divided = match config.grid {
                    Some(dims) => ivf_buckets_from_ordered_points(
                        &points,
                        &offsets,
                        dims,
                        config.grid_threshold,
                    ),
                    None => nothing_divided(),
                };
                proof {
                    assert forall|b: int| 0 <= b < BUCKETS implies (
                    #[trigger] cells.parts(b) matches Some(parts) ==> config.grid is Some
                        && valid_parts(parts, IVF_CELLS as int, offsets@[b], offsets@[b + 1])) by {
                        if config.grid is Some {
                            lemma_parts_valid(points@, offsets@, Division::Cells(config.grid->0), b);
                        }
                    }
                    assert forall|b: int| 0 <= b < BUCKETS implies (
                    #[trigger] sectors.parts(b) matches Some(parts) ==> valid_parts(
                        parts,
                        SECTORS as int,
                        offsets@[b],
                        offsets@[b + 1],
                    )) by {
                        lemma_parts_valid(points@, offsets@, Division::Sectors, b);
                    }
                }
                let ghost goal = mapped_view(points@, offsets@, *config);
                let index: Index = Index::complete(points, offsets, cells, sectors, config);
                assert(index@.layouts =~= goal.layouts);
                return index;
            }
        }
        Index::from_owned_points(points, offsets, config)
    }

    /// The decision of the points of the query's bucket, if there are enough and they agree enough.
    pub fn bucket_majority_decision(
        &self,
        query: &[i16; DIMS],
        min_total: u32,
        max_error_per_10000: u32,
    ) -> (decision: Option<u8>)
        requires
            self.wf(),
        ensures
            ({
                let own = self@.bucket_points(bucket_of_vector(query@));
                decision == majority(
                    tally(own, true, None),
                    tally(own, false, None),
                    min_total as int,
                    max_error_per_10000 as int,
                )
            }),
    {
        let bucket: usize = vector_bucket(query);
        let counts: BucketApprovalCounts = self.bucket_approval_counts[bucket];
        proof {
            lemma_tally_total(self@.bucket_points(bucket as int), None);
            self.lemma_bucket_fits(bucket as int);
        }
        majority_decision(counts, min_total, max_error_per_10000)
    }

    /// The decision of the points of the query's sector of its bucket, if decisions are kept for
    /// sectors, there are enough points and they agree enough.
    pub fn sector_majority_decision(
        &self,
        query: &[i16; DIMS],
        min_total: u32,
        max_error_per_10000: u32,
    ) -> (decision: Option<u8>)
        requires
            self.wf(),
        ensures
            ({
                let own = self@.bucket_points(bucket_of_vector(query@));
                let sector = Some(sector_of(query@[5] as int, query@[6] as int));
                decision == if self@.sector_decisions {
                    majority(
                        tally(own, true, sector),
                        tally(own, false, sector),
                        min_total as int,
                        max_error_per_10000 as int,
                    )
                } else {
                    None
                }
            }),
    {
        match &self.sector_approval_counts {
            Some(counts) => {
                let row: usize = sector_decision_key_query(query);
                proof {
                    let bucket = bucket_of_vector(query@);
                    let sector = sector_of(query@[5] as int, query@[6] as int);
                    crate::index::geometry::lemma_bucket_of_vector_range(query@);
                    crate::index::geometry::lemma_axis_step_range(query@[5] as int, 1_250, 8);
                    crate::index::geometry::lemma_axis_step_range(query@[6] as int, 1_250, 8);
                    assert(row == decision_row(bucket, sector));
                    lemma_tally_total(self@.bucket_points(bucket), Some(sector));
                    self.lemma_bucket_fits(bucket);
                }
                majority_decision(counts[row], min_total, max_error_per_10000)
            },
            None => None,
        }
    }

    proof fn lemma_bucket_fits(&self, bucket: int)
        requires
            self.wf(),
            0 <= bucket < BUCKETS,
        ensures
            self@.bucket_points(bucket).len() <= u32::MAX,
    {
        assert(self@.offsets[bucket] <= self@.offsets[bucket + 1]);
        assert(self@.offsets[bucket + 1] <= self@.offsets[BUCKETS as int]);
    }
}

/// Approved and denied points are together no more than all points, and all of them when no sector
/// is singled out.
pub proof fn lemma_tally_total(points: Seq<Point>, sector: Option<int>)
    ensures
        0 <= tally(points, true, sector),
        0 <= tally(points, false, sector),
        tally(points, true, sector) + tally(points, false, sector) <= points.len(),
        sector is None ==> tally(points, true, sector) + tally(points, false, sector) == points.len(),
    decreases points.len(),
{
    if points.len() > 0 {
        lemma_tally_total(points.drop_last(), sector);
    }
}

/// The decision of a group: none when it is empty, below `min_total`, or when the smaller side is
/// more than `max_error` in 10 000; else approval (0) unless the denied points prevail (3).
pub open spec fn majority(approved: int, denied: int, min_total: int, max_error: int) -> Option<u8> {
    let total = approved + denied;
    let errors = if approved < denied { approved } else { denied };
    if total < min_total || total == 0 || errors * 10_000 > max_error * total {
        None
    } else if approved >= denied {
        Some(0u8)
    } else {
        Some(3u8)
    }
}

/// The decision of a group.
pub fn majority_decision(counts: BucketApprovalCounts, min_total: u32, max_error_per_10000: u32) -> (decision:
    Option<u8>)
    requires
        counts.approved + counts.denied <= u32::MAX,
    ensures
        decision == majority(
            counts.approved as int,
            counts.denied as int,
            min_total as int,
            max_error_per_10000 as int,
        ),
{
    let total: u32 = counts.approved + counts.denied;
    if total < min_total || total == 0 {
        return None;
    }
    let errors: u32 = if counts.approved < counts.denied {
        counts.approved
    } else {
        counts.denied
    };
    assert(0 <= max_error_per_10000 * total <= u32::MAX * u32::MAX) by (nonlinear_arith)
        requires
            0 <= max_error_per_10000 <= u32::MAX,
            0 <= total <= u32::MAX,
    ;
    if (errors as u64) * 10_000 > (max_error_per_10000 as u64) * (total as u64) {
        return None;
    }
    if counts.approved >= counts.denied {
        Some(0)
    } else {
        Some(3)
    }
}

} // verus!
