//! Building the parts of an index from its points.
use vstd::prelude::*;

use crate::index::geometry::{bucket_has_last, bucket_meta, lemma_bucket_of_point_range, meta_of,
    point_bucket, point_sector, sector_of_point};
use crate::index::grouping::{bucket_key, count_below, gathered, group_offsets, in_key_order,
    lemma_count_all, lemma_count_bounds, lemma_count_next, lemma_count_split, lemma_gathered,
    lemma_matching_key, matching, varied, Division};
use crate::index::kernels::{is_column, is_packed_column, pack_hot2};
use crate::index::{decision_row, occupied, tally, valid_offsets, BucketApprovalCounts, BucketEntry,
    DividedBucket, HotColumns, Point, Prefix4Columns, BUCKETS, NO_SECTOR, SECTORS};

verus! {

/// Buckets below this many points are never cut into sectors.
pub const SECTORIZE_THRESHOLD: usize = 1_024;

/// The points of a bucket.
pub open spec fn points_of(points: Seq<Point>, offsets: Seq<u32>, bucket: int) -> Seq<Point> {
    points.subrange(offsets[bucket] as int, offsets[bucket + 1] as int)
}

/// A bucket is large enough to be divided, and its points have an earlier transaction.
pub open spec fn divisible(offsets: Seq<u32>, threshold: int, bucket: int) -> bool {
    offsets[bucket + 1] - offsets[bucket] >= threshold && bucket_has_last(bucket)
}

/// A bucket is divided: it is large enough and its points lie in more than one part.
pub open spec fn divides(
    points: Seq<Point>,
    offsets: Seq<u32>,
    division: Division,
    threshold: int,
    bucket: int,
) -> bool {
    divisible(offsets, threshold, bucket) && varied(
        points_of(points, offsets, bucket),
        division.key(),
    )
}

/// The points of a bucket stand part by part.
pub open spec fn ordered_bucket(
    points: Seq<Point>,
    offsets: Seq<u32>,
    division: Division,
    bucket: int,
) -> bool {
    in_key_order(points_of(points, offsets, bucket), division.key())
}

/// Where the parts of a bucket begin.
pub open spec fn parts_of(
    points: Seq<Point>,
    offsets: Seq<u32>,
    division: Division,
    bucket: int,
) -> Seq<u32> {
    group_offsets(
        points_of(points, offsets, bucket),
        division.key(),
        division.parts(),
        offsets[bucket] as int,
    )
}

/// The divided buckets and the slot of each.
pub struct Divided {
    pub map: Vec<u16>,
    pub buckets: Vec<DividedBucket>,
}

impl Divided {
    /// The offsets kept for a bucket, if it is divided.
    pub open spec fn parts(&self, bucket: int) -> Option<Seq<u32>> {
        if self.map@[bucket] != NO_SECTOR {
            Some(self.buckets@[self.map@[bucket] as int].offsets@)
        } else {
            None
        }
    }

    /// Every divided bucket has a slot of its own; slots are numbered in the order of their buckets.
    pub open spec fn wf(&self) -> bool {
        &&& self.map@.len() == BUCKETS
        &&& self.buckets@.len() == used_slots(self.map@, BUCKETS as int)
        &&& forall|b: int|
            0 <= b < BUCKETS && #[trigger] self.map@[b] != NO_SECTOR ==> self.map@[b] == used_slots(
                self.map@,
                b,
            )
    }

    /// Slots exist, and ascend with their buckets.
    pub proof fn lemma_slots(&self)
        requires
            self.wf(),
        ensures
            self.buckets@.len() <= BUCKETS,
            forall|b: int|
                0 <= b < BUCKETS && #[trigger] self.map@[b] != NO_SECTOR ==> self.map@[b]
                    < self.buckets@.len(),
            forall|a: int, b: int|
                0 <= a < b < BUCKETS && #[trigger] self.map@[a] != NO_SECTOR && #[trigger] self.map@[b]
                    != NO_SECTOR ==> self.map@[a] < self.map@[b],
    {
        lemma_used_slots(self.map@, 0, BUCKETS as int);
        assert forall|b: int| 0 <= b < BUCKETS && #[trigger] self.map@[b] != NO_SECTOR implies self.map@[b]
            < self.buckets@.len() by {
            lemma_used_slots(self.map@, b + 1, BUCKETS as int);
        }
        assert forall|a: int, b: int|
            0 <= a < b < BUCKETS && #[trigger] self.map@[a] != NO_SECTOR && #[trigger] self.map@[b]
                != NO_SECTOR implies self.map@[a] < self.map@[b] by {
            lemma_used_slots(self.map@, a + 1, b);
        }
    }
}

/// How many of the buckets below a limit have a slot.
pub open spec fn used_slots(map: Seq<u16>, limit: int) -> int
    decreases limit,
{
    if limit <= 0 {
        0
    } else {
        used_slots(map, limit - 1) + if map[limit - 1] != NO_SECTOR { 1int } else { 0 }
    }
}

/// More buckets have no fewer slots.
pub proof fn lemma_used_slots(map: Seq<u16>, from: int, to: int)
    requires
        0 <= from <= to,
    ensures
        0 <= used_slots(map, from) <= used_slots(map, to) <= used_slots(map, from) + (to - from),
    decreases to,
{
    if from < to {
        lemma_used_slots(map, from, to - 1);
    } else if to > 0 {
        lemma_used_slots(map, from - 1, to - 1);
    }
}

/// Buckets without a slot do not count.
pub proof fn lemma_no_more_slots(map: Seq<u16>, from: int, to: int)
    requires
        0 <= from <= to,
        forall|b: int| from <= b < to ==> #[trigger] map[b] == NO_SECTOR,
    ensures
        used_slots(map, to) == used_slots(map, from),
    decreases to - from,
{
    if from < to {
        lemma_no_more_slots(map, from, to - 1);
    }
}

/// A new slot counts for the limits behind its bucket.
pub proof fn lemma_slot_added(map: Seq<u16>, bucket: int, slot: u16, limit: int)
    requires
        0 <= bucket < map.len(),
        limit <= map.len(),
        map[bucket] == NO_SECTOR,
        slot != NO_SECTOR,
    ensures
        used_slots(map.update(bucket, slot), limit) == used_slots(map, limit) + if limit > bucket {
            1int
        } else {
            0
        },
    decreases limit,
{
    if limit > 0 {
        lemma_slot_added(map, bucket, slot, limit - 1);
    }
}

/// What is divided says where every offset stands: the same parts are kept in the same slots.
pub proof fn lemma_same_parts(left: Divided, right: Divided)
    requires
        left.wf(),
        right.wf(),
        forall|b: int| 0 <= b < BUCKETS ==> #[trigger] left.parts(b) == right.parts(b),
    ensures
        left.map@ == right.map@,
        left.buckets@.len() == right.buckets@.len(),
        forall|i: int|
            0 <= i < left.buckets@.len() ==> (#[trigger] left.buckets@[i]).offsets@
                == right.buckets@[i].offsets@,
{
    lemma_same_slots(left, right, BUCKETS as int);
    assert forall|b: int| 0 <= b < BUCKETS implies left.map@[b] == right.map@[b] by {
        assert(left.parts(b) == right.parts(b));
        lemma_same_slots(left, right, b);
    }
    assert(left.map@ =~= right.map@);
    assert forall|i: int| 0 <= i < left.buckets@.len() implies (#[trigger] left.buckets@[i]).offsets@
        == right.buckets@[i].offsets@ by {
        let b = lemma_slot_owner(left.map@, i, BUCKETS as int);
        assert(left.map@[b] == i);
        assert(left.parts(b) == right.parts(b));
    }
}

/// The same buckets have slots.
proof fn lemma_same_slots(left: Divided, right: Divided, limit: int)
    requires
        limit <= BUCKETS,
        forall|b: int| 0 <= b < BUCKETS ==> #[trigger] left.parts(b) == right.parts(b),
    ensures
        used_slots(left.map@, limit) == used_slots(right.map@, limit),
    decreases limit,
{
    if limit > 0 {
        lemma_same_slots(left, right, limit - 1);
        assert(left.parts(limit - 1) == right.parts(limit - 1));
    }
}

/// Every slot has its bucket.
proof fn lemma_slot_owner(map: Seq<u16>, slot: int, limit: int) -> (bucket: int)
    requires
        0 <= slot < used_slots(map, limit),
    ensures
        0 <= bucket < limit,
        map[bucket] != NO_SECTOR,
        used_slots(map, bucket) == slot,
    decreases limit,
{
    if slot < used_slots(map, limit - 1) {
        lemma_slot_owner(map, slot, limit - 1)
    } else {
        limit - 1
    }
}

/// The points after the buckets below `limit` have been regrouped, part by part.
pub open spec fn regrouped(
    points: Seq<Point>,
    offsets: Seq<u32>,
    division: Division,
    threshold: int,
    limit: int,
) -> Seq<Point>
    decreases limit,
{
    if limit <= 0 {
        points
    } else {
        let bucket = limit - 1;
        let earlier = regrouped(points, offsets, division, threshold, bucket);
        if divides(points, offsets, division, threshold, bucket) {
            earlier.take(offsets[bucket] as int) + gathered(
                points_of(points, offsets, bucket),
                division.key(),
                division.parts(),
            ) + earlier.skip(offsets[bucket + 1] as int)
        } else {
            earlier
        }
    }
}

/// The buckets of regrouped points, one by one.
pub proof fn lemma_regrouped(
    points: Seq<Point>,
    offsets: Seq<u32>,
    division: Division,
    threshold: int,
    limit: int,
)
    requires
        valid_offsets(offsets, points.len() as int),
        0 <= limit <= BUCKETS,
    ensures
        regrouped(points, offsets, division, threshold, limit).len() == points.len(),
        forall|i: int|
            offsets[limit] <= i < points.len() ==> regrouped(
                points,
                offsets,
                division,
                threshold,
                limit,
            )[i] == points[i],
        forall|i: int|
            0 <= i < offsets[0] ==> regrouped(points, offsets, division, threshold, limit)[i]
                == points[i],
        forall|b: int|
            0 <= b < limit ==> #[trigger] points_of(
                regrouped(points, offsets, division, threshold, limit),
                offsets,
                b,
            ) == if divides(points, offsets, division, threshold, b) {
                gathered(points_of(points, offsets, b), division.key(), division.parts())
            } else {
                points_of(points, offsets, b)
            },
    decreases limit,
{
    if limit > 0 {
        let bucket = limit - 1;
        lemma_regrouped(points, offsets, division, threshold, bucket);
        let earlier = regrouped(points, offsets, division, threshold, bucket);
        let all = regrouped(points, offsets, division, threshold, limit);
        let own = points_of(points, offsets, bucket);
        let start = offsets[bucket] as int;
        let end = offsets[bucket + 1] as int;
        assert(offsets[bucket] <= offsets[bucket + 1]);
        assert(offsets[bucket + 1] <= offsets[BUCKETS as int]);
        assert(offsets[0] <= offsets[bucket]);
        lemma_gathered_len(own, division);
        assert forall|b: int| 0 <= b < limit implies #[trigger] points_of(all, offsets, b) == if divides(
            points,
            offsets,
            division,
            threshold,
            b,
        ) {
            gathered(points_of(points, offsets, b), division.key(), division.parts())
        } else {
            points_of(points, offsets, b)
        } by {
            if b < bucket {
                assert(offsets[b] <= offsets[b + 1]);
                assert(offsets[b + 1] <= offsets[bucket]);
                assert(points_of(all, offsets, b) =~= points_of(earlier, offsets, b));
            } else if divides(points, offsets, division, threshold, b) {
                assert(points_of(all, offsets, b) =~= gathered(own, division.key(), division.parts()));
            } else {
                assert(points_of(all, offsets, b) =~= own);
            }
        }
    }
}

/// Gathering keeps the number of points.
pub proof fn lemma_gathered_len(points: Seq<Point>, division: Division)
    ensures
        gathered(points, division.key(), division.parts()).len() == points.len(),
        count_below(points, division.key(), division.parts()) == points.len(),
        count_below(points, division.key(), 0) == 0,
{
    assert forall|i: int| 0 <= i < points.len() implies 0 <= #[trigger] division.key()(points[i])
        < division.parts() by {
        division.lemma_key_range(points[i]);
    }
    lemma_gathered(points, division.key(), division.parts());
    lemma_count_all(points, division.key(), division.parts());
}

/// Where each bucket begins when the points stand bucket by bucket.
pub fn bucket_offsets(points: &[Point]) -> (offsets: Vec<u32>)
    requires
        points@.len() <= u32::MAX,
    ensures
        offsets@ == group_offsets(points@, bucket_key(), BUCKETS as int, 0),
        valid_offsets(offsets@, points@.len() as int),
        offsets@[0] == 0,
        offsets@[BUCKETS as int] == points@.len(),
{
    let ghost key = bucket_key();
    let mut counts: Vec<u32> = vec![0u32; BUCKETS];
    let mut i: usize = 0;
    while i < points.len()
        invariant
            points@.len() <= u32::MAX,
            key == bucket_key(),
            i <= points.len(),
            counts@.len() == BUCKETS,
            forall|b: int|
                0 <= b < BUCKETS ==> #[trigger] counts@[b] == matching(
                    points@.take(i as int),
                    key,
                    b,
                ).len(),
        decreases points.len() - i,
    {
        let bucket: usize = point_bucket(&points[i].values);
        proof {
            lemma_matching_key(points@.take(i as int), key, bucket as int);
            assert(counts@[bucket as int] == matching(points@.take(i as int), key, bucket as int).len());
            assert forall|b: int| 0 <= b < BUCKETS implies #[trigger] matching(
                points@.take(i + 1),
                key,
                b,
            ).len() == matching(points@.take(i as int), key, b).len() + if b == bucket {
                1int
            } else {
                0
            } by {
                lemma_count_next(points@, key, b, i as int);
            }
        }
        counts[bucket] = counts[bucket] + 1;
        i = i + 1;
    }
    assert(points@.take(i as int) =~= points@);
    let mut offsets: Vec<u32> = vec![0u32; BUCKETS + 1];
    let mut bucket: usize = 0;
    proof {
        assert forall|n: int| 0 <= n < points@.len() implies 0 <= #[trigger] key(points@[n])
            < BUCKETS by {
            lemma_bucket_of_point_range(points@[n].values@);
        }
        lemma_count_all(points@, key, BUCKETS as int);
    }
    while bucket < BUCKETS
        invariant
            points@.len() <= u32::MAX,
            key == bucket_key(),
            bucket <= BUCKETS,
            counts@.len() == BUCKETS,
            offsets@.len() == BUCKETS + 1,
            forall|b: int| 0 <= b < BUCKETS ==> #[trigger] counts@[b] == matching(points@, key, b).len(),
            forall|b: int| 0 <= b <= bucket ==> #[trigger] offsets@[b] == count_below(points@, key, b),
        decreases BUCKETS - bucket,
    {
        proof {
            lemma_count_split(points@, key, bucket as int);
            lemma_count_bounds(points@, key, bucket as int, bucket + 1);
            assert(offsets@[bucket as int] == count_below(points@, key, bucket as int));
            assert(counts@[bucket as int] == matching(points@, key, bucket as int).len());
        }
        offsets[bucket + 1] = offsets[bucket] + counts[bucket];
        bucket = bucket + 1;
    }
    proof {
        assert(offsets@ =~= group_offsets(points@, key, BUCKETS as int, 0)) by {
            assert forall|b: int| 0 <= b <= BUCKETS implies #[trigger] offsets@[b] == group_offsets(
                points@,
                key,
                BUCKETS as int,
                0,
            )[b] by {
                lemma_count_bounds(points@, key, b, b);
            }
        }
        assert forall|a: int, b: int| 0 <= a <= b < offsets@.len() implies offsets@[a] <= offsets@[b] by {
            lemma_count_bounds(points@, key, a, b);
        }
        assert(offsets@[BUCKETS as int] == count_below(points@, key, BUCKETS as int));
    }
    offsets
}

/// The buckets that hold points.
pub fn bucket_entries(offsets: &Vec<u32>) -> (buckets: Vec<BucketEntry>)
    requires
        offsets@.len() == BUCKETS + 1,
    ensures
        buckets@.len() == occupied(offsets@, BUCKETS as int).len(),
        forall|i: int|
            0 <= i < buckets@.len() ==> {
                &&& (#[trigger] buckets@[i]).bucket == occupied(offsets@, BUCKETS as int)[i]
                &&& buckets@[i].meta == meta_of(buckets@[i].bucket as int)
            },
{
    let mut buckets: Vec<BucketEntry> = Vec::new();
    let mut bucket: usize = 0;
    while bucket < BUCKETS
        invariant
            bucket <= BUCKETS,
            offsets@.len() == BUCKETS + 1,
            buckets@.len() == occupied(offsets@, bucket as int).len(),
            forall|i: int|
                0 <= i < buckets@.len() ==> {
                    &&& (#[trigger] buckets@[i]).bucket == occupied(offsets@, bucket as int)[i]
                    &&& buckets@[i].meta == meta_of(buckets@[i].bucket as int)
                },
        decreases BUCKETS - bucket,
    {
        if offsets[bucket] != offsets[bucket + 1] {
            buckets.push(BucketEntry { bucket, meta: bucket_meta(bucket) });
        }
        bucket = bucket + 1;
    }
    buckets
}

/// One more point tallied.
proof fn lemma_tally_next(points: Seq<Point>, approved: bool, sector: Option<int>, i: int)
    requires
        0 <= i < points.len(),
    ensures
        tally(points.take(i + 1), approved, sector) == tally(points.take(i), approved, sector)
            + if (points[i].label < 3) == approved && (sector is None || sector == Some(
            sector_of_point(points[i].values@),
        )) {
            1int
        } else {
            0
        },
{
    assert(points.take(i + 1).drop_last() =~= points.take(i));
}

/// A tally stays within the number of points.
pub proof fn lemma_tally_bound(points: Seq<Point>, approved: bool, sector: Option<int>)
    ensures
        0 <= tally(points, approved, sector) <= points.len(),
    decreases points.len(),
{
    if points.len() > 0 {
        lemma_tally_bound(points.drop_last(), approved, sector);
    }
}

/// How many points of each bucket are approved and denied.
pub fn bucket_approval_counts(points: &Vec<Point>, offsets: &Vec<u32>) -> (counts: Vec<
    BucketApprovalCounts,
>)
    requires
        points@.len() <= u32::MAX,
        valid_offsets(offsets@, points@.len() as int),
    ensures
        counts@.len() == BUCKETS,
        forall|b: int|
            0 <= b < BUCKETS ==> {
                &&& (#[trigger] counts@[b]).approved == tally(
                    points_of(points@, offsets@, b),
                    true,
                    None,
                )
                &&& counts@[b].denied == tally(points_of(points@, offsets@, b), false, None)
            },
{
    let mut counts: Vec<BucketApprovalCounts> = Vec::new();
    let mut bucket: usize = 0;
    while bucket < BUCKETS
        invariant
            points@.len() <= u32::MAX,
            valid_offsets(offsets@, points@.len() as int),
            bucket <= BUCKETS,
            counts@.len() == bucket,
            forall|b: int|
                0 <= b < bucket ==> {
                    &&& (#[trigger] counts@[b]).approved == tally(
                        points_of(points@, offsets@, b),
                        true,
                        None,
                    )
                    &&& counts@[b].denied == tally(points_of(points@, offsets@, b), false, None)
                },
        decreases BUCKETS - bucket,
    {
        let start: usize = offsets[bucket] as usize;
        let end: usize = offsets[bucket + 1] as usize;
        let ghost own = points_of(points@, offsets@, bucket as int);
        proof {
            assert(offsets@[bucket as int] <= offsets@[bucket + 1]);
            assert(offsets@[bucket + 1] <= offsets@[BUCKETS as int]);
        }
        let mut approved: u32 = 0;
        let mut denied: u32 = 0;
        let mut i: usize = start;
        assert(own.take(0) =~= Seq::<Point>::empty());
        while i < end
            invariant
                points@.len() <= u32::MAX,
                start <= i <= end <= points@.len(),
                own == points@.subrange(start as int, end as int),
                approved == tally(own.take(i - start), true, None),
                denied == tally(own.take(i - start), false, None),
                approved <= i - start,
                denied <= i - start,
            decreases end - i,
        {
            proof {
                lemma_tally_next(own, true, None, i - start);
                lemma_tally_next(own, false, None, i - start);
                assert(own[i - start] == points@[i as int]);
            }
            if points[i].label < 3 {
                approved = approved + 1;
            } else {
                denied = denied + 1;
            }
            i = i + 1;
        }
        assert(own.take(i - start) =~= own);
        counts.push(BucketApprovalCounts { approved, denied });
        bucket = bucket + 1;
    }
    counts
}

/// How many points of each sector of each bucket are approved and denied.
pub fn sector_approval_counts(points: &Vec<Point>, offsets: &Vec<u32>) -> (counts: Vec<
    BucketApprovalCounts,
>)
    requires
        points@.len() <= u32::MAX,
        valid_offsets(offsets@, points@.len() as int),
    ensures
        counts@.len() == BUCKETS * SECTORS,
        forall|b: int, s: int|
            0 <= b < BUCKETS && 0 <= s < SECTORS ==> {
                &&& counts@[#[trigger] decision_row(b, s)].approved == tally(
                    points_of(points@, offsets@, b),
                    true,
                    Some(s),
                )
                &&& counts@[decision_row(b, s)].denied == tally(
                    points_of(points@, offsets@, b),
                    false,
                    Some(s),
                )
            },
{
    let mut counts: Vec<BucketApprovalCounts> = Vec::new();
    let mut bucket: usize = 0;
    while bucket < BUCKETS
        invariant
            points@.len() <= u32::MAX,
            valid_offsets(offsets@, points@.len() as int),
            bucket <= BUCKETS,
            counts@.len() == bucket * SECTORS,
            forall|b: int, s: int|
                0 <= b < bucket && 0 <= s < SECTORS ==> {
                    &&& counts@[#[trigger] decision_row(b, s)].approved == tally(
                        points_of(points@, offsets@, b),
                        true,
                        Some(s),
                    )
                    &&& counts@[decision_row(b, s)].denied == tally(
                        points_of(points@, offsets@, b),
                        false,
                        Some(s),
                    )
                },
        decreases BUCKETS - bucket,
    {
        let start: usize = offsets[bucket] as usize;
        let end: usize = offsets[bucket + 1] as usize;
        let ghost own = points_of(points@, offsets@, bucket as int);
        let ghost earlier = counts@;
        proof {
            assert(offsets@[bucket as int] <= offsets@[bucket + 1]);
            assert(offsets@[bucket + 1] <= offsets@[BUCKETS as int]);
        }
        let base: usize = bucket * SECTORS;
        let mut sector: usize = 0;
        while sector < SECTORS
            invariant
                sector <= SECTORS,
                base == bucket * SECTORS,
                bucket < BUCKETS,
                earlier.len() == base,
                counts@.len() == base + sector,
                forall|n: int| 0 <= n < base ==> counts@[n] == earlier[n],
                forall|s: int|
                    0 <= s < sector ==> (#[trigger] counts@[base + s]).approved == 0 && counts@[base
                        + s].denied == 0,
            decreases SECTORS - sector,
        {
            counts.push(BucketApprovalCounts { approved: 0, denied: 0 });
            sector = sector + 1;
        }
        let mut i: usize = start;
        assert(own.take(0) =~= Seq::<Point>::empty());
        while i < end
            invariant
                points@.len() <= u32::MAX,
                bucket < BUCKETS,
                base == bucket * SECTORS,
                start <= i <= end <= points@.len(),
                own == points@.subrange(start as int, end as int),
                earlier.len() == base,
                counts@.len() == base + SECTORS,
                forall|n: int| 0 <= n < base ==> counts@[n] == earlier[n],
                forall|s: int|
                    0 <= s < SECTORS ==> {
                        &&& (#[trigger] counts@[base + s]).approved == tally(
                            own.take(i - start),
                            true,
                            Some(s),
                        )
                        &&& counts@[base + s].denied == tally(own.take(i - start), false, Some(s))
                    },
            decreases end - i,
        {
            let sector: usize = point_sector(&points[i].values);
            let row: usize = base + sector;
            let mut cell: BucketApprovalCounts = counts[row];
            let ghost before = counts@;
            proof {
                assert(own[i - start] == points@[i as int]);
                assert(before[base + sector].approved == tally(
                    own.take(i - start),
                    true,
                    Some(sector as int),
                ));
                lemma_tally_bound(own.take(i - start), true, Some(sector as int));
                lemma_tally_bound(own.take(i - start), false, Some(sector as int));
            }
            if points[i].label < 3 {
                cell.approved = cell.approved + 1;
            } else {
                cell.denied = cell.denied + 1;
            }
            counts[row] = cell;
            proof {
                assert forall|s: int| 0 <= s < SECTORS implies {
                    &&& (#[trigger] counts@[base + s]).approved == tally(
                        own.take(i + 1 - start),
                        true,
                        Some(s),
                    )
                    &&& counts@[base + s].denied == tally(own.take(i + 1 - start), false, Some(s))
                } by {
                    assert(before[base + s].approved == tally(own.take(i - start), true, Some(s)));
                    lemma_tally_next(own, true, Some(s), i - start);
                    lemma_tally_next(own, false, Some(s), i - start);
                }
            }
            i = i + 1;
        }
        proof {
            assert(own.take(i - start) =~= own);
            assert forall|b: int, s: int| 0 <= b < bucket + 1 && 0 <= s < SECTORS implies {
                &&& counts@[#[trigger] decision_row(b, s)].approved == tally(
                    points_of(points@, offsets@, b),
                    true,
                    Some(s),
                )
                &&& counts@[decision_row(b, s)].denied == tally(
                    points_of(points@, offsets@, b),
                    false,
                    Some(s),
                )
            } by {
                if b == bucket {
                    assert(counts@[base + s].approved == tally(own, true, Some(s)));
                } else {
                    assert(counts@[decision_row(b, s)] == earlier[decision_row(b, s)]);
                }
            }
        }
        bucket = bucket + 1;
    }
    counts
}

/// The first two components in columns.
pub fn hot_columns(points: &Vec<Point>) -> (columns: HotColumns)
    ensures
        is_column(columns.first@, points@, 0),
        is_column(columns.second@, points@, 1),
{
    let mut first: Vec<i16> = Vec::new();
    let mut second: Vec<i16> = Vec::new();
    let mut i: usize = 0;
    while i < points.len()
        invariant
            i <= points.len(),
            first@.len() == i,
            second@.len() == i,
            forall|k: int| 0 <= k < i ==> #[trigger] first@[k] == points@[k].values@[0],
            forall|k: int| 0 <= k < i ==> #[trigger] second@[k] == points@[k].values@[1],
        decreases points.len() - i,
    {
        first.push(points[i].values[0]);
        second.push(points[i].values[1]);
        i = i + 1;
    }
    HotColumns { first, second }
}

/// No columns.
pub fn empty_hot_columns() -> (columns: HotColumns)
    ensures
        columns.first@.len() == 0,
        columns.second@.len() == 0,
{
    HotColumns { first: Vec::new(), second: Vec::new() }
}

/// The first two components packed.
pub fn packed_hot2_columns(points: &Vec<Point>) -> (packed: Vec<u32>)
    ensures
        is_packed_column(packed@, points@),
{
    let mut packed: Vec<u32> = Vec::new();
    let mut i: usize = 0;
    while i < points.len()
        invariant
            i <= points.len(),
            packed@.len() == i,
            forall|k: int|
                0 <= k < i ==> #[trigger] packed@[k] == crate::index::kernels::packed_pair(
                    points@[k].values@[0],
                    points@[k].values@[1],
                ),
        decreases points.len() - i,
    {
        packed.push(pack_hot2(points[i].values[0], points[i].values[1]));
        i = i + 1;
    }
    packed
}

/// The third and fourth components in columns.
pub fn prefix4_columns(points: &Vec<Point>) -> (columns: Prefix4Columns)
    ensures
        is_column(columns.third@, points@, 2),
        is_column(columns.fourth@, points@, 3),
{
    let mut third: Vec<i16> = Vec::new();
    let mut fourth: Vec<i16> = Vec::new();
    let mut i: usize = 0;
    while i < points.len()
        invariant
            i <= points.len(),
            third@.len() == i,
            fourth@.len() == i,
            forall|k: int| 0 <= k < i ==> #[trigger] third@[k] == points@[k].values@[2],
            forall|k: int| 0 <= k < i ==> #[trigger] fourth@[k] == points@[k].values@[3],
        decreases points.len() - i,
    {
        third.push(points[i].values[2]);
        fourth.push(points[i].values[3]);
        i = i + 1;
    }
    Prefix4Columns { third, fourth }
}

} // verus!
