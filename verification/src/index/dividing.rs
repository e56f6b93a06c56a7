//! Cutting large buckets into sectors or cells.
use vstd::prelude::*;

use crate::index::assembly::{divides, divisible, lemma_gathered_len, lemma_no_more_slots, lemma_regrouped,
    lemma_slot_added, lemma_used_slots, ordered_bucket, parts_of, points_of, regrouped, used_slots, Divided,
    SECTORIZE_THRESHOLD};
use crate::index::geometry::bucket_has_last_transaction;
use crate::index::grouping::{count_below, gathered, group_offsets, in_key_order, lemma_count_bounds,
    lemma_count_next, lemma_count_split, lemma_gathered_unique, lemma_matching_key, matching, varied,
    Division};
use crate::index::{valid_offsets, DividedBucket, Point, BUCKETS, DIMS, NO_SECTOR};

verus! {

/// What the points of one bucket look like under a division.
struct PartCounts {
    counts: Vec<usize>,
    ordered: bool,
    varied: bool,
}

/// Counts the points of each part of a range.
fn count_parts(points: &Vec<Point>, start: usize, end: usize, division: Division) -> (found: PartCounts)
    requires
        start <= end <= points@.len(),
        division.wf(),
    ensures
        ({
            let own = points@.subrange(start as int, end as int);
            &&& found.counts@.len() == division.parts()
            &&& forall|c: int|
                0 <= c < division.parts() ==> #[trigger] found.counts@[c] == matching(
                    own,
                    division.key(),
                    c,
                ).len()
            &&& found.ordered == in_key_order(own, division.key())
            &&& found.varied == varied(own, division.key())
        }),
{
    let ghost own = points@.subrange(start as int, end as int);
    let ghost key = division.key();
    let parts: usize = division.part_count();
    let mut counts: Vec<usize> = vec![0usize; parts];
    let mut ordered: bool = true;
    let mut several: bool = false;
    let mut first: usize = 0;
    let mut previous: usize = 0;
    let mut i: usize = start;
    while i < end
        invariant
            start <= i <= end <= points@.len(),
            division.wf(),
            own == points@.subrange(start as int, end as int),
            key == division.key(),
            parts == division.parts(),
            counts@.len() == parts,
            forall|c: int|
                0 <= c < parts ==> #[trigger] counts@[c] == matching(own.take(i - start), key, c).len(),
            i > start ==> first == key(own[0]) && previous == key(own[i - start - 1]),
            ordered == in_key_order(own.take(i - start), key),
            several == varied(own.take(i - start), key),
            !several ==> forall|k: int| 0 <= k < i - start ==> #[trigger] key(own[k]) == first,
            ordered ==> forall|k: int| 0 <= k < i - start ==> #[trigger] key(own[k]) <= previous,
        decreases end - i,
    {
        let part: usize = division.part_of(&points[i]);
        let ghost n = i - start;
        let ghost seen = own.take(n);
        let ghost more = own.take(n + 1);
        proof {
            assert(own[n] == points@[i as int]);
            assert forall|c: int| 0 <= c < parts implies #[trigger] matching(more, key, c).len()
                == matching(seen, key, c).len() + if c == part { 1int } else { 0 } by {
                lemma_count_next(own, key, c, n);
            }
            lemma_matching_key(seen, key, part as int);
            assert(counts@[part as int] == matching(seen, key, part as int).len());
            assert forall|k: int| 0 <= k < n implies more[k] == seen[k] by {}
            assert(more[n] == own[n]);
        }
        if i > start && part < previous {
            proof {
                assert(key(more[n - 1]) > key(more[n]));
            }
            ordered = false;
        } else {
            proof {
                if ordered {
                    assert forall|a: int, b: int| 0 <= a <= b < more.len() implies #[trigger] key(more[a])
                        <= #[trigger] key(more[b]) by {
                        if b < n {
                            assert(key(seen[a]) <= key(seen[b]));
                        } else if a < n {
                            assert(key(own[a]) <= previous);
                        }
                    }
                } else {
                    let (a, b) = choose|a: int, b: int|
                        0 <= a <= b < seen.len() && !(#[trigger] key(seen[a]) <= #[trigger] key(seen[b]));
                    assert(!(key(more[a]) <= key(more[b])));
                }
            }
        }
        if i == start {
            first = part;
            proof {
                assert(!varied(more, key)) by {
                    if varied(more, key) {
                        let (a, b) = choose|a: int, b: int|
                            0 <= a < more.len() && 0 <= b < more.len() && #[trigger] key(more[a])
                                != #[trigger] key(more[b]);
                        assert(a == 0 && b == 0);
                    }
                }
            }
        } else if part != first {
            several = true;
            proof {
                assert(key(more[0]) != key(more[n]));
            }
        } else {
            proof {
                if several {
                    let (a, b) = choose|a: int, b: int|
                        0 <= a < seen.len() && 0 <= b < seen.len() && #[trigger] key(seen[a])
                            != #[trigger] key(seen[b]);
                    assert(key(more[a]) != key(more[b]));
                } else if varied(more, key) {
                    let (a, b) = choose|a: int, b: int|
                        0 <= a < more.len() && 0 <= b < more.len() && #[trigger] key(more[a])
                            != #[trigger] key(more[b]);
                    assert(key(own[a]) == first || a == n);
                    assert(key(own[b]) == first || b == n);
                }
            }
        }
        previous = part;
        counts[part] = counts[part] + 1;
        i = i + 1;
    }
    assert(own.take(i - start) =~= own);
    PartCounts { counts, ordered, varied: several }
}

/// Where the parts begin.
fn part_offsets(
    counts: &Vec<usize>,
    start: u32,
    end: u32,
    division: Division,
    Ghost(own): Ghost<Seq<Point>>,
) -> (offsets: Vec<u32>)
    requires
        start <= end,
        own.len() == end - start,
        counts@.len() == division.parts(),
        forall|c: int|
            0 <= c < division.parts() ==> #[trigger] counts@[c] == matching(own, division.key(), c).len(),
    ensures
        offsets@ == group_offsets(own, division.key(), division.parts(), start as int),
{
    let ghost key = division.key();
    let ghost parts = division.parts();
    let mut offsets: Vec<u32> = Vec::new();
    offsets.push(start);
    let mut part: usize = 0;
    proof {
        lemma_gathered_len(own, division);
    }
    while part < counts.len()
        invariant
            part <= counts.len(),
            start <= end,
            own.len() == end - start,
            key == division.key(),
            parts == division.parts(),
            counts@.len() == parts,
            forall|c: int| 0 <= c < parts ==> #[trigger] counts@[c] == matching(own, key, c).len(),
            offsets@.len() == part + 1,
            forall|c: int|
                0 <= c <= part ==> #[trigger] offsets@[c] == start + count_below(own, key, c),
        decreases counts.len() - part,
    {
        proof {
            lemma_count_split(own, key, part as int);
            lemma_count_bounds(own, key, part as int, part + 1);
            assert(counts@[part as int] == matching(own, key, part as int).len());
        }
        let last: u32 = offsets[part];
        offsets.push(last + counts[part] as u32);
        part = part + 1;
    }
    proof {
        assert forall|c: int| 0 <= c <= parts implies #[trigger] offsets@[c] == group_offsets(
            own,
            key,
            parts,
            start as int,
        )[c] by {}
        assert(offsets@ =~= group_offsets(own, key, parts, start as int));
    }
    offsets
}

/// Puts the points of a range part by part, each part in its order.
fn regroup(points: &mut Vec<Point>, start: usize, end: usize, division: Division, offsets: &Vec<u32>)
    requires
        start <= end <= old(points)@.len(),
        old(points)@.len() <= u32::MAX,
        division.wf(),
        offsets@ == group_offsets(
            old(points)@.subrange(start as int, end as int),
            division.key(),
            division.parts(),
            start as int,
        ),
    ensures
        final(points)@ == old(points)@.take(start as int) + gathered(
            old(points)@.subrange(start as int, end as int),
            division.key(),
            division.parts(),
        ) + old(points)@.skip(end as int),
{
    let ghost before = points@;
    let ghost own = before.subrange(start as int, end as int);
    let ghost key = division.key();
    let parts: usize = division.part_count();
    let len: usize = end - start;
    let mut scratch: Vec<Point> = Vec::new();
    let mut write_offsets: Vec<usize> = Vec::new();
    proof {
        lemma_gathered_len(own, division);
    }
    let mut i: usize = start;
    while i < end
        invariant
            start <= i <= end <= points@.len(),
            scratch@.len() == i - start,
        decreases end - i,
    {
        scratch.push(points[i]);
        i = i + 1;
    }
    let mut part: usize = 0;
    while part < parts
        invariant
            part <= parts,
            parts == division.parts(),
            key == division.key(),
            own.len() == end - start,
            end <= u32::MAX,
            start <= end,
            offsets@ == group_offsets(own, key, parts as int, start as int),
            write_offsets@.len() == part,
            forall|c: int| 0 <= c < part ==> #[trigger] write_offsets@[c] == count_below(own, key, c),
        decreases parts - part,
    {
        proof {
            lemma_count_bounds(own, key, part as int, part as int);
            assert(offsets@[part as int] == start + count_below(own, key, part as int));
        }
        write_offsets.push(offsets[part] as usize - start);
        part = part + 1;
    }
    let mut i: usize = start;
    while i < end
        invariant
            start <= i <= end <= points@.len(),
            points@ == before,
            own == before.subrange(start as int, end as int),
            division.wf(),
            parts == division.parts(),
            key == division.key(),
            scratch@.len() == end - start,
            write_offsets@.len() == parts,
            count_below(own, key, parts as int) == own.len(),
            forall|c: int|
                0 <= c < parts ==> #[trigger] write_offsets@[c] == count_below(own, key, c) + matching(
                    own.take(i - start),
                    key,
                    c,
                ).len(),
            forall|c: int, j: int|
                0 <= c < parts && 0 <= j < matching(own.take(i - start), key, c).len()
                    ==> scratch@[count_below(own, key, c) + j] == #[trigger] matching(
                    own.take(i - start),
                    key,
                    c,
                )[j],
        decreases end - i,
    {
        let part: usize = division.part_of(&points[i]);
        let write: usize = write_offsets[part];
        let ghost n = i - start;
        let ghost old_scratch = scratch@;
        proof {
            assert(own[n] == points@[i as int]);
            assert(write_offsets@[part as int] == count_below(own, key, part as int) + matching(
                own.take(n),
                key,
                part as int,
            ).len());
            lemma_count_next(own, key, part as int, n);
            lemma_matching_monotone(own, key, part as int, n + 1);
            lemma_count_split(own, key, part as int);
            lemma_count_bounds(own, key, part + 1, parts as int);
            lemma_count_bounds(own, key, 0, part as int);
        }
        scratch[write] = points[i];
        write_offsets[part] = write + 1;
        proof {
            assert forall|c: int| 0 <= c < parts implies #[trigger] write_offsets@[c] == count_below(
                own,
                key,
                c,
            ) + matching(own.take(n + 1), key, c).len() by {
                lemma_count_next(own, key, c, n);
            }
            assert forall|c: int, j: int|
                0 <= c < parts && 0 <= j < matching(own.take(n + 1), key, c).len() implies scratch@[
            count_below(own, key, c) + j] == #[trigger] matching(own.take(n + 1), key, c)[j] by {
                lemma_count_next(own, key, c, n);
                lemma_matching_monotone(own, key, c, n + 1);
                lemma_count_split(own, key, c);
                lemma_count_bounds(own, key, 0, c);
                lemma_count_bounds(own, key, c + 1, parts as int);
                if c == part && j == matching(own.take(n), key, c).len() {
                } else {
                    assert(old_scratch[count_below(own, key, c) + j] == matching(own.take(n), key, c)[j]);
                    if c < part {
                        lemma_count_bounds(own, key, c + 1, part as int);
                    } else if c > part {
                        lemma_count_bounds(own, key, part + 1, c);
                    }
                }
            }
        }
        i = i + 1;
    }
    proof {
        assert(own.take(i - start) =~= own);
        assert forall|n: int| 0 <= n < own.len() implies 0 <= #[trigger] key(own[n]) < parts by {
            division.lemma_key_range(own[n]);
        }
        lemma_gathered_unique(own, key, parts as int, scratch@);
    }
    let mut i: usize = 0;
    while i < len
        invariant
            i <= len,
            len == end - start,
            start <= end <= before.len(),
            points@.len() == before.len(),
            scratch@.len() == len,
            forall|k: int| 0 <= k < i ==> #[trigger] points@[start + k] == scratch@[k],
            forall|k: int|
                0 <= k < before.len() && !(start <= k < start + i) ==> #[trigger] points@[k] == before[k],
        decreases len - i,
    {
        points[start + i] = scratch[i];
        i = i + 1;
    }
    proof {
        let all = before.take(start as int) + scratch@ + before.skip(end as int);
        assert forall|k: int| 0 <= k < all.len() implies points@[k] == all[k] by {
            if start <= k < end {
                assert(points@[start + (k - start)] == scratch@[k - start]);
            }
        }
        assert(points@ =~= all);
    }
}

/// The matching points of a prefix are no more than those of the whole.
proof fn lemma_matching_monotone(points: Seq<Point>, key: crate::index::grouping::Key, value: int, n: int)
    requires
        0 <= n <= points.len(),
    ensures
        matching(points.take(n), key, value).len() <= matching(points, key, value).len(),
    decreases points.len() - n,
{
    if n == points.len() {
        assert(points.take(n) =~= points);
    } else {
        lemma_count_next(points, key, value, n);
        lemma_matching_monotone(points, key, value, n + 1);
    }
}

/// The offsets of a bucket that is divided where its points stand.
pub open spec fn parts_in_place(
    points: Seq<Point>,
    offsets: Seq<u32>,
    division: Division,
    threshold: int,
    bucket: int,
) -> Option<Seq<u32>> {
    if divides(points, offsets, division, threshold, bucket) && ordered_bucket(
        points,
        offsets,
        division,
        bucket,
    ) {
        Some(parts_of(points, offsets, division, bucket))
    } else {
        None
    }
}

/// The offsets of a bucket that is divided once its points are regrouped.
pub open spec fn parts_regrouped(
    points: Seq<Point>,
    offsets: Seq<u32>,
    division: Division,
    threshold: int,
    bucket: int,
) -> Option<Seq<u32>> {
    if divides(points, offsets, division, threshold, bucket) {
        Some(parts_of(points, offsets, division, bucket))
    } else {
        None
    }
}

/// Every bucket that may be divided stands part by part.
pub open spec fn all_ordered(
    points: Seq<Point>,
    offsets: Seq<u32>,
    division: Division,
    threshold: int,
    limit: int,
) -> bool {
    forall|b: int|
        0 <= b < limit && #[trigger] divisible(offsets, threshold, b) ==> ordered_bucket(
            points,
            offsets,
            division,
            b,
        )
}

/// A new slot leaves the slots of the other buckets as they are.
proof fn lemma_new_slot(before: Divided, after: Divided, bucket: int, added: DividedBucket)
    requires
        before.wf(),
        0 <= bucket < BUCKETS,
        forall|b: int| bucket <= b < BUCKETS ==> #[trigger] before.map@[b] == NO_SECTOR,
        after.map@ == before.map@.update(bucket, before.buckets@.len() as u16),
        after.buckets@ == before.buckets@.push(added),
    ensures
        after.wf(),
        after.parts(bucket) == Some(added.offsets@),
        forall|b: int|
            0 <= b < BUCKETS && b != bucket ==> #[trigger] after.parts(b) == before.parts(b),
{
    let slot = before.buckets@.len() as u16;
    before.lemma_slots();
    lemma_no_more_slots(before.map@, bucket, BUCKETS as int);
    lemma_used_slots(before.map@, 0, bucket);
    lemma_slot_added(before.map@, bucket, slot, BUCKETS as int);
    assert forall|b: int| 0 <= b < BUCKETS && #[trigger] after.map@[b] != NO_SECTOR implies after.map@[b]
        == used_slots(after.map@, b) by {
        lemma_slot_added(before.map@, bucket, slot, b);
        assert(b <= bucket);
        if b < bucket {
            assert(before.map@[b] != NO_SECTOR);
        }
    }
    assert forall|b: int| 0 <= b < BUCKETS && b != bucket implies #[trigger] after.parts(b)
        == before.parts(b) by {
        assert(after.map@[b] == before.map@[b]);
    }
}

/// Divides the buckets whose points already stand part by part; says whether all that may be
/// divided do.
fn divide_ordered(
    points: &Vec<Point>,
    offsets: &Vec<u32>,
    division: Division,
    threshold: usize,
) -> (found: (Divided, bool))
    requires
        points@.len() <= u32::MAX,
        valid_offsets(offsets@, points@.len() as int),
        division.wf(),
    ensures
        found.0.wf(),
        forall|b: int|
            0 <= b < BUCKETS ==> #[trigger] found.0.parts(b) == parts_in_place(
                points@,
                offsets@,
                division,
                threshold as int,
                b,
            ),
        found.1 == all_ordered(points@, offsets@, division, threshold as int, BUCKETS as int),
{
    let mut divided = Divided { map: vec![NO_SECTOR; BUCKETS], buckets: Vec::new() };
    proof {
        lemma_no_more_slots(divided.map@, 0, BUCKETS as int);
    }
    let mut ordered: bool = true;
    let mut bucket: usize = 0;
    while bucket < BUCKETS
        invariant
            points@.len() <= u32::MAX,
            valid_offsets(offsets@, points@.len() as int),
            division.wf(),
            bucket <= BUCKETS,
            divided.wf(),
            divided.buckets@.len() <= bucket,
            forall|b: int|
                0 <= b < bucket ==> #[trigger] divided.parts(b) == parts_in_place(
                    points@,
                    offsets@,
                    division,
                    threshold as int,
                    b,
                ),
            forall|b: int| bucket <= b < BUCKETS ==> #[trigger] divided.map@[b] == NO_SECTOR,
            ordered == all_ordered(points@, offsets@, division, threshold as int, bucket as int),
        decreases BUCKETS - bucket,
    {
        let first: u32 = offsets[bucket];
        let last: u32 = offsets[bucket + 1];
        let start: usize = first as usize;
        let end: usize = last as usize;
        proof {
            assert(offsets@[bucket as int] <= offsets@[bucket + 1]);
            assert(offsets@[bucket + 1] <= offsets@[BUCKETS as int]);
            assert(divided.map@[bucket as int] == NO_SECTOR);
        }
        let ghost before = divided;
        let ghost ordered_before = ordered;
        if end - start >= threshold && bucket_has_last_transaction(bucket) {
            assert(divisible(offsets@, threshold as int, bucket as int));
            let found: PartCounts = count_parts(points, start, end, division);
            if !found.ordered {
                ordered = false;
                assert(!ordered_bucket(points@, offsets@, division, bucket as int));
            } else if found.varied {
                let ghost own = points_of(points@, offsets@, bucket as int);
                let parts: Vec<u32> = part_offsets(&found.counts, first, last, division, Ghost(own));
                let slot: u16 = divided.buckets.len() as u16;
                let added = DividedBucket { offsets: parts };
                divided.map[bucket] = slot;
                divided.buckets.push(added);
                proof {
                    lemma_new_slot(before, divided, bucket as int, added);
                }
            }
        }
        proof {
            assert forall|b: int| 0 <= b < bucket + 1 implies #[trigger] divided.parts(b)
                == parts_in_place(points@, offsets@, division, threshold as int, b) by {
                if b < bucket {
                    assert(before.parts(b) == parts_in_place(
                        points@,
                        offsets@,
                        division,
                        threshold as int,
                        b,
                    ));
                }
            }
            if ordered_before && ordered {
                assert forall|b: int|
                    0 <= b < bucket + 1 && #[trigger] divisible(offsets@, threshold as int, b) implies ordered_bucket(
                points@, offsets@, division, b) by {}
            }
        }
        bucket = bucket + 1;
    }
    (divided, ordered)
}

/// Divides every large bucket, putting its points part by part.
fn divide_large(
    points: &mut Vec<Point>,
    offsets: &Vec<u32>,
    division: Division,
    threshold: usize,
) -> (divided: Divided)
    requires
        old(points)@.len() <= u32::MAX,
        valid_offsets(offsets@, old(points)@.len() as int),
        division.wf(),
    ensures
        final(points)@ == regrouped(
            old(points)@,
            offsets@,
            division,
            threshold as int,
            BUCKETS as int,
        ),
        divided.wf(),
        forall|b: int|
            0 <= b < BUCKETS ==> #[trigger] divided.parts(b) == parts_regrouped(
                old(points)@,
                offsets@,
                division,
                threshold as int,
                b,
            ),
{
    let ghost whole = points@;
    let mut divided = Divided { map: vec![NO_SECTOR; BUCKETS], buckets: Vec::new() };
    proof {
        lemma_no_more_slots(divided.map@, 0, BUCKETS as int);
    }
    let mut bucket: usize = 0;
    while bucket < BUCKETS
        invariant
            whole == old(points)@,
            whole.len() <= u32::MAX,
            valid_offsets(offsets@, whole.len() as int),
            division.wf(),
            bucket <= BUCKETS,
            points@ == regrouped(whole, offsets@, division, threshold as int, bucket as int),
            divided.wf(),
            divided.buckets@.len() <= bucket,
            forall|b: int|
                0 <= b < bucket ==> #[trigger] divided.parts(b) == parts_regrouped(
                    whole,
                    offsets@,
                    division,
                    threshold as int,
                    b,
                ),
            forall|b: int| bucket <= b < BUCKETS ==> #[trigger] divided.map@[b] == NO_SECTOR,
        decreases BUCKETS - bucket,
    {
        let first: u32 = offsets[bucket];
        let last: u32 = offsets[bucket + 1];
        let start: usize = first as usize;
        let end: usize = last as usize;
        let ghost own = points_of(whole, offsets@, bucket as int);
        proof {
            assert(offsets@[bucket as int] <= offsets@[bucket + 1]);
            assert(offsets@[bucket + 1] <= offsets@[BUCKETS as int]);
            assert(divided.map@[bucket as int] == NO_SECTOR);
            lemma_regrouped(whole, offsets@, division, threshold as int, bucket as int);
            assert(points@.subrange(start as int, end as int) =~= own);
        }
        let ghost before = divided;
        if end - start >= threshold && bucket_has_last_transaction(bucket) {
            assert(divisible(offsets@, threshold as int, bucket as int));
            let found: PartCounts = count_parts(points, start, end, division);
            if found.varied {
                let parts: Vec<u32> = part_offsets(&found.counts, first, last, division, Ghost(own));
                regroup(points, start, end, division, &parts);
                let slot: u16 = divided.buckets.len() as u16;
                let added = DividedBucket { offsets: parts };
                divided.map[bucket] = slot;
                divided.buckets.push(added);
                proof {
                    lemma_new_slot(before, divided, bucket as int, added);
                }
            }
        }
        proof {
            assert forall|b: int| 0 <= b < bucket + 1 implies #[trigger] divided.parts(b)
                == parts_regrouped(whole, offsets@, division, threshold as int, b) by {
                if b < bucket {
                    assert(before.parts(b) == parts_regrouped(
                        whole,
                        offsets@,
                        division,
                        threshold as int,
                        b,
                    ));
                }
            }
        }
        bucket = bucket + 1;
    }
    divided
}

/// The sectors of the large buckets, if the points of each already stand sector by sector.
pub fn sectorized_buckets_from_ordered_points(points: &Vec<Point>, offsets: &Vec<u32>) -> (found: Option<
    Divided,
>)
    requires
        points@.len() <= u32::MAX,
        valid_offsets(offsets@, points@.len() as int),
    ensures
        found is Some <==> all_ordered(
            points@,
            offsets@,
            Division::Sectors,
            SECTORIZE_THRESHOLD as int,
            BUCKETS as int,
        ),
        found matches Some(divided) ==> divided.wf() && forall|b: int|
            0 <= b < BUCKETS ==> #[trigger] divided.parts(b) == parts_in_place(
                points@,
                offsets@,
                Division::Sectors,
                SECTORIZE_THRESHOLD as int,
                b,
            ),
{
    let (divided, ordered) = divide_ordered(points, offsets, Division::Sectors, SECTORIZE_THRESHOLD);
    if ordered {
        Some(divided)
    } else {
        None
    }
}

/// Puts the points of each large bucket sector by sector.
pub fn sectorize_large_buckets(points: &mut Vec<Point>, offsets: &Vec<u32>) -> (divided: Divided)
    requires
        old(points)@.len() <= u32::MAX,
        valid_offsets(offsets@, old(points)@.len() as int),
    ensures
        final(points)@ == regrouped(
            old(points)@,
            offsets@,
            Division::Sectors,
            SECTORIZE_THRESHOLD as int,
            BUCKETS as int,
        ),
        divided.wf(),
        forall|b: int|
            0 <= b < BUCKETS ==> #[trigger] divided.parts(b) == parts_regrouped(
                old(points)@,
                offsets@,
                Division::Sectors,
                SECTORIZE_THRESHOLD as int,
                b,
            ),
{
    divide_large(points, offsets, Division::Sectors, SECTORIZE_THRESHOLD)
}

/// The cells of the buckets with at least `threshold` points that already stand cell by cell.
pub fn ivf_buckets_from_ordered_points(
    points: &Vec<Point>,
    offsets: &Vec<u32>,
    dims: (usize, usize),
    threshold: usize,
) -> (divided: Divided)
    requires
        points@.len() <= u32::MAX,
        valid_offsets(offsets@, points@.len() as int),
        dims.0 < DIMS,
        dims.1 < DIMS,
    ensures
        divided.wf(),
        forall|b: int|
            0 <= b < BUCKETS ==> #[trigger] divided.parts(b) == parts_in_place(
                points@,
                offsets@,
                Division::Cells(dims),
                threshold as int,
                b,
            ),
{
    divide_ordered(points, offsets, Division::Cells(dims), threshold).0
}

/// Puts the points of each bucket with at least `threshold` points cell by cell.
pub fn ivf_grid_large_buckets(
    points: &mut Vec<Point>,
    offsets: &Vec<u32>,
    dims: (usize, usize),
    threshold: usize,
) -> (divided: Divided)
    requires
        old(points)@.len() <= u32::MAX,
        valid_offsets(offsets@, old(points)@.len() as int),
        dims.0 < DIMS,
        dims.1 < DIMS,
    ensures
        final(points)@ == regrouped(
            old(points)@,
            offsets@,
            Division::Cells(dims),
            threshold as int,
            BUCKETS as int,
        ),
        divided.wf(),
        forall|b: int|
            0 <= b < BUCKETS ==> #[trigger] divided.parts(b) == parts_regrouped(
                old(points)@,
                offsets@,
                Division::Cells(dims),
                threshold as int,
                b,
            ),
{
    divide_large(points, offsets, Division::Cells(dims), threshold)
}

} // verus!
