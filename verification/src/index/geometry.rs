//! Where a vector lies: scan order, coarse buckets, sectors, cells and lower bounds.
use vstd::prelude::*;

use crate::index::{BucketMeta, BUCKETS, DIMS, FLAG_BUCKETS, IVF_CELLS, IVF_SUBCELLS, IVF_SUB_BUCKETS,
    IVF_SUB_WIDTH, MCC_BUCKETS, RATIO_BUCKETS, RATIO_WIDTH, SECTORS, SECTOR_BUCKETS, SECTOR_WIDTH,
    TX_BUCKETS, TX_STEP};

verus! {

/// Position in the feature vector of each scan-order component.
pub open spec fn scan_source(d: int) -> int {
    seq![5int, 6, 0, 2, 7, 8, 12, 1, 11, 9, 10, 3, 4, 13][d]
}

/// The vector's components in the order in which distances are accumulated.
pub open spec fn scanned(values: Seq<i16>) -> Seq<i16> {
    Seq::new(DIMS as nat, |d: int| values[scan_source(d)])
}

/// The interval, out of `steps` intervals of `width` starting at zero, that holds `value`;
/// values outside the axis belong to the nearest end.
pub open spec fn axis_step(value: int, width: int, steps: int) -> int {
    let at = (if value < 0 { 0 } else { value }) / width;
    if at < steps { at } else { steps - 1 }
}

/// First value of an interval of an axis.
pub open spec fn axis_lo(step: int, width: int) -> int {
    step * width
}

/// Last value of an interval of an axis that ends at 10 000.
pub open spec fn axis_hi(step: int, width: int, steps: int) -> int {
    if step + 1 == steps { 10_000 } else { (step + 1) * width - 1 }
}

/// Square of a difference.
pub open spec fn squared_gap(left: int, right: int) -> int {
    (left - right) * (left - right)
}

/// Squared gap between a value and an interval.
pub open spec fn interval_gap(value: int, lo: int, hi: int) -> int {
    if value < lo {
        squared_gap(value, lo)
    } else if value > hi {
        squared_gap(value, hi)
    } else {
        0
    }
}

/// Squared gap between a value and an interval of an axis.
pub open spec fn axis_gap(value: int, step: int, width: int, steps: int) -> int {
    interval_gap(value, axis_lo(step, width), axis_hi(step, width, steps))
}

/// Sum of the squared gaps of the first `dims` components.
pub open spec fn partial_distance(query: Seq<i16>, values: Seq<i16>, dims: int) -> int
    decreases dims,
{
    if dims <= 0 {
        0
    } else {
        partial_distance(query, values, dims - 1) + squared_gap(
            query[dims - 1] as int,
            values[dims - 1] as int,
        )
    }
}

/// Squared Euclidean distance of two vectors.
pub open spec fn distance(query: Seq<i16>, values: Seq<i16>) -> int {
    partial_distance(query, values, DIMS as int)
}

/// The risk level of a merchant category; a value that is no known level counts as 5 000.
pub open spec fn mcc_level(value: int) -> int {
    if value == 1_500 {
        0
    } else if value == 2_000 {
        1
    } else if value == 2_500 {
        2
    } else if value == 3_000 {
        3
    } else if value == 3_500 {
        4
    } else if value == 4_500 {
        5
    } else if value == 7_500 {
        7
    } else if value == 8_000 {
        8
    } else if value == 8_500 {
        9
    } else {
        6
    }
}

/// The value that stands for a risk level.
pub open spec fn mcc_value(level: int) -> int {
    seq![1_500int, 2_000, 2_500, 3_000, 3_500, 4_500, 5_000, 7_500, 8_000, 8_500][level]
}

/// One for a true flag, zero for a false one.
pub open spec fn flag_bit(flag: bool) -> int {
    if flag { 1 } else { 0 }
}

/// The four presence flags as a number.
pub open spec fn flag_bits(last_present: bool, online: bool, card: bool, unknown: bool) -> int {
    flag_bit(last_present) + 2 * flag_bit(online) + 4 * flag_bit(card) + 8 * flag_bit(unknown)
}

/// The flags of a feature vector.
pub open spec fn vector_flag_bits(values: Seq<i16>) -> int {
    flag_bits(values[5] != -10_000, values[9] != 0, values[10] != 0, values[11] != 0)
}

/// The flags of a vector in scan order.
pub open spec fn point_flag_bits(values: Seq<i16>) -> int {
    flag_bits(values[0] != -10_000, values[9] != 0, values[10] != 0, values[8] != 0)
}

/// The coarse bucket with the given coordinates.
pub open spec fn bucket_number(flags: int, mcc: int, tx: int, ratio: int) -> int {
    ((ratio * TX_BUCKETS + tx) * MCC_BUCKETS + mcc) * FLAG_BUCKETS + flags
}

/// The coarse bucket of a feature vector.
pub open spec fn bucket_of_vector(values: Seq<i16>) -> int {
    bucket_number(
        vector_flag_bits(values),
        mcc_level(values[12] as int),
        axis_step(values[8] as int, TX_STEP as int, TX_BUCKETS as int),
        axis_step(values[2] as int, RATIO_WIDTH as int, RATIO_BUCKETS as int),
    )
}

/// The coarse bucket of a vector in scan order.
pub open spec fn bucket_of_point(values: Seq<i16>) -> int {
    bucket_number(
        point_flag_bits(values),
        mcc_level(values[6] as int),
        axis_step(values[5] as int, TX_STEP as int, TX_BUCKETS as int),
        axis_step(values[3] as int, RATIO_WIDTH as int, RATIO_BUCKETS as int),
    )
}

/// The flags of every point of a bucket.
pub open spec fn bucket_flags(bucket: int) -> int {
    bucket % (FLAG_BUCKETS as int)
}

/// The category level of every point of a bucket.
pub open spec fn bucket_mcc(bucket: int) -> int {
    (bucket / FLAG_BUCKETS as int) % (MCC_BUCKETS as int)
}

/// The transaction-count level of every point of a bucket.
pub open spec fn bucket_tx(bucket: int) -> int {
    (bucket / FLAG_BUCKETS as int / MCC_BUCKETS as int) % (TX_BUCKETS as int)
}

/// The ratio interval of every point of a bucket.
pub open spec fn bucket_ratio(bucket: int) -> int {
    bucket / FLAG_BUCKETS as int / MCC_BUCKETS as int / TX_BUCKETS as int
}

/// The sector of a pair of coordinates.
pub open spec fn sector_of(first: int, second: int) -> int {
    axis_step(first, SECTOR_WIDTH as int, SECTOR_BUCKETS as int) * SECTOR_BUCKETS + axis_step(
        second,
        SECTOR_WIDTH as int,
        SECTOR_BUCKETS as int,
    )
}

/// The subcell of a pair of coordinates.
pub open spec fn subcell_of(first: int, second: int) -> int {
    axis_step(first, IVF_SUB_WIDTH as int, IVF_SUB_BUCKETS as int) * IVF_SUB_BUCKETS + axis_step(
        second,
        IVF_SUB_WIDTH as int,
        IVF_SUB_BUCKETS as int,
    )
}

/// The sector of a vector in scan order.
pub open spec fn sector_of_point(values: Seq<i16>) -> int {
    sector_of(values[0] as int, values[1] as int)
}

/// The grid cell of a vector in scan order.
pub open spec fn cell_of_point(values: Seq<i16>, dims: (usize, usize)) -> int {
    sector_of_point(values) * IVF_SUBCELLS + subcell_of(
        values[dims.0 as int] as int,
        values[dims.1 as int] as int,
    )
}

/// Whether the points of a bucket have an earlier transaction.
pub open spec fn bucket_has_last(bucket: int) -> bool {
    bucket_flags(bucket) % 2 == 1
}

/// The part of a bucket's lower bound that comes from the presence of an earlier transaction.
pub open spec fn last_gap(query: Seq<i16>, query_flags: int, flags: int) -> int {
    if query_flags % 2 == flags % 2 {
        0
    } else if query_flags % 2 == 1 {
        squared_gap(query[5] as int, -10_000) + squared_gap(query[6] as int, -10_000)
    } else {
        200_000_000
    }
}

/// The part of a bucket's lower bound that comes from one zero-or-10 000 flag.
pub open spec fn flag_gap(left: int, right: int) -> int {
    if left % 2 == right % 2 { 0 } else { 100_000_000 }
}

/// The lower bound that what is known of a bucket's points gives for the distance to any of them.
pub open spec fn meta_gap(query: Seq<i16>, query_flags: int, meta: BucketMeta) -> int {
    last_gap(query, query_flags, meta.flags as int)
        + flag_gap(query_flags / 2, meta.flags as int / 2)
        + flag_gap(query_flags / 4, meta.flags as int / 4)
        + flag_gap(query_flags / 8, meta.flags as int / 8)
        + squared_gap(query[12] as int, meta.mcc_value as int)
        + squared_gap(query[8] as int, meta.tx_value as int)
        + interval_gap(query[2] as int, meta.ratio_lo as int, meta.ratio_hi as int)
}

/// The lower bound that a bucket's coordinates give for the distance to any of its points.
pub open spec fn bucket_gap(query: Seq<i16>, bucket: int) -> int {
    meta_gap(query, vector_flag_bits(query), meta_of(bucket))
}

/// The lower bound that a sector gives, for a query in scan order.
pub open spec fn sector_gap(query: Seq<i16>, sector: int) -> int {
    axis_gap(
        query[0] as int,
        sector / SECTOR_BUCKETS as int,
        SECTOR_WIDTH as int,
        SECTOR_BUCKETS as int,
    ) + axis_gap(
        query[1] as int,
        sector % SECTOR_BUCKETS as int,
        SECTOR_WIDTH as int,
        SECTOR_BUCKETS as int,
    )
}

/// The lower bound that a subcell gives, for a query in scan order.
pub open spec fn subcell_gap(query: Seq<i16>, dims: (usize, usize), subcell: int) -> int {
    axis_gap(
        query[dims.0 as int] as int,
        subcell / IVF_SUB_BUCKETS as int,
        IVF_SUB_WIDTH as int,
        IVF_SUB_BUCKETS as int,
    ) + axis_gap(
        query[dims.1 as int] as int,
        subcell % IVF_SUB_BUCKETS as int,
        IVF_SUB_WIDTH as int,
        IVF_SUB_BUCKETS as int,
    )
}

/// The lower bound that a grid cell gives, for a query in scan order.
pub open spec fn cell_gap(query: Seq<i16>, dims: (usize, usize), cell: int) -> int {
    sector_gap(query, cell / IVF_SUBCELLS as int) + subcell_gap(
        query,
        dims,
        cell % IVF_SUBCELLS as int,
    )
}

/// The two scan-order axes of a cell grid are distinct, in range and not the sector axes.
pub open spec fn grid_axes(dims: (usize, usize)) -> bool {
    2 <= dims.0 < DIMS && 2 <= dims.1 < DIMS && dims.0 != dims.1
}

/// What is known of every point of a bucket.
pub open spec fn meta_of(bucket: int) -> BucketMeta {
    BucketMeta {
        flags: bucket_flags(bucket) as u8,
        mcc_value: mcc_value(bucket_mcc(bucket)) as i16,
        tx_value: (bucket_tx(bucket) * TX_STEP) as i16,
        ratio_lo: axis_lo(bucket_ratio(bucket), RATIO_WIDTH as int) as i16,
        ratio_hi: axis_hi(bucket_ratio(bucket), RATIO_WIDTH as int, RATIO_BUCKETS as int) as i16,
    }
}

/// A step of an axis is one of its steps.
pub proof fn lemma_axis_step_range(value: int, width: int, steps: int)
    requires
        width > 0,
        steps > 0,
    ensures
        0 <= axis_step(value, width, steps) < steps,
{
    let v: int = if value < 0 { 0 } else { value };
    assert(v / width >= 0) by (nonlinear_arith)
        requires
            v >= 0,
            width > 0,
    ;
}

/// Every bucket number built from coordinates in range is a bucket, and its coordinates are
/// recovered from it.
pub proof fn lemma_bucket_number(flags: int, mcc: int, tx: int, ratio: int)
    requires
        0 <= flags < FLAG_BUCKETS,
        0 <= mcc < MCC_BUCKETS,
        0 <= tx < TX_BUCKETS,
        0 <= ratio < RATIO_BUCKETS,
    ensures
        0 <= bucket_number(flags, mcc, tx, ratio) < BUCKETS,
        bucket_flags(bucket_number(flags, mcc, tx, ratio)) == flags,
        bucket_mcc(bucket_number(flags, mcc, tx, ratio)) == mcc,
        bucket_tx(bucket_number(flags, mcc, tx, ratio)) == tx,
        bucket_ratio(bucket_number(flags, mcc, tx, ratio)) == ratio,
{
}

/// The coordinates of a bucket are in range and give the bucket back.
pub proof fn lemma_bucket_coordinates(bucket: int)
    requires
        0 <= bucket < BUCKETS,
    ensures
        0 <= bucket_flags(bucket) < FLAG_BUCKETS,
        0 <= bucket_mcc(bucket) < MCC_BUCKETS,
        0 <= bucket_tx(bucket) < TX_BUCKETS,
        0 <= bucket_ratio(bucket) < RATIO_BUCKETS,
        bucket_number(
            bucket_flags(bucket),
            bucket_mcc(bucket),
            bucket_tx(bucket),
            bucket_ratio(bucket),
        ) == bucket,
{
}

/// What is known of a bucket lies on the axes.
pub proof fn lemma_meta_of(bucket: int)
    requires
        0 <= bucket < BUCKETS,
    ensures
        meta_of(bucket).flags == bucket_flags(bucket),
        meta_of(bucket).mcc_value == mcc_value(bucket_mcc(bucket)),
        meta_of(bucket).tx_value == bucket_tx(bucket) * TX_STEP,
        meta_of(bucket).ratio_lo == axis_lo(bucket_ratio(bucket), RATIO_WIDTH as int),
        meta_of(bucket).ratio_hi == axis_hi(
            bucket_ratio(bucket),
            RATIO_WIDTH as int,
            RATIO_BUCKETS as int,
        ),
        0 <= meta_of(bucket).mcc_value <= 10_000,
        0 <= meta_of(bucket).tx_value <= 10_000,
        0 <= meta_of(bucket).ratio_lo <= 10_000,
        0 <= meta_of(bucket).ratio_hi <= 10_000,
{
    lemma_bucket_coordinates(bucket);
}

/// Putting a vector in scan order keeps its coarse bucket.
pub proof fn lemma_scan_order_keeps_bucket(values: Seq<i16>)
    requires
        values.len() == DIMS,
    ensures
        bucket_of_point(scanned(values)) == bucket_of_vector(values),
        0 <= bucket_of_vector(values) < BUCKETS,
{
    lemma_bucket_of_vector_range(values);
}

/// The coarse bucket of a feature vector is a bucket.
pub proof fn lemma_bucket_of_vector_range(values: Seq<i16>)
    ensures
        0 <= bucket_of_vector(values) < BUCKETS,
{
    lemma_axis_step_range(values[8] as int, TX_STEP as int, TX_BUCKETS as int);
    lemma_axis_step_range(values[2] as int, RATIO_WIDTH as int, RATIO_BUCKETS as int);
    lemma_bucket_number(
        vector_flag_bits(values),
        mcc_level(values[12] as int),
        axis_step(values[8] as int, TX_STEP as int, TX_BUCKETS as int),
        axis_step(values[2] as int, RATIO_WIDTH as int, RATIO_BUCKETS as int),
    );
}

/// The coarse bucket of a vector in scan order is a bucket.
pub proof fn lemma_bucket_of_point_range(values: Seq<i16>)
    ensures
        0 <= bucket_of_point(values) < BUCKETS,
{
    lemma_axis_step_range(values[5] as int, TX_STEP as int, TX_BUCKETS as int);
    lemma_axis_step_range(values[3] as int, RATIO_WIDTH as int, RATIO_BUCKETS as int);
    lemma_bucket_number(
        point_flag_bits(values),
        mcc_level(values[6] as int),
        axis_step(values[5] as int, TX_STEP as int, TX_BUCKETS as int),
        axis_step(values[3] as int, RATIO_WIDTH as int, RATIO_BUCKETS as int),
    );
}

/// The square of an `i16` gap that stays below 46 341 fits an `i32`.
pub proof fn lemma_square_bound(gap: int, limit: int)
    requires
        -limit <= gap <= limit,
    ensures
        0 <= gap * gap <= limit * limit,
{
    assert(0 <= gap * gap <= limit * limit) by (nonlinear_arith)
        requires
            -limit <= gap <= limit,
    ;
}

/// Computes `scanned`.
pub fn scan_order(values: &[i16; DIMS]) -> (order: [i16; DIMS])
    ensures
        order@ == scanned(values@),
{
    let order: [i16; DIMS] = [
        values[5], values[6], values[0], values[2], values[7], values[8], values[12], values[1],
        values[11], values[9], values[10], values[3], values[4], values[13],
    ];
    assert(order@ =~= scanned(values@));
    order
}

fn axis_interval(value: i16, width: usize, steps: usize) -> (step: usize)
    requires
        width > 0,
        steps > 0,
    ensures
        step == axis_step(value as int, width as int, steps as int),
        step < steps,
{
    let positive: usize = if value < 0 { 0 } else { value as usize };
    let at: usize = positive / width;
    if at < steps {
        at
    } else {
        steps - 1
    }
}

/// The category level of a value.
pub fn mcc_bucket(value: i16) -> (level: usize)
    ensures
        level == mcc_level(value as int),
        level < MCC_BUCKETS,
{
    match value {
        1_500 => 0,
        2_000 => 1,
        2_500 => 2,
        3_000 => 3,
        3_500 => 4,
        4_500 => 5,
        5_000 => 6,
        7_500 => 7,
        8_000 => 8,
        8_500 => 9,
        _ => 6,
    }
}

/// The transaction-count level of a value.
pub fn tx_bucket(value: i16) -> (level: usize)
    ensures
        level == axis_step(value as int, TX_STEP as int, TX_BUCKETS as int),
        level < TX_BUCKETS,
{
    axis_interval(value, TX_STEP, TX_BUCKETS)
}

/// The ratio interval of a value.
pub fn ratio_bucket(value: i16) -> (interval: usize)
    ensures
        interval == axis_step(value as int, RATIO_WIDTH as int, RATIO_BUCKETS as int),
        interval < RATIO_BUCKETS,
{
    axis_interval(value, RATIO_WIDTH, RATIO_BUCKETS)
}

/// The sector interval of a value.
pub fn sector_coord(value: i16) -> (interval: usize)
    ensures
        interval == axis_step(value as int, SECTOR_WIDTH as int, SECTOR_BUCKETS as int),
        interval < SECTOR_BUCKETS,
{
    axis_interval(value, SECTOR_WIDTH, SECTOR_BUCKETS)
}

/// The subcell interval of a value.
pub fn ivf_sub_coord(value: i16) -> (interval: usize)
    ensures
        interval == axis_step(value as int, IVF_SUB_WIDTH as int, IVF_SUB_BUCKETS as int),
        interval < IVF_SUB_BUCKETS,
{
    axis_interval(value, IVF_SUB_WIDTH, IVF_SUB_BUCKETS)
}

fn pack_flags(last_present: bool, online: bool, card: bool, unknown: bool) -> (flags: usize)
    ensures
        flags == flag_bits(last_present, online, card, unknown),
        flags < FLAG_BUCKETS,
{
    let last_bit: usize = if last_present { 1 } else { 0 };
    let online_bit: usize = if online { 2 } else { 0 };
    let card_bit: usize = if card { 4 } else { 0 };
    let unknown_bit: usize = if unknown { 8 } else { 0 };
    last_bit + online_bit + card_bit + unknown_bit
}

/// The presence flags of a feature vector.
pub fn vector_flags(values: &[i16; DIMS]) -> (flags: usize)
    ensures
        flags == vector_flag_bits(values@),
        flags < FLAG_BUCKETS,
{
    pack_flags(values[5] != -10_000, values[9] != 0, values[10] != 0, values[11] != 0)
}

/// The presence flags of a vector in scan order.
pub fn point_flags(values: &[i16; DIMS]) -> (flags: usize)
    ensures
        flags == point_flag_bits(values@),
        flags < FLAG_BUCKETS,
{
    pack_flags(values[0] != -10_000, values[9] != 0, values[10] != 0, values[8] != 0)
}

/// The coarse bucket of a feature vector.
pub fn vector_bucket(values: &[i16; DIMS]) -> (bucket: usize)
    ensures
        bucket == bucket_of_vector(values@),
        bucket < BUCKETS,
{
    let flags: usize = vector_flags(values);
    let mcc: usize = mcc_bucket(values[12]);
    let tx: usize = tx_bucket(values[8]);
    let ratio: usize = ratio_bucket(values[2]);
    ((ratio * TX_BUCKETS + tx) * MCC_BUCKETS + mcc) * FLAG_BUCKETS + flags
}

/// The coarse bucket of a vector in scan order.
pub fn point_bucket(values: &[i16; DIMS]) -> (bucket: usize)
    ensures
        bucket == bucket_of_point(values@),
        bucket < BUCKETS,
{
    let flags: usize = point_flags(values);
    let mcc: usize = mcc_bucket(values[6]);
    let tx: usize = tx_bucket(values[5]);
    let ratio: usize = ratio_bucket(values[3]);
    ((ratio * TX_BUCKETS + tx) * MCC_BUCKETS + mcc) * FLAG_BUCKETS + flags
}

/// The sector of a pair of coordinates.
pub fn sector_id(first: i16, second: i16) -> (sector: usize)
    ensures
        sector == sector_of(first as int, second as int),
        sector < SECTORS,
{
    sector_coord(first) * SECTOR_BUCKETS + sector_coord(second)
}

/// The subcell of a pair of coordinates.
pub fn ivf_subcell(first: i16, second: i16) -> (subcell: usize)
    ensures
        subcell == subcell_of(first as int, second as int),
        subcell < IVF_SUBCELLS,
{
    ivf_sub_coord(first) * IVF_SUB_BUCKETS + ivf_sub_coord(second)
}

/// The sector of a vector in scan order.
pub fn point_sector(values: &[i16; DIMS]) -> (sector: usize)
    ensures
        sector == sector_of_point(values@),
        sector < SECTORS,
{
    sector_id(values[0], values[1])
}

/// The grid cell of a vector in scan order.
pub fn ivf_cell(values: &[i16; DIMS], dims: (usize, usize)) -> (cell: usize)
    requires
        dims.0 < DIMS,
        dims.1 < DIMS,
    ensures
        cell == cell_of_point(values@, dims),
        cell < IVF_CELLS,
{
    point_sector(values) * IVF_SUBCELLS + ivf_subcell(values[dims.0], values[dims.1])
}

/// The row of the sector decision table that a feature vector belongs to.
pub fn sector_decision_key_query(values: &[i16; DIMS]) -> (key: usize)
    ensures
        key == bucket_of_vector(values@) * SECTORS + sector_of(values@[5] as int, values@[6] as int),
        key < BUCKETS * SECTORS,
{
    let bucket: usize = vector_bucket(values);
    let sector: usize = sector_id(values[5], values[6]);
    bucket * SECTORS + sector
}

/// Whether the points of a bucket have an earlier transaction.
pub fn bucket_has_last_transaction(bucket: usize) -> (present: bool)
    ensures
        present == bucket_has_last(bucket as int),
{
    (bucket % FLAG_BUCKETS) % 2 == 1
}

/// The flags, category level, count level and ratio interval of a bucket.
pub fn decode_coarse_bucket(coarse: usize) -> (coordinates: (usize, usize, usize, usize))
    ensures
        coordinates.0 == bucket_flags(coarse as int),
        coordinates.1 == bucket_mcc(coarse as int),
        coordinates.2 == bucket_tx(coarse as int),
        coordinates.3 == bucket_ratio(coarse as int),
{
    let flags: usize = coarse % FLAG_BUCKETS;
    let rest: usize = coarse / FLAG_BUCKETS;
    let mcc: usize = rest % MCC_BUCKETS;
    let rest: usize = rest / MCC_BUCKETS;
    let tx: usize = rest % TX_BUCKETS;
    let ratio: usize = rest / TX_BUCKETS;
    (flags, mcc, tx, ratio)
}

fn level_value(level: usize) -> (value: i16)
    requires
        level < MCC_BUCKETS,
    ensures
        value == mcc_value(level as int),
{
    let values: [i16; 10] = [1_500, 2_000, 2_500, 3_000, 3_500, 4_500, 5_000, 7_500, 8_000, 8_500];
    values[level]
}

/// What is known of every point of a bucket.
pub fn bucket_meta(coarse: usize) -> (meta: BucketMeta)
    requires
        coarse < BUCKETS,
    ensures
        meta == meta_of(coarse as int),
{
    let (flags, mcc, tx, ratio) = decode_coarse_bucket(coarse);
    proof {
        lemma_bucket_coordinates(coarse as int);
    }
    let ratio_lo: i16 = (ratio * RATIO_WIDTH) as i16;
    let ratio_hi: i16 = if ratio + 1 == RATIO_BUCKETS {
        10_000
    } else {
        ((ratio + 1) * RATIO_WIDTH - 1) as i16
    };
    BucketMeta {
        flags: flags as u8,
        mcc_value: level_value(mcc),
        tx_value: (tx as i16) * 500,
        ratio_lo,
        ratio_hi,
    }
}

/// The square of a difference that fits an `i32` when squared.
pub fn squared_delta(left: i16, right: i16) -> (square: i64)
    requires
        -46_340 <= left - right <= 46_340,
    ensures
        square == squared_gap(left as int, right as int),
        0 <= square <= 2_147_395_600,
{
    let delta: i32 = left as i32 - right as i32;
    proof {
        lemma_square_bound(delta as int, 46_340);
    }
    (delta * delta) as i64
}

/// The squared gap between a value and an interval inside `0..=10 000`.
pub fn interval_lower_bound(query_value: i16, lo: i16, hi: i16) -> (bound: i64)
    requires
        -46_340 <= query_value - lo,
        query_value - hi <= 46_340,
    ensures
        bound == interval_gap(query_value as int, lo as int, hi as int),
        0 <= bound <= 2_147_395_600,
{
    if query_value < lo {
        squared_delta(query_value, lo)
    } else if query_value > hi {
        squared_delta(query_value, hi)
    } else {
        0
    }
}

/// The squared gap between a value and a sector interval.
pub fn sector_lower_bound(query_value: i16, sector: usize) -> (bound: i64)
    requires
        sector < SECTOR_BUCKETS,
    ensures
        bound == axis_gap(
            query_value as int,
            sector as int,
            SECTOR_WIDTH as int,
            SECTOR_BUCKETS as int,
        ),
        0 <= bound <= 2_147_395_600,
{
    let lo: i16 = (sector * SECTOR_WIDTH) as i16;
    let hi: i16 = if sector + 1 == SECTOR_BUCKETS {
        10_000
    } else {
        ((sector + 1) * SECTOR_WIDTH - 1) as i16
    };
    interval_lower_bound(query_value, lo, hi)
}

/// The squared gap between a value and a subcell interval.
pub fn ivf_sub_lower_bound(query_value: i16, subcell: usize) -> (bound: i64)
    requires
        subcell < IVF_SUB_BUCKETS,
    ensures
        bound == axis_gap(
            query_value as int,
            subcell as int,
            IVF_SUB_WIDTH as int,
            IVF_SUB_BUCKETS as int,
        ),
        0 <= bound <= 2_147_395_600,
{
    let lo: i16 = (subcell * IVF_SUB_WIDTH) as i16;
    let hi: i16 = if subcell + 1 == IVF_SUB_BUCKETS {
        10_000
    } else {
        ((subcell + 1) * IVF_SUB_WIDTH - 1) as i16
    };
    interval_lower_bound(query_value, lo, hi)
}

/// The lower bound of a bucket, from what is known of its points.
pub fn bucket_lower_bound(query: &[i16; DIMS], query_flags: usize, meta: BucketMeta) -> (bound: i64)
    requires
        0 <= meta.mcc_value <= 10_000,
        0 <= meta.tx_value <= 10_000,
        0 <= meta.ratio_lo <= 10_000,
        0 <= meta.ratio_hi <= 10_000,
    ensures
        bound == meta_gap(query@, query_flags as int, meta),
        0 <= bound <= 15_000_000_000,
{
    let flags: usize = meta.flags as usize;
    let mut lower_bound: i64 = 0;
    if query_flags % 2 != flags % 2 {
        lower_bound = if query_flags % 2 != 0 {
            squared_delta(query[5], -10_000) + squared_delta(query[6], -10_000)
        } else {
            200_000_000
        };
    }
    if (query_flags / 2) % 2 != (flags / 2) % 2 {
        lower_bound = lower_bound + 100_000_000;
    }
    if (query_flags / 4) % 2 != (flags / 4) % 2 {
        lower_bound = lower_bound + 100_000_000;
    }
    if (query_flags / 8) % 2 != (flags / 8) % 2 {
        lower_bound = lower_bound + 100_000_000;
    }
    lower_bound = lower_bound + squared_delta(query[12], meta.mcc_value);
    lower_bound = lower_bound + squared_delta(query[8], meta.tx_value);
    lower_bound + interval_lower_bound(query[2], meta.ratio_lo, meta.ratio_hi)
}

} // verus!
