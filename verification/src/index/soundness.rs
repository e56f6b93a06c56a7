//! The bounds of buckets, sectors and cells never exceed the distance to a point in them.
use vstd::prelude::*;

use crate::index::geometry::{axis_gap, axis_hi, axis_lo, axis_step, bucket_gap, bucket_of_point,
    cell_gap, cell_of_point, distance, flag_gap, grid_axes, interval_gap, last_gap,
    lemma_axis_step_range, lemma_bucket_number, lemma_meta_of, mcc_level, mcc_value, meta_of,
    partial_distance, point_flag_bits, scanned, sector_gap, sector_of_point, squared_gap,
    subcell_gap, subcell_of, vector_flag_bits};
use crate::index::{DIMS, IVF_SUB_BUCKETS, IVF_SUB_WIDTH, RATIO_BUCKETS, RATIO_WIDTH, SECTOR_BUCKETS,
    SECTOR_WIDTH, TX_BUCKETS, TX_STEP};

verus! {

/// A value on an axis.
pub open spec fn on_axis(value: i16) -> bool {
    0 <= value <= 10_000
}

/// A flag that is off or on.
pub open spec fn is_flag(value: i16) -> bool {
    value == 0 || value == 10_000
}

/// A point in scan order whose values are such as features have: on their axes, with flags that are
/// off or on, a category of the table, a whole transaction count, and either both parts of an
/// earlier transaction or neither.
pub open spec fn on_grid(values: Seq<i16>) -> bool {
    &&& forall|d: int| 2 <= d < DIMS ==> on_axis(#[trigger] values[d])
    &&& (values[0] == -10_000 && values[1] == -10_000) || (on_axis(values[0]) && on_axis(values[1]))
    &&& is_flag(values[8])
    &&& is_flag(values[9])
    &&& is_flag(values[10])
    &&& mcc_value(mcc_level(values[6] as int)) == values[6]
    &&& values[5] as int % TX_STEP as int == 0
}

/// A feature vector whose flags are off or on, with neither part of an earlier transaction where
/// the first is missing.
pub open spec fn plain_query(vector: Seq<i16>) -> bool {
    &&& vector.len() == DIMS
    &&& is_flag(vector[9])
    &&& is_flag(vector[10])
    &&& is_flag(vector[11])
    &&& vector[5] == -10_000 ==> vector[6] == -10_000
}

/// The vector has an earlier transaction.
pub open spec fn has_last(vector: Seq<i16>) -> bool {
    vector[5] != -10_000
}

/// Axes of a cell grid that no bucket bound already counts: amount, distance from home,
/// installments, hour, weekday and merchant average.
pub open spec fn free_axes(dims: (usize, usize)) -> bool {
    &&& grid_axes(dims)
    &&& free_axis(dims.0)
    &&& free_axis(dims.1)
}

/// A scan-order axis that no bucket bound counts.
pub open spec fn free_axis(axis: usize) -> bool {
    axis == 2 || axis == 4 || axis == 7 || axis == 11 || axis == 12 || axis == 13
}

/// Squares are not negative.
proof fn lemma_square(left: int, right: int)
    ensures
        squared_gap(left, right) >= 0,
{
    assert((left - right) * (left - right) >= 0) by (nonlinear_arith);
}

/// An interval that holds a value is no farther than the value.
pub proof fn lemma_interval_gap(query: int, value: int, lo: int, hi: int)
    requires
        lo <= value <= hi,
    ensures
        0 <= interval_gap(query, lo, hi) <= squared_gap(query, value),
{
    lemma_square(query, lo);
    lemma_square(query, hi);
    lemma_square(query, value);
    if query < lo {
        assert((query - lo) * (query - lo) <= (query - value) * (query - value)) by (nonlinear_arith)
            requires
                query < lo <= value,
        ;
    } else if query > hi {
        assert((query - hi) * (query - hi) <= (query - value) * (query - value)) by (nonlinear_arith)
            requires
                value <= hi < query,
        ;
    }
}

/// The step of an axis that a value belongs to is no farther than the value.
pub proof fn lemma_axis_gap(query: int, value: int, width: int, steps: int)
    requires
        0 <= value <= 10_000,
        width > 0,
        steps > 0,
        width * steps == 10_000,
    ensures
        0 <= axis_gap(query, axis_step(value, width, steps), width, steps) <= squared_gap(query, value),
{
    let at = value / width;
    let step = axis_step(value, width, steps);
    lemma_axis_step_range(value, width, steps);
    assert(at * width <= value < (at + 1) * width) by (nonlinear_arith)
        requires
            at == value / width,
            width > 0,
            value >= 0,
    ;
    if at >= steps {
        assert((steps - 1) * width <= at * width) by (nonlinear_arith)
            requires
                steps <= at,
                width > 0,
        ;
    }
    lemma_interval_gap(query, value, axis_lo(step, width), axis_hi(step, width, steps));
}

/// The distance is the sum over all components.
pub proof fn lemma_distance_sum(query: Seq<i16>, values: Seq<i16>)
    ensures
        distance(query, values) == term(query, values, 0) + term(query, values, 1) + term(
            query,
            values,
            2,
        ) + term(query, values, 3) + term(query, values, 4) + term(query, values, 5) + term(
            query,
            values,
            6,
        ) + term(query, values, 7) + term(query, values, 8) + term(query, values, 9) + term(
            query,
            values,
            10,
        ) + term(query, values, 11) + term(query, values, 12) + term(query, values, 13),
        forall|d: int| #[trigger] term(query, values, d) >= 0,
{
    reveal_with_fuel(partial_distance, 15);
    assert forall|d: int| #[trigger] term(query, values, d) >= 0 by {
        lemma_square(query[d] as int, values[d] as int);
    }
}

/// One component's part of a distance.
pub open spec fn term(query: Seq<i16>, values: Seq<i16>, d: int) -> int {
    squared_gap(query[d] as int, values[d] as int)
}

/// A flag's part of a bucket bound is no more than its component's part of the distance.
proof fn lemma_flag_gap(query: i16, value: i16)
    requires
        is_flag(query),
        is_flag(value),
    ensures
        squared_gap(query as int, value as int) == if (query != 0) == (value != 0) {
            0int
        } else {
            100_000_000
        },
{
    let gap = query - value;
    assert(gap == 0 || gap == 10_000 || gap == -10_000);
    assert(gap == 0 ==> gap * gap == 0) by (nonlinear_arith);
    assert(gap == 10_000 ==> gap * gap == 100_000_000) by (nonlinear_arith);
    assert(gap == -10_000 ==> gap * gap == 100_000_000) by (nonlinear_arith);
}

/// The bound of a bucket, without what it owes to an earlier transaction, is no more than what the
/// components that a bucket bound counts contribute to the distance; what it owes to an earlier
/// transaction is no more than the first two components contribute.
pub proof fn lemma_bucket_terms(vector: Seq<i16>, values: Seq<i16>)
    requires
        plain_query(vector),
        on_grid(values),
    ensures
        ({
            let query = scanned(vector);
            let bucket = bucket_of_point(values);
            let first = last_gap(vector, vector_flag_bits(vector), point_flag_bits(values));
            &&& bucket_gap(vector, bucket) - first <= term(query, values, 3) + term(query, values, 5)
                + term(query, values, 6) + term(query, values, 8) + term(query, values, 9) + term(
                query,
                values,
                10,
            )
            &&& first <= term(query, values, 0) + term(query, values, 1)
            &&& has_last(vector) && values[0] != -10_000 ==> first == 0
            &&& first <= 200_000_000 || has_last(vector)
        }),
{
    let query = scanned(vector);
    let bucket = bucket_of_point(values);
    let flags = point_flag_bits(values);
    let query_flags = vector_flag_bits(vector);
    let tx = axis_step(values[5] as int, TX_STEP as int, TX_BUCKETS as int);
    let ratio = axis_step(values[3] as int, RATIO_WIDTH as int, RATIO_BUCKETS as int);
    lemma_axis_step_range(values[5] as int, TX_STEP as int, TX_BUCKETS as int);
    lemma_axis_step_range(values[3] as int, RATIO_WIDTH as int, RATIO_BUCKETS as int);
    lemma_bucket_number(flags, mcc_level(values[6] as int), tx, ratio);
    lemma_meta_of(bucket);
    assert(query[0] == vector[5] && query[1] == vector[6] && query[3] == vector[2] && query[5]
        == vector[8] && query[6] == vector[12] && query[8] == vector[11] && query[9] == vector[9]
        && query[10] == vector[10]);
    assert(on_axis(values[5]) && on_axis(values[3]));
    assert(tx * TX_STEP == values[5]);
    lemma_axis_gap(vector[2] as int, values[3] as int, RATIO_WIDTH as int, RATIO_BUCKETS as int);
    lemma_flag_gap(vector[9], values[9]);
    lemma_flag_gap(vector[10], values[10]);
    lemma_flag_gap(vector[11], values[8]);
    assert(meta_of(bucket).flags == flags);
    assert(flag_gap(query_flags / 2, flags / 2) == term(query, values, 9));
    assert(flag_gap(query_flags / 4, flags / 4) == term(query, values, 10));
    assert(flag_gap(query_flags / 8, flags / 8) == term(query, values, 8));
    lemma_square(query[0] as int, values[0] as int);
    lemma_square(query[1] as int, values[1] as int);
    if !has_last(vector) && values[0] != -10_000 {
        let a = values[0] as int;
        let b = values[1] as int;
        assert((-10_000 - a) * (-10_000 - a) >= 100_000_000) by (nonlinear_arith)
            requires
                a >= 0,
        ;
        assert((-10_000 - b) * (-10_000 - b) >= 100_000_000) by (nonlinear_arith)
            requires
                b >= 0,
        ;
    }
}

/// The bound of a bucket never exceeds the distance to one of its points.
pub proof fn lemma_bucket_bound(vector: Seq<i16>, values: Seq<i16>)
    requires
        plain_query(vector),
        on_grid(values),
    ensures
        bucket_gap(vector, bucket_of_point(values)) <= distance(scanned(vector), values),
{
    lemma_bucket_terms(vector, values);
    lemma_distance_sum(scanned(vector), values);
}

/// The bound of a sector is no more than what the sector axes contribute to the distance.
proof fn lemma_sector_terms(query: Seq<i16>, values: Seq<i16>)
    requires
        on_axis(values[0]),
        on_axis(values[1]),
    ensures
        0 <= sector_gap(query, sector_of_point(values)) <= term(query, values, 0) + term(
            query,
            values,
            1,
        ),
{
    let first = axis_step(values[0] as int, SECTOR_WIDTH as int, SECTOR_BUCKETS as int);
    let second = axis_step(values[1] as int, SECTOR_WIDTH as int, SECTOR_BUCKETS as int);
    lemma_axis_step_range(values[0] as int, SECTOR_WIDTH as int, SECTOR_BUCKETS as int);
    lemma_axis_step_range(values[1] as int, SECTOR_WIDTH as int, SECTOR_BUCKETS as int);
    lemma_axis_gap(query[0] as int, values[0] as int, SECTOR_WIDTH as int, SECTOR_BUCKETS as int);
    lemma_axis_gap(query[1] as int, values[1] as int, SECTOR_WIDTH as int, SECTOR_BUCKETS as int);
}

/// The bound of a subcell is no more than what its axes contribute to the distance.
proof fn lemma_subcell_terms(query: Seq<i16>, values: Seq<i16>, dims: (usize, usize))
    requires
        grid_axes(dims),
        on_axis(values[dims.0 as int]),
        on_axis(values[dims.1 as int]),
    ensures
        0 <= subcell_gap(
            query,
            dims,
            subcell_of(values[dims.0 as int] as int, values[dims.1 as int] as int),
        ) <= term(query, values, dims.0 as int) + term(query, values, dims.1 as int),
{
    let a = values[dims.0 as int] as int;
    let b = values[dims.1 as int] as int;
    lemma_axis_step_range(a, IVF_SUB_WIDTH as int, IVF_SUB_BUCKETS as int);
    lemma_axis_step_range(b, IVF_SUB_WIDTH as int, IVF_SUB_BUCKETS as int);
    lemma_axis_gap(query[dims.0 as int] as int, a, IVF_SUB_WIDTH as int, IVF_SUB_BUCKETS as int);
    lemma_axis_gap(query[dims.1 as int] as int, b, IVF_SUB_WIDTH as int, IVF_SUB_BUCKETS as int);
}

/// The bounds of a bucket and of a sector together never exceed the distance to a point in both,
/// when query and point have an earlier transaction, and by no more than 200 000 000 when only the
/// point has one.
pub proof fn lemma_sector_bound(vector: Seq<i16>, values: Seq<i16>)
    requires
        plain_query(vector),
        on_grid(values),
        values[0] != -10_000,
    ensures
        bucket_gap(vector, bucket_of_point(values)) + sector_gap(
            scanned(vector),
            sector_of_point(values),
        ) <= distance(scanned(vector), values) + if has_last(vector) { 0int } else { 200_000_000 },
        sector_gap(scanned(vector), sector_of_point(values)) <= distance(scanned(vector), values),
{
    lemma_bucket_terms(vector, values);
    lemma_sector_terms(scanned(vector), values);
    lemma_distance_sum(scanned(vector), values);
}

/// The bounds of a bucket and of a grid cell together never exceed the distance to a point in both,
/// when query and point have an earlier transaction and the grid's axes are free, and by no more than
/// 200 000 000 when only the point has one.
pub proof fn lemma_cell_bound(vector: Seq<i16>, values: Seq<i16>, dims: (usize, usize))
    requires
        plain_query(vector),
        on_grid(values),
        values[0] != -10_000,
        free_axes(dims),
    ensures
        bucket_gap(vector, bucket_of_point(values)) + cell_gap(
            scanned(vector),
            dims,
            cell_of_point(values, dims),
        ) <= distance(scanned(vector), values) + if has_last(vector) { 0int } else { 200_000_000 },
        cell_gap(scanned(vector), dims, cell_of_point(values, dims)) <= distance(scanned(vector), values),
{
    let query = scanned(vector);
    let a = values[dims.0 as int];
    let b = values[dims.1 as int];
    assert(on_axis(a) && on_axis(b));
    lemma_axis_step_range(a as int, IVF_SUB_WIDTH as int, IVF_SUB_BUCKETS as int);
    lemma_axis_step_range(b as int, IVF_SUB_WIDTH as int, IVF_SUB_BUCKETS as int);
    lemma_bucket_terms(vector, values);
    lemma_sector_terms(query, values);
    lemma_subcell_terms(query, values, dims);
    lemma_distance_sum(query, values);
    assert(term(query, values, dims.0 as int) + term(query, values, dims.1 as int) <= term(
        query,
        values,
        2,
    ) + term(query, values, 4) + term(query, values, 7) + term(query, values, 11) + term(
        query,
        values,
        12,
    ) + term(query, values, 13)) by {
        assert(forall|d: int| #[trigger] term(query, values, d) >= 0);
    }
}

} // verus!
