//! UTC timestamps.
use vstd::prelude::*;

use crate::scanning::{is_digit, word};

verus! {

/// What is read from a timestamp.
#[derive(Clone, Copy, Debug)]
pub struct ParsedTime {
    pub epoch_seconds: i64,
    pub hour: u8,
    pub weekday_monday0: u8,
}

/// The number that digits write, if there are only digits.
pub open spec fn digits_value(digits: Seq<u8>) -> Option<int>
    decreases digits.len(),
{
    if digits.len() == 0 {
        Some(0)
    } else {
        match digits_value(digits.drop_last()) {
            Some(value) => if is_digit(digits.last()) {
                Some(value * 10 + (digits.last() - 48))
            } else {
                None
            },
            None => None,
        }
    }
}

/// Days from 1970-01-01 to a date, counted in years that begin in March; months above 12 and days
/// above the month's length run on.
#[verifier::opaque]
pub open spec fn civil_days(year: int, month: int, day: int) -> int {
    let shifted = if month <= 2 { year - 1 } else { year };
    let era = shifted / 400;
    let year_of_era = shifted % 400;
    let month_from_march = if month > 2 { month - 3 } else { month + 9 };
    let day_of_year = (153 * month_from_march + 2) / 5 + day - 1;
    era * 146_097 + year_of_era * 365 + year_of_era / 4 - year_of_era / 100 + day_of_year - 719_468
}

/// The fields of a timestamp.
pub struct TimeFields {
    pub year: int,
    pub month: int,
    pub day: int,
    pub hour: int,
    pub minute: int,
    pub second: int,
}

/// The fields of a timestamp `YYYY-MM-DDThh:mm:ssZ`, of which only the digits and the length are
/// looked at.
pub open spec fn time_fields(text: Seq<u8>) -> Option<TimeFields> {
    if text.len() < 20 {
        None
    } else {
        match (
            digits_value(text.subrange(0, 4)),
            digits_value(text.subrange(5, 7)),
            digits_value(text.subrange(8, 10)),
            digits_value(text.subrange(11, 13)),
            digits_value(text.subrange(14, 16)),
            digits_value(text.subrange(17, 19)),
        ) {
            (Some(year), Some(month), Some(day), Some(hour), Some(minute), Some(second)) => Some(
                TimeFields { year, month, day, hour, minute, second },
            ),
            _ => None,
        }
    }
}

/// What is read from a timestamp.
pub open spec fn time_of(text: Seq<u8>) -> Option<ParsedTime> {
    match time_fields(text) {
        Some(t) => {
            let days = civil_days(t.year, t.month, t.day);
            Some(
                ParsedTime {
                    epoch_seconds: (days * 86_400 + t.hour * 3_600 + t.minute * 60 + t.second) as i64,
                    hour: t.hour as u8,
                    weekday_monday0: ((days + 3) % 7) as u8,
                },
            )
        },
        None => None,
    }
}

/// Few digits write a small number.
pub proof fn lemma_digits_bound(digits: Seq<u8>)
    ensures
        digits.len() <= 2 ==> (digits_value(digits) matches Some(value) ==> 0 <= value <= 99),
        digits.len() <= 4 ==> (digits_value(digits) matches Some(value) ==> 0 <= value <= 9_999),
{
    reveal_with_fuel(digits_value, 5);
}

fn parse_u32(bytes: &[u8], start: usize, end: usize) -> (number: Option<u32>)
    requires
        start <= end <= bytes@.len(),
        end - start <= 4,
    ensures
        match number {
            Some(value) => digits_value(bytes@.subrange(start as int, end as int)) == Some(value as int),
            None => digits_value(bytes@.subrange(start as int, end as int)) is None,
        },
        number matches Some(value) ==> (end - start == 2 ==> value <= 99) && value <= 9_999,
{
    let ghost digits = bytes@.subrange(start as int, end as int);
    let mut acc: u32 = 0;
    let mut i: usize = start;
    assert(digits.take(0) =~= Seq::<u8>::empty());
    while i < end
        invariant
            start <= i <= end <= bytes@.len(),
            end - start <= 4,
            digits == bytes@.subrange(start as int, end as int),
            digits_value(digits.take(i - start)) == Some(acc as int),
            acc <= 9_999,
        decreases end - i,
    {
        let byte: u8 = bytes[i];
        proof {
            let next = digits.take(i + 1 - start);
            assert(next.drop_last() =~= digits.take(i - start));
            assert(next.last() == byte);
            lemma_digits_bound(digits.take(i - start));
            lemma_digits_bound(next);
        }
        if byte < 48 || byte > 57 {
            proof {
                lemma_digits_broken(digits, i + 1 - start);
            }
            return None;
        }
        acc = acc * 10 + (byte - 48) as u32;
        i = i + 1;
    }
    proof {
        assert(digits.take(i - start) =~= digits);
        lemma_digits_bound(digits);
    }
    Some(acc)
}

/// What does not begin with digits only is no number.
pub(crate) proof fn lemma_digits_broken(digits: Seq<u8>, n: int)
    requires
        0 <= n <= digits.len(),
        digits_value(digits.take(n)) is None,
    ensures
        digits_value(digits) is None,
    decreases digits.len() - n,
{
    if n == digits.len() {
        assert(digits.take(n) =~= digits);
    } else {
        assert(digits.take(n + 1).drop_last() =~= digits.take(n));
        lemma_digits_broken(digits, n + 1);
    }
}

fn div_floor(value: i32, divisor: i32) -> (quotient: i32)
    requires
        divisor > 0,
    ensures
        quotient == value as int / divisor as int,
{
    if value >= 0 {
        value / divisor
    } else {
        let above: i32 = -1 - value;
        let quotient: i32 = above / divisor;
        proof {
            let d = divisor as int;
            let q = quotient as int;
            let r = above as int % d;
            vstd::arithmetic::div_mod::lemma_fundamental_div_mod(above as int, d);
            vstd::arithmetic::div_mod::lemma_div_is_ordered_by_denominator(above as int, 1, d);
            assert(d * (-1 - q) == -d - d * q) by (nonlinear_arith);
            vstd::arithmetic::div_mod::lemma_fundamental_div_mod_converse(
                value as int,
                d,
                -1 - q,
                d - 1 - r,
            );
        }
        -1 - quotient
    }
}

fn days_from_civil(year: i32, month: u32, day: u32) -> (days: i64)
    requires
        0 <= year <= 9_999,
        month <= 99,
        day <= 99,
    ensures
        days == civil_days(year as int, month as int, day as int),
        -800_000 <= days <= 4_000_000,
{
    reveal(civil_days);
    let year: i32 = if month <= 2 { year - 1 } else { year };
    let era: i32 = div_floor(year, 400);
    let yoe: i32 = year - era * 400;
    let month: i32 = month as i32;
    let doy: i32 = (153 * (if month > 2 { month - 3 } else { month + 9 }) + 2) / 5 + day as i32 - 1;
    let doe: i32 = yoe * 365 + yoe / 4 - yoe / 100 + doy;
    (era * 146_097 + doe - 719_468) as i64
}

/// The fields of a timestamp, as they are read.
struct ClockFields {
    year: i32,
    month: u32,
    day: u32,
    hour: u8,
    minute: i64,
    second: i64,
}

fn read_fields(bytes: &[u8]) -> (fields: Option<ClockFields>)
    ensures
        match fields {
            Some(f) => {
                &&& time_fields(bytes@) == Some(
                    TimeFields {
                        year: f.year as int,
                        month: f.month as int,
                        day: f.day as int,
                        hour: f.hour as int,
                        minute: f.minute as int,
                        second: f.second as int,
                    },
                )
                &&& 0 <= f.year <= 9_999 && f.month <= 99 && f.day <= 99 && f.hour <= 99
                &&& 0 <= f.minute <= 99 && 0 <= f.second <= 99
            },
            None => time_fields(bytes@) is None,
        },
{
    if bytes.len() < 20 {
        return None;
    }
    let year: i32 = parse_u32(bytes, 0, 4)? as i32;
    let month: u32 = parse_u32(bytes, 5, 7)?;
    let day: u32 = parse_u32(bytes, 8, 10)?;
    let hour: u8 = parse_u32(bytes, 11, 13)? as u8;
    let minute: i64 = parse_u32(bytes, 14, 16)? as i64;
    let second: i64 = parse_u32(bytes, 17, 19)? as i64;
    Some(ClockFields { year, month, day, hour, minute, second })
}

/// Reads a timestamp.
pub fn parse_utc_timestamp(value: &str) -> (parsed: Option<ParsedTime>)
    ensures
        parsed == time_of(word(value@)),
        parsed matches Some(time) ==> -100_000_000_000 <= time.epoch_seconds <= 400_000_000_000
            && time.hour <= 99 && time.weekday_monday0 <= 6,
{
    parse_utc_timestamp_bytes(value.as_bytes())
}

/// Reads a timestamp.
pub fn parse_utc_timestamp_bytes(bytes: &[u8]) -> (parsed: Option<ParsedTime>)
    ensures
        parsed == time_of(bytes@),
        parsed matches Some(time) ==> -100_000_000_000 <= time.epoch_seconds <= 400_000_000_000
            && time.hour <= 99 && time.weekday_monday0 <= 6,
{
    let fields: ClockFields = read_fields(bytes)?;
    let days: i64 = days_from_civil(fields.year, fields.month, fields.day);
    let hour: u8 = fields.hour;
    let epoch_seconds: i64 = days * 86_400 + hour as i64 * 3_600 + fields.minute * 60 + fields.second;
    let remainder: i64 = (days + 3) % 7;
    let weekday_monday0: u8 = (if remainder < 0 { remainder + 7 } else { remainder }) as u8;
    Some(ParsedTime { epoch_seconds, hour, weekday_monday0 })
}

/// A leap year of the Gregorian calendar.
pub open spec fn is_leap(year: int) -> bool {
    year % 4 == 0 && (year % 100 != 0 || year % 400 == 0)
}

/// Days of a month.
pub open spec fn month_length(year: int, month: int) -> int {
    if month == 2 {
        if is_leap(year) { 29 } else { 28 }
    } else if month == 4 || month == 6 || month == 9 || month == 11 {
        30
    } else {
        31
    }
}

/// Days of the years from year 0 up to a year.
pub open spec fn days_before_year(year: int) -> int
    decreases year,
{
    if year <= 0 {
        0
    } else {
        days_before_year(year - 1) + if is_leap(year - 1) { 366int } else { 365 }
    }
}

/// Days of the months of a year up to a month.
pub open spec fn days_before_month(year: int, month: int) -> int
    decreases month,
{
    if month <= 1 {
        0
    } else {
        days_before_month(year, month - 1) + month_length(year, month - 1)
    }
}

/// The days of the years before a year, in closed form.
pub proof fn lemma_days_before_year(year: int)
    requires
        0 <= year,
    ensures
        days_before_year(year) == 365 * year + (year + 3) / 4 - (year + 99) / 100 + (year + 399) / 400,
    decreases year,
{
    if year > 0 {
        lemma_days_before_year(year - 1);
        lemma_leap_count(year - 1);
        assert((year + 3) / 4 == (year - 1) / 4 + 1);
        assert((year + 99) / 100 == (year - 1) / 100 + 1);
        assert((year + 399) / 400 == (year - 1) / 400 + 1);
    }
}

/// Leap years up to and with a year, and before it.
proof fn lemma_leap_count(year: int)
    requires
        0 <= year,
    ensures
        (year + 3) / 4 - (year + 99) / 100 + (year + 399) / 400 + (if is_leap(year) { 1int } else { 0 })
            == year / 4 - year / 100 + year / 400 + 1,
{
    let q4 = year / 4;
    let q100 = year / 100;
    let q400 = year / 400;
    assert((year + 3) / 4 == if year % 4 == 0 { q4 } else { q4 + 1 });
    assert((year + 99) / 100 == if year % 100 == 0 { q100 } else { q100 + 1 });
    assert((year + 399) / 400 == if year % 400 == 0 { q400 } else { q400 + 1 });
    assert(year % 400 == 0 ==> year % 100 == 0);
    assert(year % 100 == 0 ==> year % 4 == 0);
}

/// Eras of 400 years add up.
proof fn lemma_eras(year: int)
    ensures
        (year / 400) * 146_097 + (year % 400) * 365 + (year % 400) / 4 - (year % 400) / 100 == 365 * year
            + year / 4 - year / 100 + year / 400,
{
    let era = year / 400;
    let rest = year % 400;
    assert(year == 400 * era + rest);
    assert(year / 4 == 100 * era + rest / 4);
    assert(year / 100 == 4 * era + rest / 100);
}

/// Days before each month.
proof fn lemma_days_before_month(year: int, month: int)
    requires
        1 <= month <= 12,
    ensures
        days_before_month(year, month) == if month <= 2 {
            (153 * (month + 9) + 2) / 5 - 306
        } else {
            (153 * (month - 3) + 2) / 5 + 59 + if is_leap(year) { 1int } else { 0 }
        },
{
    reveal_with_fuel(days_before_month, 13);
    if month == 1 {
    } else if month == 2 {
    } else if month == 3 {
    } else if month == 4 {
    } else if month == 5 {
    } else if month == 6 {
    } else if month == 7 {
    } else if month == 8 {
    } else if month == 9 {
    } else if month == 10 {
    } else if month == 11 {
    } else {
    }
}

/// Dates are counted as the calendar counts them: the days of the years and months before, and the
/// day of the month, from 1970-01-01 on.
pub proof fn lemma_civil_days(year: int, month: int, day: int)
    requires
        0 <= year,
        1 <= month <= 12,
    ensures
        civil_days(year, month, day) == days_before_year(year) + days_before_month(year, month) + day
            - 1 - days_before_year(1_970),
{
    reveal(civil_days);
    lemma_days_before_year(year);
    lemma_days_before_year(1_970);
    lemma_days_before_month(year, month);
    lemma_leap_count(year);
    if month <= 2 {
        lemma_eras(year - 1);
        assert((year - 1) / 4 == (year + 3) / 4 - 1);
        assert((year - 1) / 100 == (year + 99) / 100 - 1);
        assert((year - 1) / 400 == (year + 399) / 400 - 1);
    } else {
        lemma_eras(year);
    }
}

/// A date of the calendar from year 0 on.
pub open spec fn is_date(year: int, month: int, day: int) -> bool {
    0 <= year && 1 <= month <= 12 && 1 <= day <= month_length(year, month)
}

/// The day after a date.
pub open spec fn day_after(year: int, month: int, day: int) -> (int, int, int) {
    if day < month_length(year, month) {
        (year, month, day + 1)
    } else if month < 12 {
        (year, month + 1, 1)
    } else {
        (year + 1, 1, 1)
    }
}

/// Days are counted one by one from 1970-01-01: the day after a date, at the end of a month or a year
/// too, has the next number.
pub proof fn lemma_days_follow(year: int, month: int, day: int)
    requires
        is_date(year, month, day),
    ensures
        civil_days(1_970, 1, 1) == 0,
        ({
            let (y, m, d) = day_after(year, month, day);
            is_date(y, m, d) && civil_days(y, m, d) == civil_days(year, month, day) + 1
        }),
{
    let (y, m, d) = day_after(year, month, day);
    lemma_civil_days(1_970, 1, 1);
    lemma_civil_days(year, month, day);
    lemma_civil_days(y, m, d);
    reveal_with_fuel(days_before_month, 13);
}

/// Weekdays advance with the days: 1970-01-01 was a Thursday, and the day after a date is one weekday
/// later.
pub proof fn lemma_weekday_advances(days: int)
    ensures
        (0 + 3int) % 7 == 3,
        (days + 1 + 3) % 7 == ((days + 3) % 7 + 1) % 7,
{
}

} // verus!
