//! What timestamps say, from the way they are written.
use vstd::prelude::*;

use crate::calendar::{date_seconds, date_weekday};
use crate::fraud_scoring::{lemma_stamps_agree, stamp_hour_weekday, stamp_seconds};
use crate::scanning::is_digit;
use crate::time::{civil_days, day_after, digits_value, lemma_days_follow, lemma_weekday_advances,
    month_length, time_fields, time_of, ParsedTime};

verus! {

/// A number in two digits.
pub open spec fn in_two(n: int) -> Seq<u8> {
    seq![(48 + n / 10) as u8, (48 + n % 10) as u8]
}

/// A number in four digits.
pub open spec fn in_four(n: int) -> Seq<u8> {
    in_two(n / 100) + in_two(n % 100)
}

/// A timestamp `YYYY-MM-DDThh:mm:ssZ`.
#[verifier::opaque]
pub open spec fn stamp(year: int, month: int, day: int, hour: int, minute: int, second: int) -> Seq<u8> {
    in_four(year) + seq![45u8] + in_two(month) + seq![45u8] + in_two(day) + seq![84u8] + in_two(hour)
        + seq![58u8] + in_two(minute) + seq![58u8] + in_two(second) + seq![90u8]
}

/// The numbers fit their places in a timestamp.
pub open spec fn fits_stamp(year: int, month: int, day: int, hour: int, minute: int, second: int) -> bool {
    &&& 0 <= year <= 9_999
    &&& 0 <= month <= 99
    &&& 0 <= day <= 99
    &&& 0 <= hour <= 99
    &&& 0 <= minute <= 99
    &&& 0 <= second <= 99
}

/// The places of a timestamp that hold digits.
pub open spec fn digit_places() -> Seq<int> {
    seq![0, 1, 2, 3, 5, 6, 8, 9, 11, 12, 14, 15, 17, 18]
}

/// Two digits write the number they were written for.
proof fn lemma_two(n: int)
    requires
        0 <= n <= 99,
    ensures
        digits_value(in_two(n)) == Some(n),
{
    let digits = in_two(n);
    reveal_with_fuel(digits_value, 3);
    assert(digits.drop_last().drop_last() =~= Seq::<u8>::empty());
    assert(digits.drop_last().last() == digits[0]);
}

/// Four digits write the number they were written for.
proof fn lemma_four(n: int)
    requires
        0 <= n <= 9_999,
    ensures
        digits_value(in_four(n)) == Some(n),
{
    let digits = in_four(n);
    reveal_with_fuel(digits_value, 5);
    assert(digits.drop_last().drop_last().drop_last().drop_last() =~= Seq::<u8>::empty());
    assert(digits.drop_last().drop_last().drop_last().last() == digits[0]);
    assert(digits.drop_last().drop_last().last() == digits[1]);
    assert(digits.drop_last().last() == digits[2]);
    assert(n / 100 / 10 * 1_000 + n / 100 % 10 * 100 + n % 100 / 10 * 10 + n % 100 % 10 == n);
}

/// The fields of a timestamp are those it was written for.
proof fn lemma_stamp_fields(year: int, month: int, day: int, hour: int, minute: int, second: int)
    requires
        fits_stamp(year, month, day, hour, minute, second),
    ensures
        stamp(year, month, day, hour, minute, second).len() == 20,
        time_fields(stamp(year, month, day, hour, minute, second)) matches Some(t) && t.year == year
            && t.month == month && t.day == day && t.hour == hour && t.minute == minute && t.second == second,
{
    reveal(stamp);
    let text = stamp(year, month, day, hour, minute, second);
    lemma_four(year);
    lemma_two(month);
    lemma_two(day);
    lemma_two(hour);
    lemma_two(minute);
    lemma_two(second);
    assert(text.subrange(0, 4) =~= in_four(year));
    assert(text.subrange(5, 7) =~= in_two(month));
    assert(text.subrange(8, 10) =~= in_two(day));
    assert(text.subrange(11, 13) =~= in_two(hour));
    assert(text.subrange(14, 16) =~= in_two(minute));
    assert(text.subrange(17, 19) =~= in_two(second));
}

/// Days are of ordinary number.
proof fn lemma_days_bounded(year: int, month: int, day: int)
    requires
        0 <= year <= 9_999,
        0 <= month <= 99,
        0 <= day <= 99,
    ensures
        -800_000 <= civil_days(year, month, day) <= 4_000_000,
{
    reveal(civil_days);
}

/// The time of day counts in hours, minutes and seconds from the start of the day, and does not change
/// the weekday.
pub proof fn lemma_time_of_day(year: int, month: int, day: int, hour: int, minute: int, second: int)
    requires
        fits_stamp(year, month, day, hour, minute, second),
    ensures
        ({
            let start = time_of(stamp(year, month, day, 0, 0, 0));
            let time = time_of(stamp(year, month, day, hour, minute, second));
            &&& start is Some
            &&& time is Some
            &&& time->0.hour == hour
            &&& time->0.weekday_monday0 == start->0.weekday_monday0
            &&& time->0.epoch_seconds == start->0.epoch_seconds + hour * 3_600 + minute * 60 + second
        }),
{
    lemma_stamp_fields(year, month, day, hour, minute, second);
    lemma_stamp_fields(year, month, day, 0, 0, 0);
    lemma_days_bounded(year, month, day);
}

/// Time is counted from the start of 1970-01-01, a Thursday.
pub proof fn lemma_time_begins()
    ensures
        time_of(stamp(1_970, 1, 1, 0, 0, 0)) == Some(
            ParsedTime { epoch_seconds: 0, hour: 0, weekday_monday0: 3 },
        ),
{
    lemma_stamp_fields(1_970, 1, 1, 0, 0, 0);
    lemma_days_follow(1_970, 1, 1);
}

/// Days of a month, February having one more in leap years.
pub open spec fn length_of_month(year: int, month: int) -> int {
    let leap = year % 400 == 0 || year % 4 == 0 && year % 100 != 0;
    seq![31int, if leap { 29 } else { 28 }, 31, 30, 31, 30, 31, 31, 30, 31, 30, 31][month - 1]
}

/// Months are as long as the calendar says.
pub proof fn lemma_month_lengths(year: int, month: int)
    requires
        1 <= month <= 12,
    ensures
        month_length(year, month) == length_of_month(year, month),
{
}

/// The day after a date, at the end of a month or a year too, begins a day's seconds later and has the
/// next weekday, Monday following Sunday.
pub proof fn lemma_next_day(
    year: int,
    month: int,
    day: int,
    next_year: int,
    next_month: int,
    next_day: int,
    hour: int,
    minute: int,
    second: int,
)
    requires
        fits_stamp(year, month, day, hour, minute, second),
        1 <= month <= 12,
        1 <= day <= length_of_month(year, month),
        next_year <= 9_999,
        if day < length_of_month(year, month) {
            next_year == year && next_month == month && next_day == day + 1
        } else if month < 12 {
            next_year == year && next_month == month + 1 && next_day == 1
        } else {
            next_year == year + 1 && next_month == 1 && next_day == 1
        },
    ensures
        ({
            let time = time_of(stamp(year, month, day, hour, minute, second));
            let next = time_of(stamp(next_year, next_month, next_day, hour, minute, second));
            &&& time is Some
            &&& next is Some
            &&& next->0.epoch_seconds == time->0.epoch_seconds + 86_400
            &&& time->0.weekday_monday0 <= 6
            &&& next->0.weekday_monday0 == if time->0.weekday_monday0 == 6 {
                0int
            } else {
                time->0.weekday_monday0 + 1
            }
        }),
{
    lemma_stamp_fields(year, month, day, hour, minute, second);
    lemma_stamp_fields(next_year, next_month, next_day, hour, minute, second);
    lemma_days_bounded(year, month, day);
    lemma_days_bounded(next_year, next_month, next_day);
    lemma_month_lengths(year, month);
    lemma_month_lengths(next_year, next_month);
    assert(civil_days(next_year, next_month, next_day) == civil_days(year, month, day) + 1) by {
        lemma_days_follow(year, month, day);
        assert(day_after(year, month, day) == (next_year, next_month, next_day));
    }
    lemma_weekday_advances(civil_days(year, month, day));
}

/// A day number above the length of the month runs on into the days that follow, and the day numbered
/// zero is the one before the first.
pub proof fn lemma_days_run_on(year: int, month: int, day: int, hour: int, minute: int, second: int)
    requires
        fits_stamp(year, month, day, hour, minute, second),
        day < 99,
    ensures
        ({
            let time = time_of(stamp(year, month, day, hour, minute, second))->0;
            let next = time_of(stamp(year, month, day + 1, hour, minute, second))->0;
            &&& next.epoch_seconds == time.epoch_seconds + 86_400
            &&& next.weekday_monday0 == (time.weekday_monday0 + 1) % 7
        }),
{
    lemma_stamp_fields(year, month, day, hour, minute, second);
    lemma_stamp_fields(year, month, day + 1, hour, minute, second);
    lemma_days_bounded(year, month, day);
    lemma_days_bounded(year, month, day + 1);
    assert(civil_days(year, month, day + 1) == civil_days(year, month, day) + 1) by {
        reveal(civil_days);
    }
}

/// A month number above twelve runs on in fives of months of 153 days, and the month numbered zero is
/// the December before.
pub proof fn lemma_months_run_on(year: int, month: int, day: int, hour: int, minute: int, second: int)
    requires
        fits_stamp(year, month, day, hour, minute, second),
    ensures
        3 <= month <= 94 ==> time_of(stamp(year, month + 5, day, hour, minute, second))->0.epoch_seconds
            == time_of(stamp(year, month, day, hour, minute, second))->0.epoch_seconds + 153 * 86_400,
        1 <= year ==> time_of(stamp(year, 0, day, hour, minute, second)) == time_of(
            stamp(year - 1, 12, day, hour, minute, second),
        ),
{
    lemma_stamp_fields(year, month, day, hour, minute, second);
    lemma_stamp_fields(year, 0, day, hour, minute, second);
    lemma_days_bounded(year, month, day);
    lemma_days_bounded(year, 0, day);
    if 3 <= month <= 94 {
        lemma_stamp_fields(year, month + 5, day, hour, minute, second);
        lemma_days_bounded(year, month + 5, day);
        assert((153 * (month + 5 - 3) + 2) / 5 == (153 * (month - 3) + 2) / 5 + 153);
    }
    if 1 <= year {
        lemma_stamp_fields(year - 1, 12, day, hour, minute, second);
        lemma_days_bounded(year - 1, 12, day);
    }
    reveal(civil_days);
}

/// Two bytes write a number if and only if both are digits.
proof fn lemma_two_read(text: Seq<u8>, at: int)
    requires
        0 <= at,
        at + 2 <= text.len(),
    ensures
        digits_value(text.subrange(at, at + 2)) is Some <==> is_digit(text[at]) && is_digit(text[at + 1]),
{
    let two = text.subrange(at, at + 2);
    reveal_with_fuel(digits_value, 3);
    assert(two.drop_last().drop_last() =~= Seq::<u8>::empty());
    assert(two.drop_last().last() == text[at]);
    assert(two.last() == text[at + 1]);
}

/// Four bytes write a number if and only if all are digits.
proof fn lemma_four_read(text: Seq<u8>, at: int)
    requires
        0 <= at,
        at + 4 <= text.len(),
    ensures
        digits_value(text.subrange(at, at + 4)) is Some <==> is_digit(text[at]) && is_digit(text[at + 1])
            && is_digit(text[at + 2]) && is_digit(text[at + 3]),
{
    let four = text.subrange(at, at + 4);
    reveal_with_fuel(digits_value, 5);
    assert(four.drop_last().drop_last().drop_last().drop_last() =~= Seq::<u8>::empty());
    assert(four.drop_last().drop_last().drop_last().last() == text[at]);
    assert(four.drop_last().drop_last().last() == text[at + 1]);
    assert(four.drop_last().last() == text[at + 2]);
    assert(four.last() == text[at + 3]);
}

/// A timestamp can be read if and only if it is long enough and digits stand at their places.
pub proof fn lemma_readable_stamps(text: Seq<u8>)
    ensures
        time_of(text) is Some <==> text.len() >= 20 && 48 <= text[0] <= 57 && 48 <= text[1] <= 57 && 48
            <= text[2] <= 57 && 48 <= text[3] <= 57 && 48 <= text[5] <= 57 && 48 <= text[6] <= 57 && 48
            <= text[8] <= 57 && 48 <= text[9] <= 57 && 48 <= text[11] <= 57 && 48 <= text[12] <= 57 && 48
            <= text[14] <= 57 && 48 <= text[15] <= 57 && 48 <= text[17] <= 57 && 48 <= text[18] <= 57,
{
    if text.len() >= 20 {
        lemma_four_read(text, 0);
        lemma_two_read(text, 5);
        lemma_two_read(text, 8);
        lemma_two_read(text, 11);
        lemma_two_read(text, 14);
        lemma_two_read(text, 17);
    }
}

/// Nothing but the digits of a timestamp counts: what stands between them and behind them is not
/// looked at.
pub proof fn lemma_only_digits_count(text: Seq<u8>, other: Seq<u8>)
    requires
        text.len() >= 20,
        other.len() >= 20,
        forall|k: int| 0 <= k < 14 ==> text[#[trigger] digit_places()[k]] == other[digit_places()[k]],
    ensures
        time_of(text) == time_of(other),
{
    let places = digit_places();
    assert(text[places[0]] == other[places[0]]);
    assert(text[places[1]] == other[places[1]]);
    assert(text[places[2]] == other[places[2]]);
    assert(text[places[3]] == other[places[3]]);
    assert(text[places[4]] == other[places[4]]);
    assert(text[places[5]] == other[places[5]]);
    assert(text[places[6]] == other[places[6]]);
    assert(text[places[7]] == other[places[7]]);
    assert(text[places[8]] == other[places[8]]);
    assert(text[places[9]] == other[places[9]]);
    assert(text[places[10]] == other[places[10]]);
    assert(text[places[11]] == other[places[11]]);
    assert(text[places[12]] == other[places[12]]);
    assert(text[places[13]] == other[places[13]]);
    assert(text.subrange(0, 4) =~= other.subrange(0, 4));
    assert(text.subrange(5, 7) =~= other.subrange(5, 7));
    assert(text.subrange(8, 10) =~= other.subrange(8, 10));
    assert(text.subrange(11, 13) =~= other.subrange(11, 13));
    assert(text.subrange(14, 16) =~= other.subrange(14, 16));
    assert(text.subrange(17, 19) =~= other.subrange(17, 19));
}

/// The dates of the table are counted as any other: the seconds to the start of a date, and its weekday,
/// are those of its timestamp.
pub proof fn lemma_table_agrees(year: int, month: int, day: int)
    requires
        2_016 <= year <= 2_030,
        1 <= month <= 12,
        1 <= day <= length_of_month(year, month),
    ensures
        time_of(stamp(year, month, day, 0, 0, 0)) is Some,
        date_seconds(year, month, day) == time_of(stamp(year, month, day, 0, 0, 0))->0.epoch_seconds,
        date_weekday(year, month, day) == time_of(stamp(year, month, day, 0, 0, 0))->0.weekday_monday0,
{
    lemma_stamp_fields(year, month, day, 0, 0, 0);
    lemma_days_bounded(year, month, day);
}

/// A timestamp is one of the table's if and only if it is a date of the years 2016 to 2030 with a time
/// of day; it then says the seconds, the hour and the weekday that it says anywhere.
pub proof fn lemma_stamps_of_the_table(
    year: int,
    month: int,
    day: int,
    hour: int,
    minute: int,
    second: int,
)
    requires
        fits_stamp(year, month, day, hour, minute, second),
    ensures
        ({
            let text = stamp(year, month, day, hour, minute, second);
            let time = time_of(text)->0;
            let dated = 2_016 <= year <= 2_030 && 1 <= month <= 12 && 1 <= day <= length_of_month(year, month)
                && hour <= 23;
            &&& time_of(text) is Some
            &&& stamp_hour_weekday(text) == if dated {
                Some((hour, time.weekday_monday0 as int))
            } else {
                None
            }
            &&& stamp_seconds(text) == if dated && minute <= 59 && second <= 59 {
                Some(time.epoch_seconds as int)
            } else {
                None
            }
        }),
{
    lemma_stamp_fields(year, month, day, hour, minute, second);
    lemma_stamps_agree(stamp(year, month, day, hour, minute, second));
    lemma_time_of_day(year, month, day, hour, minute, second);
}

} // verus!
