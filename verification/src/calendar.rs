//! Dates of the years 2016 to 2030 by table.
use vstd::prelude::*;

use crate::time::{civil_days, days_before_month, days_before_year, is_leap, lemma_civil_days,
    lemma_days_before_year, month_length};

verus! {

/// A date of the table: a day of a month of the years 2016 to 2030.
pub open spec fn is_known_date(year: int, month: int, day: int) -> bool {
    2_016 <= year <= 2_030 && 1 <= month <= 12 && 1 <= day <= month_length(year, month)
}

/// The seconds from 1970-01-01 to the start of a date.
pub open spec fn date_seconds(year: int, month: int, day: int) -> int {
    civil_days(year, month, day) * 86_400
}

/// The weekday of a date, Monday being zero.
pub open spec fn date_weekday(year: int, month: int, day: int) -> int {
    (civil_days(year, month, day) + 3) % 7
}

/// The days from 1970-01-01 to the start of a year of the table.
spec fn year_start_days(index: int) -> int {
    seq![
        16_801int, 17_167, 17_532, 17_897, 18_262, 18_628, 18_993, 19_358, 19_723, 20_089, 20_454, 20_819, 21_184, 21_550, 21_915
    ][index]
}

proof fn lemma_year_start_days(index: int)
    requires
        0 <= index < 15,
    ensures
        year_start_days(index) == days_before_year(2_016 + index) - days_before_year(1_970),
{
    lemma_days_before_year(1_970);
    if index == 0 {
        lemma_days_before_year(2_016);
    } else if index == 1 {
        lemma_days_before_year(2_017);
    } else if index == 2 {
        lemma_days_before_year(2_018);
    } else if index == 3 {
        lemma_days_before_year(2_019);
    } else if index == 4 {
        lemma_days_before_year(2_020);
    } else if index == 5 {
        lemma_days_before_year(2_021);
    } else if index == 6 {
        lemma_days_before_year(2_022);
    } else if index == 7 {
        lemma_days_before_year(2_023);
    } else if index == 8 {
        lemma_days_before_year(2_024);
    } else if index == 9 {
        lemma_days_before_year(2_025);
    } else if index == 10 {
        lemma_days_before_year(2_026);
    } else if index == 11 {
        lemma_days_before_year(2_027);
    } else if index == 12 {
        lemma_days_before_year(2_028);
    } else if index == 13 {
        lemma_days_before_year(2_029);
    } else if index == 14 {
        lemma_days_before_year(2_030);
    }
}

fn year_start_seconds(index: usize) -> (seconds: i32)
    requires
        index < 15,
    ensures
        seconds == (days_before_year(2_016 + index) - days_before_year(1_970)) * 86_400,
        1_451_606_400 <= seconds <= 1_893_456_000,
{
    let seconds: [i32; 15] = [
        1_451_606_400, 1_483_228_800, 1_514_764_800, 1_546_300_800, 1_577_836_800, 1_609_459_200,
        1_640_995_200, 1_672_531_200, 1_704_067_200, 1_735_689_600, 1_767_225_600, 1_798_761_600,
        1_830_297_600, 1_861_920_000, 1_893_456_000,
    ];
    proof {
        lemma_year_start_days(index as int);
    }
    seconds[index]
}

fn year_start_weekday(index: usize) -> (weekday: u8)
    requires
        index < 15,
    ensures
        weekday == (days_before_year(2_016 + index) - days_before_year(1_970) + 3) % 7,
        weekday <= 6,
{
    let weekdays: [u8; 15] = [4, 6, 0, 1, 2, 4, 5, 6, 0, 2, 3, 4, 5, 0, 1];
    proof {
        lemma_year_start_days(index as int);
    }
    weekdays[index]
}

fn month_days(leap: bool, index: usize) -> (days: u8)
    requires
        index < 12,
    ensures
        forall|year: int| #[trigger]
            is_leap(year) == leap ==> days == month_length(year, index + 1),
{
    let common: [u8; 12] = [31, 28, 31, 30, 31, 30, 31, 31, 30, 31, 30, 31];
    if leap && index == 1 {
        29
    } else {
        common[index]
    }
}

fn month_offset(leap: bool, index: usize) -> (days: i32)
    requires
        index < 12,
    ensures
        forall|year: int| #[trigger]
            is_leap(year) == leap ==> days == days_before_month(year, index + 1),
        0 <= days <= 335,
{
    let common: [i32; 12] = [0, 31, 59, 90, 120, 151, 181, 212, 243, 273, 304, 334];
    proof {
        reveal_with_fuel(days_before_month, 13);
    }
    if leap && index >= 2 {
        common[index] + 1
    } else {
        common[index]
    }
}

/// The place of a date's year in the table, and the days of that year before the date.
pub fn known_date_day_of_year(year: i32, month: u8, day: u8) -> (place: Option<(usize, i32)>)
    ensures
        place is Some <==> is_known_date(year as int, month as int, day as int),
        place matches Some((index, day_of_year)) ==> {
            &&& index == year - 2_016
            &&& day_of_year == days_before_month(year as int, month as int) + day - 1
            &&& 0 <= day_of_year <= 365
        },
{
    if year < 2_016 || year > 2_030 || month == 0 || month > 12 {
        return None;
    }
    let month_index: usize = month as usize - 1;
    let leap_year: bool = year == 2_016 || year == 2_020 || year == 2_024 || year == 2_028;
    assert(is_leap(year as int) == leap_year);
    if day == 0 || day > month_days(leap_year, month_index) {
        return None;
    }
    Some(((year - 2_016) as usize, month_offset(leap_year, month_index) + day as i32 - 1))
}

/// The seconds from 1970-01-01 to the start of a date of the table.
pub fn epoch_seconds_for_known_date(year: i32, month: u8, day: u8) -> (seconds: Option<i32>)
    ensures
        match seconds {
            Some(value) => is_known_date(year as int, month as int, day as int) && value
                == date_seconds(year as int, month as int, day as int) && 1_451_606_400 <= value
                <= 1_925_000_000,
            None => !is_known_date(year as int, month as int, day as int),
        },
{
    let (index, day_of_year) = known_date_day_of_year(year, month, day)?;
    proof {
        lemma_civil_days(year as int, month as int, day as int);
    }
    Some(year_start_seconds(index) + day_of_year * 86_400)
}

/// The weekday some days later.
proof fn lemma_weekday_later(days: int, later: int)
    ensures
        ((days + 3) % 7 + later) % 7 == (days + later + 3) % 7,
{
}

/// The seconds from 1970-01-01 to the start of a date of the table, and its weekday.
pub fn epoch_seconds_and_weekday_for_known_date(year: i32, month: u8, day: u8) -> (found: Option<(i32, u8)>)
    ensures
        match found {
            Some((seconds, weekday)) => {
                &&& is_known_date(year as int, month as int, day as int)
                &&& seconds == date_seconds(year as int, month as int, day as int)
                &&& weekday == date_weekday(year as int, month as int, day as int)
                &&& 1_451_606_400 <= seconds <= 1_925_000_000
                &&& weekday <= 6
            },
            None => !is_known_date(year as int, month as int, day as int),
        },
{
    let (index, day_of_year) = known_date_day_of_year(year, month, day)?;
    proof {
        lemma_civil_days(year as int, month as int, day as int);
        lemma_weekday_later(
            days_before_year(year as int) - days_before_year(1_970),
            day_of_year as int,
        );
    }
    let seconds: i32 = year_start_seconds(index) + day_of_year * 86_400;
    let weekday: u8 = ((year_start_weekday(index) as i32 + day_of_year) % 7) as u8;
    Some((seconds, weekday))
}

} // verus!
