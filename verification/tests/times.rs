use rinha_fraud::calendar::{epoch_seconds_and_weekday_for_known_date, epoch_seconds_for_known_date};
use rinha_fraud::time::{parse_utc_timestamp, parse_utc_timestamp_bytes};

#[test]
fn parses_weekday_with_monday_zero() {
    let parsed = parse_utc_timestamp("2026-03-11T18:45:53Z").unwrap();
    assert_eq!(parsed.hour, 18);
    assert_eq!(parsed.weekday_monday0, 2);
}

#[test]
fn counts_seconds_from_the_epoch() {
    let first = parse_utc_timestamp("1970-01-01T00:00:00Z").unwrap();
    assert_eq!(first.epoch_seconds, 0);
    assert_eq!(first.weekday_monday0, 3);
    let later = parse_utc_timestamp_bytes(b"2026-03-11T18:45:53Z").unwrap();
    assert_eq!(later.epoch_seconds, 1_773_254_753);
    let before = parse_utc_timestamp("1969-12-31T23:59:59Z").unwrap();
    assert_eq!(before.epoch_seconds, -1);
    assert_eq!(before.weekday_monday0, 2);
}

#[test]
fn leap_days_follow_each_other() {
    let days = [
        "2024-02-28T00:00:00Z",
        "2024-02-29T00:00:00Z",
        "2024-03-01T00:00:00Z",
    ];
    for pair in days.windows(2) {
        let a = parse_utc_timestamp(pair[0]).unwrap();
        let b = parse_utc_timestamp(pair[1]).unwrap();
        assert_eq!(b.epoch_seconds - a.epoch_seconds, 86_400);
        assert_eq!(b.weekday_monday0, (a.weekday_monday0 + 1) % 7);
    }
    let common = parse_utc_timestamp("2023-02-28T00:00:00Z").unwrap();
    let next = parse_utc_timestamp("2023-03-01T00:00:00Z").unwrap();
    assert_eq!(next.epoch_seconds - common.epoch_seconds, 86_400);
}

#[test]
fn refuses_short_and_foreign_timestamps() {
    assert!(parse_utc_timestamp("2026-03-11T18:45:53").is_none());
    assert!(parse_utc_timestamp("").is_none());
    assert!(parse_utc_timestamp("2026-03-1xT18:45:53Z").is_none());
    assert!(parse_utc_timestamp("2026-03-11T18:45:5-Z").is_none());
    assert!(parse_utc_timestamp("2026/03/11 18.45.53?").is_some());
}

#[test]
fn known_dates_agree_with_the_calendar() {
    let months = [31u8, 29, 31, 30, 31, 30, 31, 31, 30, 31, 30, 31];
    let mut checked = 0;
    for year in 2016..=2030i32 {
        for month in 1..=12u8 {
            for day in 1..=months[month as usize - 1] {
                let text = format!("{year:04}-{month:02}-{day:02}T00:00:00Z");
                let parsed = parse_utc_timestamp(&text).unwrap();
                match epoch_seconds_and_weekday_for_known_date(year, month, day) {
                    Some((seconds, weekday)) => {
                        assert_eq!(seconds as i64, parsed.epoch_seconds);
                        assert_eq!(weekday, parsed.weekday_monday0);
                        assert_eq!(epoch_seconds_for_known_date(year, month, day), Some(seconds));
                        checked += 1;
                    }
                    None => assert!(month == 2 && day == 29 && year % 4 != 0),
                }
            }
        }
    }
    assert_eq!(checked, 15 * 365 + 4);
}

#[test]
fn dates_outside_the_table_are_unknown() {
    assert!(epoch_seconds_for_known_date(2015, 12, 31).is_none());
    assert!(epoch_seconds_for_known_date(2031, 1, 1).is_none());
    assert!(epoch_seconds_for_known_date(2020, 0, 1).is_none());
    assert!(epoch_seconds_for_known_date(2020, 13, 1).is_none());
    assert!(epoch_seconds_for_known_date(2020, 4, 31).is_none());
    assert!(epoch_seconds_for_known_date(2020, 4, 0).is_none());
    assert_eq!(epoch_seconds_for_known_date(2016, 1, 1), Some(1_451_606_400));
}

#[test]
fn days_are_counted_one_by_one() {
    let mut expected = parse_utc_timestamp("1999-12-31T00:00:00Z").unwrap().epoch_seconds;
    for year in 2000..=2004 {
        for month in 1..=12 {
            let length = match month {
                2 if year % 4 == 0 => 29,
                2 => 28,
                4 | 6 | 9 | 11 => 30,
                _ => 31,
            };
            for day in 1..=length {
                expected += 86_400;
                let text = format!("{year:04}-{month:02}-{day:02}T00:00:00Z");
                assert_eq!(parse_utc_timestamp(&text).unwrap().epoch_seconds, expected);
            }
        }
    }
}
