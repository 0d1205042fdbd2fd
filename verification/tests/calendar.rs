use grafik::calendar::{read_clock, read_day, weekday_of_ordinal, write_day, Date, LAST_DAY};

#[test]
fn dates_are_read_and_written() {
    let d = Date::parse("2024-02-29").unwrap();
    assert_eq!((d.year, d.month, d.day), (2024, 2, 29));
    assert_eq!(d.to_text(), "2024-02-29");
    assert_eq!(Date::parse("0000-01-01").unwrap().ordinal(), 0);
    assert_eq!(Date::parse("9999-12-31").unwrap().ordinal(), LAST_DAY);
    assert_eq!(write_day(0), "0000-01-01");
    assert_eq!(write_day(LAST_DAY), "9999-12-31");
}

#[test]
fn malformed_dates_are_refused() {
    assert!(Date::parse("2023-02-29").is_none());
    assert!(Date::parse("1900-02-29").is_none());
    assert!(Date::parse("2000-02-29").is_some());
    assert!(Date::parse("2024-13-01").is_none());
    assert!(Date::parse("2024-00-10").is_none());
    assert!(Date::parse("2024-04-31").is_none());
    assert!(Date::parse("2024-4-01").is_none());
    assert!(Date::parse("2024/04/01").is_none());
    assert!(Date::parse("2024-04-01 ").is_none());
    assert!(Date::parse("").is_none());
    assert!(Date::parse("２０２４-04-01").is_none());
}

#[test]
fn day_numbers_count_days() {
    // 2000-01-01 is 730485 days after 0000-01-01.
    assert_eq!(read_day("2000-01-01"), Some(730485));
    assert_eq!(read_day("2000-03-01"), Some(730485 + 60));
    assert_eq!(read_day("2001-01-01"), Some(730485 + 366));
    assert_eq!(read_day("2024-01-01").unwrap() - read_day("2023-01-01").unwrap(), 365);
    assert_eq!(read_day("2025-01-01").unwrap() - read_day("2024-01-01").unwrap(), 366);
}

#[test]
fn day_numbers_and_dates_round_trip() {
    let mut n: i64 = 0;
    while n <= LAST_DAY {
        let d = Date::from_ordinal(n);
        assert_eq!(d.ordinal(), n);
        assert_eq!(read_day(&d.to_text()), Some(n));
        n += 997;
    }
    let start = read_day("2023-12-25").unwrap();
    let texts: Vec<String> = (0..10).map(|k| write_day(start + k)).collect();
    assert_eq!(
        texts,
        vec![
            "2023-12-25", "2023-12-26", "2023-12-27", "2023-12-28", "2023-12-29", "2023-12-30",
            "2023-12-31", "2024-01-01", "2024-01-02", "2024-01-03"
        ]
    );
}

#[test]
fn weekdays_start_on_sunday() {
    assert_eq!(Date::parse("2024-01-01").unwrap().weekday(), 1);
    assert_eq!(Date::parse("2024-01-07").unwrap().weekday(), 0);
    assert_eq!(Date::parse("2024-02-29").unwrap().weekday(), 4);
    assert_eq!(Date::parse("2000-01-01").unwrap().weekday(), 6);
    assert_eq!(Date::parse("1970-01-01").unwrap().weekday(), 4);
    assert_eq!(weekday_of_ordinal(read_day("2026-10-28").unwrap()), 3);
}

#[test]
fn times_of_day_are_minutes_after_midnight() {
    assert_eq!(read_clock("00:00"), Some(0));
    assert_eq!(read_clock("09:30"), Some(570));
    assert_eq!(read_clock("23:59"), Some(1439));
    assert_eq!(read_clock("24:00"), None);
    assert_eq!(read_clock("12:60"), None);
    assert_eq!(read_clock("9:30"), None);
    assert_eq!(read_clock("09-30"), None);
    assert_eq!(read_clock("09:30:00"), None);
}
