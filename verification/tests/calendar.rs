use mdpeek::calendar::{civil_from_days, format_date, format_datetime, split_unix};

#[test]
fn format_date_known_values() {
    assert_eq!(format_date(1_672_531_200), "2023-01-01");
    assert_eq!(format_date(1_709_164_800), "2024-02-29");
    assert_eq!(format_date(0), "1970-01-01");
}

#[test]
fn format_datetime_roundtrip() {
    assert_eq!(format_datetime(0), "1970-01-01T00:00:00Z");
    assert_eq!(format_datetime(3661), "1970-01-01T01:01:01Z");
    assert_eq!(format_datetime(1_672_531_200), "2023-01-01T00:00:00Z");
}

#[test]
fn negative_times_floor_to_the_previous_day() {
    assert_eq!(split_unix(-1), (-1, 86_399));
    assert_eq!(format_datetime(-1), "1969-12-31T23:59:59Z");
    assert_eq!(format_date(-86_400), "1969-12-31");
}

#[test]
fn civil_dates_at_era_edges() {
    assert_eq!(civil_from_days(0), (1970, 1, 1));
    assert_eq!(civil_from_days(11_016), (2000, 2, 29));
    assert_eq!(civil_from_days(-719_468), (0, 3, 1));
    assert_eq!(civil_from_days(-719_469), (0, 2, 29));
}

#[test]
fn extreme_times_format_without_panicking() {
    assert_eq!(format_date(i64::MAX).len() >= 10, true);
    let s = format_datetime(i64::MIN);
    assert!(s.starts_with('-'));
    assert!(s.ends_with('Z'));
}

#[test]
fn datetime_starts_with_date() {
    for t in [0i64, 1, 59, 86_399, 86_400, 951_782_400, -31_536_000] {
        let d = format_date(t);
        let dt = format_datetime(t);
        assert!(dt.starts_with(&d));
        assert_eq!(&dt[d.len()..d.len() + 1], "T");
    }
}

#[test]
fn civil_dates_over_the_whole_range() {
    assert_eq!(civil_from_days(19_782), (2024, 2, 29));
    assert_eq!(civil_from_days(-1), (1969, 12, 31));
    let (y, m, d) = civil_from_days(i64::MAX - 719_468);
    assert!(y > 0 && (1..=12).contains(&m) && (1..=31).contains(&d));
    let (y, m, d) = civil_from_days(i64::MIN);
    assert!(y < 0 && (1..=12).contains(&m) && (1..=31).contains(&d));
}
