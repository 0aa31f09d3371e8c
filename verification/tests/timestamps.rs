use rinha_vini::timestamp::{
    days_from_ce, iso_to_epoch_secs, parse_hour_dow, parse_u32, zeller_dow,
};

#[test]
fn digits_are_read_and_others_passed_over() {
    assert_eq!(parse_u32(b"2026"), 2026);
    assert_eq!(parse_u32(b"0"), 0);
    assert_eq!(parse_u32(b""), 0);
    assert_eq!(parse_u32(b"1x2"), 12);
    assert_eq!(parse_u32(b"4294967295"), 4294967295);
}

#[test]
fn day_numbers_of_known_dates() {
    assert_eq!(days_from_ce(0, 3, 1), 0);
    assert_eq!(days_from_ce(0, 2, 29), -1);
    assert_eq!(days_from_ce(1970, 1, 1), 719468);
    assert_eq!(days_from_ce(2000, 3, 1), 730485);
    assert_eq!(days_from_ce(2026, 3, 11), 739991);
    assert_eq!(days_from_ce(-400, 3, 1), -146097);
}

#[test]
fn day_numbers_count_over_leap_days() {
    assert_eq!(days_from_ce(2024, 3, 1) - days_from_ce(2024, 2, 28), 2);
    assert_eq!(days_from_ce(2023, 3, 1) - days_from_ce(2023, 2, 28), 1);
    assert_eq!(days_from_ce(1900, 3, 1) - days_from_ce(1900, 2, 28), 1);
    assert_eq!(days_from_ce(2000, 3, 1) - days_from_ce(2000, 2, 28), 2);
    assert_eq!(days_from_ce(2026, 1, 1) - days_from_ce(2025, 12, 31), 1);
}

#[test]
fn weekdays_of_known_dates() {
    assert_eq!(zeller_dow(2026, 3, 11), 2);
    assert_eq!(zeller_dow(1970, 1, 1), 3);
    assert_eq!(zeller_dow(2000, 1, 1), 5);
    assert_eq!(zeller_dow(2024, 2, 29), 3);
    assert_eq!(zeller_dow(2025, 12, 28), 6);
    assert_eq!(zeller_dow(2025, 12, 29), 0);
}

#[test]
fn weekdays_follow_the_day_numbers() {
    for y in [1i32, 4, 100, 400, 1600, 1999, 2000, 2024, 2026, 9999] {
        for m in 1..=12 {
            for d in [1, 15, 28] {
                let days = days_from_ce(y as i64, m as i64, d as i64);
                assert_eq!(zeller_dow(y, m, d) as i64, (days + 2).rem_euclid(7));
            }
        }
    }
}

#[test]
fn the_first_months_of_the_year_zero_are_an_exception() {
    let days = days_from_ce(0, 1, 1);
    assert_ne!(zeller_dow(0, 1, 1) as i64, (days + 2).rem_euclid(7));
}

#[test]
fn timestamps_are_read() {
    let a = iso_to_epoch_secs(b"2026-03-11T20:23:35Z");
    assert_eq!(a, 739991 * 86400 + 20 * 3600 + 23 * 60 + 35);
    let b = iso_to_epoch_secs(b"2026-03-12T00:00:00Z");
    assert_eq!(b - a, 3 * 3600 + 36 * 60 + 25);
    assert_eq!(iso_to_epoch_secs(b"1970-01-01T00:00:00"), 719468 * 86400);
    assert_eq!(iso_to_epoch_secs(b"2026-03-11T20:23:3"), 0);
    assert_eq!(iso_to_epoch_secs(b""), 0);
}

#[test]
fn hours_and_weekdays_are_read() {
    assert_eq!(parse_hour_dow(b"2026-03-11T20:23:35Z"), (20, 2));
    assert_eq!(parse_hour_dow(b"2025-12-28T00:00:00Z"), (0, 6));
    assert_eq!(parse_hour_dow(b"2025-12-28T99:00:00Z"), (23, 6));
    assert_eq!(parse_hour_dow(b"2025-12-28"), (0, 0));
}
