//! Instants and local time.

use chrono::DateTime;
use nippo_collector::clock::{
    extract_local_hour, format_local_time, hour_text, nanos_since, Instant, LocalOffsets,
};

fn at(secs: i64, nanos: u32) -> Instant {
    Instant { secs, nanos }
}

#[test]
fn spans_are_counted_in_nanoseconds() {
    assert_eq!(nanos_since(at(60, 5), at(0, 0)), 60_000_000_005);
    assert_eq!(nanos_since(at(0, 0), at(60, 5)), -60_000_000_005);
    assert_eq!(nanos_since(at(-1, 500_000_000), at(-2, 750_000_000)), 750_000_000);
}

#[test]
fn a_leap_second_counts_where_an_end_lies_in_it() {
    let leap = at(1_483_228_799, 1_500_000_000);
    // Later on the day before: the leap second is the last second of its day.
    assert_eq!(nanos_since(leap, at(1_483_228_798, 0)), 2_500_000_000);
    assert_eq!(nanos_since(at(1_483_228_800, 0), leap), -500_000_000);
    assert_eq!(nanos_since(at(1_483_228_860, 0), leap), 59_500_000_000);
}

#[test]
fn instants_are_compared_to_the_nanosecond() {
    assert!(at(1, 0).is_before(&at(1, 1)));
    assert!(at(0, 9).is_before(&at(1, 0)));
    assert!(!at(1, 1).is_before(&at(1, 1)));
    assert!(!at(2, 0).is_before(&at(1, 9)));
}

#[test]
fn local_times_carry_their_zone() {
    let mut offsets = LocalOffsets::new();
    let when = at(1_777_951_020, 250_000_000);
    assert_eq!(format_local_time(&when, &offsets), "2026-05-05T03:17:00+00:00");
    offsets.set(1_777_951_020, 9 * 3600);
    assert_eq!(format_local_time(&when, &offsets), "2026-05-05T12:17:00+09:00");
    offsets.set(1_777_951_020, -(3 * 3600 + 30 * 60));
    assert_eq!(format_local_time(&when, &offsets), "2026-05-04T23:47:00-03:30");
}

#[test]
fn offsets_are_looked_up_by_the_second() {
    let mut offsets = LocalOffsets::new();
    assert_eq!(offsets.at(7), 0);
    offsets.set(7, 3600);
    assert_eq!(offsets.at(7), 3600);
    assert_eq!(offsets.at(8), 0);
}

#[test]
fn hours_have_two_digits() {
    let mut offsets = LocalOffsets::new();
    assert_eq!(
        extract_local_hour("2026-05-05T03:17:00Z", &offsets),
        Some("03".to_string())
    );
    offsets.set(1_777_951_020, 9 * 3600);
    assert_eq!(
        extract_local_hour("2026-05-05T03:17:00Z", &offsets),
        Some("12".to_string())
    );
    offsets.set(1_777_951_020, -4 * 3600);
    assert_eq!(
        extract_local_hour("2026-05-05T03:17:00Z", &offsets),
        Some("23".to_string())
    );
    assert_eq!(extract_local_hour("03:17", &offsets), None);
}

#[test]
fn hours_before_the_epoch_count_forward() {
    let offsets = LocalOffsets::new();
    assert_eq!(
        extract_local_hour("1969-12-31T23:59:59Z", &offsets),
        Some("23".to_string())
    );
    assert_eq!(
        extract_local_hour("0001-01-01T00:00:00+23:59", &offsets),
        Some("00".to_string())
    );
}

#[test]
fn hours_follow_the_offset() {
    assert_eq!(hour_text(0, 0), "00");
    assert_eq!(hour_text(0, -1), "23");
    assert_eq!(hour_text(86_399, 1), "00");
    assert_eq!(hour_text(3 * 3_600, 9 * 3_600), "12");
}

#[test]
fn local_times_read_back_to_the_second() {
    for offset in [0, 9 * 3_600, -(3 * 3_600 + 30 * 60), 23 * 3_600 + 59 * 60, -60] {
        for secs in [-62_167_132_800, -1, 0, 1_777_951_020, 253_402_214_399] {
            let mut offsets = LocalOffsets::new();
            offsets.set(secs, offset);
            let text = format_local_time(&at(secs, 999_999_999), &offsets);
            let time = DateTime::parse_from_rfc3339(&text).expect("local time");
            assert_eq!(time.timestamp(), secs, "{text}");
            assert_eq!(time.timestamp_subsec_nanos(), 0, "{text}");
        }
    }
}
