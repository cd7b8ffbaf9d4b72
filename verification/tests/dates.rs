//! The two accepted timestamp text forms, and what is rejected.

use yark_archive::date::YarkDate;
use yark_archive::wire::{parse_date_at, str_to_chars};

fn parse_date_str(text: &str) -> Option<YarkDate> {
    let quoted = format!("\"{}\"", text);
    let chars = str_to_chars(&quoted);
    match parse_date_at(&chars, 0) {
        Some((d, j)) if j == chars.len() => Some(d),
        _ => None,
    }
}

#[test]
fn deserialize_date() {
    let date_str = "2023-05-07T12:00:00Z";
    let expected_date = YarkDate::new(2023, 5, 7, 12, 0, 0, 0).unwrap();
    assert_eq!(parse_date_str(date_str), Some(expected_date));
}

#[test]
fn deserialize_date_with_invalid_timezone() {
    let date_str = "2023-05-07T12:00:00+02:00";
    assert!(parse_date_str(date_str).is_none());
}

#[test]
fn deserialize_date_with_missing_timezone() {
    let date_str = "2023-05-07T12:00:00";
    let expected_date = YarkDate::new(2023, 5, 7, 12, 0, 0, 0).unwrap();
    assert_eq!(parse_date_str(date_str), Some(expected_date));
}

#[test]
fn deserialize_with_invalid_date() {
    let date_str = "invalid-date-string";
    assert!(parse_date_str(date_str).is_none());
}

#[test]
fn explicit_utc_offset_is_accepted() {
    let with_offset = parse_date_str("2023-05-07T12:00:00+00:00");
    let with_z = parse_date_str("2023-05-07T12:00:00Z");
    let bare = parse_date_str("2023-05-07T12:00:00");
    assert!(with_offset.is_some());
    assert_eq!(with_offset, with_z);
    assert_eq!(with_offset, bare);
}

#[test]
fn fractional_seconds_scale_to_nanoseconds() {
    let d = parse_date_str("2023-05-03T11:35:50.993963").unwrap();
    assert_eq!(d.nanos, 993_963_000);
    let d = parse_date_str("2023-05-03T11:35:50.5Z").unwrap();
    assert_eq!(d.nanos, 500_000_000);
    assert!(parse_date_str("2023-05-03T11:35:50.1234567891").is_none());
}
