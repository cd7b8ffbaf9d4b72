//! The timestamped value series: current-value and overwrite behaviour.

use yark_archive::date::YarkDate;
use yark_archive::elements::Elements;
use yark_archive::note::Note;

fn date(
    year: u32,
    month: u32,
    day: u32,
    hour: u32,
    minute: u32,
    second: u32,
    nanos: u32,
) -> YarkDate {
    YarkDate::new(year, month, day, hour, minute, second, nanos).unwrap()
}

#[test]
fn test_most_recent_value_empty() {
    let elements: Elements<i32> = Elements::new();
    assert_eq!(elements.current(), None);
}

#[test]
fn test_most_recent_value() {
    let mut elements = Elements::new();
    elements.insert(date(1970, 1, 1, 0, 0, 1, 0), 1);
    elements.insert(date(1970, 1, 1, 0, 0, 2, 0), 2);
    elements.insert(date(1970, 1, 1, 0, 0, 3, 0), 3);
    assert_eq!(elements.current(), Some(&3));
}

#[test]
fn current_ignores_insertion_order() {
    let t1 = date(2021, 3, 1, 8, 0, 0, 0);
    let t2 = date(2021, 3, 2, 8, 0, 0, 0);
    let t3 = date(2021, 3, 3, 8, 0, 0, 0);
    let mut scrambled = Elements::new();
    scrambled.insert(t2, "v2");
    scrambled.insert(t3, "v3");
    scrambled.insert(t1, "v1");
    assert_eq!(scrambled.current(), Some(&"v3"));

    let mut reversed = Elements::new();
    reversed.insert(t3, "v3");
    reversed.insert(t2, "v2");
    reversed.insert(t1, "v1");
    assert_eq!(reversed.current(), Some(&"v3"));
    assert_eq!(scrambled, reversed);
}

#[test]
fn insert_overwrites_without_growing() {
    let t = date(2022, 6, 5, 12, 30, 0, 0);
    let mut elements = Elements::new();
    elements.insert(t, 10u32);
    assert_eq!(elements.len(), 1);
    elements.insert(t, 20u32);
    assert_eq!(elements.len(), 1);
    assert_eq!(elements.current(), Some(&20));
}

#[test]
fn new_existing_seeds_one_entry() {
    let t = date(2020, 2, 29, 23, 59, 59, 999_999_999);
    let elements = Elements::new_existing(t, 7u32);
    assert_eq!(elements.len(), 1);
    assert_eq!(elements.current(), Some(&7));
}

#[test]
fn new_now_and_insert_now_grow_the_series() {
    let mut elements = Elements::new_now(1u32);
    assert_eq!(elements.len(), 1);
    elements.insert_now(2u32);
    assert!(elements.len() <= 2);
    assert!(elements.current().is_some());
}

#[test]
fn timestamp_to_str() {
    let note = Note {
        id: "a".to_string(),
        timestamp: 65,
        title: "Test Note".to_string(),
        description: Some("This is a test note".to_string()),
    };
    assert_eq!(note.to_timestamp_str(), "01:05");

    let note = Note {
        id: "b".to_string(),
        timestamp: 3750,
        title: "Test Note".to_string(),
        description: Some("This is a test note".to_string()),
    };
    assert_eq!(note.to_timestamp_str(), "01:02:30");
}

#[test]
fn invalid_calendar_dates_are_refused() {
    assert!(YarkDate::new(2023, 2, 29, 0, 0, 0, 0).is_none());
    assert!(YarkDate::new(2024, 2, 29, 0, 0, 0, 0).is_some());
    assert!(YarkDate::new(2023, 13, 1, 0, 0, 0, 0).is_none());
    assert!(YarkDate::new(2023, 4, 31, 0, 0, 0, 0).is_none());
    assert!(YarkDate::new(10000, 1, 1, 0, 0, 0, 0).is_none());
}
