use event_manager::model::Event;
use event_manager::util::{format_event_title, get_seconds_before_midnight, get_unix_time, unix_time_of};

fn event(name: &str, link: &str) -> Event {
    Event {
        id: 1,
        name: name.to_string(),
        link: link.to_string(),
        ts: 0,
        remind: 0,
        max_adults: 1,
        max_children: 1,
        max_adults_per_reservation: 1,
        max_children_per_reservation: 1,
    }
}

#[test]
fn test_util() {
    assert_eq!(get_seconds_before_midnight(1651503600), 9 * 60 * 60);
}

#[test]
fn seconds_before_midnight_at_midnight_is_a_full_day() {
    assert_eq!(get_seconds_before_midnight(0), 86400);
    assert_eq!(get_seconds_before_midnight(86400 * 3), 86400);
    assert_eq!(get_seconds_before_midnight(86399), 1);
}

#[test]
fn seconds_before_midnight_before_the_epoch() {
    assert_eq!(get_seconds_before_midnight(-1), 86401);
}

#[test]
fn title_with_link() {
    let e = event("Walk", "https://example.org/w");
    assert_eq!(format_event_title(&e), "<a href=\"https://example.org/w\">Walk</a>");
}

#[test]
fn title_without_link() {
    let e = event("Walk", "");
    assert_eq!(format_event_title(&e), "Walk");
}

#[test]
fn unix_time_is_recent() {
    assert!(get_unix_time() > 1_600_000_000);
}

#[test]
fn clock_readings_are_converted() {
    assert_eq!(unix_time_of(Some(1_650_445_814)), 1_650_445_814);
    assert_eq!(unix_time_of(Some(u64::MAX)), i64::MAX);
    assert_eq!(unix_time_of(None), 0);
}
