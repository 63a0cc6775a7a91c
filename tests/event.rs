use augr_core::event::{Error, PatchedEvent};
use augr_core::Timestamp;
use chrono::{TimeZone, Utc};
use uuid::Uuid;

fn at(y: i32, mo: u32, d: u32, h: u32, mi: u32) -> Timestamp {
    let dt = Utc.with_ymd_and_hms(y, mo, d, h, mi, 0).unwrap();
    Timestamp::new(dt.timestamp(), dt.timestamp_subsec_nanos())
}

#[test]
fn remove_start_from_event() {
    let dt0 = at(2019, 07, 23, 12, 0);
    let dt1 = at(2019, 07, 23, 12, 30);
    let patch_ref_a = Uuid::parse_str("81790c38-96dd-4577-8b85-9f7c8bd6802b")
        .unwrap()
        .as_u128();

    let mut event = PatchedEvent::new();
    event.add_start(patch_ref_a, dt0);
    event.add_start(patch_ref_a, dt1);
    event.remove_start(patch_ref_a, dt0);

    assert_eq!(event.starts(), vec![(patch_ref_a, dt1)]);
}

#[test]
fn remove_tag_from_event() {
    let patch_ref_a = Uuid::parse_str("81790c38-96dd-4577-8b85-9f7c8bd6802b")
        .unwrap()
        .as_u128();

    let mut event = PatchedEvent::new();
    event.add_tag(patch_ref_a, "hello".into());
    event.add_tag(patch_ref_a, "world".into());
    event.remove_tag(patch_ref_a, "world".into());

    assert_eq!(event.tags(), vec![(patch_ref_a, "hello".to_string())]);
}

#[test]
fn removal_matches_by_value_not_by_patch() {
    let t = Timestamp::new(100, 0);
    let mut event = PatchedEvent::new();
    event.add_start(1, t);
    event.remove_start(2, t);
    assert_eq!(event.starts(), vec![(1, t)]);
    event.remove_start(1, t);
    assert_eq!(event.starts(), vec![]);
}

#[test]
fn adding_twice_is_idempotent() {
    let t = Timestamp::new(5, 7);
    let mut event = PatchedEvent::new();
    event.add_start(1, t);
    event.add_start(1, t);
    event.add_tag(1, "x".to_string());
    event.add_tag(1, "x".to_string());
    assert_eq!(event.starts(), vec![(1, t)]);
    assert_eq!(event.tags(), vec![(1, "x".to_string())]);
}

#[test]
fn flatten_event_with_one_start() {
    let t = Timestamp::new(42, 0);
    let mut event = PatchedEvent::new();
    event.add_start(1, t);
    event.add_tag(1, "work".to_string());
    event.add_tag(2, "work".to_string());
    event.add_tag(2, "coding".to_string());
    let flat = event.flatten().unwrap();
    assert_eq!(flat.start(), t);
    let mut tags = flat.tags().clone();
    tags.sort();
    assert_eq!(tags, vec!["coding".to_string(), "work".to_string()]);
}

#[test]
fn flatten_event_without_tags() {
    let mut event = PatchedEvent::new();
    event.add_start(1, Timestamp::new(1, 0));
    let flat = event.flatten().unwrap();
    assert!(flat.tags().is_empty());
}

#[test]
fn flatten_event_with_two_starts_fails() {
    let mut event = PatchedEvent::new();
    event.add_start(1, Timestamp::new(1, 0));
    event.add_start(2, Timestamp::new(2, 0));
    assert_eq!(event.flatten().unwrap_err(), Error::MultipleStartTimes);
}

#[test]
fn flatten_event_same_time_from_two_patches_fails() {
    let t = Timestamp::new(1, 0);
    let mut event = PatchedEvent::new();
    event.add_start(1, t);
    event.add_start(2, t);
    assert_eq!(event.flatten().unwrap_err(), Error::MultipleStartTimes);
}

#[test]
fn flatten_event_with_no_start_fails() {
    let event = PatchedEvent::new();
    assert_eq!(event.flatten().unwrap_err(), Error::NoStartTimes);
}

#[test]
fn latest_patches_track_frontier() {
    let mut event = PatchedEvent::new();
    event.add_patch_to_latest(1);
    event.add_patch_to_latest(2);
    event.add_patch_to_latest(2);
    event.remove_patch_from_latest(&1);
    event.remove_patch_from_latest(&9);
    assert_eq!(event.latest_patches(), vec![2]);
}

#[test]
fn default_event_is_empty() {
    let event = PatchedEvent::default();
    assert!(event.starts().is_empty());
    assert!(event.tags().is_empty());
    assert!(event.latest_patches().is_empty());
}
