use augr_core::event::Error as EventError;
use augr_core::order::less_than;
use augr_core::timesheet::Error;
use augr_core::{AddStart, Patch, PatchedTimesheet, RemoveStart, Timestamp};

fn s(x: &str) -> String {
    x.to_string()
}

fn t(secs: i64) -> Timestamp {
    Timestamp::new(secs, 0)
}

fn applied(patches: &[&Patch]) -> PatchedTimesheet {
    let mut sheet = PatchedTimesheet::new();
    for p in patches {
        assert!(sheet.is_applicable(p));
        sheet.apply_patch(p).unwrap();
    }
    sheet
}

fn starts_of(sheet: &PatchedTimesheet) -> Vec<(String, i64, Vec<String>)> {
    let ts = sheet.flatten().unwrap();
    let mut out = Vec::new();
    for name in ["a", "b", "c"] {
        if let Some(ev) = ts.get(&s(name)) {
            let mut tags = ev.tags().clone();
            tags.sort();
            out.push((s(name), ev.start().secs, tags));
        }
    }
    out
}

#[test]
fn tombstone_by_value_replaces_start() {
    let root = Patch::with_id(10).create_event(s("a"), t(100), vec![s("work")]);
    let edit1 = Patch::with_id(11)
        .remove_start(10, s("a"), t(100))
        .add_start(10, s("a"), t(200));
    let sheet = applied(&[&root, &edit1]);
    let ts = sheet.flatten().unwrap();
    assert_eq!(ts.len(), 1);
    assert_eq!(ts.get(&s("a")).unwrap().start(), t(200));
}

#[test]
fn tombstone_by_value_instruction_order_does_not_matter() {
    let root = Patch::with_id(10).create_event(s("a"), t(100), vec![]);
    let mut edit1 = Patch::with_id(11);
    edit1.insert_add_start(AddStart { parents: vec![10], event: s("a"), time: t(200) });
    edit1.insert_remove_start(RemoveStart { parents: None, patch: 10, event: s("a"), time: t(100) });
    let mut edit_swapped = Patch::with_id(11);
    edit_swapped.insert_remove_start(RemoveStart { parents: None, patch: 10, event: s("a"), time: t(100) });
    edit_swapped.insert_add_start(AddStart { parents: vec![10], event: s("a"), time: t(200) });
    assert_eq!(starts_of(&applied(&[&root, &edit1])), vec![(s("a"), 200, vec![])]);
    assert_eq!(starts_of(&applied(&[&root, &edit_swapped])), vec![(s("a"), 200, vec![])]);
}

#[test]
fn concurrent_start_is_a_conflict() {
    let root = Patch::with_id(10).create_event(s("a"), t(100), vec![]);
    let edit1 = Patch::with_id(11).add_start(10, s("a"), t(200));
    let sheet = applied(&[&root, &edit1]);
    assert_eq!(
        sheet.flatten().unwrap_err(),
        vec![Error::FlattenEventError { source: EventError::MultipleStartTimes, event: s("a") }]
    );
}

#[test]
fn removed_sole_start_is_a_conflict() {
    let root = Patch::with_id(10).create_event(s("a"), t(100), vec![]);
    let edit1 = Patch::with_id(11).remove_start(10, s("a"), t(100));
    let sheet = applied(&[&root, &edit1]);
    assert_eq!(
        sheet.flatten().unwrap_err(),
        vec![Error::FlattenEventError { source: EventError::NoStartTimes, event: s("a") }]
    );
}

#[test]
fn two_events_at_the_same_time_collide() {
    let root = Patch::with_id(10)
        .create_event(s("b"), t(100), vec![])
        .create_event(s("a"), t(100), vec![]);
    let sheet = applied(&[&root]);
    assert_eq!(
        sheet.flatten().unwrap_err(),
        vec![Error::DuplicateEventTime { event_a: s("a"), event_b: s("b") }]
    );
}

#[test]
fn three_events_at_the_same_time_name_the_first() {
    let root = Patch::with_id(10)
        .create_event(s("c"), t(100), vec![])
        .create_event(s("b"), t(100), vec![])
        .create_event(s("a"), t(100), vec![]);
    let sheet = applied(&[&root]);
    assert_eq!(
        sheet.flatten().unwrap_err(),
        vec![
            Error::DuplicateEventTime { event_a: s("a"), event_b: s("b") },
            Error::DuplicateEventTime { event_a: s("a"), event_b: s("c") },
        ]
    );
}

#[test]
fn unknown_event_is_rejected_without_change() {
    let root = Patch::with_id(10).create_event(s("a"), t(100), vec![s("x")]);
    let mut sheet = applied(&[&root]);
    let before = starts_of(&sheet);
    let bad = Patch::with_id(11)
        .add_start(10, s("a"), t(300))
        .add_start(10, s("nope"), t(200))
        .create_event(s("b"), t(500), vec![]);
    assert!(sheet.is_applicable(&bad));
    assert_eq!(
        sheet.apply_patch(&bad).unwrap_err(),
        vec![Error::UnknownEvent { patch: 11, event: s("nope") }]
    );
    assert_eq!(starts_of(&sheet), before);
}

#[test]
fn unknown_event_in_removal_is_rejected() {
    let mut sheet = PatchedTimesheet::new();
    let bad = Patch::with_id(11).remove_start(10, s("ghost"), t(1));
    assert_eq!(
        sheet.apply_patch(&bad).unwrap_err(),
        vec![Error::UnknownEvent { patch: 11, event: s("ghost") }]
    );
}

#[test]
fn creating_an_existing_event_is_rejected() {
    let root = Patch::with_id(10).create_event(s("a"), t(100), vec![]);
    let mut sheet = applied(&[&root]);
    let again = Patch::with_id(12).create_event(s("a"), t(900), vec![]);
    assert_eq!(
        sheet.apply_patch(&again).unwrap_err(),
        vec![Error::DuplicateEventId { id: s("a") }]
    );
    assert_eq!(starts_of(&sheet), vec![(s("a"), 100, vec![])]);
}

#[test]
fn all_verification_errors_are_reported_together() {
    let root = Patch::with_id(10).create_event(s("a"), t(100), vec![]);
    let mut sheet = applied(&[&root]);
    let bad = Patch::with_id(11)
        .add_start(10, s("x"), t(1))
        .remove_start(10, s("y"), t(2))
        .create_event(s("a"), t(3), vec![]);
    assert_eq!(
        sheet.apply_patch(&bad).unwrap_err(),
        vec![
            Error::UnknownEvent { patch: 11, event: s("x") },
            Error::UnknownEvent { patch: 11, event: s("y") },
            Error::DuplicateEventId { id: s("a") },
        ]
    );
}

#[test]
fn applying_twice_gives_the_same_timesheet() {
    let root = Patch::with_id(10).create_event(s("a"), t(100), vec![s("work")]);
    let edit1 = Patch::with_id(11)
        .remove_start(10, s("a"), t(100))
        .add_start(10, s("a"), t(200))
        .add_tag(10, s("a"), s("coding"))
        .remove_tag(10, s("a"), s("work"));
    let once = applied(&[&root, &edit1]);
    let mut twice = applied(&[&root, &edit1]);
    twice.apply_patch(&edit1).unwrap();
    assert!(twice.apply_patch(&root).is_err());
    assert_eq!(starts_of(&once), starts_of(&twice));
    assert_eq!(starts_of(&once), vec![(s("a"), 200, vec![s("coding")])]);
}

#[test]
fn independent_patches_commute() {
    let root = Patch::with_id(10)
        .create_event(s("a"), t(100), vec![])
        .create_event(s("b"), t(300), vec![]);
    let pa = Patch::with_id(11).add_tag(10, s("a"), s("work"));
    let pb = Patch::with_id(12)
        .remove_start(10, s("b"), t(300))
        .add_start(10, s("b"), t(400))
        .create_event(s("c"), t(500), vec![s("rest")]);
    let ab = applied(&[&root, &pa, &pb]);
    let ba = applied(&[&root, &pb, &pa]);
    assert_eq!(starts_of(&ab), starts_of(&ba));
    assert_eq!(
        starts_of(&ab),
        vec![
            (s("a"), 100, vec![s("work")]),
            (s("b"), 400, vec![]),
            (s("c"), 500, vec![s("rest")]),
        ]
    );
}

#[test]
fn applicability_check() {
    let root = Patch::with_id(10).create_event(s("a"), t(100), vec![]);
    let sheet = applied(&[&root]);
    assert!(!sheet.is_applicable(&Patch::with_id(11).add_tag(10, s("zz"), s("t"))));
    assert!(!sheet.is_applicable(&Patch::with_id(11).remove_tag(10, s("zz"), s("t"))));
    let two = Patch::with_id(11)
        .create_event(s("n"), t(1), vec![])
        .create_event(s("n"), t(2), vec![]);
    assert!(!sheet.is_applicable(&two));
    let same = Patch::with_id(11)
        .create_event(s("n"), t(1), vec![])
        .create_event(s("n"), t(1), vec![]);
    assert_eq!(same.create_event.len(), 1);
    assert!(sheet.is_applicable(&same));
}

#[test]
fn event_lookup_by_start() {
    let root = Patch::with_id(10)
        .create_event(s("a"), t(100), vec![])
        .create_event(s("b"), t(200), vec![]);
    let ts = applied(&[&root]).flatten().unwrap();
    assert_eq!(ts.event_at(t(200)), Some(s("b")));
    assert_eq!(ts.event_at(t(150)), None);
    assert!(ts.get(&s("zz")).is_none());
}

#[test]
fn empty_timesheet_flattens() {
    let ts = PatchedTimesheet::new().flatten().unwrap();
    assert_eq!(ts.len(), 0);
}

#[test]
fn names_order_by_code_point() {
    assert!(less_than(&s("a"), &s("b")));
    assert!(less_than(&s("a"), &s("ab")));
    assert!(!less_than(&s("ab"), &s("a")));
    assert!(!less_than(&s("a"), &s("a")));
    assert!(less_than(&s("Z"), &s("a")));
    assert!(less_than(&s("z"), &s("é")));
    assert!(!less_than(&s(""), &s("")));
}

fn sorted(mut v: Vec<u128>) -> Vec<u128> {
    v.sort();
    v
}

#[test]
fn frontier_follows_superseding_patches() {
    let root = Patch::with_id(10).create_event(s("a"), t(100), vec![]);
    let edit1 = Patch::with_id(11).add_tag(10, s("a"), s("x"));
    let edit2 = Patch::with_id(12).add_tag(10, s("a"), s("y"));
    let sheet = applied(&[&root]);
    assert_eq!(sheet.event(&s("a")).unwrap().latest_patches(), vec![10]);
    let sheet = applied(&[&root, &edit1, &edit2]);
    assert_eq!(sorted(sheet.event(&s("a")).unwrap().latest_patches()), vec![11, 12]);
    let edit3 = Patch::with_id(13).remove_tag(11, s("a"), s("x"));
    let sheet = applied(&[&root, &edit1, &edit2, &edit3]);
    assert_eq!(sorted(sheet.event(&s("a")).unwrap().latest_patches()), vec![12, 13]);
    assert!(sheet.event(&s("b")).is_none());
}

#[test]
fn tags_at_time_picks_latest_start_not_after() {
    let root = Patch::with_id(10)
        .create_event(s("a"), t(100), vec![s("work")])
        .create_event(s("b"), t(200), vec![s("rest"), s("home")]);
    let ts = applied(&[&root]).flatten().unwrap();
    assert_eq!(ts.tags_at_time(t(50)), None);
    assert_eq!(ts.tags_at_time(t(100)), Some(vec![s("work")]));
    assert_eq!(ts.tags_at_time(t(199)), Some(vec![s("work")]));
    let mut late = ts.tags_at_time(t(1000)).unwrap();
    late.sort();
    assert_eq!(late, vec![s("home"), s("rest")]);
    assert_eq!(ts.tags_at_time(Timestamp::new(199, 999_999_999)), Some(vec![s("work")]));
}

#[test]
fn tag_filter_at_time() {
    let root = Patch::with_id(10)
        .create_event(s("a"), t(100), vec![s("work"), s("coding")])
        .create_event(s("b"), t(200), vec![]);
    let ts = applied(&[&root]).flatten().unwrap();
    assert!(ts.has_tags_at(&vec![s("work")], t(150)));
    assert!(ts.has_tags_at(&vec![], t(150)));
    assert!(!ts.has_tags_at(&vec![s("work"), s("music")], t(150)));
    assert!(!ts.has_tags_at(&vec![], t(250)));
    assert!(!ts.has_tags_at(&vec![], t(10)));
}
