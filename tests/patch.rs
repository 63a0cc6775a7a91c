use augr_core::{AddStart, AddTag, Patch, RemoveStart, RemoveTag, Timestamp};

fn s(x: &str) -> String {
    x.to_string()
}

fn sorted(mut v: Vec<u128>) -> Vec<u128> {
    v.sort();
    v
}

#[test]
fn parents_collects_every_predecessor() {
    let mut p = Patch::with_id(1)
        .add_start(2, s("a"), Timestamp::new(0, 0))
        .remove_start(3, s("a"), Timestamp::new(0, 0))
        .add_tag(4, s("a"), s("t"))
        .remove_tag(5, s("a"), s("t"));
    p.insert_remove_start(RemoveStart {
        parents: Some(vec![6, 2]),
        patch: 7,
        event: s("b"),
        time: Timestamp::new(1, 0),
    });
    p.insert_remove_tag(RemoveTag { parents: Some(vec![8]), patch: 9, event: s("b"), tag: s("u") });
    assert_eq!(sorted(p.parents()), vec![2, 3, 4, 5, 6, 7, 8, 9]);
}

#[test]
fn empty_patch_has_no_parents() {
    let p = Patch::with_id(1).create_event(s("a"), Timestamp::new(0, 0), vec![s("x")]);
    assert!(p.parents().is_empty());
    assert_eq!(p.patch_ref(), 1);
}

#[test]
fn new_patches_get_distinct_ids() {
    let a = Patch::new();
    let b = Patch::new();
    assert_ne!(a.patch_ref(), b.patch_ref());
    assert_eq!((a.patch_ref() >> 76) & 0xf, 4);
    assert!(a.add_start.is_empty() && a.create_event.is_empty());
    let d = Patch::default();
    assert!(d.remove_tag.is_empty());
}

#[test]
fn instruction_parents() {
    let a = AddStart { parents: vec![3, 1, 3], event: s("e"), time: Timestamp::new(0, 0) };
    assert_eq!(sorted(a.parents()), vec![1, 3]);
    let r = RemoveStart { parents: None, patch: 4, event: s("e"), time: Timestamp::new(0, 0) };
    assert!(r.parents().is_empty());
    let t = AddTag { parents: vec![5], event: s("e"), tag: s("x") };
    assert_eq!(t.parents(), vec![5]);
    let rt = RemoveTag { parents: Some(vec![6, 7]), patch: 8, event: s("e"), tag: s("x") };
    assert_eq!(sorted(rt.parents()), vec![6, 7]);
}

#[test]
fn builder_chain_fills_each_set() {
    let p = Patch::with_id(9)
        .add_start(1, s("a"), Timestamp::new(1, 0))
        .remove_start(1, s("a"), Timestamp::new(1, 0))
        .add_tag(1, s("a"), s("work"))
        .remove_tag(1, s("a"), s("coding"))
        .create_event(s("a"), Timestamp::new(1, 0), vec![s("work"), s("coding")]);
    assert_eq!(p.add_start.len(), 1);
    assert_eq!(p.add_start[0].parents, vec![1]);
    assert_eq!(p.remove_start[0].parents, None);
    assert_eq!(p.add_tag[0].tag, s("work"));
    assert_eq!(p.remove_tag[0].patch, 1);
    assert_eq!(p.create_event[0].tags, vec![s("work"), s("coding")]);
}

#[test]
fn patch_equality_ignores_instruction_order() {
    let a = Patch::with_id(1)
        .add_tag(2, s("e"), s("x"))
        .add_tag(2, s("e"), s("y"))
        .create_event(s("e"), Timestamp::new(0, 0), vec![s("x")]);
    let b = Patch::with_id(1)
        .create_event(s("e"), Timestamp::new(0, 0), vec![s("x")])
        .add_tag(2, s("e"), s("y"))
        .add_tag(2, s("e"), s("x"))
        .add_tag(2, s("e"), s("x"));
    assert_eq!(a, b);
    assert_ne!(a, Patch::with_id(3).add_tag(2, s("e"), s("x")));
    assert_ne!(a, b.clone().add_tag(2, s("e"), s("z")));
    assert_ne!(
        Patch::with_id(1).create_event(s("e"), Timestamp::new(0, 0), vec![s("x"), s("y")]),
        Patch::with_id(1).create_event(s("e"), Timestamp::new(0, 0), vec![s("y"), s("x")])
    );
}

#[test]
fn patch_equality_compares_parents_as_sets() {
    let mut a = Patch::with_id(1);
    a.insert_add_start(AddStart { parents: vec![1, 2], event: s("e"), time: Timestamp::new(5, 0) });
    let mut b = Patch::with_id(1);
    b.insert_add_start(AddStart { parents: vec![2, 1, 2], event: s("e"), time: Timestamp::new(5, 0) });
    assert_eq!(a, b);
    let mut c = Patch::with_id(1);
    c.insert_remove_start(RemoveStart { parents: Some(vec![]), patch: 1, event: s("e"), time: Timestamp::new(5, 0) });
    let mut d = Patch::with_id(1);
    d.insert_remove_start(RemoveStart { parents: None, patch: 1, event: s("e"), time: Timestamp::new(5, 0) });
    assert_ne!(c, d);
}
