//! The patched timesheet: every event's merge state, keyed by event name,
//! changed only by applying whole patches.
use vstd::prelude::*;
use crate::event::{contains_string, empty_event, flatten_event, strings, Error as EventError, Event, EventFlatV, EventV, PatchedEvent};
use crate::order::lemma_str_lt_asymmetric;
use crate::patch::Timestamp;
use crate::order::{less_than, lemma_str_lt_irreflexive, lemma_str_lt_total, lemma_str_lt_transitive, str_lt};
use crate::patch::{
    add_start_refs, add_tag_refs, remove_start_refs, remove_tag_refs, AddStart, AddStartV, AddTag,
    AddTagV, CreateEvent, Patch, PatchV, RemoveStart, RemoveStartV, RemoveTag, RemoveTagV,
};

verus! {

broadcast use vstd::seq_lib::group_seq_properties;

/// Why a patch was refused or a timesheet could not be flattened.
#[derive(Clone, Debug, PartialEq, Eq)]
pub enum Error {
    FlattenEventError { source: EventError, event: String },
    DuplicateEventTime { event_a: String, event_b: String },
    UnknownEvent { patch: u128, event: String },
    DuplicateEventId { id: String },
}

pub enum ErrorV {
    FlattenEventError { source: EventError, event: Seq<char> },
    DuplicateEventTime { event_a: Seq<char>, event_b: Seq<char> },
    UnknownEvent { patch: u128, event: Seq<char> },
    DuplicateEventId { id: Seq<char> },
}

impl View for Error {
    type V = ErrorV;

    open spec fn view(&self) -> ErrorV {
        match self {
            Error::FlattenEventError { source, event } => ErrorV::FlattenEventError {
                source: *source,
                event: event@,
            },
            Error::DuplicateEventTime { event_a, event_b } => ErrorV::DuplicateEventTime {
                event_a: event_a@,
                event_b: event_b@,
            },
            Error::UnknownEvent { patch, event } => ErrorV::UnknownEvent {
                patch: *patch,
                event: event@,
            },
            Error::DuplicateEventId { id } => ErrorV::DuplicateEventId { id: id@ },
        }
    }
}

pub open spec fn errors_view(s: Seq<Error>) -> Seq<ErrorV> {
    s.map_values(|e: Error| e@)
}

/// The abstract state: each known event's merge state.
pub type Sheet = Map<Seq<char>, EventV>;

/// The patch has an instruction other than a creation about event `k`.
pub open spec fn touches(p: PatchV, k: Seq<char>) -> bool {
    ||| exists|i| #[trigger] p.add_start.contains(i) && i.event == k
    ||| exists|i| #[trigger] p.remove_start.contains(i) && i.event == k
    ||| exists|i| #[trigger] p.add_tag.contains(i) && i.event == k
    ||| exists|i| #[trigger] p.remove_tag.contains(i) && i.event == k
}

/// The patch ids that the patch's instructions about event `k` supersede.
pub open spec fn refs_on(p: PatchV, k: Seq<char>) -> Set<u128> {
    Set::new(
        |r: u128|
            (exists|i| #[trigger] p.add_start.contains(i) && i.event == k && add_start_refs(i).contains(r))
            || (exists|i| #[trigger] p.remove_start.contains(i) && i.event == k
                && remove_start_refs(i).contains(r))
            || (exists|i| #[trigger] p.add_tag.contains(i) && i.event == k && add_tag_refs(i).contains(r))
            || (exists|i| #[trigger] p.remove_tag.contains(i) && i.event == k
                && remove_tag_refs(i).contains(r)),
    )
}

/// What the patch does to the existing event `k`.
pub open spec fn update_event(e: EventV, p: PatchV, k: Seq<char>) -> EventV {
    EventV {
        starts_added: e.starts_added.union(
            Set::new(
                |x: (u128, crate::patch::Timestamp)|
                    exists|i| #[trigger] p.add_start.contains(i) && i.event == k && x == (p.id, i.time),
            ),
        ),
        starts_removed: e.starts_removed.union(
            Set::new(
                |x: (u128, crate::patch::Timestamp)|
                    exists|i| #[trigger] p.remove_start.contains(i) && i.event == k && x == (i.patch, i.time),
            ),
        ),
        tags_added: e.tags_added.union(
            Set::new(
                |x: (u128, Seq<char>)|
                    exists|i| #[trigger] p.add_tag.contains(i) && i.event == k && x == (p.id, i.tag),
            ),
        ),
        tags_removed: e.tags_removed.union(
            Set::new(
                |x: (u128, Seq<char>)|
                    exists|i| #[trigger] p.remove_tag.contains(i) && i.event == k && x == (i.patch, i.tag),
            ),
        ),
        latest: if touches(p, k) {
            e.latest.difference(refs_on(p, k)).insert(p.id)
        } else {
            e.latest
        },
    }
}

/// The patch creates event `k`.
pub open spec fn creates(p: PatchV, k: Seq<char>) -> bool {
    exists|c| #[trigger] p.create_event.contains(c) && c.event == k
}

/// The event that the patch creates under the name `k`.
pub open spec fn created_event(p: PatchV, k: Seq<char>) -> EventV {
    created_view(p.id, choose|c| #[trigger] p.create_event.contains(c) && c.event == k)
}

/// The patch passes verification on `m`: its start instructions name known
/// events and its creations name new ones.
pub open spec fn patch_ok(m: Sheet, p: PatchV) -> bool {
    &&& forall|i| #[trigger] p.add_start.contains(i) ==> m.contains_key(i.event)
    &&& forall|i| #[trigger] p.remove_start.contains(i) ==> m.contains_key(i.event)
    &&& forall|c| #[trigger] p.create_event.contains(c) ==> !m.contains_key(c.event)
}

/// The state after a patch that passed verification.
pub open spec fn apply_spec(m: Sheet, p: PatchV) -> Sheet {
    Map::new(
        |k: Seq<char>| m.contains_key(k) || creates(p, k),
        |k: Seq<char>|
            if m.contains_key(k) {
                update_event(m[k], p, k)
            } else {
                created_event(p, k)
            },
    )
}

/// The state after `apply_patch`, whether it succeeded or not.
pub open spec fn apply_outcome(m: Sheet, p: PatchV) -> Sheet {
    if patch_ok(m, p) {
        apply_spec(m, p)
    } else {
        m
    }
}

/// The refusals of events that are not known, in order.
pub open spec fn unknown_errors(m: Sheet, id: u128, evs: Seq<Seq<char>>) -> Seq<ErrorV>
    decreases evs.len(),
{
    if evs.len() == 0 {
        Seq::empty()
    } else {
        let rest = unknown_errors(m, id, evs.drop_last());
        if m.contains_key(evs.last()) {
            rest
        } else {
            rest.push(ErrorV::UnknownEvent { patch: id, event: evs.last() })
        }
    }
}

/// The refusals of creations of events that exist already, in order.
pub open spec fn duplicate_errors(m: Sheet, evs: Seq<Seq<char>>) -> Seq<ErrorV>
    decreases evs.len(),
{
    if evs.len() == 0 {
        Seq::empty()
    } else {
        let rest = duplicate_errors(m, evs.drop_last());
        if m.contains_key(evs.last()) {
            rest.push(ErrorV::DuplicateEventId { id: evs.last() })
        } else {
            rest
        }
    }
}

pub open spec fn add_start_events(p: Patch) -> Seq<Seq<char>> {
    p.add_start@.map_values(|i: AddStart| i.event@)
}

pub open spec fn remove_start_events(p: Patch) -> Seq<Seq<char>> {
    p.remove_start@.map_values(|i: RemoveStart| i.event@)
}

pub open spec fn create_events(p: Patch) -> Seq<Seq<char>> {
    p.create_event@.map_values(|c: CreateEvent| c.event@)
}

/// Every defect that verification finds in the patch, in the order of its
/// instructions: unknown events of added starts, of removed starts, then
/// creations of events that exist.
pub open spec fn verify_errors(m: Sheet, p: Patch) -> Seq<ErrorV> {
    unknown_errors(m, p.id, add_start_events(p)) + unknown_errors(m, p.id, remove_start_events(p))
        + duplicate_errors(m, create_events(p))
}

/// What `apply_patch` needs of a patch beyond what it checks itself: its tag
/// instructions name known events, and no two of its creations name the same
/// event.
pub open spec fn patch_applicable(m: Sheet, p: Patch) -> bool {
    &&& forall|i| #[trigger] p@.add_tag.contains(i) ==> m.contains_key(i.event)
    &&& forall|i| #[trigger] p@.remove_tag.contains(i) ==> m.contains_key(i.event)
    &&& forall|a: int, b: int|
        0 <= a < p.create_event@.len() && 0 <= b < p.create_event@.len() && a != b
            ==> p.create_event@[a].event@ != p.create_event@[b].event@
}

proof fn lemma_unknown_errors_empty(m: Sheet, id: u128, evs: Seq<Seq<char>>)
    ensures
        unknown_errors(m, id, evs).len() == 0 <==> forall|j: int|
            0 <= j < evs.len() ==> m.contains_key(#[trigger] evs[j]),
    decreases evs.len(),
{
    if evs.len() > 0 {
        lemma_unknown_errors_empty(m, id, evs.drop_last());
        assert forall|j: int| 0 <= j < evs.len() - 1 implies evs.drop_last()[j] == evs[j] by {}
        if unknown_errors(m, id, evs).len() == 0 {
            assert forall|j: int| 0 <= j < evs.len() implies m.contains_key(#[trigger] evs[j]) by {
                if j < evs.len() - 1 {
                    assert(evs.drop_last()[j] == evs[j]);
                }
            }
        }
    }
}

proof fn lemma_duplicate_errors_empty(m: Sheet, evs: Seq<Seq<char>>)
    ensures
        duplicate_errors(m, evs).len() == 0 <==> forall|j: int|
            0 <= j < evs.len() ==> !m.contains_key(#[trigger] evs[j]),
    decreases evs.len(),
{
    if evs.len() > 0 {
        lemma_duplicate_errors_empty(m, evs.drop_last());
        assert forall|j: int| 0 <= j < evs.len() - 1 implies evs.drop_last()[j] == evs[j] by {}
        if duplicate_errors(m, evs).len() == 0 {
            assert forall|j: int| 0 <= j < evs.len() implies !m.contains_key(#[trigger] evs[j]) by {
                if j < evs.len() - 1 {
                    assert(evs.drop_last()[j] == evs[j]);
                }
            }
        }
    }
}

/// Verification finds nothing exactly when the patch is fit to apply.
pub proof fn lemma_verify_errors_empty(m: Sheet, p: Patch)
    ensures
        verify_errors(m, p).len() == 0 <==> patch_ok(m, p@),
{
    lemma_unknown_errors_empty(m, p.id, add_start_events(p));
    lemma_unknown_errors_empty(m, p.id, remove_start_events(p));
    lemma_duplicate_errors_empty(m, create_events(p));
    let pv = p@;
    if verify_errors(m, p).len() == 0 {
        assert forall|i| #[trigger] pv.add_start.contains(i) implies m.contains_key(i.event) by {
            let j = choose|j: int| 0 <= j < p.add_start@.len() && p.add_start@[j]@ == i;
            assert(add_start_events(p)[j] == i.event);
        }
        assert forall|i| #[trigger] pv.remove_start.contains(i) implies m.contains_key(i.event) by {
            let j = choose|j: int| 0 <= j < p.remove_start@.len() && p.remove_start@[j]@ == i;
            assert(remove_start_events(p)[j] == i.event);
        }
        assert forall|c| #[trigger] pv.create_event.contains(c) implies !m.contains_key(c.event) by {
            let j = choose|j: int| 0 <= j < p.create_event@.len() && p.create_event@[j]@ == c;
            assert(create_events(p)[j] == c.event);
        }
    }
    if patch_ok(m, pv) {
        assert forall|j: int| 0 <= j < add_start_events(p).len() implies m.contains_key(
            #[trigger] add_start_events(p)[j],
        ) by {
            assert(p.add_start@.map_values(|i: AddStart| i@)[j] == p.add_start@[j]@);
            assert(pv.add_start.contains(p.add_start@[j]@));
        }
        assert forall|j: int| 0 <= j < remove_start_events(p).len() implies m.contains_key(
            #[trigger] remove_start_events(p)[j],
        ) by {
            assert(p.remove_start@.map_values(|i: RemoveStart| i@)[j] == p.remove_start@[j]@);
            assert(pv.remove_start.contains(p.remove_start@[j]@));
        }
        assert forall|j: int| 0 <= j < create_events(p).len() implies !m.contains_key(
            #[trigger] create_events(p)[j],
        ) by {
            assert(p.create_event@.map_values(|c: CreateEvent| c@)[j] == p.create_event@[j]@);
            assert(pv.create_event.contains(p.create_event@[j]@));
        }
    }
}

/// Every event's merge state, kept in the order of the event names.
#[derive(Clone, Debug)]
pub struct PatchedTimesheet {
    events: Vec<(String, PatchedEvent)>,
}

pub open spec fn keys_sorted<V>(s: Seq<(String, V)>) -> bool {
    forall|i: int, j: int| 0 <= i < j < s.len() ==> str_lt(#[trigger] s[i].0@, #[trigger] s[j].0@)
}

pub open spec fn index_of<V>(s: Seq<(String, V)>, k: Seq<char>) -> int {
    choose|i: int| 0 <= i < s.len() && #[trigger] s[i].0@ == k
}

pub open spec fn sheet_of<V: View>(s: Seq<(String, V)>) -> Map<Seq<char>, V::V> {
    Map::new(
        |k: Seq<char>| exists|i: int| 0 <= i < s.len() && #[trigger] s[i].0@ == k,
        |k: Seq<char>| s[index_of(s, k)].1@,
    )
}

proof fn lemma_sheet_at<V: View>(s: Seq<(String, V)>, i: int)
    requires
        keys_sorted(s),
        0 <= i < s.len(),
    ensures
        sheet_of(s).contains_key(s[i].0@),
        sheet_of(s)[s[i].0@] == s[i].1@,
{
    let k = s[i].0@;
    assert(sheet_of(s).contains_key(k));
    let j = index_of(s, k);
    if j < i {
        assert(str_lt(s[j].0@, s[i].0@));
        lemma_str_lt_irreflexive(k);
    } else if i < j {
        assert(str_lt(s[i].0@, s[j].0@));
        lemma_str_lt_irreflexive(k);
    }
    assert(j == i);
}

impl View for PatchedTimesheet {
    type V = Sheet;

    closed spec fn view(&self) -> Sheet {
        sheet_of(self.events@)
    }
}

impl PatchedTimesheet {
    /// The events are kept in strictly increasing order of name.
    pub closed spec fn wf(&self) -> bool {
        keys_sorted(self.events@)
    }

    pub fn new() -> (r: PatchedTimesheet)
        ensures
            r.wf(),
            r@ == Map::<Seq<char>, EventV>::empty(),
    {
        let r = PatchedTimesheet { events: Vec::new() };
        assert(r@ =~= Map::<Seq<char>, EventV>::empty());
        r
    }

    /// The merge state of the event named `name`, if it exists.
    pub fn event(&self, name: &String) -> (r: Option<&PatchedEvent>)
        requires
            self.wf(),
        ensures
            match r {
                Some(ev) => self@.contains_key(name@) && ev@ == self@[name@],
                None => !self@.contains_key(name@),
            },
    {
        match self.find_event(name) {
            Some(i) => {
                proof {
                    lemma_sheet_at(self.events@, i as int);
                }
                Some(&self.events[i].1)
            },
            None => None,
        }
    }

    fn find_event(&self, key: &String) -> (r: Option<usize>)
        requires
            self.wf(),
        ensures
            match r {
                Some(i) => i < self.events@.len() && self.events@[i as int].0@ == key@
                    && self@.contains_key(key@),
                None => !self@.contains_key(key@),
            },
    {
        let mut i: usize = 0;
        while i < self.events.len()
            invariant
                self.wf(),
                i <= self.events.len(),
                forall|j: int| 0 <= j < i ==> #[trigger] self.events@[j].0@ != key@,
            decreases self.events.len() - i,
        {
            if self.events[i].0 == *key {
                proof {
                    lemma_sheet_at(self.events@, i as int);
                }
                return Some(i);
            }
            i = i + 1;
        }
        None
    }

    fn verify_patch(&self, patch: &Patch) -> (r: Result<(), Vec<Error>>)
        requires
            self.wf(),
        ensures
            match r {
                Ok(()) => verify_errors(self@, *patch).len() == 0,
                Err(es) => errors_view(es@) == verify_errors(self@, *patch) && es@.len() > 0,
            },
    {
        let mut errors: Vec<Error> = Vec::new();
        let id = patch.id;
        let mut i: usize = 0;
        while i < patch.add_start.len()
            invariant
                self.wf(),
                i <= patch.add_start.len(),
                errors_view(errors@) == unknown_errors(
                    self@,
                    id,
                    add_start_events(*patch).subrange(0, i as int),
                ),
                id == patch.id,
            decreases patch.add_start.len() - i,
        {
            let ghost evs = add_start_events(*patch).subrange(0, i + 1);
            assert(evs.drop_last() =~= add_start_events(*patch).subrange(0, i as int));
            if self.find_event(&patch.add_start[i].event).is_none() {
                errors.push(Error::UnknownEvent { patch: id, event: patch.add_start[i].event.clone() });
                assert(errors_view(errors@) =~= unknown_errors(self@, id, evs));
            }
            i = i + 1;
        }
        assert(add_start_events(*patch).subrange(0, i as int) =~= add_start_events(*patch));
        let ghost before = errors_view(errors@);
        let mut i: usize = 0;
        while i < patch.remove_start.len()
            invariant
                self.wf(),
                i <= patch.remove_start.len(),
                errors_view(errors@) == before + unknown_errors(
                    self@,
                    id,
                    remove_start_events(*patch).subrange(0, i as int),
                ),
                id == patch.id,
            decreases patch.remove_start.len() - i,
        {
            let ghost evs = remove_start_events(*patch).subrange(0, i + 1);
            assert(evs.drop_last() =~= remove_start_events(*patch).subrange(0, i as int));
            if self.find_event(&patch.remove_start[i].event).is_none() {
                let ghost prev = errors_view(errors@);
                let ghost e = ErrorV::UnknownEvent { patch: id, event: evs.last() };
                assert(unknown_errors(self@, id, evs) == unknown_errors(self@, id, evs.drop_last()).push(e));
                errors.push(
                    Error::UnknownEvent { patch: id, event: patch.remove_start[i].event.clone() },
                );
                assert(errors_view(errors@) =~= prev.push(e));
                assert(errors_view(errors@) =~= before + unknown_errors(self@, id, evs));
            }
            i = i + 1;
        }
        assert(remove_start_events(*patch).subrange(0, i as int) =~= remove_start_events(*patch));
        let ghost before = errors_view(errors@);
        let mut i: usize = 0;
        while i < patch.create_event.len()
            invariant
                self.wf(),
                i <= patch.create_event.len(),
                errors_view(errors@) == before + duplicate_errors(
                    self@,
                    create_events(*patch).subrange(0, i as int),
                ),
            decreases patch.create_event.len() - i,
        {
            let ghost evs = create_events(*patch).subrange(0, i + 1);
            assert(evs.drop_last() =~= create_events(*patch).subrange(0, i as int));
            if self.find_event(&patch.create_event[i].event).is_some() {
                let ghost prev = errors_view(errors@);
                let ghost e = ErrorV::DuplicateEventId { id: evs.last() };
                assert(duplicate_errors(self@, evs) == duplicate_errors(self@, evs.drop_last()).push(e));
                errors.push(Error::DuplicateEventId { id: patch.create_event[i].event.clone() });
                assert(errors_view(errors@) =~= prev.push(e));
                assert(errors_view(errors@) =~= before + duplicate_errors(self@, evs));
            }
            i = i + 1;
        }
        assert(create_events(*patch).subrange(0, i as int) =~= create_events(*patch));
        if errors.len() > 0 {
            Err(errors)
        } else {
            Ok(())
        }
    }
}

/// One added start, on its event's state.
pub open spec fn step_add_start(e: EventV, id: u128, i: AddStartV) -> EventV {
    EventV {
        starts_added: e.starts_added.insert((id, i.time)),
        latest: e.latest.difference(add_start_refs(i)).insert(id),
        ..e
    }
}

pub open spec fn step_remove_start(e: EventV, id: u128, i: RemoveStartV) -> EventV {
    EventV {
        starts_removed: e.starts_removed.insert((i.patch, i.time)),
        latest: e.latest.difference(remove_start_refs(i)).insert(id),
        ..e
    }
}

pub open spec fn step_add_tag(e: EventV, id: u128, i: AddTagV) -> EventV {
    EventV {
        tags_added: e.tags_added.insert((id, i.tag)),
        latest: e.latest.difference(add_tag_refs(i)).insert(id),
        ..e
    }
}

pub open spec fn step_remove_tag(e: EventV, id: u128, i: RemoveTagV) -> EventV {
    EventV {
        tags_removed: e.tags_removed.insert((i.patch, i.tag)),
        latest: e.latest.difference(remove_tag_refs(i)).insert(id),
        ..e
    }
}

/// Takes the ids of `v` out of the event's frontier.
fn drop_from_latest(ev: &mut PatchedEvent, v: &Vec<u128>)
    ensures
        final(ev)@ == (EventV { latest: old(ev)@.latest.difference(v@.to_set()), ..old(ev)@ }),
{
    let mut j: usize = 0;
    assert(old(ev)@.latest.difference(v@.subrange(0, 0).to_set()) =~= old(ev)@.latest);
    while j < v.len()
        invariant
            j <= v.len(),
            ev@ == (EventV {
                latest: old(ev)@.latest.difference(v@.subrange(0, j as int).to_set()),
                ..old(ev)@
            }),
        decreases v.len() - j,
    {
        ev.remove_patch_from_latest(&v[j]);
        proof {
            assert(v@.subrange(0, j + 1) =~= v@.subrange(0, j as int) + seq![v@[j as int]]);
            Seq::lemma_to_set_insert_commutes(v@.subrange(0, j as int), v@[j as int]);
            assert(old(ev)@.latest.difference(v@.subrange(0, j as int).to_set()).remove(v@[j as int])
                =~= old(ev)@.latest.difference(v@.subrange(0, j + 1).to_set()));
        }
        j = j + 1;
    }
    assert(v@.subrange(0, j as int) =~= v@);
}

fn drop_opt_from_latest(ev: &mut PatchedEvent, o: &Option<Vec<u128>>)
    ensures
        final(ev)@ == (EventV {
            latest: old(ev)@.latest.difference(crate::patch::opt_ids(crate::patch::opt_view(*o))),
            ..old(ev)@
        }),
{
    match o {
        Some(v) => drop_from_latest(ev, v),
        None => {
            assert(old(ev)@.latest.difference(Set::empty()) =~= old(ev)@.latest);
        },
    }
}

fn apply_add_start(ev: &mut PatchedEvent, id: u128, i: &AddStart)
    ensures
        final(ev)@ == step_add_start(old(ev)@, id, i@),
{
    ev.add_start(id, i.time);
    drop_from_latest(ev, &i.parents);
    ev.add_patch_to_latest(id);
}

fn apply_remove_start(ev: &mut PatchedEvent, id: u128, i: &RemoveStart)
    ensures
        final(ev)@ == step_remove_start(old(ev)@, id, i@),
{
    ev.remove_start(i.patch, i.time);
    ev.remove_patch_from_latest(&i.patch);
    drop_opt_from_latest(ev, &i.parents);
    ev.add_patch_to_latest(id);
    assert(final(ev)@.latest =~= step_remove_start(old(ev)@, id, i@).latest);
}

fn apply_add_tag(ev: &mut PatchedEvent, id: u128, i: &AddTag)
    ensures
        final(ev)@ == step_add_tag(old(ev)@, id, i@),
{
    ev.add_tag(id, i.tag.clone());
    drop_from_latest(ev, &i.parents);
    ev.add_patch_to_latest(id);
}

fn apply_remove_tag(ev: &mut PatchedEvent, id: u128, i: &RemoveTag)
    ensures
        final(ev)@ == step_remove_tag(old(ev)@, id, i@),
{
    ev.remove_tag(i.patch, i.tag.clone());
    ev.remove_patch_from_latest(&i.patch);
    drop_opt_from_latest(ev, &i.parents);
    ev.add_patch_to_latest(id);
    assert(final(ev)@.latest =~= step_remove_tag(old(ev)@, id, i@).latest);
}

/// The patch with only its first instructions of each kind (and all its
/// creations).
pub open spec fn prefix_patch(p: Patch, n1: int, n2: int, n3: int, n4: int) -> PatchV {
    PatchV {
        id: p.id,
        add_start: p.add_start@.subrange(0, n1).map_values(|i: AddStart| i@).to_set(),
        remove_start: p.remove_start@.subrange(0, n2).map_values(|i: RemoveStart| i@).to_set(),
        add_tag: p.add_tag@.subrange(0, n3).map_values(|i: AddTag| i@).to_set(),
        remove_tag: p.remove_tag@.subrange(0, n4).map_values(|i: RemoveTag| i@).to_set(),
        create_event: p@.create_event,
    }
}

/// What the patch's instructions other than creations do to every existing
/// event.
pub open spec fn update_all(m: Sheet, pv: PatchV) -> Sheet {
    Map::new(|k: Seq<char>| m.contains_key(k), |k: Seq<char>| update_event(m[k], pv, k))
}

proof fn lemma_prefix_push<A, B>(s: Seq<A>, n: int, f: spec_fn(A) -> B)
    requires
        0 <= n < s.len(),
    ensures
        s.subrange(0, n + 1).map_values(f).to_set() == s.subrange(0, n).map_values(f).to_set().insert(
            f(s[n]),
        ),
{
    assert(s.subrange(0, n + 1).map_values(f) =~= s.subrange(0, n).map_values(f) + seq![f(s[n])]);
    Seq::lemma_to_set_insert_commutes(s.subrange(0, n).map_values(f), f(s[n]));
}

proof fn lemma_prefix_full<A, B>(s: Seq<A>, f: spec_fn(A) -> B)
    ensures
        s.subrange(0, s.len() as int).map_values(f).to_set() == s.map_values(f).to_set(),
{
    assert(s.subrange(0, s.len() as int) =~= s);
}

proof fn lemma_prefix_empty<A, B>(s: Seq<A>, f: spec_fn(A) -> B)
    ensures
        s.subrange(0, 0).map_values(f).to_set() == Set::<B>::empty(),
{
    assert(s.subrange(0, 0).map_values(f).to_set() =~= Set::<B>::empty());
}

proof fn lemma_step_add_start(e: EventV, pv: PatchV, iv: AddStartV, k: Seq<char>)
    ensures
        update_event(e, PatchV { add_start: pv.add_start.insert(iv), ..pv }, k) == if iv.event == k {
            step_add_start(update_event(e, pv, k), pv.id, iv)
        } else {
            update_event(e, pv, k)
        },
{
    let pv2 = PatchV { add_start: pv.add_start.insert(iv), ..pv };
    let a = update_event(e, pv2, k);
    let b = if iv.event == k {
        step_add_start(update_event(e, pv, k), pv.id, iv)
    } else {
        update_event(e, pv, k)
    };
    let target = if iv.event == k {
        refs_on(pv, k).union(add_start_refs(iv))
    } else {
        refs_on(pv, k)
    };
    assert(pv2.add_start.contains(iv));
    assert forall|r: u128| refs_on(pv2, k).contains(r) == target.contains(r) by {
        if exists|i| #[trigger] pv2.add_start.contains(i) && i.event == k && add_start_refs(i).contains(r) {
            let i = choose|i| #[trigger] pv2.add_start.contains(i) && i.event == k && add_start_refs(i).contains(r);
            if i != iv {
                assert(pv.add_start.contains(i));
            }
        }
        if exists|i| #[trigger] pv.add_start.contains(i) && i.event == k && add_start_refs(i).contains(r) {
            let i = choose|i| #[trigger] pv.add_start.contains(i) && i.event == k && add_start_refs(i).contains(r);
            assert(pv2.add_start.contains(i));
        }
    }
    assert(refs_on(pv2, k) =~= target);
    if exists|i| #[trigger] pv2.add_start.contains(i) && i.event == k {
        let i = choose|i| #[trigger] pv2.add_start.contains(i) && i.event == k;
        if i != iv {
            assert(pv.add_start.contains(i));
        }
    }
    if exists|i| #[trigger] pv.add_start.contains(i) && i.event == k {
        let i = choose|i| #[trigger] pv.add_start.contains(i) && i.event == k;
        assert(pv2.add_start.contains(i));
    }
    assert(touches(pv2, k) == (touches(pv, k) || iv.event == k));
    assert forall|x: (u128, crate::patch::Timestamp)| a.starts_added.contains(x) == b.starts_added.contains(x) by {
        if exists|i| #[trigger] pv2.add_start.contains(i) && i.event == k && x == (pv.id, i.time) {
            let i = choose|i| #[trigger] pv2.add_start.contains(i) && i.event == k && x == (pv.id, i.time);
            if i != iv {
                assert(pv.add_start.contains(i));
            }
        }
        if exists|i| #[trigger] pv.add_start.contains(i) && i.event == k && x == (pv.id, i.time) {
            let i = choose|i| #[trigger] pv.add_start.contains(i) && i.event == k && x == (pv.id, i.time);
            assert(pv2.add_start.contains(i));
        }
    }
    assert(a.starts_added =~= b.starts_added);
    assert(a.starts_removed =~= b.starts_removed);
    assert(a.tags_added =~= b.tags_added);
    assert(a.tags_removed =~= b.tags_removed);
    assert(a.latest =~= b.latest);
}

proof fn lemma_step_remove_start(e: EventV, pv: PatchV, iv: RemoveStartV, k: Seq<char>)
    ensures
        update_event(e, PatchV { remove_start: pv.remove_start.insert(iv), ..pv }, k) == if iv.event == k {
            step_remove_start(update_event(e, pv, k), pv.id, iv)
        } else {
            update_event(e, pv, k)
        },
{
    let pv2 = PatchV { remove_start: pv.remove_start.insert(iv), ..pv };
    let a = update_event(e, pv2, k);
    let b = if iv.event == k {
        step_remove_start(update_event(e, pv, k), pv.id, iv)
    } else {
        update_event(e, pv, k)
    };
    let target = if iv.event == k {
        refs_on(pv, k).union(remove_start_refs(iv))
    } else {
        refs_on(pv, k)
    };
    assert(pv2.remove_start.contains(iv));
    assert forall|r: u128| refs_on(pv2, k).contains(r) == target.contains(r) by {
        if exists|i| #[trigger] pv2.remove_start.contains(i) && i.event == k && remove_start_refs(i).contains(r) {
            let i = choose|i| #[trigger] pv2.remove_start.contains(i) && i.event == k && remove_start_refs(i).contains(r);
            if i != iv {
                assert(pv.remove_start.contains(i));
            }
        }
        if exists|i| #[trigger] pv.remove_start.contains(i) && i.event == k && remove_start_refs(i).contains(r) {
            let i = choose|i| #[trigger] pv.remove_start.contains(i) && i.event == k && remove_start_refs(i).contains(r);
            assert(pv2.remove_start.contains(i));
        }
    }
    assert(refs_on(pv2, k) =~= target);
    if exists|i| #[trigger] pv2.remove_start.contains(i) && i.event == k {
        let i = choose|i| #[trigger] pv2.remove_start.contains(i) && i.event == k;
        if i != iv {
            assert(pv.remove_start.contains(i));
        }
    }
    if exists|i| #[trigger] pv.remove_start.contains(i) && i.event == k {
        let i = choose|i| #[trigger] pv.remove_start.contains(i) && i.event == k;
        assert(pv2.remove_start.contains(i));
    }
    assert(touches(pv2, k) == (touches(pv, k) || iv.event == k));
    assert forall|x: (u128, crate::patch::Timestamp)| a.starts_removed.contains(x) == b.starts_removed.contains(x) by {
        if exists|i| #[trigger] pv2.remove_start.contains(i) && i.event == k && x == (i.patch, i.time) {
            let i = choose|i| #[trigger] pv2.remove_start.contains(i) && i.event == k && x == (i.patch, i.time);
            if i != iv {
                assert(pv.remove_start.contains(i));
            }
        }
        if exists|i| #[trigger] pv.remove_start.contains(i) && i.event == k && x == (i.patch, i.time) {
            let i = choose|i| #[trigger] pv.remove_start.contains(i) && i.event == k && x == (i.patch, i.time);
            assert(pv2.remove_start.contains(i));
        }
    }
    assert(a.starts_added =~= b.starts_added);
    assert(a.starts_removed =~= b.starts_removed);
    assert(a.tags_added =~= b.tags_added);
    assert(a.tags_removed =~= b.tags_removed);
    assert(a.latest =~= b.latest);
}

proof fn lemma_step_add_tag(e: EventV, pv: PatchV, iv: AddTagV, k: Seq<char>)
    ensures
        update_event(e, PatchV { add_tag: pv.add_tag.insert(iv), ..pv }, k) == if iv.event == k {
            step_add_tag(update_event(e, pv, k), pv.id, iv)
        } else {
            update_event(e, pv, k)
        },
{
    let pv2 = PatchV { add_tag: pv.add_tag.insert(iv), ..pv };
    let a = update_event(e, pv2, k);
    let b = if iv.event == k {
        step_add_tag(update_event(e, pv, k), pv.id, iv)
    } else {
        update_event(e, pv, k)
    };
    let target = if iv.event == k {
        refs_on(pv, k).union(add_tag_refs(iv))
    } else {
        refs_on(pv, k)
    };
    assert(pv2.add_tag.contains(iv));
    assert forall|r: u128| refs_on(pv2, k).contains(r) == target.contains(r) by {
        if exists|i| #[trigger] pv2.add_tag.contains(i) && i.event == k && add_tag_refs(i).contains(r) {
            let i = choose|i| #[trigger] pv2.add_tag.contains(i) && i.event == k && add_tag_refs(i).contains(r);
            if i != iv {
                assert(pv.add_tag.contains(i));
            }
        }
        if exists|i| #[trigger] pv.add_tag.contains(i) && i.event == k && add_tag_refs(i).contains(r) {
            let i = choose|i| #[trigger] pv.add_tag.contains(i) && i.event == k && add_tag_refs(i).contains(r);
            assert(pv2.add_tag.contains(i));
        }
    }
    assert(refs_on(pv2, k) =~= target);
    if exists|i| #[trigger] pv2.add_tag.contains(i) && i.event == k {
        let i = choose|i| #[trigger] pv2.add_tag.contains(i) && i.event == k;
        if i != iv {
            assert(pv.add_tag.contains(i));
        }
    }
    if exists|i| #[trigger] pv.add_tag.contains(i) && i.event == k {
        let i = choose|i| #[trigger] pv.add_tag.contains(i) && i.event == k;
        assert(pv2.add_tag.contains(i));
    }
    assert(touches(pv2, k) == (touches(pv, k) || iv.event == k));
    assert forall|x: (u128, Seq<char>)| a.tags_added.contains(x) == b.tags_added.contains(x) by {
        if exists|i| #[trigger] pv2.add_tag.contains(i) && i.event == k && x == (pv.id, i.tag) {
            let i = choose|i| #[trigger] pv2.add_tag.contains(i) && i.event == k && x == (pv.id, i.tag);
            if i != iv {
                assert(pv.add_tag.contains(i));
            }
        }
        if exists|i| #[trigger] pv.add_tag.contains(i) && i.event == k && x == (pv.id, i.tag) {
            let i = choose|i| #[trigger] pv.add_tag.contains(i) && i.event == k && x == (pv.id, i.tag);
            assert(pv2.add_tag.contains(i));
        }
    }
    assert(a.starts_added =~= b.starts_added);
    assert(a.starts_removed =~= b.starts_removed);
    assert(a.tags_added =~= b.tags_added);
    assert(a.tags_removed =~= b.tags_removed);
    assert(a.latest =~= b.latest);
}

proof fn lemma_step_remove_tag(e: EventV, pv: PatchV, iv: RemoveTagV, k: Seq<char>)
    ensures
        update_event(e, PatchV { remove_tag: pv.remove_tag.insert(iv), ..pv }, k) == if iv.event == k {
            step_remove_tag(update_event(e, pv, k), pv.id, iv)
        } else {
            update_event(e, pv, k)
        },
{
    let pv2 = PatchV { remove_tag: pv.remove_tag.insert(iv), ..pv };
    let a = update_event(e, pv2, k);
    let b = if iv.event == k {
        step_remove_tag(update_event(e, pv, k), pv.id, iv)
    } else {
        update_event(e, pv, k)
    };
    let target = if iv.event == k {
        refs_on(pv, k).union(remove_tag_refs(iv))
    } else {
        refs_on(pv, k)
    };
    assert(pv2.remove_tag.contains(iv));
    assert forall|r: u128| refs_on(pv2, k).contains(r) == target.contains(r) by {
        if exists|i| #[trigger] pv2.remove_tag.contains(i) && i.event == k && remove_tag_refs(i).contains(r) {
            let i = choose|i| #[trigger] pv2.remove_tag.contains(i) && i.event == k && remove_tag_refs(i).contains(r);
            if i != iv {
                assert(pv.remove_tag.contains(i));
            }
        }
        if exists|i| #[trigger] pv.remove_tag.contains(i) && i.event == k && remove_tag_refs(i).contains(r) {
            let i = choose|i| #[trigger] pv.remove_tag.contains(i) && i.event == k && remove_tag_refs(i).contains(r);
            assert(pv2.remove_tag.contains(i));
        }
    }
    assert(refs_on(pv2, k) =~= target);
    if exists|i| #[trigger] pv2.remove_tag.contains(i) && i.event == k {
        let i = choose|i| #[trigger] pv2.remove_tag.contains(i) && i.event == k;
        if i != iv {
            assert(pv.remove_tag.contains(i));
        }
    }
    if exists|i| #[trigger] pv.remove_tag.contains(i) && i.event == k {
        let i = choose|i| #[trigger] pv.remove_tag.contains(i) && i.event == k;
        assert(pv2.remove_tag.contains(i));
    }
    assert(touches(pv2, k) == (touches(pv, k) || iv.event == k));
    assert forall|x: (u128, Seq<char>)| a.tags_removed.contains(x) == b.tags_removed.contains(x) by {
        if exists|i| #[trigger] pv2.remove_tag.contains(i) && i.event == k && x == (i.patch, i.tag) {
            let i = choose|i| #[trigger] pv2.remove_tag.contains(i) && i.event == k && x == (i.patch, i.tag);
            if i != iv {
                assert(pv.remove_tag.contains(i));
            }
        }
        if exists|i| #[trigger] pv.remove_tag.contains(i) && i.event == k && x == (i.patch, i.tag) {
            let i = choose|i| #[trigger] pv.remove_tag.contains(i) && i.event == k && x == (i.patch, i.tag);
            assert(pv2.remove_tag.contains(i));
        }
    }
    assert(a.starts_added =~= b.starts_added);
    assert(a.starts_removed =~= b.starts_removed);
    assert(a.tags_added =~= b.tags_added);
    assert(a.tags_removed =~= b.tags_removed);
    assert(a.latest =~= b.latest);
}

proof fn lemma_update_all_nothing(m: Sheet, p: Patch)
    ensures
        update_all(m, prefix_patch(p, 0, 0, 0, 0)) == m,
{
    let pv = prefix_patch(p, 0, 0, 0, 0);
    lemma_prefix_empty(p.add_start@, |i: AddStart| i@);
    lemma_prefix_empty(p.remove_start@, |i: RemoveStart| i@);
    lemma_prefix_empty(p.add_tag@, |i: AddTag| i@);
    lemma_prefix_empty(p.remove_tag@, |i: RemoveTag| i@);
    assert forall|k: Seq<char>| m.contains_key(k) implies update_event(m[k], pv, k) == m[k] by {
        let e = update_event(m[k], pv, k);
        assert(!touches(pv, k));
        assert(e.starts_added =~= m[k].starts_added);
        assert(e.starts_removed =~= m[k].starts_removed);
        assert(e.tags_added =~= m[k].tags_added);
        assert(e.tags_removed =~= m[k].tags_removed);
    }
    assert(update_all(m, pv) =~= m);
}

proof fn lemma_sheet_update(s: Seq<(String, PatchedEvent)>, i: int, e: PatchedEvent)
    requires
        keys_sorted(s),
        0 <= i < s.len(),
    ensures
        keys_sorted(s.update(i, (s[i].0, e))),
        sheet_of(s.update(i, (s[i].0, e))) == sheet_of(s).insert(s[i].0@, e@),
{
    let t = s.update(i, (s[i].0, e));
    assert forall|a: int, b: int| 0 <= a < b < t.len() implies str_lt(#[trigger] t[a].0@, #[trigger] t[b].0@) by {
        assert(str_lt(s[a].0@, s[b].0@));
    }
    assert forall|k: Seq<char>| #[trigger] sheet_of(t).contains_key(k) == sheet_of(s).insert(s[i].0@, e@).contains_key(k) by {
        if sheet_of(s).contains_key(k) {
            let j = choose|j: int| 0 <= j < s.len() && #[trigger] s[j].0@ == k;
            assert(t[j].0@ == k);
        }
        if sheet_of(t).contains_key(k) {
            let j = choose|j: int| 0 <= j < t.len() && #[trigger] t[j].0@ == k;
            assert(s[j].0@ == k);
        }
    }
    assert forall|k: Seq<char>| #[trigger] sheet_of(t).contains_key(k) implies sheet_of(t)[k] == sheet_of(s).insert(s[i].0@, e@)[k] by {
        let j = choose|j: int| 0 <= j < t.len() && #[trigger] t[j].0@ == k;
        lemma_sheet_at(t, j);
        if j != i {
            lemma_sheet_at(s, j);
            lemma_str_lt_irreflexive(k);
            if j < i {
                assert(str_lt(s[j].0@, s[i].0@));
            } else {
                assert(str_lt(s[i].0@, s[j].0@));
            }
            assert(k != s[i].0@);
        }
    }
    assert(sheet_of(t) =~= sheet_of(s).insert(s[i].0@, e@));
}

/// The event that a creation instruction starts.
pub open spec fn created_view(id: u128, c: crate::patch::CreateEventV) -> EventV {
    EventV {
        starts_added: set![(id, c.start)],
        tags_added: Set::new(|x: (u128, Seq<char>)| x.0 == id && c.tags.contains(x.1)),
        latest: set![id],
        ..empty_event()
    }
}

fn fresh_event(id: u128, c: &CreateEvent) -> (r: PatchedEvent)
    ensures
        r@ == created_view(id, c@),
{
    let mut ev = PatchedEvent::new();
    ev.add_start(id, c.start);
    let mut j: usize = 0;
    let ghost tv = crate::patch::tags_view(c.tags@);
    assert(Set::<(u128, crate::patch::Timestamp)>::empty().insert((id, c.start)) =~= set![(id, c.start)]);
    assert(Set::<(u128, Seq<char>)>::empty() =~= Set::new(
        |x: (u128, Seq<char>)| x.0 == id && tv.subrange(0, 0).contains(x.1),
    ));
    while j < c.tags.len()
        invariant
            j <= c.tags.len(),
            tv == crate::patch::tags_view(c.tags@),
            ev@ == (EventV {
                starts_added: set![(id, c.start)],
                tags_added: Set::new(
                    |x: (u128, Seq<char>)| x.0 == id && tv.subrange(0, j as int).contains(x.1),
                ),
                ..empty_event()
            }),
        decreases c.tags.len() - j,
    {
        ev.add_tag(id, c.tags[j].clone());
        proof {
            assert(tv.subrange(0, j + 1) =~= tv.subrange(0, j as int).push(tv[j as int]));
            assert(ev@.tags_added =~= Set::new(
                |x: (u128, Seq<char>)| x.0 == id && tv.subrange(0, j + 1).contains(x.1),
            ));
        }
        j = j + 1;
    }
    ev.add_patch_to_latest(id);
    proof {
        assert(tv.subrange(0, j as int) =~= tv);
        assert(ev@.latest =~= set![id]);
        assert(ev@.tags_added =~= created_view(id, c@).tags_added);
    }
    ev
}

proof fn lemma_sheet_insert<V: View>(s: Seq<(String, V)>, pos: int, key: String, e: V)
    requires
        keys_sorted(s),
        0 <= pos <= s.len(),
        forall|j: int| 0 <= j < pos ==> str_lt(#[trigger] s[j].0@, key@),
        pos < s.len() ==> str_lt(key@, s[pos].0@),
    ensures
        keys_sorted(s.insert(pos, (key, e))),
        sheet_of(s.insert(pos, (key, e))) == sheet_of(s).insert(key@, e@),
{
    let t = s.insert(pos, (key, e));
    assert forall|a: int, b: int| 0 <= a < b < t.len() implies str_lt(#[trigger] t[a].0@, #[trigger] t[b].0@) by {
        if b < pos {
            assert(str_lt(s[a].0@, s[b].0@));
        } else if b == pos {
        } else if a == pos {
            if b - 1 > pos {
                assert(str_lt(s[pos].0@, s[b - 1].0@));
                lemma_str_lt_transitive(key@, s[pos].0@, s[b - 1].0@);
            }
        } else if a < pos {
            if b - 1 > pos {
                assert(str_lt(s[pos].0@, s[b - 1].0@));
                lemma_str_lt_transitive(key@, s[pos].0@, s[b - 1].0@);
            }
            lemma_str_lt_transitive(s[a].0@, key@, s[b - 1].0@);
        } else {
            assert(str_lt(s[a - 1].0@, s[b - 1].0@));
        }
    }
    let target = sheet_of(s).insert(key@, e@);
    assert forall|k: Seq<char>| #[trigger] sheet_of(t).contains_key(k) == target.contains_key(k) by {
        if sheet_of(s).contains_key(k) {
            let j = choose|j: int| 0 <= j < s.len() && #[trigger] s[j].0@ == k;
            if j < pos {
                assert(t[j].0@ == k);
            } else {
                assert(t[j + 1].0@ == k);
            }
        }
        if sheet_of(t).contains_key(k) {
            let j = choose|j: int| 0 <= j < t.len() && #[trigger] t[j].0@ == k;
            if j < pos {
                assert(s[j].0@ == k);
            } else if j > pos {
                assert(s[j - 1].0@ == k);
            }
        }
        assert(t[pos].0@ == key@);
    }
    assert forall|k: Seq<char>| #[trigger] sheet_of(t).contains_key(k) implies sheet_of(t)[k] == target[k] by {
        let j = choose|j: int| 0 <= j < t.len() && #[trigger] t[j].0@ == k;
        lemma_sheet_at(t, j);
        if j != pos {
            let js = if j < pos { j } else { j - 1 };
            assert(t[j] == s[js]);
            lemma_sheet_at(s, js);
            lemma_str_lt_irreflexive(k);
            if j < pos {
                assert(str_lt(t[j].0@, t[pos].0@));
            } else {
                assert(str_lt(t[pos].0@, t[j].0@));
            }
        }
    }
    assert(sheet_of(t) =~= target);
}

impl PatchedTimesheet {
    /// Adds a new event under `key`, keeping the names in order.
    fn insert_event(&mut self, key: String, ev: PatchedEvent)
        requires
            old(self).wf(),
            !old(self)@.contains_key(key@),
        ensures
            final(self).wf(),
            final(self)@ == old(self)@.insert(key@, ev@),
    {
        let mut pos: usize = 0;
        while pos < self.events.len() && less_than(&self.events[pos].0, &key)
            invariant
                pos <= self.events.len(),
                forall|j: int| 0 <= j < pos ==> str_lt(#[trigger] self.events@[j].0@, key@),
            decreases self.events.len() - pos,
        {
            pos = pos + 1;
        }
        proof {
            if pos < self.events.len() {
                lemma_sheet_at(self.events@, pos as int);
                lemma_str_lt_total(key@, self.events@[pos as int].0@);
            }
            lemma_sheet_insert(self.events@, pos as int, key, ev);
        }
        self.events.insert(pos, (key, ev));
    }
}

proof fn lemma_all_step_add_start(m: Sheet, pv: PatchV, iv: AddStartV)
    requires
        m.contains_key(iv.event),
    ensures
        update_all(m, PatchV { add_start: pv.add_start.insert(iv), ..pv }) == update_all(m, pv).insert(
            iv.event,
            step_add_start(update_all(m, pv)[iv.event], pv.id, iv),
        ),
{
    let pv2 = PatchV { add_start: pv.add_start.insert(iv), ..pv };
    assert forall|k: Seq<char>| m.contains_key(k) implies update_all(m, pv2)[k] == update_all(
        m,
        pv,
    ).insert(iv.event, step_add_start(update_all(m, pv)[iv.event], pv.id, iv))[k] by {
        lemma_step_add_start(m[k], pv, iv, k);
    }
    assert(update_all(m, pv2) =~= update_all(m, pv).insert(
        iv.event,
        step_add_start(update_all(m, pv)[iv.event], pv.id, iv),
    ));
}

proof fn lemma_all_step_remove_start(m: Sheet, pv: PatchV, iv: RemoveStartV)
    requires
        m.contains_key(iv.event),
    ensures
        update_all(m, PatchV { remove_start: pv.remove_start.insert(iv), ..pv }) == update_all(m, pv).insert(
            iv.event,
            step_remove_start(update_all(m, pv)[iv.event], pv.id, iv),
        ),
{
    let pv2 = PatchV { remove_start: pv.remove_start.insert(iv), ..pv };
    assert forall|k: Seq<char>| m.contains_key(k) implies update_all(m, pv2)[k] == update_all(
        m,
        pv,
    ).insert(iv.event, step_remove_start(update_all(m, pv)[iv.event], pv.id, iv))[k] by {
        lemma_step_remove_start(m[k], pv, iv, k);
    }
    assert(update_all(m, pv2) =~= update_all(m, pv).insert(
        iv.event,
        step_remove_start(update_all(m, pv)[iv.event], pv.id, iv),
    ));
}

proof fn lemma_all_step_add_tag(m: Sheet, pv: PatchV, iv: AddTagV)
    requires
        m.contains_key(iv.event),
    ensures
        update_all(m, PatchV { add_tag: pv.add_tag.insert(iv), ..pv }) == update_all(m, pv).insert(
            iv.event,
            step_add_tag(update_all(m, pv)[iv.event], pv.id, iv),
        ),
{
    let pv2 = PatchV { add_tag: pv.add_tag.insert(iv), ..pv };
    assert forall|k: Seq<char>| m.contains_key(k) implies update_all(m, pv2)[k] == update_all(
        m,
        pv,
    ).insert(iv.event, step_add_tag(update_all(m, pv)[iv.event], pv.id, iv))[k] by {
        lemma_step_add_tag(m[k], pv, iv, k);
    }
    assert(update_all(m, pv2) =~= update_all(m, pv).insert(
        iv.event,
        step_add_tag(update_all(m, pv)[iv.event], pv.id, iv),
    ));
}

proof fn lemma_all_step_remove_tag(m: Sheet, pv: PatchV, iv: RemoveTagV)
    requires
        m.contains_key(iv.event),
    ensures
        update_all(m, PatchV { remove_tag: pv.remove_tag.insert(iv), ..pv }) == update_all(m, pv).insert(
            iv.event,
            step_remove_tag(update_all(m, pv)[iv.event], pv.id, iv),
        ),
{
    let pv2 = PatchV { remove_tag: pv.remove_tag.insert(iv), ..pv };
    assert forall|k: Seq<char>| m.contains_key(k) implies update_all(m, pv2)[k] == update_all(
        m,
        pv,
    ).insert(iv.event, step_remove_tag(update_all(m, pv)[iv.event], pv.id, iv))[k] by {
        lemma_step_remove_tag(m[k], pv, iv, k);
    }
    assert(update_all(m, pv2) =~= update_all(m, pv).insert(
        iv.event,
        step_remove_tag(update_all(m, pv)[iv.event], pv.id, iv),
    ));
}

impl PatchedTimesheet {
    /// Applies a whole patch, or nothing of it: when verification finds
    /// defects, they are all returned and the timesheet stays as it was.
    pub fn apply_patch(&mut self, patch: &Patch) -> (r: Result<(), Vec<Error>>)
        requires
            old(self).wf(),
            patch_applicable(old(self)@, *patch),
        ensures
            final(self).wf(),
            final(self)@ == apply_outcome(old(self)@, patch@),
            r is Ok <==> patch_ok(old(self)@, patch@),
            match r {
                Ok(()) => final(self)@ == apply_spec(old(self)@, patch@),
                Err(es) => final(self)@ == old(self)@ && errors_view(es@) == verify_errors(
                    old(self)@,
                    *patch,
                ) && es@.len() > 0,
            },
    {
        proof {
            lemma_verify_errors_empty(self@, *patch);
        }
        match self.verify_patch(patch) {
            Err(es) => {
                return Err(es);
            },
            Ok(()) => {},
        }
        let ghost m = self@;
        let pid = patch.id;
        proof {
            lemma_update_all_nothing(m, *patch);
        }
        let mut i: usize = 0;
        while i < patch.add_start.len()
            invariant
                self.wf(),
                i <= patch.add_start.len(),
                patch_ok(m, patch@),
                patch_applicable(m, *patch),
                pid == patch.id,
                self@ == update_all(m, prefix_patch(*patch, i as int, 0, 0, 0)),
            decreases patch.add_start.len() - i,
        {
            let ghost iv = patch.add_start@[i as int]@;
            proof {
                assert(patch.add_start@.map_values(|x: AddStart| x@)[i as int] == iv);
                assert(patch@.add_start.contains(iv));
                assert(update_all(m, prefix_patch(*patch, i as int, 0, 0, 0)).contains_key(iv.event));
            }
            match self.find_event(&patch.add_start[i].event) {
                Some(idx) => {
                    let ghost before = self.events@;
                    apply_add_start(&mut self.events[idx].1, pid, &patch.add_start[i]);
                    proof {
                        lemma_sheet_at(before, idx as int);
                        lemma_sheet_update(before, idx as int, self.events@[idx as int].1);
                        assert(self.events@ =~= before.update(idx as int, (before[idx as int].0, self.events@[idx as int].1)));
                        lemma_prefix_push(patch.add_start@, i as int, |x: AddStart| x@);
                        lemma_all_step_add_start(m, prefix_patch(*patch, i as int, 0, 0, 0), iv);
                        assert(prefix_patch(*patch, i + 1, 0, 0, 0) == (PatchV {
                            add_start: prefix_patch(*patch, i as int, 0, 0, 0).add_start.insert(iv),
                            ..prefix_patch(*patch, i as int, 0, 0, 0)
                        }));
                    }
                },
                None => {
                    proof {
                        assert(false);
                    }
                },
            }
            i = i + 1;
        }
        let mut i: usize = 0;
        while i < patch.remove_start.len()
            invariant
                self.wf(),
                i <= patch.remove_start.len(),
                patch_ok(m, patch@),
                patch_applicable(m, *patch),
                pid == patch.id,
                self@ == update_all(m, prefix_patch(*patch, patch.add_start.len() as int, i as int, 0, 0)),
            decreases patch.remove_start.len() - i,
        {
            let ghost iv = patch.remove_start@[i as int]@;
            proof {
                assert(patch.remove_start@.map_values(|x: RemoveStart| x@)[i as int] == iv);
                assert(patch@.remove_start.contains(iv));
                assert(update_all(m, prefix_patch(*patch, patch.add_start.len() as int, i as int, 0, 0)).contains_key(iv.event));
            }
            match self.find_event(&patch.remove_start[i].event) {
                Some(idx) => {
                    let ghost before = self.events@;
                    apply_remove_start(&mut self.events[idx].1, pid, &patch.remove_start[i]);
                    proof {
                        lemma_sheet_at(before, idx as int);
                        lemma_sheet_update(before, idx as int, self.events@[idx as int].1);
                        assert(self.events@ =~= before.update(idx as int, (before[idx as int].0, self.events@[idx as int].1)));
                        lemma_prefix_push(patch.remove_start@, i as int, |x: RemoveStart| x@);
                        lemma_all_step_remove_start(m, prefix_patch(*patch, patch.add_start.len() as int, i as int, 0, 0), iv);
                        assert(prefix_patch(*patch, patch.add_start.len() as int, i + 1, 0, 0) == (PatchV {
                            remove_start: prefix_patch(*patch, patch.add_start.len() as int, i as int, 0, 0).remove_start.insert(iv),
                            ..prefix_patch(*patch, patch.add_start.len() as int, i as int, 0, 0)
                        }));
                    }
                },
                None => {
                    proof {
                        assert(false);
                    }
                },
            }
            i = i + 1;
        }
        let mut i: usize = 0;
        while i < patch.add_tag.len()
            invariant
                self.wf(),
                i <= patch.add_tag.len(),
                patch_ok(m, patch@),
                patch_applicable(m, *patch),
                pid == patch.id,
                self@ == update_all(m, prefix_patch(*patch, patch.add_start.len() as int, patch.remove_start.len() as int, i as int, 0)),
            decreases patch.add_tag.len() - i,
        {
            let ghost iv = patch.add_tag@[i as int]@;
            proof {
                assert(patch.add_tag@.map_values(|x: AddTag| x@)[i as int] == iv);
                assert(patch@.add_tag.contains(iv));
                assert(update_all(m, prefix_patch(*patch, patch.add_start.len() as int, patch.remove_start.len() as int, i as int, 0)).contains_key(iv.event));
            }
            match self.find_event(&patch.add_tag[i].event) {
                Some(idx) => {
                    let ghost before = self.events@;
                    apply_add_tag(&mut self.events[idx].1, pid, &patch.add_tag[i]);
                    proof {
                        lemma_sheet_at(before, idx as int);
                        lemma_sheet_update(before, idx as int, self.events@[idx as int].1);
                        assert(self.events@ =~= before.update(idx as int, (before[idx as int].0, self.events@[idx as int].1)));
                        lemma_prefix_push(patch.add_tag@, i as int, |x: AddTag| x@);
                        lemma_all_step_add_tag(m, prefix_patch(*patch, patch.add_start.len() as int, patch.remove_start.len() as int, i as int, 0), iv);
                        assert(prefix_patch(*patch, patch.add_start.len() as int, patch.remove_start.len() as int, i + 1, 0) == (PatchV {
                            add_tag: prefix_patch(*patch, patch.add_start.len() as int, patch.remove_start.len() as int, i as int, 0).add_tag.insert(iv),
                            ..prefix_patch(*patch, patch.add_start.len() as int, patch.remove_start.len() as int, i as int, 0)
                        }));
                    }
                },
                None => {
                    proof {
                        assert(false);
                    }
                },
            }
            i = i + 1;
        }
        let mut i: usize = 0;
        while i < patch.remove_tag.len()
            invariant
                self.wf(),
                i <= patch.remove_tag.len(),
                patch_ok(m, patch@),
                patch_applicable(m, *patch),
                pid == patch.id,
                self@ == update_all(m, prefix_patch(*patch, patch.add_start.len() as int, patch.remove_start.len() as int, patch.add_tag.len() as int, i as int)),
            decreases patch.remove_tag.len() - i,
        {
            let ghost iv = patch.remove_tag@[i as int]@;
            proof {
                assert(patch.remove_tag@.map_values(|x: RemoveTag| x@)[i as int] == iv);
                assert(patch@.remove_tag.contains(iv));
                assert(update_all(m, prefix_patch(*patch, patch.add_start.len() as int, patch.remove_start.len() as int, patch.add_tag.len() as int, i as int)).contains_key(iv.event));
            }
            match self.find_event(&patch.remove_tag[i].event) {
                Some(idx) => {
                    let ghost before = self.events@;
                    apply_remove_tag(&mut self.events[idx].1, pid, &patch.remove_tag[i]);
                    proof {
                        lemma_sheet_at(before, idx as int);
                        lemma_sheet_update(before, idx as int, self.events@[idx as int].1);
                        assert(self.events@ =~= before.update(idx as int, (before[idx as int].0, self.events@[idx as int].1)));
                        lemma_prefix_push(patch.remove_tag@, i as int, |x: RemoveTag| x@);
                        lemma_all_step_remove_tag(m, prefix_patch(*patch, patch.add_start.len() as int, patch.remove_start.len() as int, patch.add_tag.len() as int, i as int), iv);
                        assert(prefix_patch(*patch, patch.add_start.len() as int, patch.remove_start.len() as int, patch.add_tag.len() as int, i + 1) == (PatchV {
                            remove_tag: prefix_patch(*patch, patch.add_start.len() as int, patch.remove_start.len() as int, patch.add_tag.len() as int, i as int).remove_tag.insert(iv),
                            ..prefix_patch(*patch, patch.add_start.len() as int, patch.remove_start.len() as int, patch.add_tag.len() as int, i as int)
                        }));
                    }
                },
                None => {
                    proof {
                        assert(false);
                    }
                },
            }
            i = i + 1;
        }
        proof {
            lemma_prefix_full(patch.add_start@, |x: AddStart| x@);
            lemma_prefix_full(patch.remove_start@, |x: RemoveStart| x@);
            lemma_prefix_full(patch.add_tag@, |x: AddTag| x@);
            lemma_prefix_full(patch.remove_tag@, |x: RemoveTag| x@);
            assert(prefix_patch(
                *patch,
                patch.add_start.len() as int,
                patch.remove_start.len() as int,
                patch.add_tag.len() as int,
                patch.remove_tag.len() as int,
            ) == patch@);
        }
        let ghost base = self@;
        let mut j: usize = 0;
        while j < patch.create_event.len()
            invariant
                self.wf(),
                j <= patch.create_event.len(),
                patch_ok(m, patch@),
                patch_applicable(m, *patch),
                pid == patch.id,
                base == update_all(m, patch@),
                forall|k: Seq<char>|
                    #[trigger] self@.contains_key(k) <==> (base.contains_key(k) || exists|t: int|
                        0 <= t < j && #[trigger] create_events(*patch)[t] == k),
                forall|k: Seq<char>| #[trigger] base.contains_key(k) ==> self@[k] == base[k],
                forall|t: int|
                    0 <= t < j ==> self@[#[trigger] create_events(*patch)[t]] == created_view(
                        pid,
                        patch.create_event@[t]@,
                    ),
            decreases patch.create_event.len() - j,
        {
            let ev = fresh_event(pid, &patch.create_event[j]);
            let ghost key = create_events(*patch)[j as int];
            proof {
                assert(patch.create_event@.map_values(|c: CreateEvent| c@)[j as int]
                    == patch.create_event@[j as int]@);
                assert(patch@.create_event.contains(patch.create_event@[j as int]@));
                assert(!m.contains_key(key));
                assert forall|t: int| 0 <= t < j implies #[trigger] create_events(*patch)[t] != key by {
                    assert(create_events(*patch)[t] == patch.create_event@[t].event@);
                }
            }
            let ghost before = self@;
            self.insert_event(patch.create_event[j].event.clone(), ev);
            proof {
                assert forall|k: Seq<char>|
                    #[trigger] self@.contains_key(k) <==> (base.contains_key(k) || exists|t: int|
                        0 <= t < j + 1 && #[trigger] create_events(*patch)[t] == k) by {
                    if k == key {
                        assert(create_events(*patch)[j as int] == k);
                    }
                    if exists|t: int| 0 <= t < j + 1 && #[trigger] create_events(*patch)[t] == k {
                        let t = choose|t: int| 0 <= t < j + 1 && #[trigger] create_events(*patch)[t] == k;
                        if t < j {
                            assert(before.contains_key(k));
                        }
                    }
                }
                assert forall|t: int| 0 <= t < j + 1 implies self@[#[trigger] create_events(*patch)[t]]
                    == created_view(pid, patch.create_event@[t]@) by {
                    if t < j {
                        assert(create_events(*patch)[t] != key);
                    }
                }
            }
            j = j + 1;
        }
        proof {
            let pv = patch@;
            assert forall|k: Seq<char>| #[trigger] self@.contains_key(k) == apply_spec(m, pv).contains_key(k) by {
                if exists|t: int| 0 <= t < j && #[trigger] create_events(*patch)[t] == k {
                    let t = choose|t: int| 0 <= t < j && #[trigger] create_events(*patch)[t] == k;
                    assert(patch.create_event@.map_values(|c: CreateEvent| c@)[t] == patch.create_event@[t]@);
                    assert(pv.create_event.contains(patch.create_event@[t]@));
                }
                if creates(pv, k) {
                    let c = choose|c| #[trigger] pv.create_event.contains(c) && c.event == k;
                    lemma_create_index(*patch, c);
                    let t = choose|t: int| 0 <= t < patch.create_event@.len()
                        && #[trigger] patch.create_event@[t]@ == c;
                    assert(create_events(*patch)[t] == k);
                }
            }
            assert forall|k: Seq<char>| #[trigger] self@.contains_key(k) implies self@[k] == apply_spec(m, pv)[k] by {
                if !m.contains_key(k) {
                    let t = choose|t: int| 0 <= t < j && #[trigger] create_events(*patch)[t] == k;
                    assert(patch.create_event@.map_values(|c: CreateEvent| c@)[t] == patch.create_event@[t]@);
                    assert(pv.create_event.contains(patch.create_event@[t]@));
                    let c = choose|c| #[trigger] pv.create_event.contains(c) && c.event == k;
                    lemma_create_index(*patch, c);
                    let t2 = choose|t2: int| 0 <= t2 < patch.create_event@.len()
                        && #[trigger] patch.create_event@[t2]@ == c;
                    assert(create_events(*patch)[t2] == k);
                    assert(t2 == t);
                }
            }
            assert(self@ =~= apply_spec(m, pv));
        }
        Ok(())
    }
}

proof fn lemma_create_index(p: Patch, c: crate::patch::CreateEventV)
    requires
        p@.create_event.contains(c),
    ensures
        exists|t: int| 0 <= t < p.create_event@.len() && #[trigger] p.create_event@[t]@ == c,
{
    let s = p.create_event@.map_values(|x: CreateEvent| x@);
    assert(s.contains(c));
    let t = choose|t: int| 0 <= t < s.len() && #[trigger] s[t] == c;
    assert(p.create_event@[t]@ == c);
}

/// The start that event `k` flattens to, if it flattens.
pub open spec fn start_of(m: Sheet, k: Seq<char>) -> Option<Timestamp> {
    match flatten_event(m[k]) {
        Ok(f) => Some(f.start),
        Err(_) => None,
    }
}

/// `a` is the first event, in name order, that flattens to start `t`.
pub open spec fn first_at(m: Sheet, a: Seq<char>, t: Timestamp) -> bool {
    &&& m.contains_key(a)
    &&& start_of(m, a) == Some(t)
    &&& forall|c: Seq<char>|
        #[trigger] m.contains_key(c) && start_of(m, c) == Some(t) && c != a ==> str_lt(a, c)
}

/// Every conflict that flattening finds: each event that does not flatten,
/// and each event that flattens to the same start as an event before it in
/// name order (named beside the first such event).
pub open spec fn flatten_errors(m: Sheet) -> Set<ErrorV> {
    Set::new(
        |e: ErrorV|
            match e {
                ErrorV::FlattenEventError { source, event } => m.contains_key(event) && flatten_event(
                    m[event],
                ) == Err::<EventFlatV, EventError>(source),
                ErrorV::DuplicateEventTime { event_a, event_b } => m.contains_key(event_b) && event_a
                    != event_b && match start_of(m, event_b) {
                    Some(t) => first_at(m, event_a, t),
                    None => false,
                },
                _ => false,
            },
    )
}

/// The event that an error is about (the later one, for a shared start).
pub open spec fn subject(e: ErrorV) -> Seq<char> {
    match e {
        ErrorV::FlattenEventError { event, .. } => event,
        ErrorV::DuplicateEventTime { event_b, .. } => event_b,
        ErrorV::UnknownEvent { event, .. } => event,
        ErrorV::DuplicateEventId { id } => id,
    }
}

/// The flattened form of every event.
pub open spec fn flat_sheet(m: Sheet) -> Map<Seq<char>, EventFlatV> {
    Map::new(
        |k: Seq<char>| m.contains_key(k),
        |k: Seq<char>|
            match flatten_event(m[k]) {
                Ok(f) => f,
                Err(_) => arbitrary(),
            },
    )
}

/// A timesheet in which every event has one start and no two events share a
/// start.
#[derive(Clone, Debug)]
pub struct Timesheet {
    events: Vec<(String, Event)>,
}

impl View for Timesheet {
    type V = Map<Seq<char>, EventFlatV>;

    closed spec fn view(&self) -> Map<Seq<char>, EventFlatV> {
        sheet_of(self.events@)
    }
}

fn same_start(o: Option<Timestamp>, t: Timestamp) -> (r: bool)
    ensures
        r == (o == Some(t)),
{
    match o {
        Some(x) => x == t,
        None => false,
    }
}

/// The errors among `flatten_errors(m)` about the first `i` events.
pub open spec fn errors_upto(m: Sheet, s: Seq<(String, PatchedEvent)>, i: int) -> Set<ErrorV> {
    Set::new(
        |e: ErrorV|
            flatten_errors(m).contains(e) && exists|j: int| 0 <= j < i && #[trigger] s[j].0@ == subject(e),
    )
}

/// The flattened forms of the first `i` events, of those that flatten.
pub open spec fn flat_upto(m: Sheet, s: Seq<(String, PatchedEvent)>, i: int) -> Map<
    Seq<char>,
    EventFlatV,
> {
    Map::new(
        |k: Seq<char>| (exists|j: int| 0 <= j < i && #[trigger] s[j].0@ == k) && start_of(m, k) is Some,
        |k: Seq<char>| flat_sheet(m)[k],
    )
}

pub open spec fn distinct_starts(s: Seq<(String, Event)>) -> bool {
    forall|a: int, b: int| 0 <= a < s.len() && 0 <= b < s.len() && a != b ==> #[trigger] s[a].1.start != #[trigger] s[b].1.start
}

impl Timesheet {
    /// Events are kept in name order, and no two share a start.
    pub closed spec fn wf(&self) -> bool {
        keys_sorted(self.events@) && distinct_starts(self.events@)
    }
}

impl PatchedTimesheet {
    /// Flattens every event. Succeeds only when no event fails to flatten
    /// and no two events share a start; otherwise returns every conflict.
    pub fn flatten(&self) -> (r: Result<Timesheet, Vec<Error>>)
        requires
            self.wf(),
        ensures
            r is Ok <==> flatten_errors(self@) == Set::<ErrorV>::empty(),
            match r {
                Ok(ts) => ts.wf() && ts@ == flat_sheet(self@),
                Err(es) => errors_view(es@).to_set() == flatten_errors(self@) && es@.len() > 0
                    && forall|a: int, b: int|
                    0 <= a < b < es@.len() ==> str_lt(#[trigger] subject(es@[a]@), #[trigger] subject(es@[b]@)),
            },
    {
        let ghost m = self@;
        let ghost s = self.events@;
        let mut out: Vec<(String, Event)> = Vec::new();
        let mut starts: Vec<Option<Timestamp>> = Vec::new();
        let mut errors: Vec<Error> = Vec::new();
        let mut i: usize = 0;
        let ghost mut idx: Seq<int> = Seq::empty();
        let ghost mut eidx: Seq<int> = Seq::empty();
        proof {
            assert(errors_view(errors@).to_set() =~= errors_upto(m, s, 0));
            assert(sheet_of(out@) =~= flat_upto(m, s, 0));
        }
        while i < self.events.len()
            invariant
                self.wf(),
                m == self@,
                s == self.events@,
                i <= s.len(),
                starts@.len() == i,
                forall|j: int| 0 <= j < i ==> #[trigger] starts@[j] == start_of(m, s[j].0@),
                errors_view(errors@).to_set() == errors_upto(m, s, i as int),
                keys_sorted(out@),
                idx.len() == out@.len(),
                forall|q: int|
                    0 <= q < out@.len() ==> 0 <= #[trigger] idx[q] < i && s[idx[q]].0@ == out@[q].0@
                        && starts@[idx[q]] == Some(out@[q].1.start),
                errors@.len() == 0 ==> distinct_starts(out@),
                eidx.len() == errors@.len(),
                forall|q: int|
                    0 <= q < errors@.len() ==> 0 <= #[trigger] eidx[q] < i && subject(errors@[q]@) == s[eidx[q]].0@,
                forall|a: int, b: int| 0 <= a < b < eidx.len() ==> #[trigger] eidx[a] < #[trigger] eidx[b],
                sheet_of(out@) == flat_upto(m, s, i as int),
            decreases s.len() - i,
        {
            proof {
                lemma_sheet_at(s, i as int);
            }
            let ghost key = s[i as int].0@;
            let ghost prev_errors = errors_view(errors@);
            match self.events[i].1.flatten() {
                Ok(ev) => {
                    let t = ev.start;
                    let mut j: usize = 0;
                    while j < i && !same_start(starts[j], t)
                        invariant
                            j <= i,
                            i < s.len(),
                            starts@.len() == i,
                            forall|l: int| 0 <= l < j ==> starts@[l] != Some(t),
                        decreases i - j,
                    {
                        j = j + 1;
                    }
                    proof {
                        assert(start_of(m, key) == Some(t));
                        assert forall|e: ErrorV| #[trigger] flatten_errors(m).contains(e) && subject(e) == key
                            implies (j < i && e == (ErrorV::DuplicateEventTime {
                                event_a: s[j as int].0@,
                                event_b: key,
                            })) by {
                            if let ErrorV::DuplicateEventTime { event_a, event_b } = e {
                                let a = event_a;
                                let la = index_of(s, a);
                                lemma_sheet_at(s, la);
                                if la < i {
                                    assert(starts@[la] == Some(t));
                                    assert(la >= j);
                                    if la > j {
                                        lemma_sheet_at(s, j as int);
                                        assert(str_lt(a, s[j as int].0@));
                                        assert(str_lt(s[j as int].0@, a));
                                        lemma_str_lt_asymmetric(a, s[j as int].0@);
                                    }
                                } else if la > i {
                                    assert(str_lt(a, key));
                                    assert(str_lt(key, a));
                                    lemma_str_lt_asymmetric(a, key);
                                } else {
                                    assert(a == key);
                                }
                            }
                        }
                        if j < i {
                            let a = s[j as int].0@;
                            lemma_sheet_at(s, j as int);
                            assert(a != key) by {
                                assert(str_lt(a, key));
                                lemma_str_lt_irreflexive(a);
                            }
                            assert forall|c: Seq<char>| #[trigger] m.contains_key(c) && start_of(m, c) == Some(t) && c != a
                                implies str_lt(a, c) by {
                                let lc = index_of(s, c);
                                lemma_sheet_at(s, lc);
                                if lc < j {
                                    assert(starts@[lc] == Some(t));
                                }
                                if lc == j {
                                    assert(c == a);
                                }
                            }
                            assert(first_at(m, a, t));
                            assert(flatten_errors(m).contains(ErrorV::DuplicateEventTime { event_a: a, event_b: key }));
                        }
                    }
                    if j < i {
                        errors.push(
                            Error::DuplicateEventTime {
                                event_a: self.events[j].0.clone(),
                                event_b: self.events[i].0.clone(),
                            },
                        );
                        proof {
                            eidx = eidx.push(i as int);
                            let ev2 = ErrorV::DuplicateEventTime { event_a: s[j as int].0@, event_b: key };
                            assert(errors_view(errors@) =~= prev_errors.push(ev2));
                            Seq::lemma_to_set_insert_commutes(prev_errors, ev2);
                            assert(prev_errors + seq![ev2] =~= prev_errors.push(ev2));
                        }
                    }
                    let ghost prev_out = out@;
                    let ghost prev_starts = starts@;
                    let ghost fe = ev@;
                    out.push((self.events[i].0.clone(), ev));
                    starts.push(Some(t));
                    proof {
                        assert forall|q: int| 0 <= q < prev_out.len() implies str_lt(#[trigger] prev_out[q].0@, key) by {
                            let jq = idx[q];
                            assert(str_lt(s[jq].0@, s[i as int].0@));
                        }
                        lemma_sheet_insert(prev_out, prev_out.len() as int, self.events@[i as int].0, out@.last().1);
                        assert(prev_out.insert(prev_out.len() as int, (self.events@[i as int].0, out@.last().1)) =~= out@);
                        assert(flat_sheet(m)[key] == fe);
                        let ghost prev_idx = idx;
                        idx = idx.push(i as int);
                        assert forall|q: int| 0 <= q < out@.len() implies 0 <= #[trigger] idx[q] < i + 1 && s[idx[q]].0@ == out@[q].0@
                            && starts@[idx[q]] == Some(out@[q].1.start) by {
                            if q < prev_out.len() {
                                assert(out@[q] == prev_out[q]);
                                assert(idx[q] == prev_idx[q]);
                                assert(starts@[prev_idx[q]] == prev_starts[prev_idx[q]]);
                            } else {
                                assert(s[i as int].0@ == out@[q].0@);
                                assert(starts@[i as int] == Some(t));
                            }
                        }
                        if errors@.len() == 0 {
                            assert(j == i);
                            assert forall|q: int| 0 <= q < prev_out.len() implies #[trigger] prev_out[q].1.start != t by {
                                assert(prev_starts[prev_idx[q]] == Some(prev_out[q].1.start));
                            }
                            assert forall|a: int, b: int| 0 <= a < out@.len() && 0 <= b < out@.len() && a != b
                                implies #[trigger] out@[a].1.start != #[trigger] out@[b].1.start by {
                                if a < prev_out.len() && b < prev_out.len() {
                                    assert(out@[a] == prev_out[a]);
                                    assert(out@[b] == prev_out[b]);
                                } else if a < prev_out.len() {
                                    assert(out@[a] == prev_out[a]);
                                } else {
                                    assert(out@[b] == prev_out[b]);
                                }
                            }
                        }
                    }
                },
                Err(e) => {
                    let ghost prev_starts = starts@;
                    errors.push(Error::FlattenEventError { source: e, event: self.events[i].0.clone() });
                    starts.push(None);
                    proof {
                        eidx = eidx.push(i as int);
                        assert forall|q: int| 0 <= q < out@.len() implies 0 <= #[trigger] idx[q] < i + 1 && s[idx[q]].0@ == out@[q].0@
                            && starts@[idx[q]] == Some(out@[q].1.start) by {
                            assert(starts@[idx[q]] == prev_starts[idx[q]]);
                        }
                        let ev2 = ErrorV::FlattenEventError { source: e, event: key };
                        assert(errors_view(errors@) =~= prev_errors.push(ev2));
                        Seq::lemma_to_set_insert_commutes(prev_errors, ev2);
                        assert(prev_errors + seq![ev2] =~= prev_errors.push(ev2));
                    }
                },
            }
            proof {
                assert forall|e: ErrorV| #[trigger] errors_upto(m, s, i + 1).contains(e) == (errors_upto(m, s, i as int).contains(e)
                    || (flatten_errors(m).contains(e) && subject(e) == key)) by {
                    if flatten_errors(m).contains(e) && exists|j: int| 0 <= j < i + 1 && #[trigger] s[j].0@ == subject(e) {
                        let j = choose|j: int| 0 <= j < i + 1 && #[trigger] s[j].0@ == subject(e);
                        if j < i {
                            assert(errors_upto(m, s, i as int).contains(e));
                        }
                    }
                    if subject(e) == key {
                        assert(s[i as int].0@ == subject(e));
                    }
                }
                assert(errors_view(errors@).to_set() =~= errors_upto(m, s, i + 1));
                assert(sheet_of(out@) =~= flat_upto(m, s, i + 1));
            }
            i = i + 1;
        }
        proof {
            assert forall|e: ErrorV| #[trigger] flatten_errors(m).contains(e) implies errors_upto(m, s, i as int).contains(e) by {
                let j = index_of(s, subject(e));
                lemma_sheet_at(s, j);
            }
            assert(errors_upto(m, s, i as int) =~= flatten_errors(m));
        }
        if errors.len() == 0 {
            proof {
                assert(errors_view(errors@).to_set() =~= Set::<ErrorV>::empty());
                assert(flatten_errors(m) == Set::<ErrorV>::empty());
                assert forall|k: Seq<char>| m.contains_key(k) implies start_of(m, k) is Some by {
                    if flatten_event(m[k]) is Err {
                        let e = ErrorV::FlattenEventError { source: flatten_event(m[k])->Err_0, event: k };
                        assert(flatten_errors(m).contains(e));
                    }
                }
                assert forall|k: Seq<char>| #[trigger] m.contains_key(k) implies flat_upto(m, s, i as int).contains_key(k) by {
                    let j = index_of(s, k);
                    lemma_sheet_at(s, j);
                }
                assert(flat_upto(m, s, i as int) =~= flat_sheet(m));
            }
            Ok(Timesheet { events: out })
        } else {
            proof {
                assert forall|a: int, b: int| 0 <= a < b < errors@.len() implies str_lt(
                    #[trigger] subject(errors@[a]@),
                    #[trigger] subject(errors@[b]@),
                ) by {
                    assert(eidx[a] < eidx[b]);
                }
                assert(errors_view(errors@).contains(errors_view(errors@)[0]));
                assert(flatten_errors(m).contains(errors_view(errors@)[0]));
                assert(!Set::<ErrorV>::empty().contains(errors_view(errors@)[0]));
            }
            Err(errors)
        }
    }
}

proof fn lemma_update_untouched(e: EventV, p: PatchV, k: Seq<char>)
    requires
        !touches(p, k),
    ensures
        update_event(e, p, k) == e,
{
    let u = update_event(e, p, k);
    assert(u.starts_added =~= e.starts_added);
    assert(u.starts_removed =~= e.starts_removed);
    assert(u.tags_added =~= e.tags_added);
    assert(u.tags_removed =~= e.tags_removed);
}

proof fn lemma_update_twice(e: EventV, p: PatchV, k: Seq<char>)
    ensures
        update_event(update_event(e, p, k), p, k) == update_event(e, p, k),
{
    let u = update_event(e, p, k);
    let uu = update_event(u, p, k);
    assert(uu.starts_added =~= u.starts_added);
    assert(uu.starts_removed =~= u.starts_removed);
    assert(uu.tags_added =~= u.tags_added);
    assert(uu.tags_removed =~= u.tags_removed);
    assert(uu.latest =~= u.latest);
}

proof fn lemma_update_commutes(e: EventV, a: PatchV, b: PatchV, k: Seq<char>)
    requires
        a.id != b.id,
        !refs_on(b, k).contains(a.id),
        !refs_on(a, k).contains(b.id),
    ensures
        update_event(update_event(e, a, k), b, k) == update_event(update_event(e, b, k), a, k),
{
    let x = update_event(update_event(e, a, k), b, k);
    let y = update_event(update_event(e, b, k), a, k);
    assert(x.starts_added =~= y.starts_added);
    assert(x.starts_removed =~= y.starts_removed);
    assert(x.tags_added =~= y.tags_added);
    assert(x.tags_removed =~= y.tags_removed);
    assert(x.latest =~= y.latest);
}

/// Applying the same patch a second time changes nothing: the state, and so
/// the flattened timesheet and its conflicts, are those after the first time.
pub proof fn lemma_apply_idempotent(m: Sheet, p: PatchV)
    ensures
        apply_outcome(apply_outcome(m, p), p) == apply_outcome(m, p),
        flat_sheet(apply_outcome(apply_outcome(m, p), p)) == flat_sheet(apply_outcome(m, p)),
        flatten_errors(apply_outcome(apply_outcome(m, p), p)) == flatten_errors(apply_outcome(m, p)),
{
    if patch_ok(m, p) {
        let m1 = apply_spec(m, p);
        if exists|c| #[trigger] p.create_event.contains(c) {
            let c = choose|c| #[trigger] p.create_event.contains(c);
            assert(creates(p, c.event));
            assert(m1.contains_key(c.event));
            assert(!patch_ok(m1, p));
        } else {
            assert forall|k: Seq<char>| !creates(p, k) by {}
            assert(patch_ok(m1, p));
            assert forall|k: Seq<char>| #[trigger] m1.contains_key(k) implies apply_spec(m1, p)[k] == m1[k] by {
                lemma_update_twice(m[k], p, k);
            }
            assert(apply_spec(m1, p) =~= m1);
        }
    }
}

/// Neither patch depends on the other: distinct ids, neither names the
/// other as a predecessor, and neither touches or creates an event that the
/// other creates.
pub open spec fn independent(a: PatchV, b: PatchV) -> bool {
    &&& a.id != b.id
    &&& forall|k: Seq<char>| !refs_on(a, k).contains(b.id) && !refs_on(b, k).contains(a.id)
    &&& forall|k: Seq<char>| creates(a, k) ==> !touches(b, k) && !creates(b, k)
    &&& forall|k: Seq<char>| creates(b, k) ==> !touches(a, k)
}

proof fn lemma_ok_after(m: Sheet, a: PatchV, b: PatchV)
    requires
        independent(a, b),
        patch_ok(m, a),
    ensures
        patch_ok(apply_spec(m, a), b) == patch_ok(m, b),
{
    let m1 = apply_spec(m, a);
    if patch_ok(m, b) {
        assert forall|c| #[trigger] b.create_event.contains(c) implies !m1.contains_key(c.event) by {
            assert(creates(b, c.event));
        }
    }
    if patch_ok(m1, b) {
        assert forall|i| #[trigger] b.add_start.contains(i) implies m.contains_key(i.event) by {
            assert(touches(b, i.event));
        }
        assert forall|i| #[trigger] b.remove_start.contains(i) implies m.contains_key(i.event) by {
            assert(touches(b, i.event));
        }
    }
}

proof fn lemma_ok_after_sym(m: Sheet, a: PatchV, b: PatchV)
    requires
        independent(a, b),
        patch_ok(m, b),
    ensures
        patch_ok(apply_spec(m, b), a) == patch_ok(m, a),
{
    let m1 = apply_spec(m, b);
    if patch_ok(m, a) {
        assert forall|c| #[trigger] a.create_event.contains(c) implies !m1.contains_key(c.event) by {
            assert(creates(a, c.event));
        }
    }
    if patch_ok(m1, a) {
        assert forall|i| #[trigger] a.add_start.contains(i) implies m.contains_key(i.event) by {
            assert(touches(a, i.event));
        }
        assert forall|i| #[trigger] a.remove_start.contains(i) implies m.contains_key(i.event) by {
            assert(touches(a, i.event));
        }
    }
}

/// Two independent patches give the same state, and so the same flattened
/// timesheet and conflicts, in either order.
pub proof fn lemma_apply_commutes(m: Sheet, a: PatchV, b: PatchV)
    requires
        independent(a, b),
    ensures
        apply_outcome(apply_outcome(m, a), b) == apply_outcome(apply_outcome(m, b), a),
        flat_sheet(apply_outcome(apply_outcome(m, a), b)) == flat_sheet(
            apply_outcome(apply_outcome(m, b), a),
        ),
        flatten_errors(apply_outcome(apply_outcome(m, a), b)) == flatten_errors(
            apply_outcome(apply_outcome(m, b), a),
        ),
{
    if patch_ok(m, a) {
        lemma_ok_after(m, a, b);
    }
    if patch_ok(m, b) {
        lemma_ok_after_sym(m, a, b);
    }
    if patch_ok(m, a) && patch_ok(m, b) {
        let x = apply_spec(apply_spec(m, a), b);
        let y = apply_spec(apply_spec(m, b), a);
        assert forall|k: Seq<char>| #[trigger] x.contains_key(k) == y.contains_key(k) by {}
        assert forall|k: Seq<char>| #[trigger] x.contains_key(k) implies x[k] == y[k] by {
            if m.contains_key(k) {
                lemma_update_commutes(m[k], a, b, k);
            } else if creates(a, k) {
                lemma_update_untouched(created_event(a, k), b, k);
            } else {
                lemma_update_untouched(created_event(b, k), a, k);
            }
        }
        assert(x =~= y);
    }
}

impl PatchedTimesheet {
    /// Whether `apply_patch` may be called with the patch: its tag
    /// instructions name known events and no two creations share a name.
    pub fn is_applicable(&self, patch: &Patch) -> (r: bool)
        requires
            self.wf(),
        ensures
            r == patch_applicable(self@, *patch),
    {
        let mut i: usize = 0;
        while i < patch.add_tag.len()
            invariant
                self.wf(),
                i <= patch.add_tag.len(),
                forall|j: int| 0 <= j < i ==> self@.contains_key(#[trigger] patch.add_tag@[j].event@),
            decreases patch.add_tag.len() - i,
        {
            if self.find_event(&patch.add_tag[i].event).is_none() {
                proof {
                    assert(patch.add_tag@.map_values(|x: AddTag| x@)[i as int] == patch.add_tag@[i as int]@);
                    assert(patch@.add_tag.contains(patch.add_tag@[i as int]@));
                }
                return false;
            }
            i = i + 1;
        }
        let mut i: usize = 0;
        while i < patch.remove_tag.len()
            invariant
                self.wf(),
                i <= patch.remove_tag.len(),
                forall|j: int| 0 <= j < i ==> self@.contains_key(#[trigger] patch.remove_tag@[j].event@),
            decreases patch.remove_tag.len() - i,
        {
            if self.find_event(&patch.remove_tag[i].event).is_none() {
                proof {
                    assert(patch.remove_tag@.map_values(|x: RemoveTag| x@)[i as int] == patch.remove_tag@[i as int]@);
                    assert(patch@.remove_tag.contains(patch.remove_tag@[i as int]@));
                }
                return false;
            }
            i = i + 1;
        }
        let n = patch.create_event.len();
        let mut a: usize = 0;
        while a < n
            invariant
                n == patch.create_event@.len(),
                a <= n,
                forall|x: int, y: int|
                    0 <= x < a && 0 <= y < n && x != y ==> patch.create_event@[x].event@
                        != patch.create_event@[y].event@,
            decreases n - a,
        {
            let mut b: usize = 0;
            while b < n
                invariant
                    n == patch.create_event@.len(),
                    a < n,
                    b <= n,
                    forall|x: int, y: int|
                        0 <= x < a && 0 <= y < n && x != y ==> patch.create_event@[x].event@
                            != patch.create_event@[y].event@,
                    forall|y: int| 0 <= y < b && a != y ==> patch.create_event@[a as int].event@
                        != patch.create_event@[y].event@,
                decreases n - b,
            {
                if a != b && patch.create_event[a].event == patch.create_event[b].event {
                    return false;
                }
                b = b + 1;
            }
            a = a + 1;
        }
        proof {
            assert forall|x| #[trigger] patch@.add_tag.contains(x) implies self@.contains_key(x.event) by {
                let s = patch.add_tag@.map_values(|x: AddTag| x@);
                let j = choose|j: int| 0 <= j < s.len() && #[trigger] s[j] == x;
                assert(patch.add_tag@[j]@ == x);
            }
            assert forall|x| #[trigger] patch@.remove_tag.contains(x) implies self@.contains_key(x.event) by {
                let s = patch.remove_tag@.map_values(|x: RemoveTag| x@);
                let j = choose|j: int| 0 <= j < s.len() && #[trigger] s[j] == x;
                assert(patch.remove_tag@[j]@ == x);
            }
        }
        true
    }
}

impl Timesheet {
    /// The number of events.
    pub fn len(&self) -> (r: usize)
        requires
            self.wf(),
        ensures
            r == self@.len(),
    {
        proof {
            lemma_sheet_len(self.events@);
        }
        self.events.len()
    }

    /// The flattened event named `name`, if there is one.
    pub fn get(&self, name: &String) -> (r: Option<&Event>)
        requires
            self.wf(),
        ensures
            match r {
                Some(ev) => self@.contains_key(name@) && ev@ == self@[name@],
                None => !self@.contains_key(name@),
            },
    {
        let mut i: usize = 0;
        while i < self.events.len()
            invariant
                self.wf(),
                i <= self.events.len(),
                forall|j: int| 0 <= j < i ==> #[trigger] self.events@[j].0@ != name@,
            decreases self.events.len() - i,
        {
            if self.events[i].0 == *name {
                proof {
                    lemma_sheet_at(self.events@, i as int);
                }
                return Some(&self.events[i].1);
            }
            i = i + 1;
        }
        None
    }

    /// The name of the event that starts exactly at `start`, if any.
    pub fn event_at(&self, start: Timestamp) -> (r: Option<String>)
        requires
            self.wf(),
        ensures
            match r {
                Some(name) => self@.contains_key(name@) && self@[name@].start == start,
                None => forall|k: Seq<char>| #[trigger] self@.contains_key(k) ==> self@[k].start != start,
            },
    {
        let mut i: usize = 0;
        while i < self.events.len()
            invariant
                self.wf(),
                i <= self.events.len(),
                forall|j: int| 0 <= j < i ==> #[trigger] self.events@[j].1.start != start,
            decreases self.events.len() - i,
        {
            if self.events[i].1.start == start {
                proof {
                    lemma_sheet_at(self.events@, i as int);
                }
                return Some(self.events[i].0.clone());
            }
            i = i + 1;
        }
        proof {
            assert forall|k: Seq<char>| #[trigger] self@.contains_key(k) implies self@[k].start != start by {
                let j = index_of(self.events@, k);
                lemma_sheet_at(self.events@, j);
            }
        }
        None
    }
}

proof fn lemma_sheet_len<V: View>(s: Seq<(String, V)>)
    requires
        keys_sorted(s),
    ensures
        sheet_of(s).dom().finite(),
        sheet_of(s).len() == s.len(),
    decreases s.len(),
{
    if s.len() == 0 {
        assert(sheet_of(s) =~= Map::empty());
    } else {
        let t = s.drop_last();
        assert(keys_sorted(t));
        lemma_sheet_len(t);
        let k = s.last().0@;
        assert forall|j: int| 0 <= j < t.len() implies str_lt(#[trigger] t[j].0@, k) by {
            assert(str_lt(s[j].0@, s[s.len() - 1].0@));
        }
        lemma_sheet_insert(t, t.len() as int, s.last().0, s.last().1);
        assert(t.insert(t.len() as int, (s.last().0, s.last().1)) =~= s);
        assert(!sheet_of(t).contains_key(k)) by {
            if sheet_of(t).contains_key(k) {
                let j = index_of(t, k);
                lemma_str_lt_irreflexive(k);
            }
        }
    }
}

/// `a` is no later than `b`.
pub open spec fn ts_le(a: Timestamp, b: Timestamp) -> bool {
    a.secs < b.secs || (a.secs == b.secs && a.nanos <= b.nanos)
}

fn le(a: Timestamp, b: Timestamp) -> (r: bool)
    ensures
        r == ts_le(a, b),
{
    a.secs < b.secs || (a.secs == b.secs && a.nanos <= b.nanos)
}

/// Event `k` is the one running at `t`: it started at or before `t`, and no
/// event started later than it and at or before `t`.
pub open spec fn current_at(ts: Map<Seq<char>, EventFlatV>, k: Seq<char>, t: Timestamp) -> bool {
    &&& ts.contains_key(k)
    &&& ts_le(ts[k].start, t)
    &&& forall|c: Seq<char>| #[trigger] ts.contains_key(c) && ts_le(ts[c].start, t) ==> ts_le(ts[c].start, ts[k].start)
}

impl Timesheet {
    /// The tags of the event running at `t`: the one with the latest start
    /// at or before `t`. None when every event starts after `t`.
    pub fn tags_at_time(&self, t: Timestamp) -> (r: Option<Vec<String>>)
        requires
            self.wf(),
        ensures
            match r {
                Some(tags) => exists|k: Seq<char>|
                    current_at(self@, k, t) && #[trigger] strings(tags@).to_set() == self@[k].tags,
                None => forall|k: Seq<char>| #[trigger] self@.contains_key(k) ==> !ts_le(self@[k].start, t),
            },
    {
        let mut best: Option<usize> = None;
        let mut i: usize = 0;
        while i < self.events.len()
            invariant
                self.wf(),
                i <= self.events.len(),
                match best {
                    Some(b) => b < i && ts_le(self.events@[b as int].1.start, t) && forall|j: int|
                        0 <= j < i && ts_le(#[trigger] self.events@[j].1.start, t) ==> ts_le(
                            self.events@[j].1.start,
                            self.events@[b as int].1.start,
                        ),
                    None => forall|j: int| 0 <= j < i ==> !ts_le(#[trigger] self.events@[j].1.start, t),
                },
            decreases self.events.len() - i,
        {
            let st = self.events[i].1.start;
            if le(st, t) {
                match best {
                    Some(b) => {
                        if le(self.events[b].1.start, st) {
                            best = Some(i);
                        }
                    },
                    None => {
                        best = Some(i);
                    },
                }
            }
            i = i + 1;
        }
        match best {
            Some(b) => {
                let tags = self.events[b].1.tags.clone();
                proof {
                    lemma_sheet_at(self.events@, b as int);
                    let k = self.events@[b as int].0@;
                    assert forall|c: Seq<char>| #[trigger] self@.contains_key(c) && ts_le(self@[c].start, t)
                        implies ts_le(self@[c].start, self@[k].start) by {
                        let j = index_of(self.events@, c);
                        lemma_sheet_at(self.events@, j);
                    }
                    assert(current_at(self@, k, t));
                }
                Some(tags)
            },
            None => {
                proof {
                    assert forall|k: Seq<char>| #[trigger] self@.contains_key(k) implies !ts_le(self@[k].start, t) by {
                        let j = index_of(self.events@, k);
                        lemma_sheet_at(self.events@, j);
                    }
                }
                None
            },
        }
    }
}

proof fn lemma_current_unique(ts: &Timesheet, k1: Seq<char>, k2: Seq<char>, t: Timestamp)
    requires
        ts.wf(),
        current_at(ts@, k1, t),
        current_at(ts@, k2, t),
    ensures
        k1 == k2,
{
    let s = ts.events@;
    let i1 = index_of(s, k1);
    let i2 = index_of(s, k2);
    lemma_sheet_at(s, i1);
    lemma_sheet_at(s, i2);
    if i1 != i2 {
        assert(s[i1].1.start != s[i2].1.start);
    }
}

/// The tags of the event at `k` hold every tag of `filter`, and at least one.
pub open spec fn shows_tags(ts: Map<Seq<char>, EventFlatV>, k: Seq<char>, filter: Seq<Seq<char>>) -> bool {
    &&& ts[k].tags != Set::<Seq<char>>::empty()
    &&& forall|f: Seq<char>| #[trigger] filter.contains(f) ==> ts[k].tags.contains(f)
}

impl Timesheet {
    /// Whether the event running at `t` has tags, and every tag of `filter`
    /// among them.
    pub fn has_tags_at(&self, filter: &Vec<String>, t: Timestamp) -> (r: bool)
        requires
            self.wf(),
        ensures
            r == exists|k: Seq<char>| current_at(self@, k, t) && #[trigger] shows_tags(self@, k, strings(filter@)),
    {
        match self.tags_at_time(t) {
            None => {
                proof {
                    assert forall|k: Seq<char>| !current_at(self@, k, t) by {}
                }
                false
            },
            Some(tags) => {
                let ghost k = choose|k: Seq<char>|
                    current_at(self@, k, t) && #[trigger] strings(tags@).to_set() == self@[k].tags;
                proof {
                    assert forall|k2: Seq<char>| current_at(self@, k2, t) implies k2 == k by {
                        lemma_current_unique(self, k, k2, t);
                    }
                }
                if tags.len() == 0 {
                    proof {
                        assert(strings(tags@).to_set() =~= Set::<Seq<char>>::empty());
                        assert(!shows_tags(self@, k, strings(filter@)));
                    }
                    return false;
                }
                proof {
                    assert(strings(tags@).to_set().contains(strings(tags@)[0]));
                }
                let mut i: usize = 0;
                while i < filter.len()
                    invariant
                        i <= filter.len(),
                        strings(tags@).to_set() == self@[k].tags,
                        current_at(self@, k, t),
                        forall|k2: Seq<char>| current_at(self@, k2, t) ==> k2 == k,
                        forall|j: int| 0 <= j < i ==> self@[k].tags.contains(#[trigger] strings(filter@)[j]),
                    decreases filter.len() - i,
                {
                    if !contains_string(&tags, &filter[i]) {
                        proof {
                            assert(strings(filter@)[i as int] == filter@[i as int]@);
                            assert(strings(filter@).contains(filter@[i as int]@));
                            assert(!strings(tags@).to_set().contains(filter@[i as int]@));
                            assert(!shows_tags(self@, k, strings(filter@)));
                            }
                        return false;
                    }
                    i = i + 1;
                }
                proof {
                    assert forall|f: Seq<char>| #[trigger] strings(filter@).contains(f) implies self@[k].tags.contains(f) by {
                        let j = choose|j: int| 0 <= j < strings(filter@).len() && strings(filter@)[j] == f;
                    }
                    assert(shows_tags(self@, k, strings(filter@)));
                }
                true
            },
        }
    }
}

impl Default for PatchedTimesheet {
    fn default() -> (r: PatchedTimesheet)
        ensures
            r.wf(),
            r@ == Map::<Seq<char>, EventV>::empty(),
    {
        PatchedTimesheet::new()
    }
}

} // verus!
