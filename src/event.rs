//! The merge state of one event: two two-phase sets (starts and tags) and the
//! frontier of patches that no later patch has superseded.
use vstd::prelude::*;
use crate::idset::{contains_id, insert_id, remove_id};
use crate::patch::Timestamp;

verus! {

broadcast use vstd::seq_lib::group_seq_properties;

/// The abstract state of a `PatchedEvent`.
pub struct EventV {
    pub starts_added: Set<(u128, Timestamp)>,
    pub starts_removed: Set<(u128, Timestamp)>,
    pub tags_added: Set<(u128, Seq<char>)>,
    pub tags_removed: Set<(u128, Seq<char>)>,
    pub latest: Set<u128>,
}

pub open spec fn empty_event() -> EventV {
    EventV {
        starts_added: Set::empty(),
        starts_removed: Set::empty(),
        tags_added: Set::empty(),
        tags_removed: Set::empty(),
        latest: Set::empty(),
    }
}

/// The starts that were added and not removed.
pub open spec fn visible_starts(e: EventV) -> Set<(u128, Timestamp)> {
    e.starts_added.difference(e.starts_removed)
}

/// The tags that were added and not removed.
pub open spec fn visible_tags(e: EventV) -> Set<(u128, Seq<char>)> {
    e.tags_added.difference(e.tags_removed)
}

pub open spec fn tag_pairs(s: Seq<(u128, String)>) -> Seq<(u128, Seq<char>)> {
    s.map_values(|p: (u128, String)| (p.0, p.1@))
}

pub open spec fn strings(s: Seq<String>) -> Seq<Seq<char>> {
    s.map_values(|t: String| t@)
}

/// Why an event has no single start.
#[derive(Clone, Copy, Debug, PartialEq, Eq, Structural)]
pub enum Error {
    MultipleStartTimes,
    NoStartTimes,
}

/// A flattened event: its one start and its tags.
#[derive(Clone, Debug)]
pub struct Event {
    pub start: Timestamp,
    pub tags: Vec<String>,
}

pub struct EventFlatV {
    pub start: Timestamp,
    pub tags: Set<Seq<char>>,
}

impl View for Event {
    type V = EventFlatV;

    open spec fn view(&self) -> EventFlatV {
        EventFlatV { start: self.start, tags: strings(self.tags@).to_set() }
    }
}

impl Event {
    pub fn new(start: Timestamp, tags: Vec<String>) -> (r: Event)
        ensures
            r.start == start,
            r.tags@ == tags@,
    {
        Event { start, tags }
    }

    pub fn start(&self) -> (r: Timestamp)
        ensures
            r == self.start,
    {
        self.start
    }

    pub fn tags(&self) -> (r: &Vec<String>)
        ensures
            r@ == self.tags@,
    {
        &self.tags
    }
}

/// An event has more than one visible start.
pub open spec fn has_several(s: Set<(u128, Timestamp)>) -> bool {
    exists|x: (u128, Timestamp), y: (u128, Timestamp)| s.contains(x) && s.contains(y) && x != y
}

/// The tag names among tag pairs.
pub open spec fn tag_names(s: Set<(u128, Seq<char>)>) -> Set<Seq<char>> {
    Set::new(|t: Seq<char>| exists|p: u128| s.contains((p, t)))
}

/// What flattening an event gives: its single visible start and the names
/// of its visible tags, or why it has no single start.
pub open spec fn flatten_event(e: EventV) -> Result<EventFlatV, Error> {
    let s = visible_starts(e);
    if has_several(s) {
        Err(Error::MultipleStartTimes)
    } else if s == Set::<(u128, Timestamp)>::empty() {
        Err(Error::NoStartTimes)
    } else {
        Ok(
            EventFlatV {
                start: s.choose().1,
                tags: tag_names(visible_tags(e)),
            },
        )
    }
}

/// One event's merge state.
#[derive(Clone, Debug)]
pub struct PatchedEvent {
    starts_added: Vec<(u128, Timestamp)>,
    starts_removed: Vec<(u128, Timestamp)>,
    tags_added: Vec<(u128, String)>,
    tags_removed: Vec<(u128, String)>,
    /// The patches applied to this event that no patch applied after them
    /// has named as a predecessor.
    latest_patches: Vec<u128>,
}

impl View for PatchedEvent {
    type V = EventV;

    closed spec fn view(&self) -> EventV {
        EventV {
            starts_added: self.starts_added@.to_set(),
            starts_removed: self.starts_removed@.to_set(),
            tags_added: tag_pairs(self.tags_added@).to_set(),
            tags_removed: tag_pairs(self.tags_removed@).to_set(),
            latest: self.latest_patches@.to_set(),
        }
    }
}

fn contains_start(v: &Vec<(u128, Timestamp)>, p: u128, t: Timestamp) -> (r: bool)
    ensures
        r == v@.contains((p, t)),
{
    let mut i: usize = 0;
    while i < v.len()
        invariant
            i <= v.len(),
            forall|j: int| 0 <= j < i ==> v@[j] != (p, t),
        decreases v.len() - i,
    {
        if v[i].0 == p && v[i].1 == t {
            assert(v@[i as int] == (p, t));
            return true;
        }
        i = i + 1;
    }
    false
}

fn contains_tag(v: &Vec<(u128, String)>, p: u128, t: &String) -> (r: bool)
    ensures
        r == tag_pairs(v@).contains((p, t@)),
{
    let mut i: usize = 0;
    while i < v.len()
        invariant
            i <= v.len(),
            forall|j: int| 0 <= j < i ==> tag_pairs(v@)[j] != (p, t@),
        decreases v.len() - i,
    {
        if v[i].0 == p && v[i].1 == *t {
            assert(tag_pairs(v@)[i as int] == (p, t@));
            return true;
        }
        i = i + 1;
    }
    false
}

fn push_start(v: &mut Vec<(u128, Timestamp)>, p: u128, t: Timestamp)
    ensures
        final(v)@.to_set() == old(v)@.to_set().insert((p, t)),
{
    if !contains_start(v, p, t) {
        v.push((p, t));
        proof {
            assert(final(v)@ =~= old(v)@ + seq![(p, t)]);
            Seq::lemma_to_set_insert_commutes(old(v)@, (p, t));
        }
    } else {
        assert(old(v)@.to_set() =~= old(v)@.to_set().insert((p, t)));
    }
}

fn push_tag(v: &mut Vec<(u128, String)>, p: u128, t: String)
    ensures
        tag_pairs(final(v)@).to_set() == tag_pairs(old(v)@).to_set().insert((p, t@)),
{
    if !contains_tag(v, p, &t) {
        let ghost tv = t@;
        v.push((p, t));
        proof {
            assert(tag_pairs(final(v)@) =~= tag_pairs(old(v)@) + seq![(p, tv)]);
            Seq::lemma_to_set_insert_commutes(tag_pairs(old(v)@), (p, tv));
        }
    } else {
        assert(tag_pairs(old(v)@).to_set() =~= tag_pairs(old(v)@).to_set().insert((p, t@)));
    }
}

impl PatchedEvent {
    pub fn new() -> (r: PatchedEvent)
        ensures
            r@ == empty_event(),
    {
        let r = PatchedEvent {
            starts_added: Vec::new(),
            starts_removed: Vec::new(),
            tags_added: Vec::new(),
            tags_removed: Vec::new(),
            latest_patches: Vec::new(),
        };
        assert(r@.starts_added =~= Set::empty());
        assert(r@.starts_removed =~= Set::empty());
        assert(r@.tags_added =~= Set::empty());
        assert(r@.tags_removed =~= Set::empty());
        assert(r@.latest =~= Set::empty());
        r
    }

    /// Marks `patch` as superseded: a later patch has named it.
    pub fn remove_patch_from_latest(&mut self, patch: &u128)
        ensures
            final(self)@ == (EventV { latest: old(self)@.latest.remove(*patch), ..old(self)@ }),
    {
        remove_id(&mut self.latest_patches, *patch);
    }

    /// Marks `patch` as just applied to this event.
    pub fn add_patch_to_latest(&mut self, patch: u128)
        ensures
            final(self)@ == (EventV { latest: old(self)@.latest.insert(patch), ..old(self)@ }),
    {
        insert_id(&mut self.latest_patches, patch);
    }

    pub fn add_start(&mut self, patch: u128, datetime: Timestamp)
        ensures
            final(self)@ == (EventV {
                starts_added: old(self)@.starts_added.insert((patch, datetime)),
                ..old(self)@
            }),
    {
        push_start(&mut self.starts_added, patch, datetime);
    }

    pub fn remove_start(&mut self, patch: u128, datetime: Timestamp)
        ensures
            final(self)@ == (EventV {
                starts_removed: old(self)@.starts_removed.insert((patch, datetime)),
                ..old(self)@
            }),
    {
        push_start(&mut self.starts_removed, patch, datetime);
    }

    pub fn add_tag(&mut self, patch: u128, tag: String)
        ensures
            final(self)@ == (EventV {
                tags_added: old(self)@.tags_added.insert((patch, tag@)),
                ..old(self)@
            }),
    {
        push_tag(&mut self.tags_added, patch, tag);
    }

    pub fn remove_tag(&mut self, patch: u128, tag: String)
        ensures
            final(self)@ == (EventV {
                tags_removed: old(self)@.tags_removed.insert((patch, tag@)),
                ..old(self)@
            }),
    {
        push_tag(&mut self.tags_removed, patch, tag);
    }

    /// The starts that are added and not removed.
    pub fn starts(&self) -> (r: Vec<(u128, Timestamp)>)
        ensures
            r@.to_set() == visible_starts(self@),
    {
        let mut r: Vec<(u128, Timestamp)> = Vec::new();
        let mut i: usize = 0;
        while i < self.starts_added.len()
            invariant
                i <= self.starts_added.len(),
                forall|x: (u128, Timestamp)|
                    r@.contains(x) <==> (self.starts_added@.subrange(0, i as int).contains(x)
                        && !self.starts_removed@.contains(x)),
            decreases self.starts_added.len() - i,
        {
            let (p, t) = self.starts_added[i];
            proof {
                assert(self.starts_added@.subrange(0, i + 1) =~= self.starts_added@.subrange(
                    0,
                    i as int,
                ).push((p, t)));
            }
            if !contains_start(&self.starts_removed, p, t) {
                r.push((p, t));
            }
            i = i + 1;
        }
        proof {
            assert(self.starts_added@.subrange(0, i as int) =~= self.starts_added@);
            assert(r@.to_set() =~= visible_starts(self@));
        }
        r
    }

    /// The tags that are added and not removed.
    pub fn tags(&self) -> (r: Vec<(u128, String)>)
        ensures
            tag_pairs(r@).to_set() == visible_tags(self@),
    {
        let mut r: Vec<(u128, String)> = Vec::new();
        let mut i: usize = 0;
        while i < self.tags_added.len()
            invariant
                i <= self.tags_added.len(),
                forall|x: (u128, Seq<char>)|
                    tag_pairs(r@).contains(x) <==> (tag_pairs(self.tags_added@).subrange(
                        0,
                        i as int,
                    ).contains(x) && !tag_pairs(self.tags_removed@).contains(x)),
            decreases self.tags_added.len() - i,
        {
            let p = self.tags_added[i].0;
            let t = self.tags_added[i].1.clone();
            let ghost prev = tag_pairs(r@);
            proof {
                assert(tag_pairs(self.tags_added@).subrange(0, i + 1) =~= tag_pairs(
                    self.tags_added@,
                ).subrange(0, i as int).push((p, t@)));
            }
            if !contains_tag(&self.tags_removed, p, &t) {
                let ghost tv = t@;
                r.push((p, t));
                assert(tag_pairs(r@) =~= prev.push((p, tv)));
            }
            i = i + 1;
        }
        proof {
            assert(tag_pairs(self.tags_added@).subrange(0, i as int) =~= tag_pairs(
                self.tags_added@,
            ));
            assert(tag_pairs(r@).to_set() =~= visible_tags(self@));
        }
        r
    }

    pub fn latest_patches(&self) -> (r: Vec<u128>)
        ensures
            r@.to_set() == self@.latest,
    {
        let mut r: Vec<u128> = Vec::new();
        let mut i: usize = 0;
        while i < self.latest_patches.len()
            invariant
                i <= self.latest_patches.len(),
                r@ == self.latest_patches@.subrange(0, i as int),
            decreases self.latest_patches.len() - i,
        {
            r.push(self.latest_patches[i]);
            i = i + 1;
            assert(r@ =~= self.latest_patches@.subrange(0, i as int));
        }
        assert(r@ =~= self.latest_patches@);
        r
    }

    /// Collapses the event to its one start and its tag names; fails when it
    /// has several visible starts or none.
    pub fn flatten(&self) -> (r: Result<Event, Error>)
        ensures
            match (r, flatten_event(self@)) {
                (Ok(ev), Ok(fe)) => ev@ == fe,
                (Err(e), Err(fe)) => e == fe,
                _ => false,
            },
    {
        let s = self.starts();
        if s.len() == 0 {
            proof {
                assert(visible_starts(self@) =~= Set::<(u128, Timestamp)>::empty());
            }
            return Err(Error::NoStartTimes);
        }
        let first = s[0];
        assert(visible_starts(self@).contains(first));
        let mut j: usize = 1;
        while j < s.len()
            invariant
                1 <= j <= s.len(),
                s@.to_set() == visible_starts(self@),
                first == s@[0],
                forall|k: int| 0 <= k < j ==> s@[k] == first,
            decreases s.len() - j,
        {
            if s[j].0 != first.0 || s[j].1 != first.1 {
                assert(s@[j as int] != first);
                assert(s@.contains(s@[j as int]));
                assert(s@.contains(first));
                assert(visible_starts(self@).contains(s@[j as int]));
                assert(visible_starts(self@).contains(first));
                let ghost y = s@[j as int];
                assert(visible_starts(self@).contains(first) && visible_starts(self@).contains(y)
                    && first != y);
                assert(has_several(visible_starts(self@)));
                return Err(Error::MultipleStartTimes);
            }
            j = j + 1;
        }
        proof {
            assert(visible_starts(self@) =~= set![first]);
            assert(!has_several(visible_starts(self@)));
        }
        let tv = self.tags();
        let mut names: Vec<String> = Vec::new();
        let mut i: usize = 0;
        while i < tv.len()
            invariant
                i <= tv.len(),
                forall|t: Seq<char>|
                    strings(names@).contains(t) <==> (exists|k: int|
                        0 <= k < i && #[trigger] tag_pairs(tv@)[k].1 == t),
            decreases tv.len() - i,
        {
            let t = tv[i].1.clone();
            let ghost prev = strings(names@);
            assert(tag_pairs(tv@)[i as int].1 == t@);
            if !contains_string(&names, &t) {
                let ghost v = t@;
                names.push(t);
                assert(strings(names@) =~= prev.push(v));
            }
            i = i + 1;
        }
        proof {
            let vt = visible_tags(self@);
            assert forall|t: Seq<char>| #[trigger] strings(names@).to_set().contains(t)
                == tag_names(vt).contains(t) by {
                if strings(names@).contains(t) {
                    let k = choose|k: int| 0 <= k < i && #[trigger] tag_pairs(tv@)[k].1 == t;
                    assert(tag_pairs(tv@).to_set().contains(tag_pairs(tv@)[k]));
                }
                if tag_names(vt).contains(t) {
                    let p = choose|p: u128| vt.contains((p, t));
                    assert(tag_pairs(tv@).to_set().contains((p, t)));
                    let k = choose|k: int| 0 <= k < tag_pairs(tv@).len() && tag_pairs(tv@)[k] == (p, t);
                    assert(tag_pairs(tv@)[k].1 == t);
                }
            }
            assert(strings(names@).to_set() =~= tag_names(vt));
        }
        Ok(Event { start: first.1, tags: names })
    }
}

pub(crate) fn contains_string(v: &Vec<String>, t: &String) -> (r: bool)
    ensures
        r == strings(v@).contains(t@),
{
    let mut i: usize = 0;
    while i < v.len()
        invariant
            i <= v.len(),
            forall|j: int| 0 <= j < i ==> strings(v@)[j] != t@,
        decreases v.len() - i,
    {
        if v[i] == *t {
            assert(strings(v@)[i as int] == t@);
            return true;
        }
        i = i + 1;
    }
    false
}

impl Default for PatchedEvent {
    fn default() -> (r: PatchedEvent)
        ensures
            r@ == empty_event(),
    {
        PatchedEvent::new()
    }
}

} // verus!
