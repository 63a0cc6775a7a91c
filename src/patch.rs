//! Patches: immutable bundles of edit instructions, named by a patch id.
use vstd::prelude::*;
use crate::idset::{contains_id, insert_id};

verus! {

broadcast use vstd::seq_lib::group_seq_properties;

/// A point in time (UTC): whole seconds since the Unix epoch and the
/// nanoseconds past that second.
#[derive(Clone, Copy, Debug, PartialEq, Eq, Structural, Hash, PartialOrd, Ord)]
pub struct Timestamp {
    pub secs: i64,
    pub nanos: u32,
}

impl Timestamp {
    pub fn new(secs: i64, nanos: u32) -> (r: Timestamp)
        ensures
            r.secs == secs,
            r.nanos == nanos,
    {
        Timestamp { secs, nanos }
    }
}

/// Relies on uuid::Uuid::new_v4 and Uuid::as_u128: a random version-4
/// identifier as its 128-bit value. Only the version field (bits 76 to 79,
/// which hold 4) is known of it.
#[verifier::external_body]
fn random_patch_ref() -> (r: u128)
    ensures
        (r >> 76u128) & 0xfu128 == 4,
{
    uuid::Uuid::new_v4().as_u128()
}

/// The ids of a list, as a set.
pub open spec fn ids(v: Seq<u128>) -> Set<u128> {
    v.to_set()
}

/// An optional list of ids, as a set (absent means none).
pub open spec fn opt_ids(o: Option<Set<u128>>) -> Set<u128> {
    match o {
        Some(s) => s,
        None => Set::empty(),
    }
}

pub struct AddStartV {
    pub parents: Set<u128>,
    pub event: Seq<char>,
    pub time: Timestamp,
}

pub struct RemoveStartV {
    pub parents: Option<Set<u128>>,
    pub patch: u128,
    pub event: Seq<char>,
    pub time: Timestamp,
}

pub struct AddTagV {
    pub parents: Set<u128>,
    pub event: Seq<char>,
    pub tag: Seq<char>,
}

pub struct RemoveTagV {
    pub parents: Option<Set<u128>>,
    pub patch: u128,
    pub event: Seq<char>,
    pub tag: Seq<char>,
}

pub struct CreateEventV {
    pub event: Seq<char>,
    pub start: Timestamp,
    pub tags: Seq<Seq<char>>,
}

/// Proposes a start time for an event, superseding the patches in `parents`.
#[derive(Clone, Debug)]
pub struct AddStart {
    pub parents: Vec<u128>,
    pub event: String,
    pub time: Timestamp,
}

/// Tombstones the start `(patch, time)` of an event.
#[derive(Clone, Debug)]
pub struct RemoveStart {
    pub parents: Option<Vec<u128>>,
    pub patch: u128,
    pub event: String,
    pub time: Timestamp,
}

/// Adds a tag to an event, superseding the patches in `parents`.
#[derive(Clone, Debug)]
pub struct AddTag {
    pub parents: Vec<u128>,
    pub event: String,
    pub tag: String,
}

/// Tombstones the tag `(patch, tag)` of an event.
#[derive(Clone, Debug)]
pub struct RemoveTag {
    pub parents: Option<Vec<u128>>,
    pub patch: u128,
    pub event: String,
    pub tag: String,
}

/// Creates an event with its first start and tags.
#[derive(Clone, Debug)]
pub struct CreateEvent {
    pub event: String,
    pub start: Timestamp,
    pub tags: Vec<String>,
}

pub open spec fn opt_view(o: Option<Vec<u128>>) -> Option<Set<u128>> {
    match o {
        Some(v) => Some(ids(v@)),
        None => None,
    }
}

pub open spec fn tags_view(v: Seq<String>) -> Seq<Seq<char>> {
    v.map_values(|t: String| t@)
}

impl View for AddStart {
    type V = AddStartV;

    open spec fn view(&self) -> AddStartV {
        AddStartV { parents: ids(self.parents@), event: self.event@, time: self.time }
    }
}

impl View for RemoveStart {
    type V = RemoveStartV;

    open spec fn view(&self) -> RemoveStartV {
        RemoveStartV {
            parents: opt_view(self.parents),
            patch: self.patch,
            event: self.event@,
            time: self.time,
        }
    }
}

impl View for AddTag {
    type V = AddTagV;

    open spec fn view(&self) -> AddTagV {
        AddTagV { parents: ids(self.parents@), event: self.event@, tag: self.tag@ }
    }
}

impl View for RemoveTag {
    type V = RemoveTagV;

    open spec fn view(&self) -> RemoveTagV {
        RemoveTagV {
            parents: opt_view(self.parents),
            patch: self.patch,
            event: self.event@,
            tag: self.tag@,
        }
    }
}

impl View for CreateEvent {
    type V = CreateEventV;

    open spec fn view(&self) -> CreateEventV {
        CreateEventV { event: self.event@, start: self.start, tags: tags_view(self.tags@) }
    }
}

/// Every patch id that an instruction names as a predecessor.
pub open spec fn add_start_refs(i: AddStartV) -> Set<u128> {
    i.parents
}

pub open spec fn remove_start_refs(i: RemoveStartV) -> Set<u128> {
    opt_ids(i.parents).insert(i.patch)
}

pub open spec fn add_tag_refs(i: AddTagV) -> Set<u128> {
    i.parents
}

pub open spec fn remove_tag_refs(i: RemoveTagV) -> Set<u128> {
    opt_ids(i.parents).insert(i.patch)
}

/// The whole of a patch, as sets of instructions.
pub struct PatchV {
    pub id: u128,
    pub add_start: Set<AddStartV>,
    pub remove_start: Set<RemoveStartV>,
    pub add_tag: Set<AddTagV>,
    pub remove_tag: Set<RemoveTagV>,
    pub create_event: Set<CreateEventV>,
}

/// The ids that a patch names as predecessors, in any instruction.
pub open spec fn patch_parents(p: PatchV) -> Set<u128> {
    Set::new(
        |r: u128|
            (exists|i: AddStartV| p.add_start.contains(i) && add_start_refs(i).contains(r))
            || (exists|i: RemoveStartV|
                p.remove_start.contains(i) && remove_start_refs(i).contains(r))
            || (exists|i: AddTagV| p.add_tag.contains(i) && add_tag_refs(i).contains(r))
            || (exists|i: RemoveTagV| p.remove_tag.contains(i) && remove_tag_refs(i).contains(r)),
    )
}

/// One atomic edit. Each instruction kind is a set: inserting an instruction
/// that is already there changes nothing.
#[derive(Clone, Debug)]
pub struct Patch {
    pub id: u128,
    pub add_start: Vec<AddStart>,
    pub remove_start: Vec<RemoveStart>,
    pub add_tag: Vec<AddTag>,
    pub remove_tag: Vec<RemoveTag>,
    pub create_event: Vec<CreateEvent>,
}

impl View for Patch {
    type V = PatchV;

    open spec fn view(&self) -> PatchV {
        PatchV {
            id: self.id,
            add_start: self.add_start@.map_values(|i: AddStart| i@).to_set(),
            remove_start: self.remove_start@.map_values(|i: RemoveStart| i@).to_set(),
            add_tag: self.add_tag@.map_values(|i: AddTag| i@).to_set(),
            remove_tag: self.remove_tag@.map_values(|i: RemoveTag| i@).to_set(),
            create_event: self.create_event@.map_values(|i: CreateEvent| i@).to_set(),
        }
    }
}

/// The ids named by the first `n` add_start instructions.
pub open spec fn add_start_refs_upto(p: Patch, n: int) -> Set<u128> {
    Set::new(|r: u128| exists|j: int| 0 <= j < n && #[trigger] add_start_refs(p.add_start@[j]@).contains(r))
}

proof fn lemma_add_start_refs_all(p: Patch)
    ensures
        add_start_refs_upto(p, p.add_start@.len() as int) == Set::new(
            |r: u128| exists|i: AddStartV| p@.add_start.contains(i) && add_start_refs(i).contains(r),
        ),
{
    let s = p.add_start@.map_values(|x: AddStart| x@);
    assert forall|r: u128|
        #[trigger] add_start_refs_upto(p, p.add_start@.len() as int).contains(r) == (exists|i: AddStartV|
            p@.add_start.contains(i) && add_start_refs(i).contains(r)) by {
        if add_start_refs_upto(p, p.add_start@.len() as int).contains(r) {
            let j = choose|j: int| 0 <= j < p.add_start@.len() && #[trigger] add_start_refs(p.add_start@[j]@).contains(r);
            assert(s[j] == p.add_start@[j]@);
            assert(p@.add_start.contains(p.add_start@[j]@));
        }
        if exists|i: AddStartV| p@.add_start.contains(i) && add_start_refs(i).contains(r) {
            let i = choose|i: AddStartV| p@.add_start.contains(i) && add_start_refs(i).contains(r);
            assert(s.contains(i));
            let j = choose|j: int| 0 <= j < s.len() && #[trigger] s[j] == i;
            assert(p.add_start@[j]@ == i);
        }
    }
    assert(add_start_refs_upto(p, p.add_start@.len() as int) =~= Set::new(
        |r: u128| exists|i: AddStartV| p@.add_start.contains(i) && add_start_refs(i).contains(r),
    ));
}

/// The ids named by the first `n` remove_start instructions.
pub open spec fn remove_start_refs_upto(p: Patch, n: int) -> Set<u128> {
    Set::new(|r: u128| exists|j: int| 0 <= j < n && #[trigger] remove_start_refs(p.remove_start@[j]@).contains(r))
}

proof fn lemma_remove_start_refs_all(p: Patch)
    ensures
        remove_start_refs_upto(p, p.remove_start@.len() as int) == Set::new(
            |r: u128| exists|i: RemoveStartV| p@.remove_start.contains(i) && remove_start_refs(i).contains(r),
        ),
{
    let s = p.remove_start@.map_values(|x: RemoveStart| x@);
    assert forall|r: u128|
        #[trigger] remove_start_refs_upto(p, p.remove_start@.len() as int).contains(r) == (exists|i: RemoveStartV|
            p@.remove_start.contains(i) && remove_start_refs(i).contains(r)) by {
        if remove_start_refs_upto(p, p.remove_start@.len() as int).contains(r) {
            let j = choose|j: int| 0 <= j < p.remove_start@.len() && #[trigger] remove_start_refs(p.remove_start@[j]@).contains(r);
            assert(s[j] == p.remove_start@[j]@);
            assert(p@.remove_start.contains(p.remove_start@[j]@));
        }
        if exists|i: RemoveStartV| p@.remove_start.contains(i) && remove_start_refs(i).contains(r) {
            let i = choose|i: RemoveStartV| p@.remove_start.contains(i) && remove_start_refs(i).contains(r);
            assert(s.contains(i));
            let j = choose|j: int| 0 <= j < s.len() && #[trigger] s[j] == i;
            assert(p.remove_start@[j]@ == i);
        }
    }
    assert(remove_start_refs_upto(p, p.remove_start@.len() as int) =~= Set::new(
        |r: u128| exists|i: RemoveStartV| p@.remove_start.contains(i) && remove_start_refs(i).contains(r),
    ));
}

/// The ids named by the first `n` add_tag instructions.
pub open spec fn add_tag_refs_upto(p: Patch, n: int) -> Set<u128> {
    Set::new(|r: u128| exists|j: int| 0 <= j < n && #[trigger] add_tag_refs(p.add_tag@[j]@).contains(r))
}

proof fn lemma_add_tag_refs_all(p: Patch)
    ensures
        add_tag_refs_upto(p, p.add_tag@.len() as int) == Set::new(
            |r: u128| exists|i: AddTagV| p@.add_tag.contains(i) && add_tag_refs(i).contains(r),
        ),
{
    let s = p.add_tag@.map_values(|x: AddTag| x@);
    assert forall|r: u128|
        #[trigger] add_tag_refs_upto(p, p.add_tag@.len() as int).contains(r) == (exists|i: AddTagV|
            p@.add_tag.contains(i) && add_tag_refs(i).contains(r)) by {
        if add_tag_refs_upto(p, p.add_tag@.len() as int).contains(r) {
            let j = choose|j: int| 0 <= j < p.add_tag@.len() && #[trigger] add_tag_refs(p.add_tag@[j]@).contains(r);
            assert(s[j] == p.add_tag@[j]@);
            assert(p@.add_tag.contains(p.add_tag@[j]@));
        }
        if exists|i: AddTagV| p@.add_tag.contains(i) && add_tag_refs(i).contains(r) {
            let i = choose|i: AddTagV| p@.add_tag.contains(i) && add_tag_refs(i).contains(r);
            assert(s.contains(i));
            let j = choose|j: int| 0 <= j < s.len() && #[trigger] s[j] == i;
            assert(p.add_tag@[j]@ == i);
        }
    }
    assert(add_tag_refs_upto(p, p.add_tag@.len() as int) =~= Set::new(
        |r: u128| exists|i: AddTagV| p@.add_tag.contains(i) && add_tag_refs(i).contains(r),
    ));
}

/// The ids named by the first `n` remove_tag instructions.
pub open spec fn remove_tag_refs_upto(p: Patch, n: int) -> Set<u128> {
    Set::new(|r: u128| exists|j: int| 0 <= j < n && #[trigger] remove_tag_refs(p.remove_tag@[j]@).contains(r))
}

proof fn lemma_remove_tag_refs_all(p: Patch)
    ensures
        remove_tag_refs_upto(p, p.remove_tag@.len() as int) == Set::new(
            |r: u128| exists|i: RemoveTagV| p@.remove_tag.contains(i) && remove_tag_refs(i).contains(r),
        ),
{
    let s = p.remove_tag@.map_values(|x: RemoveTag| x@);
    assert forall|r: u128|
        #[trigger] remove_tag_refs_upto(p, p.remove_tag@.len() as int).contains(r) == (exists|i: RemoveTagV|
            p@.remove_tag.contains(i) && remove_tag_refs(i).contains(r)) by {
        if remove_tag_refs_upto(p, p.remove_tag@.len() as int).contains(r) {
            let j = choose|j: int| 0 <= j < p.remove_tag@.len() && #[trigger] remove_tag_refs(p.remove_tag@[j]@).contains(r);
            assert(s[j] == p.remove_tag@[j]@);
            assert(p@.remove_tag.contains(p.remove_tag@[j]@));
        }
        if exists|i: RemoveTagV| p@.remove_tag.contains(i) && remove_tag_refs(i).contains(r) {
            let i = choose|i: RemoveTagV| p@.remove_tag.contains(i) && remove_tag_refs(i).contains(r);
            assert(s.contains(i));
            let j = choose|j: int| 0 <= j < s.len() && #[trigger] s[j] == i;
            assert(p.remove_tag@[j]@ == i);
        }
    }
    assert(remove_tag_refs_upto(p, p.remove_tag@.len() as int) =~= Set::new(
        |r: u128| exists|i: RemoveTagV| p@.remove_tag.contains(i) && remove_tag_refs(i).contains(r),
    ));
}

/// Adds every id of `v` to `acc`.
fn add_ids(acc: &mut Vec<u128>, v: &Vec<u128>)
    ensures
        final(acc)@.to_set() == old(acc)@.to_set().union(v@.to_set()),
        old(acc)@.no_duplicates() ==> final(acc)@.no_duplicates(),
{
    let mut j: usize = 0;
    while j < v.len()
        invariant
            j <= v.len(),
            acc@.to_set() == old(acc)@.to_set().union(v@.subrange(0, j as int).to_set()),
            old(acc)@.no_duplicates() ==> acc@.no_duplicates(),
        decreases v.len() - j,
    {
        insert_id(acc, v[j]);
        proof {
            assert(v@.subrange(0, j + 1) =~= v@.subrange(0, j as int) + seq![v@[j as int]]);
            Seq::lemma_to_set_insert_commutes(v@.subrange(0, j as int), v@[j as int]);
        }
        j = j + 1;
        assert(acc@.to_set() =~= old(acc)@.to_set().union(v@.subrange(0, j as int).to_set()));
    }
    assert(v@.subrange(0, j as int) =~= v@);
}

fn add_opt_ids(acc: &mut Vec<u128>, o: &Option<Vec<u128>>)
    ensures
        final(acc)@.to_set() == old(acc)@.to_set().union(opt_ids(opt_view(*o))),
        old(acc)@.no_duplicates() ==> final(acc)@.no_duplicates(),
{
    match o {
        Some(v) => add_ids(acc, v),
        None => {
            assert(old(acc)@.to_set().union(Set::empty()) =~= old(acc)@.to_set());
        },
    }
}

impl Patch {
    /// Every patch id that the patch names as a predecessor: the parents of
    /// every instruction and the patch of every removal.
    pub fn parents(&self) -> (r: Vec<u128>)
        ensures
            r@.to_set() == patch_parents(self@),
            r@.no_duplicates(),
    {
        let mut r: Vec<u128> = Vec::new();
        let ghost before = r@.to_set();
        let mut i: usize = 0;
        assert(add_start_refs_upto(*self, 0) =~= Set::empty());
        assert(before.union(Set::empty()) =~= before);
        while i < self.add_start.len()
            invariant
                i <= self.add_start.len(),
                r@.no_duplicates(),
                r@.to_set() == before.union(add_start_refs_upto(*self, i as int)),
            decreases self.add_start.len() - i,
        {
            add_ids(&mut r, &self.add_start[i].parents);
            assert(add_start_refs_upto(*self, i + 1) =~= add_start_refs_upto(*self, i as int).union(
                add_start_refs(self.add_start@[i as int]@),
            ));
            i = i + 1;
            assert(r@.to_set() =~= before.union(add_start_refs_upto(*self, i as int)));
        }
        let ghost add_start_done = add_start_refs_upto(*self, i as int);
        proof {
            lemma_add_start_refs_all(*self);
        }
        let ghost before = r@.to_set();
        let mut i: usize = 0;
        assert(remove_start_refs_upto(*self, 0) =~= Set::empty());
        assert(before.union(Set::empty()) =~= before);
        while i < self.remove_start.len()
            invariant
                i <= self.remove_start.len(),
                r@.no_duplicates(),
                r@.to_set() == before.union(remove_start_refs_upto(*self, i as int)),
            decreases self.remove_start.len() - i,
        {
            insert_id(&mut r, self.remove_start[i].patch);
            add_opt_ids(&mut r, &self.remove_start[i].parents);
            assert(opt_ids(self.remove_start@[i as int]@.parents).insert(self.remove_start@[i as int].patch) =~= remove_start_refs(self.remove_start@[i as int]@));
            assert(remove_start_refs_upto(*self, i + 1) =~= remove_start_refs_upto(*self, i as int).union(
                remove_start_refs(self.remove_start@[i as int]@),
            ));
            i = i + 1;
            assert(r@.to_set() =~= before.union(remove_start_refs_upto(*self, i as int)));
        }
        let ghost remove_start_done = remove_start_refs_upto(*self, i as int);
        proof {
            lemma_remove_start_refs_all(*self);
        }
        let ghost before = r@.to_set();
        let mut i: usize = 0;
        assert(add_tag_refs_upto(*self, 0) =~= Set::empty());
        assert(before.union(Set::empty()) =~= before);
        while i < self.add_tag.len()
            invariant
                i <= self.add_tag.len(),
                r@.no_duplicates(),
                r@.to_set() == before.union(add_tag_refs_upto(*self, i as int)),
            decreases self.add_tag.len() - i,
        {
            add_ids(&mut r, &self.add_tag[i].parents);
            assert(add_tag_refs_upto(*self, i + 1) =~= add_tag_refs_upto(*self, i as int).union(
                add_tag_refs(self.add_tag@[i as int]@),
            ));
            i = i + 1;
            assert(r@.to_set() =~= before.union(add_tag_refs_upto(*self, i as int)));
        }
        let ghost add_tag_done = add_tag_refs_upto(*self, i as int);
        proof {
            lemma_add_tag_refs_all(*self);
        }
        let ghost before = r@.to_set();
        let mut i: usize = 0;
        assert(remove_tag_refs_upto(*self, 0) =~= Set::empty());
        assert(before.union(Set::empty()) =~= before);
        while i < self.remove_tag.len()
            invariant
                i <= self.remove_tag.len(),
                r@.no_duplicates(),
                r@.to_set() == before.union(remove_tag_refs_upto(*self, i as int)),
            decreases self.remove_tag.len() - i,
        {
            insert_id(&mut r, self.remove_tag[i].patch);
            add_opt_ids(&mut r, &self.remove_tag[i].parents);
            assert(opt_ids(self.remove_tag@[i as int]@.parents).insert(self.remove_tag@[i as int].patch) =~= remove_tag_refs(self.remove_tag@[i as int]@));
            assert(remove_tag_refs_upto(*self, i + 1) =~= remove_tag_refs_upto(*self, i as int).union(
                remove_tag_refs(self.remove_tag@[i as int]@),
            ));
            i = i + 1;
            assert(r@.to_set() =~= before.union(remove_tag_refs_upto(*self, i as int)));
        }
        let ghost remove_tag_done = remove_tag_refs_upto(*self, i as int);
        proof {
            lemma_remove_tag_refs_all(*self);
        }
        proof {
            assert(r@.to_set() =~= patch_parents(self@));
        }
        r
    }
}

pub open spec fn empty_patch(id: u128) -> PatchV {
    PatchV {
        id,
        add_start: Set::empty(),
        remove_start: Set::empty(),
        add_tag: Set::empty(),
        remove_tag: Set::empty(),
        create_event: Set::empty(),
    }
}

proof fn lemma_push_view<A: View>(s: Seq<A>, x: A)
    ensures
        s.push(x).map_values(|i: A| i@).to_set() == s.map_values(|i: A| i@).to_set().insert(x@),
{
    assert(s.push(x).map_values(|i: A| i@) =~= s.map_values(|i: A| i@) + seq![x@]);
    Seq::lemma_to_set_insert_commutes(s.map_values(|i: A| i@), x@);
}

fn same_strings(a: &Vec<String>, b: &Vec<String>) -> (r: bool)
    ensures
        r == (tags_view(a@) == tags_view(b@)),
{
    if a.len() != b.len() {
        return false;
    }
    let mut i: usize = 0;
    while i < a.len()
        invariant
            i <= a.len(),
            a@.len() == b@.len(),
            forall|j: int| 0 <= j < i ==> a@[j]@ == b@[j]@,
        decreases a.len() - i,
    {
        if a[i] != b[i] {
            assert(tags_view(a@)[i as int] != tags_view(b@)[i as int]);
            return false;
        }
        i = i + 1;
    }
    assert(tags_view(a@) =~= tags_view(b@));
    true
}

fn same_create(a: &CreateEvent, b: &CreateEvent) -> (r: bool)
    ensures
        r == (a@ == b@),
{
    a.event == b.event && a.start == b.start && same_strings(&a.tags, &b.tags)
}

impl Patch {
    /// An empty patch with a fresh random (version-4) id.
    pub fn new() -> (r: Patch)
        ensures
            r@ == empty_patch(r.id),
            (r.id >> 76u128) & 0xfu128 == 4,
    {
        Patch::with_id(random_patch_ref())
    }

    /// An empty patch with the given id.
    pub fn with_id(id: u128) -> (r: Patch)
        ensures
            r@ == empty_patch(id),
    {
        let r = Patch {
            id,
            add_start: Vec::new(),
            remove_start: Vec::new(),
            add_tag: Vec::new(),
            remove_tag: Vec::new(),
            create_event: Vec::new(),
        };
        assert(r@.add_start =~= Set::empty());
        assert(r@.remove_start =~= Set::empty());
        assert(r@.add_tag =~= Set::empty());
        assert(r@.remove_tag =~= Set::empty());
        assert(r@.create_event =~= Set::empty());
        r
    }

    pub fn patch_ref(&self) -> (r: u128)
        ensures
            r == self.id,
    {
        self.id
    }

    pub fn insert_add_start(&mut self, add_start: AddStart)
        ensures
            final(self)@ == (PatchV { add_start: old(self)@.add_start.insert(add_start@), ..old(self)@ }),
    {
        proof {
            lemma_push_view(self.add_start@, add_start);
        }
        self.add_start.push(add_start);
    }

    pub fn insert_remove_start(&mut self, remove_start: RemoveStart)
        ensures
            final(self)@ == (PatchV {
                remove_start: old(self)@.remove_start.insert(remove_start@),
                ..old(self)@
            }),
    {
        proof {
            lemma_push_view(self.remove_start@, remove_start);
        }
        self.remove_start.push(remove_start);
    }

    pub fn insert_add_tag(&mut self, add_tag: AddTag)
        ensures
            final(self)@ == (PatchV { add_tag: old(self)@.add_tag.insert(add_tag@), ..old(self)@ }),
    {
        proof {
            lemma_push_view(self.add_tag@, add_tag);
        }
        self.add_tag.push(add_tag);
    }

    pub fn insert_remove_tag(&mut self, remove_tag: RemoveTag)
        ensures
            final(self)@ == (PatchV {
                remove_tag: old(self)@.remove_tag.insert(remove_tag@),
                ..old(self)@
            }),
    {
        proof {
            lemma_push_view(self.remove_tag@, remove_tag);
        }
        self.remove_tag.push(remove_tag);
    }

    /// Adds a creation unless the same one is there already, so that the
    /// list holds each creation once.
    pub fn insert_create_event(&mut self, create_event: CreateEvent)
        ensures
            final(self)@ == (PatchV {
                create_event: old(self)@.create_event.insert(create_event@),
                ..old(self)@
            }),
            old(self).create_event@.map_values(|c: CreateEvent| c@).no_duplicates()
                ==> final(self).create_event@.map_values(|c: CreateEvent| c@).no_duplicates(),
    {
        let mut i: usize = 0;
        while i < self.create_event.len()
            invariant
                i <= self.create_event.len(),
                forall|j: int| 0 <= j < i ==> self.create_event@[j]@ != create_event@,
            decreases self.create_event.len() - i,
        {
            if same_create(&self.create_event[i], &create_event) {
                proof {
                    let s = self.create_event@.map_values(|c: CreateEvent| c@);
                    assert(s[i as int] == create_event@);
                    assert(s.to_set().insert(create_event@) =~= s.to_set());
                }
                return;
            }
            i = i + 1;
        }
        proof {
            lemma_push_view(self.create_event@, create_event);
            assert(self.create_event@.push(create_event).map_values(|c: CreateEvent| c@)
                =~= self.create_event@.map_values(|c: CreateEvent| c@).push(create_event@));
        }
        self.create_event.push(create_event);
    }

    /// Adds a start, superseding the patch `parent`.
    pub fn add_start(self, parent: u128, event: String, time: Timestamp) -> (r: Patch)
        ensures
            r@ == (PatchV {
                add_start: self@.add_start.insert(
                    AddStartV { parents: set![parent], event: event@, time },
                ),
                ..self@
            }),
    {
        let ins = AddStart { parents: vec![parent], event, time };
        assert(ids(ins.parents@) =~= set![parent]);
        let mut r = self;
        r.insert_add_start(ins);
        r
    }

    /// Removes the start `(patch, time)`.
    pub fn remove_start(self, patch: u128, event: String, time: Timestamp) -> (r: Patch)
        ensures
            r@ == (PatchV {
                remove_start: self@.remove_start.insert(
                    RemoveStartV { parents: None, patch, event: event@, time },
                ),
                ..self@
            }),
    {
        let mut r = self;
        r.insert_remove_start(RemoveStart { parents: None, patch, event, time });
        r
    }

    /// Adds a tag, superseding the patch `parent`.
    pub fn add_tag(self, parent: u128, event: String, tag: String) -> (r: Patch)
        ensures
            r@ == (PatchV {
                add_tag: self@.add_tag.insert(AddTagV { parents: set![parent], event: event@, tag: tag@ }),
                ..self@
            }),
    {
        let ins = AddTag { parents: vec![parent], event, tag };
        assert(ids(ins.parents@) =~= set![parent]);
        let mut r = self;
        r.insert_add_tag(ins);
        r
    }

    /// Removes the tag `(patch, tag)`.
    pub fn remove_tag(self, patch: u128, event: String, tag: String) -> (r: Patch)
        ensures
            r@ == (PatchV {
                remove_tag: self@.remove_tag.insert(
                    RemoveTagV { parents: None, patch, event: event@, tag: tag@ },
                ),
                ..self@
            }),
    {
        let mut r = self;
        r.insert_remove_tag(RemoveTag { parents: None, patch, event, tag });
        r
    }

    /// Creates an event with a start and tags.
    pub fn create_event(self, event: String, start: Timestamp, tags: Vec<String>) -> (r: Patch)
        ensures
            r@ == (PatchV {
                create_event: self@.create_event.insert(
                    CreateEventV { event: event@, start, tags: tags_view(tags@) },
                ),
                ..self@
            }),
    {
        let mut r = self;
        r.insert_create_event(CreateEvent { event, start, tags });
        r
    }
}

impl Default for Patch {
    fn default() -> (r: Patch)
        ensures
            r@ == empty_patch(r.id),
    {
        Patch::new()
    }
}

impl AddStart {
    pub fn parents(&self) -> (r: Vec<u128>)
        ensures
            r@.to_set() == add_start_refs(self@),
            r@.no_duplicates(),
    {
        let mut r: Vec<u128> = Vec::new();
        add_ids(&mut r, &self.parents);
        assert(Set::<u128>::empty().union(ids(self.parents@)) =~= ids(self.parents@));
        r
    }
}

impl RemoveStart {
    /// The named parents, without the removed start's own patch.
    pub fn parents(&self) -> (r: Vec<u128>)
        ensures
            r@.to_set() == opt_ids(self@.parents),
            r@.no_duplicates(),
    {
        let mut r: Vec<u128> = Vec::new();
        add_opt_ids(&mut r, &self.parents);
        assert(Set::<u128>::empty().union(opt_ids(self@.parents)) =~= opt_ids(self@.parents));
        r
    }
}

impl AddTag {
    pub fn parents(&self) -> (r: Vec<u128>)
        ensures
            r@.to_set() == add_tag_refs(self@),
            r@.no_duplicates(),
    {
        let mut r: Vec<u128> = Vec::new();
        add_ids(&mut r, &self.parents);
        assert(Set::<u128>::empty().union(ids(self.parents@)) =~= ids(self.parents@));
        r
    }
}

impl RemoveTag {
    /// The named parents, without the removed tag's own patch.
    pub fn parents(&self) -> (r: Vec<u128>)
        ensures
            r@.to_set() == opt_ids(self@.parents),
            r@.no_duplicates(),
    {
        let mut r: Vec<u128> = Vec::new();
        add_opt_ids(&mut r, &self.parents);
        assert(Set::<u128>::empty().union(opt_ids(self@.parents)) =~= opt_ids(self@.parents));
        r
    }
}

/// Whether two lists hold the same ids.
fn same_ids(a: &Vec<u128>, b: &Vec<u128>) -> (r: bool)
    ensures
        r == (ids(a@) == ids(b@)),
{
    let mut i: usize = 0;
    while i < a.len()
        invariant
            i <= a.len(),
            forall|j: int| 0 <= j < i ==> b@.contains(#[trigger] a@[j]),
        decreases a.len() - i,
    {
        if !contains_id(b, a[i]) {
            assert(ids(a@).contains(a@[i as int]));
            return false;
        }
        i = i + 1;
    }
    let mut k: usize = 0;
    while k < b.len()
        invariant
            k <= b.len(),
            forall|j: int| 0 <= j < a@.len() ==> b@.contains(#[trigger] a@[j]),
            forall|j: int| 0 <= j < k ==> a@.contains(#[trigger] b@[j]),
        decreases b.len() - k,
    {
        if !contains_id(a, b[k]) {
            assert(ids(b@).contains(b@[k as int]));
            return false;
        }
        k = k + 1;
    }
    assert(ids(a@) =~= ids(b@));
    true
}

fn same_opt_ids(a: &Option<Vec<u128>>, b: &Option<Vec<u128>>) -> (r: bool)
    ensures
        r == (opt_view(*a) == opt_view(*b)),
{
    match (a, b) {
        (Some(x), Some(y)) => same_ids(x, y),
        (None, None) => true,
        _ => false,
    }
}

fn same_add_start(a: &AddStart, b: &AddStart) -> (r: bool)
    ensures
        r == (a@ == b@),
{
    same_ids(&a.parents, &b.parents) && a.event == b.event && a.time == b.time
}

fn same_remove_start(a: &RemoveStart, b: &RemoveStart) -> (r: bool)
    ensures
        r == (a@ == b@),
{
    same_opt_ids(&a.parents, &b.parents) && a.patch == b.patch && a.event == b.event && a.time
        == b.time
}

fn same_add_tag(a: &AddTag, b: &AddTag) -> (r: bool)
    ensures
        r == (a@ == b@),
{
    same_ids(&a.parents, &b.parents) && a.event == b.event && a.tag == b.tag
}

fn same_remove_tag(a: &RemoveTag, b: &RemoveTag) -> (r: bool)
    ensures
        r == (a@ == b@),
{
    same_opt_ids(&a.parents, &b.parents) && a.patch == b.patch && a.event == b.event && a.tag
        == b.tag
}

/// Whether every instruction of `a` is also in `b`.
fn within_add_start(a: &Vec<AddStart>, b: &Vec<AddStart>) -> (r: bool)
    ensures
        r == a@.map_values(|i: AddStart| i@).to_set().subset_of(b@.map_values(|i: AddStart| i@).to_set()),
{
    let ghost sa = a@.map_values(|i: AddStart| i@);
    let ghost sb = b@.map_values(|i: AddStart| i@);
    let mut i: usize = 0;
    while i < a.len()
        invariant
            i <= a.len(),
            sa == a@.map_values(|i: AddStart| i@),
            sb == b@.map_values(|i: AddStart| i@),
            forall|j: int| 0 <= j < i ==> sb.contains(#[trigger] sa[j]),
        decreases a.len() - i,
    {
        let mut k: usize = 0;
        let mut found = false;
        while k < b.len()
            invariant
                k <= b.len(),
                i < a.len(),
                sa == a@.map_values(|i: AddStart| i@),
                sb == b@.map_values(|i: AddStart| i@),
                found ==> sb.contains(sa[i as int]),
                !found ==> forall|j: int| 0 <= j < k ==> sb[j] != sa[i as int],
            decreases b.len() - k,
        {
            if !found && same_add_start(&a[i], &b[k]) {
                found = true;
                assert(sb[k as int] == sa[i as int]);
            }
            k = k + 1;
        }
        if !found {
            proof {
                assert(sa.to_set().contains(sa[i as int]));
                assert(!sb.to_set().contains(sa[i as int]));
            }
            return false;
        }
        i = i + 1;
    }
    proof {
        assert forall|x| sa.to_set().contains(x) implies sb.to_set().contains(x) by {
            let j = choose|j: int| 0 <= j < sa.len() && sa[j] == x;
            assert(sb.contains(sa[j]));
        }
    }
    true
}

/// Whether every instruction of `a` is also in `b`.
fn within_remove_start(a: &Vec<RemoveStart>, b: &Vec<RemoveStart>) -> (r: bool)
    ensures
        r == a@.map_values(|i: RemoveStart| i@).to_set().subset_of(b@.map_values(|i: RemoveStart| i@).to_set()),
{
    let ghost sa = a@.map_values(|i: RemoveStart| i@);
    let ghost sb = b@.map_values(|i: RemoveStart| i@);
    let mut i: usize = 0;
    while i < a.len()
        invariant
            i <= a.len(),
            sa == a@.map_values(|i: RemoveStart| i@),
            sb == b@.map_values(|i: RemoveStart| i@),
            forall|j: int| 0 <= j < i ==> sb.contains(#[trigger] sa[j]),
        decreases a.len() - i,
    {
        let mut k: usize = 0;
        let mut found = false;
        while k < b.len()
            invariant
                k <= b.len(),
                i < a.len(),
                sa == a@.map_values(|i: RemoveStart| i@),
                sb == b@.map_values(|i: RemoveStart| i@),
                found ==> sb.contains(sa[i as int]),
                !found ==> forall|j: int| 0 <= j < k ==> sb[j] != sa[i as int],
            decreases b.len() - k,
        {
            if !found && same_remove_start(&a[i], &b[k]) {
                found = true;
                assert(sb[k as int] == sa[i as int]);
            }
            k = k + 1;
        }
        if !found {
            proof {
                assert(sa.to_set().contains(sa[i as int]));
                assert(!sb.to_set().contains(sa[i as int]));
            }
            return false;
        }
        i = i + 1;
    }
    proof {
        assert forall|x| sa.to_set().contains(x) implies sb.to_set().contains(x) by {
            let j = choose|j: int| 0 <= j < sa.len() && sa[j] == x;
            assert(sb.contains(sa[j]));
        }
    }
    true
}

/// Whether every instruction of `a` is also in `b`.
fn within_add_tag(a: &Vec<AddTag>, b: &Vec<AddTag>) -> (r: bool)
    ensures
        r == a@.map_values(|i: AddTag| i@).to_set().subset_of(b@.map_values(|i: AddTag| i@).to_set()),
{
    let ghost sa = a@.map_values(|i: AddTag| i@);
    let ghost sb = b@.map_values(|i: AddTag| i@);
    let mut i: usize = 0;
    while i < a.len()
        invariant
            i <= a.len(),
            sa == a@.map_values(|i: AddTag| i@),
            sb == b@.map_values(|i: AddTag| i@),
            forall|j: int| 0 <= j < i ==> sb.contains(#[trigger] sa[j]),
        decreases a.len() - i,
    {
        let mut k: usize = 0;
        let mut found = false;
        while k < b.len()
            invariant
                k <= b.len(),
                i < a.len(),
                sa == a@.map_values(|i: AddTag| i@),
                sb == b@.map_values(|i: AddTag| i@),
                found ==> sb.contains(sa[i as int]),
                !found ==> forall|j: int| 0 <= j < k ==> sb[j] != sa[i as int],
            decreases b.len() - k,
        {
            if !found && same_add_tag(&a[i], &b[k]) {
                found = true;
                assert(sb[k as int] == sa[i as int]);
            }
            k = k + 1;
        }
        if !found {
            proof {
                assert(sa.to_set().contains(sa[i as int]));
                assert(!sb.to_set().contains(sa[i as int]));
            }
            return false;
        }
        i = i + 1;
    }
    proof {
        assert forall|x| sa.to_set().contains(x) implies sb.to_set().contains(x) by {
            let j = choose|j: int| 0 <= j < sa.len() && sa[j] == x;
            assert(sb.contains(sa[j]));
        }
    }
    true
}

/// Whether every instruction of `a` is also in `b`.
fn within_remove_tag(a: &Vec<RemoveTag>, b: &Vec<RemoveTag>) -> (r: bool)
    ensures
        r == a@.map_values(|i: RemoveTag| i@).to_set().subset_of(b@.map_values(|i: RemoveTag| i@).to_set()),
{
    let ghost sa = a@.map_values(|i: RemoveTag| i@);
    let ghost sb = b@.map_values(|i: RemoveTag| i@);
    let mut i: usize = 0;
    while i < a.len()
        invariant
            i <= a.len(),
            sa == a@.map_values(|i: RemoveTag| i@),
            sb == b@.map_values(|i: RemoveTag| i@),
            forall|j: int| 0 <= j < i ==> sb.contains(#[trigger] sa[j]),
        decreases a.len() - i,
    {
        let mut k: usize = 0;
        let mut found = false;
        while k < b.len()
            invariant
                k <= b.len(),
                i < a.len(),
                sa == a@.map_values(|i: RemoveTag| i@),
                sb == b@.map_values(|i: RemoveTag| i@),
                found ==> sb.contains(sa[i as int]),
                !found ==> forall|j: int| 0 <= j < k ==> sb[j] != sa[i as int],
            decreases b.len() - k,
        {
            if !found && same_remove_tag(&a[i], &b[k]) {
                found = true;
                assert(sb[k as int] == sa[i as int]);
            }
            k = k + 1;
        }
        if !found {
            proof {
                assert(sa.to_set().contains(sa[i as int]));
                assert(!sb.to_set().contains(sa[i as int]));
            }
            return false;
        }
        i = i + 1;
    }
    proof {
        assert forall|x| sa.to_set().contains(x) implies sb.to_set().contains(x) by {
            let j = choose|j: int| 0 <= j < sa.len() && sa[j] == x;
            assert(sb.contains(sa[j]));
        }
    }
    true
}

/// Whether every instruction of `a` is also in `b`.
fn within_create_event(a: &Vec<CreateEvent>, b: &Vec<CreateEvent>) -> (r: bool)
    ensures
        r == a@.map_values(|i: CreateEvent| i@).to_set().subset_of(b@.map_values(|i: CreateEvent| i@).to_set()),
{
    let ghost sa = a@.map_values(|i: CreateEvent| i@);
    let ghost sb = b@.map_values(|i: CreateEvent| i@);
    let mut i: usize = 0;
    while i < a.len()
        invariant
            i <= a.len(),
            sa == a@.map_values(|i: CreateEvent| i@),
            sb == b@.map_values(|i: CreateEvent| i@),
            forall|j: int| 0 <= j < i ==> sb.contains(#[trigger] sa[j]),
        decreases a.len() - i,
    {
        let mut k: usize = 0;
        let mut found = false;
        while k < b.len()
            invariant
                k <= b.len(),
                i < a.len(),
                sa == a@.map_values(|i: CreateEvent| i@),
                sb == b@.map_values(|i: CreateEvent| i@),
                found ==> sb.contains(sa[i as int]),
                !found ==> forall|j: int| 0 <= j < k ==> sb[j] != sa[i as int],
            decreases b.len() - k,
        {
            if !found && same_create(&a[i], &b[k]) {
                found = true;
                assert(sb[k as int] == sa[i as int]);
            }
            k = k + 1;
        }
        if !found {
            proof {
                assert(sa.to_set().contains(sa[i as int]));
                assert(!sb.to_set().contains(sa[i as int]));
            }
            return false;
        }
        i = i + 1;
    }
    proof {
        assert forall|x| sa.to_set().contains(x) implies sb.to_set().contains(x) by {
            let j = choose|j: int| 0 <= j < sa.len() && sa[j] == x;
            assert(sb.contains(sa[j]));
        }
    }
    true
}

/// Two patches are equal when their ids and their instruction sets are.
impl PartialEq for Patch {
    fn eq(&self, other: &Patch) -> (r: bool) {
        let r = self.id == other.id && within_add_start(&self.add_start, &other.add_start)
            && within_add_start(&other.add_start, &self.add_start) && within_remove_start(
            &self.remove_start,
            &other.remove_start,
        ) && within_remove_start(&other.remove_start, &self.remove_start) && within_add_tag(
            &self.add_tag,
            &other.add_tag,
        ) && within_add_tag(&other.add_tag, &self.add_tag) && within_remove_tag(
            &self.remove_tag,
            &other.remove_tag,
        ) && within_remove_tag(&other.remove_tag, &self.remove_tag) && within_create_event(
            &self.create_event,
            &other.create_event,
        ) && within_create_event(&other.create_event, &self.create_event);
        proof {
            if r {
                assert(self@.add_start =~= other@.add_start);
                assert(self@.remove_start =~= other@.remove_start);
                assert(self@.add_tag =~= other@.add_tag);
                assert(self@.remove_tag =~= other@.remove_tag);
                assert(self@.create_event =~= other@.create_event);
            }
        }
        r
    }
}

impl vstd::std_specs::cmp::PartialEqSpecImpl for Patch {
    open spec fn obeys_eq_spec() -> bool {
        true
    }

    open spec fn eq_spec(&self, other: &Patch) -> bool {
        self@ == other@
    }
}

} // verus!
