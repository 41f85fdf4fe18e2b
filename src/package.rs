//! The package record: its fields, their value kinds, and the metadata map.

use vstd::prelude::*;

verus! {

/// The recognized metadata fields of a package record.
#[derive(Clone, Copy, Debug, PartialEq, Eq, Hash)]
pub enum Entry {
    Base,
    Description,
    Url,
    BuildDate,
    Packager,
    InstallSize,
    Groups,
    License,
    Replaces,
    Depends,
    Conflicts,
    Provides,
    OptDepends,
    MakeDepends,
    CheckDepends,
    Backups,
    BuildOptions,
    BuildDirectory,
    BuildEnvironment,
    SHA256Sum,
    BuildInstalled,
}

/// The shape of the value that a metadata field holds.
#[derive(Clone, Copy, Debug, PartialEq, Eq)]
pub enum ValueKind {
    Text,
    Size,
    Timestamp,
    List,
}

/// Number of distinct metadata fields.
pub const ENTRY_COUNT: usize = 21;

pub open spec fn kind_of(e: Entry) -> ValueKind {
    match e {
        Entry::Base | Entry::Description | Entry::Url | Entry::Packager
        | Entry::BuildDirectory | Entry::SHA256Sum => ValueKind::Text,
        Entry::InstallSize => ValueKind::Size,
        Entry::BuildDate => ValueKind::Timestamp,
        _ => ValueKind::List,
    }
}

/// The fixed value kind of a field.
pub fn value_kind(e: Entry) -> (r: ValueKind)
    ensures
        r == kind_of(e),
{
    match e {
        Entry::Base | Entry::Description | Entry::Url | Entry::Packager
        | Entry::BuildDirectory | Entry::SHA256Sum => ValueKind::Text,
        Entry::InstallSize => ValueKind::Size,
        Entry::BuildDate => ValueKind::Timestamp,
        _ => ValueKind::List,
    }
}

pub open spec fn entry_index(e: Entry) -> int {
    match e {
        Entry::Base => 0,
        Entry::Description => 1,
        Entry::Url => 2,
        Entry::BuildDate => 3,
        Entry::Packager => 4,
        Entry::InstallSize => 5,
        Entry::Groups => 6,
        Entry::License => 7,
        Entry::Replaces => 8,
        Entry::Depends => 9,
        Entry::Conflicts => 10,
        Entry::Provides => 11,
        Entry::OptDepends => 12,
        Entry::MakeDepends => 13,
        Entry::CheckDepends => 14,
        Entry::Backups => 15,
        Entry::BuildOptions => 16,
        Entry::BuildDirectory => 17,
        Entry::BuildEnvironment => 18,
        Entry::SHA256Sum => 19,
        Entry::BuildInstalled => 20,
    }
}

proof fn lemma_entry_index_injective(a: Entry, b: Entry)
    ensures
        0 <= entry_index(a) < ENTRY_COUNT,
        entry_index(a) == entry_index(b) ==> a == b,
{
}

fn slot_of(e: Entry) -> (r: usize)
    ensures
        r == entry_index(e),
{
    match e {
        Entry::Base => 0,
        Entry::Description => 1,
        Entry::Url => 2,
        Entry::BuildDate => 3,
        Entry::Packager => 4,
        Entry::InstallSize => 5,
        Entry::Groups => 6,
        Entry::License => 7,
        Entry::Replaces => 8,
        Entry::Depends => 9,
        Entry::Conflicts => 10,
        Entry::Provides => 11,
        Entry::OptDepends => 12,
        Entry::MakeDepends => 13,
        Entry::CheckDepends => 14,
        Entry::Backups => 15,
        Entry::BuildOptions => 16,
        Entry::BuildDirectory => 17,
        Entry::BuildEnvironment => 18,
        Entry::SHA256Sum => 19,
        Entry::BuildInstalled => 20,
    }
}

/// A metadata value; its variant matches the value kind of its field.
#[derive(Clone, Debug, PartialEq, Eq)]
pub enum Metadata {
    Text(String),
    Size(u64),
    Timestamp(i64),
    List(Vec<String>),
}

/// Mathematical model of a metadata value.
pub enum MetaValue {
    Text(Seq<char>),
    Size(u64),
    Timestamp(i64),
    List(Seq<Seq<char>>),
}

pub open spec fn texts_view(v: Seq<String>) -> Seq<Seq<char>> {
    v.map_values(|s: String| s@)
}

impl View for Metadata {
    type V = MetaValue;

    open spec fn view(&self) -> MetaValue {
        match self {
            Metadata::Text(s) => MetaValue::Text(s@),
            Metadata::Size(n) => MetaValue::Size(*n),
            Metadata::Timestamp(t) => MetaValue::Timestamp(*t),
            Metadata::List(l) => MetaValue::List(texts_view(l@)),
        }
    }
}

pub open spec fn kind_of_value(v: MetaValue) -> ValueKind {
    match v {
        MetaValue::Text(_) => ValueKind::Text,
        MetaValue::Size(_) => ValueKind::Size,
        MetaValue::Timestamp(_) => ValueKind::Timestamp,
        MetaValue::List(_) => ValueKind::List,
    }
}

/// The metadata of a package: at most one value per field.
#[derive(Clone, Debug, PartialEq, Eq)]
pub struct MetadataMap {
    slots: Vec<Option<Metadata>>,
}

impl View for MetadataMap {
    type V = Map<Entry, MetaValue>;

    closed spec fn view(&self) -> Map<Entry, MetaValue> {
        Map::new(
            |e: Entry| self.slots@[entry_index(e)] is Some,
            |e: Entry| self.slots@[entry_index(e)]->Some_0@,
        )
    }
}

impl MetadataMap {
    pub closed spec fn wf(&self) -> bool {
        self.slots@.len() == ENTRY_COUNT
    }

    /// An empty map.
    pub fn new() -> (r: MetadataMap)
        ensures
            r.wf(),
            r@ == Map::<Entry, MetaValue>::empty(),
    {
        let mut slots: Vec<Option<Metadata>> = Vec::new();
        let mut i: usize = 0;
        while i < ENTRY_COUNT
            invariant
                i <= ENTRY_COUNT,
                slots@.len() == i,
                forall|j: int| 0 <= j < i ==> slots@[j] is None,
            decreases ENTRY_COUNT - i,
        {
            slots.push(None);
            i = i + 1;
        }
        let r = MetadataMap { slots };
        assert(r@ =~= Map::<Entry, MetaValue>::empty());
        r
    }

    /// The value stored for `e`, if any.
    pub fn get(&self, e: Entry) -> (r: Option<&Metadata>)
        requires
            self.wf(),
        ensures
            match r {
                Some(m) => self@.contains_key(e) && self@[e] == m@,
                None => !self@.contains_key(e),
            },
    {
        proof {
            lemma_entry_index_injective(e, e);
        }
        let i = slot_of(e);
        match &self.slots[i] {
            Some(m) => Some(m),
            None => None,
        }
    }

    /// Whether a value is stored for `e`.
    pub fn contains(&self, e: Entry) -> (r: bool)
        requires
            self.wf(),
        ensures
            r == self@.contains_key(e),
    {
        proof {
            lemma_entry_index_injective(e, e);
        }
        self.slots[slot_of(e)].is_some()
    }

    /// Stores `v` for `e`, replacing any earlier value.
    pub fn insert(&mut self, e: Entry, v: Metadata)
        requires
            old(self).wf(),
        ensures
            final(self).wf(),
            final(self)@ == old(self)@.insert(e, v@),
    {
        proof {
            lemma_entry_index_injective(e, e);
        }
        let ghost v_model = v@;
        let i = slot_of(e);
        self.slots.set(i, Some(v));
        proof {
            assert forall|k: Entry| #![auto] self.slots@[entry_index(k)] == (if k == e {
                Some(v)
            } else {
                old(self).slots@[entry_index(k)]
            }) by {
                lemma_entry_index_injective(k, e);
            }
            assert(self@ =~= old(self)@.insert(e, v_model));
        }
    }

    /// Appends `item` to the list stored for `e`. Returns false, and changes
    /// nothing, when `e` holds no list.
    pub fn push_item(&mut self, e: Entry, item: String) -> (ok: bool)
        requires
            old(self).wf(),
        ensures
            final(self).wf(),
            ok == (old(self)@.contains_key(e) && old(self)@[e] is List),
            ok ==> final(self)@ == old(self)@.insert(
                e,
                MetaValue::List(old(self)@[e]->List_0.push(item@)),
            ),
            !ok ==> final(self)@ == old(self)@,
    {
        proof {
            lemma_entry_index_injective(e, e);
        }
        let i = slot_of(e);
        let cur = self.slots.remove(i);
        match cur {
            Some(Metadata::List(mut l)) => {
                let ghost before = l@;
                l.push(item);
                proof {
                    assert(texts_view(l@) =~= texts_view(before).push(item@));
                }
                let ghost nv = Metadata::List(l);
                self.slots.insert(i, Some(Metadata::List(l)));
                proof {
                    assert forall|k: Entry| #![auto] self.slots@[entry_index(k)] == (if k == e {
                        Some(nv)
                    } else {
                        old(self).slots@[entry_index(k)]
                    }) by {
                        lemma_entry_index_injective(k, e);
                    }
                    assert(self@ =~= old(self)@.insert(e, nv@));
                }
                true
            },
            other => {
                self.slots.insert(i, other);
                assert(self.slots@ =~= old(self).slots@);
                false
            },
        }
    }
}

/// A package record.
#[derive(Clone, Debug, PartialEq, Eq)]
pub struct Package {
    pub name: String,
    pub version: String,
    pub arch: String,
    pub metadata: MetadataMap,
}

/// Mathematical model of a package record.
pub struct PackageModel {
    pub name: Seq<char>,
    pub version: Seq<char>,
    pub arch: Seq<char>,
    pub metadata: Map<Entry, MetaValue>,
}

impl View for Package {
    type V = PackageModel;

    open spec fn view(&self) -> PackageModel {
        PackageModel {
            name: self.name@,
            version: self.version@,
            arch: self.arch@,
            metadata: self.metadata@,
        }
    }
}

impl Package {
    pub open spec fn wf(&self) -> bool {
        self.metadata.wf()
    }
}

} // verus!
