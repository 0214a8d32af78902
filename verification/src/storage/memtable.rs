//! The memtables: what was written and is not in a table yet.
use vstd::prelude::*;
use crossbeam_skiplist::SkipMap;
use std::ops::Bound;
use crate::bytes;
use crate::order;
use crate::storage::record::{MemtableRecord, RecordType, Version};

verus! {

/// The ordered map of `crossbeam_skiplist`.
#[verifier::external_type_specification]
#[verifier::external_body]
#[verifier::reject_recursive_types(K)]
#[verifier::reject_recursive_types(V)]
pub struct ExSkipMap<K, V>(SkipMap<K, V>);

/// What the map of a memtable holds: a record under each pair of key and sequence
/// number.
pub uninterp spec fn version_contents(m: SkipMap<(Vec<u8>, u64), MemtableRecord>) -> Map<
    (Seq<u8>, u64),
    Version,
>;

/// No records.
pub open spec fn no_versions() -> Map<(Seq<u8>, u64), Version> {
    Map::empty()
}

/// The order of the pairs of key and sequence number.
pub open spec fn slot_lt(a: (Seq<u8>, u64), b: (Seq<u8>, u64)) -> bool {
    order::key_lt(a.0, b.0) || (a.0 == b.0 && a.1 < b.1)
}

/// A pair is not below a lower bound.
pub open spec fn above(slot: (Seq<u8>, u64), bound: SlotBoundView) -> bool {
    match bound {
        SlotBoundView::Included(k, l) => slot == (k, l) || slot_lt((k, l), slot),
        SlotBoundView::Excluded(k, l) => slot_lt((k, l), slot),
        SlotBoundView::Unbounded => true,
    }
}

/// A pair is not above an upper bound.
pub open spec fn below(slot: (Seq<u8>, u64), bound: SlotBoundView) -> bool {
    match bound {
        SlotBoundView::Included(k, l) => slot == (k, l) || slot_lt(slot, (k, l)),
        SlotBoundView::Excluded(k, l) => slot_lt(slot, (k, l)),
        SlotBoundView::Unbounded => true,
    }
}

/// A bound of a range of pairs of key and sequence number.
pub enum SlotBound {
    Included(Vec<u8>, u64),
    Excluded(Vec<u8>, u64),
    Unbounded,
}

/// What a bound says.
pub enum SlotBoundView {
    Included(Seq<u8>, u64),
    Excluded(Seq<u8>, u64),
    Unbounded,
}

impl View for SlotBound {
    type V = SlotBoundView;

    open spec fn view(&self) -> SlotBoundView {
        match *self {
            SlotBound::Included(k, l) => SlotBoundView::Included(k@, l),
            SlotBound::Excluded(k, l) => SlotBoundView::Excluded(k@, l),
            SlotBound::Unbounded => SlotBoundView::Unbounded,
        }
    }
}

/// An entry of a memtable: key, sequence number and record.
pub struct Slot {
    pub key: Vec<u8>,
    pub lsn: u64,
    pub record: MemtableRecord,
}

/// What an entry of a memtable says.
#[verifier::ext_equal]
pub struct SlotView {
    pub key: Seq<u8>,
    pub lsn: u64,
    pub record: Version,
}

impl View for Slot {
    type V = SlotView;

    open spec fn view(&self) -> SlotView {
        SlotView { key: self.key@, lsn: self.lsn, record: self.record@ }
    }
}

/// `s` lists the entries of `m` between the bounds, in ascending order.
pub open spec fn lists_slots(
    s: Seq<Slot>,
    m: Map<(Seq<u8>, u64), Version>,
    from: SlotBoundView,
    to: SlotBoundView,
) -> bool {
    &&& forall|i: int, j: int|
        #![trigger s[i], s[j]]
        0 <= i < j < s.len() ==> slot_lt((s[i]@.key, s[i]@.lsn), (s[j]@.key, s[j]@.lsn))
    &&& forall|i: int|
        #![trigger s[i]]
        0 <= i < s.len() ==> {
            let slot = (s[i]@.key, s[i]@.lsn);
            m.dom().contains(slot) && m[slot] == s[i]@.record && above(slot, from) && below(slot, to)
        }
    &&& forall|slot: (Seq<u8>, u64)|
        #![trigger m.dom().contains(slot)]
        m.dom().contains(slot) && above(slot, from) && below(slot, to) ==> exists|i: int|
            0 <= i < s.len() && (#[trigger] s[i])@.key == slot.0 && s[i]@.lsn == slot.1
}

/// `SkipMap::new`: an empty map.
#[verifier::external_body]
fn skip_new() -> (m: SkipMap<(Vec<u8>, u64), MemtableRecord>)
    ensures
        version_contents(m) == no_versions(),
{
    SkipMap::new()
}

/// `SkipMap::insert`: sets the record of a pair of key and sequence number.
#[verifier::external_body]
fn skip_insert(
    m: &mut SkipMap<(Vec<u8>, u64), MemtableRecord>,
    key: Vec<u8>,
    lsn: u64,
    record: MemtableRecord,
)
    ensures
        version_contents(*final(m)) == version_contents(*old(m)).insert((key@, lsn), record@),
{
    m.insert((key, lsn), record);
}

/// `SkipMap::iter`: all entries in ascending order, copied.
#[verifier::external_body]
fn skip_iter(m: &SkipMap<(Vec<u8>, u64), MemtableRecord>) -> (out: Vec<Slot>)
    ensures
        lists_slots(
            out@,
            version_contents(*m),
            SlotBoundView::Unbounded,
            SlotBoundView::Unbounded,
        ),
{
    m.iter()
        .map(|e| Slot { key: e.key().0.clone(), lsn: e.key().1, record: e.value().clone() })
        .collect()
}

/// `SkipMap::range`: the entries between two bounds in ascending order, copied.
#[verifier::external_body]
fn skip_range(
    m: &SkipMap<(Vec<u8>, u64), MemtableRecord>,
    from: SlotBound,
    to: SlotBound,
) -> (out: Vec<Slot>)
    ensures
        lists_slots(out@, version_contents(*m), from@, to@),
{
    let bound = |b: SlotBound| match b {
        SlotBound::Included(k, l) => Bound::Included((k, l)),
        SlotBound::Excluded(k, l) => Bound::Excluded((k, l)),
        SlotBound::Unbounded => Bound::Unbounded,
    };
    m.range((bound(from), bound(to)))
        .map(|e| Slot { key: e.key().0.clone(), lsn: e.key().1, record: e.value().clone() })
        .collect()
}

/// `r` is the last entry of `m` between the bounds.
pub open spec fn last_slot(
    r: Option<Slot>,
    m: Map<(Seq<u8>, u64), Version>,
    from: SlotBoundView,
    to: SlotBoundView,
) -> bool {
    match r {
        None => forall|slot: (Seq<u8>, u64)| #[trigger]
            m.dom().contains(slot) ==> !(above(slot, from) && below(slot, to)),
        Some(found) => {
            let last = (found@.key, found@.lsn);
            &&& m.dom().contains(last) && m[last] == found@.record
            &&& above(last, from) && below(last, to)
            &&& forall|slot: (Seq<u8>, u64)| #[trigger]
                m.dom().contains(slot) && above(slot, from) && below(slot, to) && slot != last
                    ==> slot_lt(slot, last)
        },
    }
}

/// `SkipMap::range` and `next_back`: the last entry between two bounds, copied.
#[verifier::external_body]
fn skip_last(
    m: &SkipMap<(Vec<u8>, u64), MemtableRecord>,
    from: SlotBound,
    to: SlotBound,
) -> (r: Option<Slot>)
    ensures
        last_slot(r, version_contents(*m), from@, to@),
{
    let bound = |b: SlotBound| match b {
        SlotBound::Included(k, l) => Bound::Included((k, l)),
        SlotBound::Excluded(k, l) => Bound::Excluded((k, l)),
        SlotBound::Unbounded => Bound::Unbounded,
    };
    let last = m.range((bound(from), bound(to))).next_back();
    last.map(|e| Slot { key: e.key().0.clone(), lsn: e.key().1, record: e.value().clone() })
}

/// What an optional record says.
pub open spec fn opt_version(r: Option<MemtableRecord>) -> Option<Version> {
    match r {
        Some(record) => Some(record@),
        None => None,
    }
}

/// `v` is the record of `key` with the greatest sequence number up to `last`.
pub open spec fn newest_in(
    m: Map<(Seq<u8>, u64), Version>,
    key: Seq<u8>,
    last: u64,
    v: Option<Version>,
) -> bool {
    match v {
        None => forall|lsn: u64| lsn <= last ==> !#[trigger] m.dom().contains((key, lsn)),
        Some(v) => exists|lsn: u64|
            {
                &&& lsn <= last
                &&& #[trigger] m.dom().contains((key, lsn))
                &&& m[(key, lsn)] == v
                &&& forall|other: u64|
                    lsn < other <= last ==> !#[trigger] m.dom().contains((key, other))
            },
    }
}

/// The entries of a key up to a sequence number are those between two bounds.
proof fn lemma_slots_of_key(key: Seq<u8>, last: u64, slot: (Seq<u8>, u64))
    ensures
        above(slot, SlotBoundView::Included(key, 0)) && below(
            slot,
            SlotBoundView::Included(key, last),
        ) <==> slot.0 == key && slot.1 <= last,
{
    if order::key_lt(key, slot.0) {
        order::lemma_key_asymmetric(key, slot.0);
    }
    order::lemma_key_irreflexive(key);
}

/// A memtable: all versions that were written of each key.
pub struct Memtable {
    map: SkipMap<(Vec<u8>, u64), MemtableRecord>,
}

impl View for Memtable {
    type V = Map<(Seq<u8>, u64), Version>;

    closed spec fn view(&self) -> Map<(Seq<u8>, u64), Version> {
        version_contents(self.map)
    }
}

impl Memtable {
    /// An empty memtable.
    pub fn new() -> (t: Memtable)
        ensures
            t@ == no_versions(),
    {
        Memtable { map: skip_new() }
    }

    /// Sets the record of `key` with the sequence number `lsn`.
    pub fn insert(&mut self, key: Vec<u8>, lsn: u64, record: MemtableRecord)
        ensures
            final(self)@ == old(self)@.insert((key@, lsn), record@),
    {
        skip_insert(&mut self.map, key, lsn, record)
    }

    /// All entries, in ascending order.
    pub fn entries(&self) -> (out: Vec<Slot>)
        ensures
            lists_slots(out@, self@, SlotBoundView::Unbounded, SlotBoundView::Unbounded),
    {
        skip_iter(&self.map)
    }

    /// The entries between two bounds, in ascending order.
    pub fn range(&self, from: SlotBound, to: SlotBound) -> (out: Vec<Slot>)
        ensures
            lists_slots(out@, self@, from@, to@),
    {
        skip_range(&self.map, from, to)
    }

    /// The record of `key` with the greatest sequence number up to `last`.
    pub fn newest(&self, key: &[u8], last: u64) -> (r: Option<MemtableRecord>)
        ensures
            newest_in(self@, key@, last, opt_version(r)),
    {
        let from = SlotBound::Included(bytes::copy_bytes(key), 0);
        let to = SlotBound::Included(bytes::copy_bytes(key), last);
        let found = skip_last(&self.map, from, to);
        let ghost bounds = (
            SlotBoundView::Included(key@, 0),
            SlotBoundView::Included(key@, last),
        );
        let r: Option<MemtableRecord> = match found {
            None => None,
            Some(slot) => {
                proof {
                    lemma_slots_of_key(key@, last, (slot.key@, slot.lsn));
                    order::lemma_key_irreflexive(key@);
                    assert(self@.dom().contains((key@, slot.lsn)));
                }
                Some(slot.record)
            },
        };
        proof {
            assert forall|lsn: u64| lsn <= last && #[trigger] self@.dom().contains(
                (key@, lsn),
            ) implies above((key@, lsn), bounds.0) && below((key@, lsn), bounds.1) by {
                lemma_slots_of_key(key@, last, (key@, lsn));
            }
        }
        r
    }
}

/// What the map of a plain memtable holds: type and value under each key.
pub uninterp spec fn plain_contents(m: SkipMap<Vec<u8>, (RecordType, Vec<u8>)>) -> Map<
    Seq<u8>,
    (RecordType, Seq<u8>),
>;

/// No entries.
pub open spec fn no_entries() -> Map<Seq<u8>, (RecordType, Seq<u8>)> {
    Map::empty()
}

/// An entry of a plain memtable: key, type and value.
pub struct PlainEntry {
    pub key: Vec<u8>,
    pub record_type: RecordType,
    pub value: Vec<u8>,
}

/// The entries as pairs.
pub open spec fn plain_pairs(s: Seq<PlainEntry>) -> Seq<(Seq<u8>, (RecordType, Seq<u8>))> {
    Seq::new(s.len(), |i: int| (s[i].key@, (s[i].record_type, s[i].value@)))
}

/// `SkipMap::new`: an empty map.
#[verifier::external_body]
fn plain_new() -> (m: SkipMap<Vec<u8>, (RecordType, Vec<u8>)>)
    ensures
        plain_contents(m) == no_entries(),
{
    SkipMap::new()
}

/// `SkipMap::insert`: sets type and value of a key.
#[verifier::external_body]
fn plain_insert(
    m: &mut SkipMap<Vec<u8>, (RecordType, Vec<u8>)>,
    key: Vec<u8>,
    record_type: RecordType,
    value: Vec<u8>,
)
    ensures
        plain_contents(*final(m)) == plain_contents(*old(m)).insert(key@, (record_type, value@)),
{
    m.insert(key, (record_type, value));
}

/// `SkipMap::get`: type and value of a key, copied.
#[verifier::external_body]
fn plain_get(m: &SkipMap<Vec<u8>, (RecordType, Vec<u8>)>, key: &[u8]) -> (r: Option<
    (RecordType, Vec<u8>),
>)
    ensures
        match r {
            Some(found) => plain_contents(*m).dom().contains(key@) && plain_contents(*m)[key@] == (
                found.0,
                found.1@,
            ),
            None => !plain_contents(*m).dom().contains(key@),
        },
{
    m.get(key).map(|e| e.value().clone())
}

/// `SkipMap::iter`: all entries in ascending order of the keys, copied.
#[verifier::external_body]
fn plain_iter(m: &SkipMap<Vec<u8>, (RecordType, Vec<u8>)>) -> (out: Vec<PlainEntry>)
    ensures
        crate::storage::keymap::lists(plain_pairs(out@), plain_contents(*m)),
{
    m.iter()
        .map(
            |e| PlainEntry {
                key: e.key().clone(),
                record_type: e.value().0,
                value: e.value().1.clone(),
            },
        )
        .collect()
}

/// A memtable that keeps the last version of each key.
pub struct PlainMemtable {
    map: SkipMap<Vec<u8>, (RecordType, Vec<u8>)>,
}

impl View for PlainMemtable {
    type V = Map<Seq<u8>, (RecordType, Seq<u8>)>;

    closed spec fn view(&self) -> Map<Seq<u8>, (RecordType, Seq<u8>)> {
        plain_contents(self.map)
    }
}

impl PlainMemtable {
    /// An empty memtable.
    pub fn new() -> (t: PlainMemtable)
        ensures
            t@ == no_entries(),
    {
        PlainMemtable { map: plain_new() }
    }

    /// Sets type and value of `key`.
    pub fn insert(&mut self, key: Vec<u8>, record_type: RecordType, value: Vec<u8>)
        ensures
            final(self)@ == old(self)@.insert(key@, (record_type, value@)),
    {
        plain_insert(&mut self.map, key, record_type, value)
    }

    /// Type and value of `key`.
    pub fn get(&self, key: &[u8]) -> (r: Option<(RecordType, Vec<u8>)>)
        ensures
            match r {
                Some(found) => self@.dom().contains(key@) && self@[key@] == (found.0, found.1@),
                None => !self@.dom().contains(key@),
            },
    {
        plain_get(&self.map, key)
    }

    /// All entries, in ascending order of the keys.
    pub fn entries(&self) -> (out: Vec<PlainEntry>)
        ensures
            crate::storage::keymap::lists(plain_pairs(out@), self@),
    {
        plain_iter(&self.map)
    }
}

} // verus!
