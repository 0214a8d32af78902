//! The store as a whole: whatever is written, flushed and merged, it has the last value
//! of each key.
use vstd::prelude::*;
use crate::error::IoFailure;
use crate::order;
use crate::storage::bloom::BloomFilterWrapper;
use crate::storage::compactionmanager::compaction;
use crate::storage::compactionmanager::compaction::RunView;
use crate::storage::compactionmanager::merge;
use crate::storage::compactionmanager::span;
use crate::storage::keyed;
use crate::storage::keymap;
use crate::storage::kv2;
use crate::storage::kv2::KeyChange;
use crate::storage::log_format;
use crate::storage::log_format::LogEntry;
use crate::storage::manifest_codec::MetaView;
use crate::storage::manifest_state;
use crate::storage::manifest_state::LevelMetas;
use crate::storage::memtable;
use crate::storage::memtable::Slot;
use crate::storage::readmanager::range;
use crate::storage::readmanager::range::RangeView;
use crate::storage::readmanager::read;
use crate::storage::readmanager::read::{LevelView, SearchView};
use crate::storage::readmanager::table;
use crate::storage::record::{RecordType, Version};
use crate::storage::recovermanager::wal;
use crate::storage::sstable_codec::TableView;
use crate::storage::writemanager::block;
use crate::storage::writemanager::latest;
use crate::storage::writemanager::pack;
use crate::storage::writemanager::write::WriteView;

verus! {

/// What a store has: the write path, and the records of each table, by the level and the
/// number of the table.
#[verifier::ext_equal]
pub struct StoreView {
    pub write: WriteView,
    pub tables: Map<(u32, u64), Seq<Version>>,
}

impl StoreView {
    /// A store without anything.
    pub open spec fn fresh(dir: Seq<char>) -> StoreView {
        StoreView { write: WriteView::fresh(dir, 0), tables: Map::empty() }
    }

    /// The record of a key that a table has.
    pub open spec fn table_record(self, slot: (u32, u64), key: Seq<u8>) -> Option<Version> {
        if self.tables.dom().contains(slot) {
            table::first_of(self.tables[slot], key)
        } else {
            None
        }
    }

    /// The memtable has the record.
    pub open spec fn in_memtable(self, key: Seq<u8>, v: Version) -> bool {
        exists|lsn: u64| #[trigger]
            self.write.table.dom().contains((key, lsn)) && self.write.table[(key, lsn)].under(key)
                == v
    }

    /// A table has the record.
    pub open spec fn in_tables(self, key: Seq<u8>, v: Version) -> bool {
        exists|slot: (u32, u64)| #[trigger] self.table_record(slot, key) == Some(v)
    }

    /// The store has the record.
    pub open spec fn stores(self, key: Seq<u8>, v: Version) -> bool {
        self.in_memtable(key, v) || self.in_tables(key, v)
    }

    /// The record is the newest that the store has of the key.
    pub open spec fn newest(self, key: Seq<u8>, v: Version) -> bool {
        &&& self.stores(key, v)
        &&& forall|w: Version| #[trigger] self.stores(key, w) ==> w.lsn <= v.lsn
    }

    /// The value of a key: that of its newest record, unless this deletes the key.
    pub open spec fn value(self, key: Seq<u8>) -> Option<Seq<u8>> {
        if exists|v: Version| self.newest(key, v) {
            kv2::visible_value(Some(choose|v: Version| self.newest(key, v)))
        } else {
            None
        }
    }

    /// The keys that have a value, each with its value.
    pub open spec fn contents(self) -> Map<Seq<u8>, Seq<u8>> {
        Map::new(|key: Seq<u8>| self.value(key) is Some, |key: Seq<u8>| self.value(key)->0)
    }

    /// What holds of a store. The records of a table are in ascending order of their keys.
    /// No record has a number that was not yet given out. Of a key, the records of the
    /// memtable are newer than those of the tables, and those of a level newer than those
    /// of the levels below it; in level 0 no two tables have equally new records, and in
    /// any other level no two tables have the key.
    pub open spec fn ok(self) -> bool {
        &&& self.write.ok()
        &&& forall|slot: (u32, u64)| #[trigger]
            self.tables.dom().contains(slot) ==> keyed::strictly_sorted(
                self.tables[slot],
                block::version_key(),
            )
        &&& forall|slot: (u32, u64), key: Seq<u8>| #[trigger]
            self.table_record(slot, key) is Some ==> self.table_record(slot, key)->0.lsn
                <= self.write.sequence
        &&& forall|slot: (u32, u64), key: Seq<u8>, lsn: u64|
            #![trigger self.table_record(slot, key), self.write.table.dom().contains((key, lsn))]
            self.table_record(slot, key) is Some && self.write.table.dom().contains((key, lsn))
                ==> self.table_record(slot, key)->0.lsn < lsn
        &&& forall|a: (u32, u64), b: (u32, u64), key: Seq<u8>|
            #![trigger self.table_record(a, key), self.table_record(b, key)]
            a != b && self.table_record(a, key) is Some && self.table_record(b, key) is Some
                ==> self.apart(a, b, key)
    }

    /// How the records of a key differ that two tables have.
    pub open spec fn apart(self, a: (u32, u64), b: (u32, u64), key: Seq<u8>) -> bool {
        let (x, y) = (self.table_record(a, key)->0.lsn, self.table_record(b, key)->0.lsn);
        if a.0 < b.0 {
            x > y
        } else if b.0 < a.0 {
            y > x
        } else {
            a.0 == 0 && x != y
        }
    }

    /// The store after a change of a key.
    pub open spec fn changed(
        self,
        record_type: RecordType,
        key: Seq<u8>,
        value: Seq<u8>,
    ) -> StoreView {
        StoreView { write: self.write.changed(record_type, key, value), ..self }
    }

    /// The store once its memtable has gone into the table `id` of level 0, which has the
    /// records `vs`.
    pub open spec fn flushed(self, id: u64, vs: Seq<Version>) -> StoreView {
        StoreView {
            write: WriteView { table: memtable::no_versions(), size: 0, ..self.write },
            tables: self.tables.insert((0, id), vs),
        }
    }

    /// The store once the tables `slots` have been merged into the table `id` of `level`,
    /// which has the records `vs`. Without records there is no table.
    pub open spec fn compacted(
        self,
        slots: Seq<(u32, u64)>,
        level: u32,
        id: u64,
        vs: Seq<Version>,
    ) -> StoreView {
        let rest = self.tables.remove_keys(slots.to_set());
        StoreView {
            tables: if vs.len() == 0 {
                rest
            } else {
                rest.insert((level, id), vs)
            },
            ..self
        }
    }

    /// A level behind the one that `level` is compacted into has tables.
    pub open spec fn behind(self, level: u32) -> bool {
        exists|slot: (u32, u64)| #[trigger] self.tables.dom().contains(slot) && slot.0 > level + 1
    }

    /// `slots` are inputs that a compaction of `level` may have: all tables of the level,
    /// and of the next level at least those that have a key in common with it.
    pub open spec fn inputs_of(self, level: u32, slots: Seq<(u32, u64)>) -> bool {
        &&& forall|i: int|
            0 <= i < slots.len() ==> self.tables.dom().contains(#[trigger] slots[i]) && (slots[i].0
                == level || slots[i].0 == level + 1)
        &&& forall|slot: (u32, u64)| #[trigger]
            self.tables.dom().contains(slot) && slot.0 == level ==> slots.contains(slot)
        &&& forall|a: (u32, u64), b: (u32, u64), key: Seq<u8>|
            #![trigger self.table_record(a, key), self.table_record(b, key)]
            a.0 == level && b.0 == level + 1 && self.table_record(a, key) is Some
                && self.table_record(b, key) is Some ==> slots.contains(b)
    }
}

/// A store has one newest record of a key at most.
proof fn lemma_newest_unique(s: StoreView, key: Seq<u8>, v: Version, w: Version)
    requires
        s.ok(),
        s.newest(key, v),
        s.newest(key, w),
    ensures
        v == w,
{
    let m = s.write.table;
    assert(s.stores(key, v) && s.stores(key, w));
    if s.in_memtable(key, v) {
        let a = choose|lsn: u64| #[trigger] m.dom().contains((key, lsn)) && m[(key, lsn)].under(key)
            == v;
        if s.in_memtable(key, w) {
            let b = choose|lsn: u64| #[trigger]
                m.dom().contains((key, lsn)) && m[(key, lsn)].under(key) == w;
            assert(a == b);
        } else {
            let slot = choose|slot: (u32, u64)| #[trigger] s.table_record(slot, key) == Some(w);
            assert(s.table_record(slot, key) is Some && m.dom().contains((key, a)));
        }
    } else {
        let x = choose|slot: (u32, u64)| #[trigger] s.table_record(slot, key) == Some(v);
        if s.in_memtable(key, w) {
            let b = choose|lsn: u64| #[trigger]
                m.dom().contains((key, lsn)) && m[(key, lsn)].under(key) == w;
            assert(s.table_record(x, key) is Some && m.dom().contains((key, b)));
        } else {
            let y = choose|slot: (u32, u64)| #[trigger] s.table_record(slot, key) == Some(w);
            if x != y {
                assert(s.apart(x, y, key));
            }
        }
    }
}

/// Of a key that the store has records of there is a newest one.
proof fn lemma_newest_exists(s: StoreView, key: Seq<u8>, v: Version)
    requires
        s.stores(key, v),
    ensures
        exists|w: Version| s.newest(key, w),
    decreases u64::MAX - v.lsn,
{
    if exists|w: Version| #[trigger] s.stores(key, w) && w.lsn > v.lsn {
        let w = choose|w: Version| #[trigger] s.stores(key, w) && w.lsn > v.lsn;
        lemma_newest_exists(s, key, w);
    } else {
        assert(s.newest(key, v));
    }
}

/// The newest record gives the value.
proof fn lemma_value(s: StoreView, key: Seq<u8>, v: Version)
    requires
        s.ok(),
        s.newest(key, v),
    ensures
        s.value(key) == kv2::visible_value(Some(v)),
{
    let w = choose|w: Version| s.newest(key, w);
    lemma_newest_unique(s, key, v, w);
}

/// Two stores give the same value of a key of which they have the same records.
proof fn lemma_same_value(s: StoreView, t: StoreView, key: Seq<u8>)
    requires
        s.ok(),
        t.ok(),
        forall|v: Version|
            #![trigger s.stores(key, v)]
            #![trigger t.stores(key, v)]
            s.stores(key, v) == t.stores(key, v),
    ensures
        s.value(key) == t.value(key),
{
    if exists|v: Version| s.newest(key, v) {
        let v = choose|v: Version| s.newest(key, v);
        assert(t.newest(key, v));
        lemma_value(s, key, v);
        lemma_value(t, key, v);
    } else if exists|v: Version| t.newest(key, v) {
        let v = choose|v: Version| t.newest(key, v);
        assert(s.newest(key, v));
    }
}

/// A fresh store is sound and has nothing.
pub proof fn law_fresh_store(dir: Seq<char>)
    ensures
        StoreView::fresh(dir).ok(),
        StoreView::fresh(dir).contents() == Map::<Seq<u8>, Seq<u8>>::empty(),
{
    let s = StoreView::fresh(dir);
    assert forall|key: Seq<u8>| #[trigger] s.value(key) is None by {
        if exists|v: Version| s.newest(key, v) {
            let v = choose|v: Version| s.newest(key, v);
            assert(s.stores(key, v));
        }
    }
    assert(s.contents() =~= Map::<Seq<u8>, Seq<u8>>::empty());
}

/// What a change of one key leaves of the others.
proof fn lemma_change_keeps_others(
    s: StoreView,
    record_type: RecordType,
    key: Seq<u8>,
    value: Seq<u8>,
    other: Seq<u8>,
    v: Version,
)
    requires
        other != key,
    ensures
        s.changed(record_type, key, value).stores(other, v) == s.stores(other, v),
{
    let after = s.changed(record_type, key, value);
    let (m, n) = (s.write.table, after.write.table);
    assert forall|slot: (u32, u64)| #[trigger]
        after.table_record(slot, other) == s.table_record(slot, other) by {}
    if s.in_memtable(other, v) {
        let l = choose|l: u64| #[trigger] m.dom().contains((other, l)) && m[(other, l)].under(other)
            == v;
        assert(n.dom().contains((other, l)) && n[(other, l)].under(other) == v);
    }
    if after.in_memtable(other, v) {
        let l = choose|l: u64| #[trigger] n.dom().contains((other, l)) && n[(other, l)].under(other)
            == v;
        assert(m.dom().contains((other, l)) && m[(other, l)].under(other) == v);
    }
    if s.in_tables(other, v) {
        let slot = choose|slot: (u32, u64)| #[trigger] s.table_record(slot, other) == Some(v);
        assert(after.table_record(slot, other) == Some(v));
    }
    if after.in_tables(other, v) {
        let slot = choose|slot: (u32, u64)| #[trigger] after.table_record(slot, other) == Some(v);
        assert(s.table_record(slot, other) == Some(v));
    }
}

/// A change of a key keeps what holds of a store.
proof fn lemma_change_ok(s: StoreView, record_type: RecordType, key: Seq<u8>, value: Seq<u8>)
    requires
        s.ok(),
        s.write.sequence < u64::MAX,
    ensures
        s.changed(record_type, key, value).ok(),
{
    let after = s.changed(record_type, key, value);
    let (m, n) = (s.write.table, after.write.table);
    assert forall|slot: (u32, u64), k: Seq<u8>| #[trigger]
        after.table_record(slot, k) == s.table_record(slot, k) by {}
    assert(after.write.ok());
    assert forall|slot: (u32, u64), k: Seq<u8>, lsn: u64|
        #![trigger after.table_record(slot, k), n.dom().contains((k, lsn))]
        after.table_record(slot, k) is Some && n.dom().contains(
            (k, lsn),
        ) implies after.table_record(slot, k)->0.lsn < lsn by {
        assert(s.table_record(slot, k) is Some);
        if (k, lsn) != (key, after.write.sequence) {
            assert(m.dom().contains((k, lsn)));
        }
    }
    assert forall|a: (u32, u64), b: (u32, u64), k: Seq<u8>|
        #![trigger after.table_record(a, k), after.table_record(b, k)]
        a != b && after.table_record(a, k) is Some && after.table_record(b, k)
            is Some implies after.apart(a, b, k) by {
        assert(s.table_record(a, k) is Some && s.table_record(b, k) is Some);
        assert(s.apart(a, b, k));
    }
}

/// Setting a key sets it in the store and deleting a key takes it out; all other keys
/// stay as they are.
pub proof fn law_change_sets_key(
    s: StoreView,
    record_type: RecordType,
    key: Seq<u8>,
    value: Seq<u8>,
)
    requires
        s.ok(),
        s.write.sequence < u64::MAX,
    ensures
        s.changed(record_type, key, value).ok(),
        s.changed(record_type, key, value).contents() == (match record_type {
            RecordType::Put => s.contents().insert(key, value),
            RecordType::Delete => s.contents().remove(key),
        }),
{
    let after = s.changed(record_type, key, value);
    let (m, n) = (s.write.table, after.write.table);
    let lsn = after.write.sequence;
    lemma_change_ok(s, record_type, key, value);
    let v = n[(key, lsn)].under(key);
    assert(n.dom().contains((key, lsn)));
    assert(v.lsn == lsn);
    assert(after.in_memtable(key, v));
    assert forall|w: Version| #[trigger] after.stores(key, w) implies w.lsn <= v.lsn by {
        if after.in_memtable(key, w) {
            let l = choose|l: u64| #[trigger] n.dom().contains((key, l)) && n[(key, l)].under(key)
                == w;
            assert((key, l).1 <= after.write.sequence);
        } else {
            let slot = choose|slot: (u32, u64)| #[trigger] after.table_record(slot, key) == Some(w);
            assert(after.table_record(slot, key) is Some);
        }
    }
    assert(after.newest(key, v));
    lemma_value(after, key, v);
    assert forall|k: Seq<u8>| k != key implies #[trigger] after.value(k) == s.value(k) by {
        assert forall|w: Version|
            #![trigger after.stores(k, w)]
            #![trigger s.stores(k, w)]
            after.stores(k, w) == s.stores(k, w) by {
            lemma_change_keeps_others(s, record_type, key, value, k, w);
        }
        lemma_same_value(after, s, k);
    }
    match record_type {
        RecordType::Put => {
            assert(after.contents() =~= s.contents().insert(key, value));
        },
        RecordType::Delete => {
            assert(after.contents() =~= s.contents().remove(key));
        },
    }
}

/// A table with ascending records has one record of a key at most.
proof fn lemma_first_is_only(vs: Seq<Version>, v: Version)
    requires
        keyed::strictly_sorted(vs, block::version_key()),
        vs.contains(v),
    ensures
        table::first_of(vs, v.key) == Some(v),
{
    table::lemma_first_of(vs, v.key);
    let i = choose|i: int| 0 <= i < vs.len() && vs[i] == v;
    assert(vs[i].key == v.key);
    let w = table::first_of(vs, v.key)->0;
    let j = choose|j: int| 0 <= j < vs.len() && vs[j] == w;
    table::lemma_one_of_key(vs, i, j);
}

/// What a flushed table has of a key is what the memtable has as the latest record.
proof fn lemma_flushed_record(
    l: Seq<(Seq<u8>, Version)>,
    m: Map<(Seq<u8>, u64), Version>,
    key: Seq<u8>,
)
    requires
        latest::lists_latest(l, m),
    ensures
        keyed::strictly_sorted(kv2::flushed_versions(l), block::version_key()),
        table::first_of(kv2::flushed_versions(l), key) matches Some(v) ==> exists|lsn: u64| #[trigger]
            latest::is_latest(m, key, lsn) && m[(key, lsn)].under(key) == v,
        table::first_of(kv2::flushed_versions(l), key) is None ==> forall|lsn: u64|
            !#[trigger] m.dom().contains((key, lsn)),
{
    let vs = kv2::flushed_versions(l);
    let k = block::version_key();
    assert forall|i: int, j: int|
        #![trigger vs[i], vs[j]]
        0 <= i < j < vs.len() implies crate::order::key_lt(k(vs[i]), k(vs[j])) by {
        assert(crate::order::key_lt(l[i].0, l[j].0));
    }
    table::lemma_first_of(vs, key);
    match table::first_of(vs, key) {
        Some(v) => {
            let i = choose|i: int| 0 <= i < vs.len() && vs[i] == v;
            assert(l[i].0 == key);
            assert(latest::latest_pair(m, l[i]));
            let lsn = choose|lsn: u64| #[trigger] latest::is_latest(m, l[i].0, lsn) && m[(
                l[i].0,
                lsn,
            )] == l[i].1;
            assert(latest::is_latest(m, key, lsn) && m[(key, lsn)].under(key) == v);
        },
        None => {
            assert forall|lsn: u64| !#[trigger] m.dom().contains((key, lsn)) by {
                if m.dom().contains((key, lsn)) {
                    assert(keymap::has_key(l, (key, lsn).0));
                    let i = keymap::place(l, key);
                    assert(l[i].0 == key);
                    assert(vs[i].key == key);
                }
            }
        },
    }
}

/// A flush keeps what holds of a store.
proof fn lemma_flush_ok(s: StoreView, id: u64, l: Seq<(Seq<u8>, Version)>)
    requires
        s.ok(),
        !s.tables.dom().contains((0, id)),
        latest::lists_latest(l, s.write.table),
    ensures
        s.flushed(id, kv2::flushed_versions(l)).ok(),
{
    let after = s.flushed(id, kv2::flushed_versions(l));
    let m = s.write.table;
    let new: (u32, u64) = (0, id);
    assert forall|slot: (u32, u64), k: Seq<u8>| slot != new implies #[trigger] after.table_record(
        slot,
        k,
    ) == s.table_record(slot, k) by {}
    assert forall|k: Seq<u8>| #[trigger] after.table_record(new, k) is Some implies m.dom().contains(
        (k, after.table_record(new, k)->0.lsn),
    ) by {
        lemma_flushed_record(l, m, k);
        let lsn = choose|lsn: u64| #[trigger] latest::is_latest(m, k, lsn) && m[(k, lsn)].under(k)
            == after.table_record(new, k)->0;
        assert(m.dom().contains((k, lsn)));
    }
    lemma_flushed_record(l, m, seq![]);
    assert forall|slot: (u32, u64), k: Seq<u8>| #[trigger]
        after.table_record(slot, k) is Some implies after.table_record(slot, k)->0.lsn
        <= after.write.sequence by {
        if slot != new {
            assert(s.table_record(slot, k) is Some);
        } else {
            assert((k, after.table_record(new, k)->0.lsn).1 <= s.write.sequence);
        }
    }
    assert forall|a: (u32, u64), b: (u32, u64), k: Seq<u8>|
        #![trigger after.table_record(a, k), after.table_record(b, k)]
        a != b && after.table_record(a, k) is Some && after.table_record(b, k)
            is Some implies after.apart(a, b, k) by {
        if a == new {
            assert(s.table_record(b, k) is Some && m.dom().contains(
                (k, after.table_record(a, k)->0.lsn),
            ));
        } else if b == new {
            assert(s.table_record(a, k) is Some && m.dom().contains(
                (k, after.table_record(b, k)->0.lsn),
            ));
        } else {
            assert(s.table_record(a, k) is Some && s.table_record(b, k) is Some);
            assert(s.apart(a, b, k));
        }
    }
}

/// What holds where the memtable goes into the table `id` of level 0: the table has the
/// latest record of each key, all of them fit into blocks, and the number is a new one.
pub open spec fn flushes(
    s: StoreView,
    l: Seq<(Seq<u8>, Version)>,
    t: TableView,
    id: u64,
) -> bool {
    &&& latest::lists_latest(l, s.write.table)
    &&& crate::storage::writemanager::write::packs(l, t)
    &&& pack::all_fit(kv2::flushed_versions(l))
    &&& !s.tables.dom().contains((0, id))
}

/// A flush keeps what the store has: its memtable is empty then, and the new table of
/// level 0 has the latest record of each of its keys.
pub proof fn law_flush_keeps_contents(
    s: StoreView,
    l: Seq<(Seq<u8>, Version)>,
    t: TableView,
    id: u64,
)
    requires
        s.ok(),
        flushes(s, l, t, id),
    ensures
        s.flushed(id, pack::records_of(t.blocks)).ok(),
        s.flushed(id, pack::records_of(t.blocks)).contents() == s.contents(),
{
    let after = s.flushed(id, pack::records_of(t.blocks));
    pack::law_pack_keeps_records(kv2::flushed_versions(l));
    let m = s.write.table;
    let new: (u32, u64) = (0, id);
    lemma_flush_ok(s, id, l);
    assert forall|key: Seq<u8>| #[trigger] after.value(key) == s.value(key) by {
        lemma_flushed_record(l, m, key);
        assert forall|v: Version| #[trigger] after.stores(key, v) implies s.stores(key, v) by {
            let slot = choose|slot: (u32, u64)| #[trigger] after.table_record(slot, key) == Some(v);
            if slot == new {
                let lsn = choose|lsn: u64| #[trigger]
                    latest::is_latest(m, key, lsn) && m[(key, lsn)].under(key) == v;
                assert(m.dom().contains((key, lsn)));
                assert(s.in_memtable(key, v));
            } else {
                assert(s.table_record(slot, key) == Some(v));
            }
        }
        if exists|v: Version| s.newest(key, v) {
            let v = choose|v: Version| s.newest(key, v);
            assert(s.stores(key, v));
            if s.in_memtable(key, v) {
                let a = choose|a: u64| #[trigger] m.dom().contains((key, a)) && m[(key, a)].under(
                    key,
                ) == v;
                let lsn = choose|lsn: u64| #[trigger]
                    latest::is_latest(m, key, lsn) && Some(m[(key, lsn)].under(key))
                        == table::first_of(kv2::flushed_versions(l), key);
                assert(m.dom().contains((key, lsn)));
                assert(s.in_memtable(key, m[(key, lsn)].under(key)));
                assert(s.stores(key, m[(key, lsn)].under(key)));
                assert(a == lsn);
                assert(after.table_record(new, key) == Some(v));
            } else {
                let slot = choose|slot: (u32, u64)| #[trigger] s.table_record(slot, key) == Some(v);
                assert(slot != new);
                assert(after.table_record(slot, key) == Some(v));
            }
            assert(after.stores(key, v));
            assert(after.newest(key, v));
            lemma_value(s, key, v);
            lemma_value(after, key, v);
        } else if exists|v: Version| after.newest(key, v) {
            let v = choose|v: Version| after.newest(key, v);
            assert(after.stores(key, v));
            lemma_newest_exists(s, key, v);
        }
    }
    assert(after.contents() =~= s.contents());
}

/// The tables have the records that the store has in the slots.
pub open spec fn loaded(s: StoreView, slots: Seq<(u32, u64)>, tables: Seq<TableView>) -> bool {
    &&& tables.len() == slots.len()
    &&& forall|i: int|
        0 <= i < slots.len() ==> pack::records_of((#[trigger] tables[i]).blocks)
            == s.tables[slots[i]]
}

/// The records of tables are those that any of them has.
proof fn lemma_table_versions(tables: Seq<TableView>, v: Version)
    ensures
        merge::table_versions(tables).contains(v) <==> exists|i: int|
            0 <= i < tables.len() && pack::records_of((#[trigger] tables[i]).blocks).contains(v),
    decreases tables.len(),
{
    if tables.len() > 0 {
        let front = tables.drop_last();
        let n = tables.len() - 1;
        let a = merge::table_versions(front);
        let b = pack::records_of(tables.last().blocks);
        let all = merge::table_versions(tables);
        lemma_table_versions(front, v);
        assert(all == a + b);
        if all.contains(v) {
            let i = choose|i: int| 0 <= i < all.len() && all[i] == v;
            if i < a.len() {
                assert(a[i] == v);
                let j = choose|j: int|
                    0 <= j < front.len() && pack::records_of((#[trigger] front[j]).blocks).contains(
                        v,
                    );
                assert(tables[j] == front[j]);
            } else {
                assert(b[i - a.len()] == v);
                assert(tables[n] == tables.last());
            }
        }
        if exists|i: int|
            0 <= i < tables.len() && pack::records_of((#[trigger] tables[i]).blocks).contains(v) {
            let i = choose|i: int|
                0 <= i < tables.len() && pack::records_of((#[trigger] tables[i]).blocks).contains(
                    v,
                );
            if i < n {
                assert(front[i] == tables[i]);
                let j = choose|j: int| 0 <= j < a.len() && a[j] == v;
                assert(all[j] == v);
            } else {
                let j = choose|j: int| 0 <= j < b.len() && b[j] == v;
                assert(all[a.len() + j] == v);
            }
        }
    }
}

/// A record that an input has of a key is among the records that are merged, and each of
/// these is of an input.
proof fn lemma_merge_sources(
    s: StoreView,
    slots: Seq<(u32, u64)>,
    tables: Seq<TableView>,
    v: Version,
)
    requires
        s.ok(),
        loaded(s, slots, tables),
        forall|i: int| 0 <= i < slots.len() ==> s.tables.dom().contains(#[trigger] slots[i]),
    ensures
        merge::table_versions(tables).contains(v) <==> exists|slot: (u32, u64)|
            slots.contains(slot) && #[trigger] s.table_record(slot, v.key) == Some(v),
{
    lemma_table_versions(tables, v);
    if merge::table_versions(tables).contains(v) {
        let i = choose|i: int|
            0 <= i < tables.len() && pack::records_of((#[trigger] tables[i]).blocks).contains(v);
        let slot = slots[i];
        assert(s.tables.dom().contains(slot));
        lemma_first_is_only(s.tables[slot], v);
        assert(slots.contains(slot) && s.table_record(slot, v.key) == Some(v));
    }
    if exists|slot: (u32, u64)|
        slots.contains(slot) && #[trigger] s.table_record(slot, v.key) == Some(v) {
        let slot = choose|slot: (u32, u64)|
            slots.contains(slot) && #[trigger] s.table_record(slot, v.key) == Some(v);
        let i = choose|i: int| 0 <= i < slots.len() && slots[i] == slot;
        assert(s.tables.dom().contains(slots[i]));
        table::lemma_first_of(s.tables[slot], v.key);
        assert(pack::records_of(tables[i].blocks).contains(v));
    }
}

/// What the merged table has: of each key the newest record of the inputs, a deletion
/// only where deletions are kept.
proof fn lemma_merged_records(tables: Seq<TableView>, t: TableView, keep: bool, key: Seq<u8>)
    requires
        merge::merges(tables, t, keep),
        pack::all_fit(merge::table_versions(tables)),
    ensures
        keyed::strictly_sorted(pack::records_of(t.blocks), block::version_key()),
        table::first_of(pack::records_of(t.blocks), key) == (if merge::merged(
            merge::table_versions(tables),
        ).dom().contains(key) && merge::goes_in(
            merge::merged(merge::table_versions(tables))[key],
            keep,
        ) {
            Some(merge::merged(merge::table_versions(tables))[key])
        } else {
            None
        }),
{
    let all = merge::table_versions(tables);
    let m = merge::merged(all);
    let l = choose|l: Seq<(Seq<u8>, Version)>| merge::merge_listed(tables, t, l, keep);
    merge::law_merge_latest_wins(all);
    assert forall|i: int| 0 <= i < l.len() implies (#[trigger] l[i]).1.key == l[i].0
        && m.dom().contains(l[i].0) && m[l[i].0] == l[i].1 by {
        keymap::lemma_listed(l, i);
        assert(m.dom().contains(l[i].0));
    }
    merge::law_merged_ascends(l, keep);
    let vs = merge::kept_versions(l, keep);
    assert forall|i: int| 0 <= i < vs.len() implies pack::fits_block(#[trigger] vs[i]) by {
        let j = merge::lemma_kept_among(l, keep, i);
        assert(m.dom().contains(l[j].0));
        let a = choose|a: int| 0 <= a < all.len() && all[a] == m[l[j].0];
        assert(pack::fits_block(all[a]));
    }
    pack::law_pack_keeps_records(vs);
    table::lemma_first_of(vs, key);
    if m.dom().contains(key) && merge::goes_in(m[key], keep) {
        assert(keymap::has_key(l, key));
        let i = keymap::place(l, key);
        assert(l[i].0 == key);
        assert(vs.contains(l[i].1));
        lemma_first_is_only(vs, l[i].1);
    } else if let Some(v) = table::first_of(vs, key) {
        let i = choose|i: int| 0 <= i < vs.len() && vs[i] == v;
        let j = merge::lemma_kept_among(l, keep, i);
        assert(l[j].0 == key);
        assert(merge::goes_in(vs[i], keep));
    }
}

/// What holds where the tables `slots` are merged into the table `id` of the level behind
/// `level`: they are inputs of such a compaction, all of their records fit into blocks,
/// and the number is a new one. Deletions are kept where a level further down has tables.
pub open spec fn compacts(
    s: StoreView,
    level: u32,
    slots: Seq<(u32, u64)>,
    tables: Seq<TableView>,
    t: TableView,
    id: u64,
) -> bool {
    let all = merge::table_versions(tables);
    &&& level < u32::MAX
    &&& s.inputs_of(level, slots)
    &&& loaded(s, slots, tables)
    &&& merge::merges(tables, t, s.behind(level))
    &&& pack::all_fit(all)
    &&& !s.tables.dom().contains(((level + 1) as u32, id))
}

/// Where the records of a key are after a compaction.
proof fn lemma_compacted_records(
    s: StoreView,
    level: u32,
    slots: Seq<(u32, u64)>,
    tables: Seq<TableView>,
    t: TableView,
    id: u64,
    key: Seq<u8>,
)
    requires
        s.ok(),
        compacts(s, level, slots, tables, t, id),
    ensures
        ({
            let next = (level + 1) as u32;
            let after = s.compacted(slots, next, id, pack::records_of(t.blocks));
            let m = merge::merged(merge::table_versions(tables));
            &&& forall|slot: (u32, u64)|
                slot != (next, id) ==> #[trigger] after.table_record(slot, key) == (
                if slots.contains(slot) {
                    None
                } else {
                    s.table_record(slot, key)
                })
            &&& after.table_record((next, id), key) == (if m.dom().contains(key)
                && merge::goes_in(m[key], s.behind(level)) {
                Some(m[key])
            } else {
                None
            })
            &&& m.dom().contains(key) ==> exists|slot: (u32, u64)|
                slots.contains(slot) && #[trigger] s.table_record(slot, key) == Some(m[key])
            &&& forall|slot: (u32, u64)|
                slots.contains(slot) && #[trigger] s.table_record(slot, key) is Some
                    ==> m.dom().contains(key) && s.table_record(slot, key)->0.lsn <= m[key].lsn
        }),
{
    let next = (level + 1) as u32;
    let vs = pack::records_of(t.blocks);
    let after = s.compacted(slots, next, id, vs);
    let all = merge::table_versions(tables);
    let m = merge::merged(all);
    lemma_merged_records(tables, t, s.behind(level), key);
    merge::law_merge_latest_wins(all);
    assert(!slots.contains((next, id))) by {
        if slots.contains((next, id)) {
            let i = choose|i: int| 0 <= i < slots.len() && slots[i] == (next, id);
            assert(s.tables.dom().contains(slots[i]));
        }
    }
    assert forall|slot: (u32, u64)| slot != (next, id) implies #[trigger] after.table_record(
        slot,
        key,
    ) == (if slots.contains(slot) {
        None
    } else {
        s.table_record(slot, key)
    }) by {
        assert(slots.to_set().contains(slot) == slots.contains(slot));
    }
    if m.dom().contains(key) {
        lemma_merge_sources(s, slots, tables, m[key]);
        assert(all.contains(m[key]));
    }
    assert forall|slot: (u32, u64)|
        slots.contains(slot) && #[trigger] s.table_record(slot, key) is Some implies m.dom().contains(
        key,
    ) && s.table_record(slot, key)->0.lsn <= m[key].lsn by {
        let v = s.table_record(slot, key)->0;
        table::lemma_first_of(s.tables[slot], key);
        assert(v.key == key);
        assert(s.table_record(slot, v.key) == Some(v));
        lemma_merge_sources(s, slots, tables, v);
        let i = choose|i: int| 0 <= i < all.len() && all[i] == v;
        assert(m.dom().contains(all[i].key) && m[all[i].key].lsn >= all[i].lsn);
    }
}

/// A table that is no input has no record of a key of the inputs but a newer one further
/// up or an older one further down.
proof fn lemma_outside_inputs(
    s: StoreView,
    level: u32,
    slots: Seq<(u32, u64)>,
    x: (u32, u64),
    y: (u32, u64),
    key: Seq<u8>,
)
    requires
        s.ok(),
        s.inputs_of(level, slots),
        level < u32::MAX,
        slots.contains(x),
        !slots.contains(y),
        s.table_record(x, key) is Some,
        s.table_record(y, key) is Some,
    ensures
        y.0 < level && s.table_record(y, key)->0.lsn > s.table_record(x, key)->0.lsn || y.0 > level
            + 1 && s.table_record(y, key)->0.lsn < s.table_record(x, key)->0.lsn,
{
    let i = choose|i: int| 0 <= i < slots.len() && slots[i] == x;
    assert(s.tables.dom().contains(slots[i]));
    assert(s.tables.dom().contains(y));
    assert(s.apart(x, y, key));
}

/// A compaction keeps what holds of a store.
proof fn lemma_compaction_ok(
    s: StoreView,
    level: u32,
    slots: Seq<(u32, u64)>,
    tables: Seq<TableView>,
    t: TableView,
    id: u64,
)
    requires
        s.ok(),
        compacts(s, level, slots, tables, t, id),
    ensures
        s.compacted(slots, (level + 1) as u32, id, pack::records_of(t.blocks)).ok(),
{
    let next = (level + 1) as u32;
    let new = (next, id);
    let after = s.compacted(slots, next, id, pack::records_of(t.blocks));
    let m = merge::merged(merge::table_versions(tables));
    lemma_merged_records(tables, t, s.behind(level), seq![]);
    assert forall|slot: (u32, u64)| #[trigger] after.tables.dom().contains(
        slot,
    ) implies keyed::strictly_sorted(after.tables[slot], block::version_key()) by {
        if slot != new {
            assert(s.tables.dom().contains(slot));
        }
    }
    assert forall|slot: (u32, u64), k: Seq<u8>| #[trigger]
        after.table_record(slot, k) is Some implies exists|x: (u32, u64)| #[trigger]
        s.table_record(x, k) == after.table_record(slot, k) && (slot != new ==> x == slot
        && !slots.contains(x)) && (slot == new ==> slots.contains(x)) by {
        lemma_compacted_records(s, level, slots, tables, t, id, k);
        if slot == new {
            let x = choose|x: (u32, u64)|
                slots.contains(x) && #[trigger] s.table_record(x, k) == Some(m[k]);
            assert(s.table_record(x, k) == after.table_record(slot, k));
        } else {
            assert(s.table_record(slot, k) == after.table_record(slot, k));
        }
    }
    assert forall|a: (u32, u64), b: (u32, u64), k: Seq<u8>|
        #![trigger after.table_record(a, k), after.table_record(b, k)]
        a != b && after.table_record(a, k) is Some && after.table_record(b, k)
            is Some implies after.apart(a, b, k) by {
        let x = choose|x: (u32, u64)| #[trigger]
            s.table_record(x, k) == after.table_record(a, k) && (a != new ==> x == a
                && !slots.contains(x)) && (a == new ==> slots.contains(x));
        let y = choose|y: (u32, u64)| #[trigger]
            s.table_record(y, k) == after.table_record(b, k) && (b != new ==> y == b
                && !slots.contains(y)) && (b == new ==> slots.contains(y));
        if a == new {
            lemma_outside_inputs(s, level, slots, x, y, k);
        } else if b == new {
            lemma_outside_inputs(s, level, slots, y, x, k);
        } else {
            assert(s.apart(a, b, k));
        }
    }
}

/// A compaction keeps what the store has.
pub proof fn law_compaction_keeps_contents(
    s: StoreView,
    level: u32,
    slots: Seq<(u32, u64)>,
    tables: Seq<TableView>,
    t: TableView,
    id: u64,
)
    requires
        s.ok(),
        compacts(s, level, slots, tables, t, id),
    ensures
        s.compacted(slots, (level + 1) as u32, id, pack::records_of(t.blocks)).ok(),
        s.compacted(slots, (level + 1) as u32, id, pack::records_of(t.blocks)).contents()
            == s.contents(),
{
    let next = (level + 1) as u32;
    let new = (next, id);
    let after = s.compacted(slots, next, id, pack::records_of(t.blocks));
    let m = merge::merged(merge::table_versions(tables));
    lemma_compaction_ok(s, level, slots, tables, t, id);
    assert forall|key: Seq<u8>| #[trigger] after.value(key) == s.value(key) by {
        lemma_compacted_records(s, level, slots, tables, t, id, key);
        assert forall|v: Version| after.in_memtable(key, v) == s.in_memtable(key, v) by {}
        assert forall|v: Version| #[trigger] after.stores(key, v) implies s.stores(key, v) by {
            if after.in_tables(key, v) {
                let slot = choose|slot: (u32, u64)| #[trigger]
                    after.table_record(slot, key) == Some(v);
                if slot == new {
                    let x = choose|x: (u32, u64)|
                        slots.contains(x) && #[trigger] s.table_record(x, key) == Some(m[key]);
                    assert(s.table_record(x, key) == Some(v));
                } else {
                    assert(s.table_record(slot, key) == Some(v));
                }
            }
        }
        if exists|v: Version| s.newest(key, v) {
            let v = choose|v: Version| s.newest(key, v);
            lemma_value(s, key, v);
            assert(s.stores(key, v));
            if s.in_memtable(key, v) {
                assert(after.in_memtable(key, v));
                assert(after.newest(key, v));
                lemma_value(after, key, v);
            } else {
                let x = choose|x: (u32, u64)| #[trigger] s.table_record(x, key) == Some(v);
                if slots.contains(x) {
                    let w = m[key];
                    assert(s.table_record(x, key) is Some);
                    let y = choose|y: (u32, u64)|
                        slots.contains(y) && #[trigger] s.table_record(y, key) == Some(w);
                    assert(s.stores(key, w));
                    assert(s.newest(key, w));
                    lemma_newest_unique(s, key, v, w);
                    if merge::goes_in(w, s.behind(level)) {
                        assert(after.table_record(new, key) == Some(v));
                        assert(after.stores(key, v));
                        assert(after.newest(key, v));
                        lemma_value(after, key, v);
                    } else if exists|u: Version| after.newest(key, u) {
                        let u = choose|u: Version| after.newest(key, u);
                        assert(after.stores(key, u));
                        assert(s.stores(key, u));
                        if after.in_memtable(key, u) {
                            let l = choose|l: u64| #[trigger]
                                s.write.table.dom().contains((key, l)) && s.write.table[(
                                    key,
                                    l,
                                )].under(key) == u;
                            assert(s.table_record(x, key) is Some && s.write.table.dom().contains(
                                (key, l),
                            ));
                        } else {
                            let z = choose|z: (u32, u64)| #[trigger]
                                after.table_record(z, key) == Some(u);
                            assert(s.table_record(z, key) == Some(u));
                            lemma_outside_inputs(s, level, slots, x, z, key);
                            assert(s.tables.dom().contains(z));
                        }
                    }
                } else {
                    assert(x != new);
                    assert(after.table_record(x, key) == Some(v));
                    assert(after.stores(key, v));
                    assert(after.newest(key, v));
                    lemma_value(after, key, v);
                }
            }
        } else if exists|v: Version| after.newest(key, v) {
            let v = choose|v: Version| after.newest(key, v);
            assert(after.stores(key, v));
            lemma_newest_exists(s, key, v);
        }
    }
    assert(after.contents() =~= s.contents());
}

/// The levels list the tables of the store, those of each level together and the levels
/// in ascending order. `at` says which table a path leads to.
pub open spec fn lists_tables(
    s: StoreView,
    levels: Seq<LevelView>,
    at: spec_fn(Seq<char>) -> (u32, u64),
) -> bool {
    &&& forall|i: int, j: int|
        #![trigger levels[i], levels[j]]
        0 <= i < j < levels.len() ==> levels[i].level < levels[j].level
    &&& forall|i: int, j: int|
        #![trigger levels[i].paths[j]]
        0 <= i < levels.len() && 0 <= j < levels[i].paths.len() ==> s.tables.dom().contains(
            at(levels[i].paths[j]),
        ) && at(levels[i].paths[j]).0 == levels[i].level
    &&& forall|i: int, j: int, k: int|
        #![trigger levels[i].paths[j], levels[i].paths[k]]
        0 <= i < levels.len() && 0 <= j < k < levels[i].paths.len() ==> at(levels[i].paths[j])
            != at(levels[i].paths[k])
    &&& forall|slot: (u32, u64)| #[trigger]
        s.tables.dom().contains(slot) ==> exists|i: int, j: int|
            #![trigger levels[i].paths[j]]
            0 <= i < levels.len() && 0 <= j < levels[i].paths.len() && at(levels[i].paths[j])
                == slot
}

/// Each table answers with the record that it has of the key.
pub open spec fn answers(
    s: StoreView,
    levels: Seq<LevelView>,
    at: spec_fn(Seq<char>) -> (u32, u64),
    key: Seq<u8>,
    ans: spec_fn(Seq<char>) -> Option<Version>,
) -> bool {
    forall|i: int, j: int|
        #![trigger levels[i].paths[j]]
        0 <= i < levels.len() && 0 <= j < levels[i].paths.len() ==> ans(levels[i].paths[j])
            == s.table_record(at(levels[i].paths[j]), key)
}

/// What a level below level 0 gives is what one of its files has.
proof fn lemma_level_source(
    l: LevelView,
    from: nat,
    ans: spec_fn(Seq<char>) -> Option<Version>,
)
    requires
        l.level != 0,
    ensures
        read::rest_of_level(l, from, None, ans) matches Some(v) ==> exists|i: int|
            0 <= i < l.paths.len() && ans(#[trigger] l.paths[i]) == Some(v),
        read::rest_of_level(l, from, None, ans) is None ==> forall|i: int|
            0 <= i < l.paths.len() - from ==> ans(#[trigger] l.paths[i]) is None,
    decreases l.paths.len() - from,
{
    if from < l.paths.len() {
        lemma_level_source(l, from + 1, ans);
        assert(ans(l.paths[l.paths.len() - 1 - from]) == ans(l.paths[l.paths.len() - 1 - from]));
    }
}

/// What a level gives is the newest record that its tables have.
proof fn lemma_level_newest(
    s: StoreView,
    levels: Seq<LevelView>,
    at: spec_fn(Seq<char>) -> (u32, u64),
    key: Seq<u8>,
    ans: spec_fn(Seq<char>) -> Option<Version>,
    i: int,
)
    requires
        s.ok(),
        lists_tables(s, levels, at),
        answers(s, levels, at, key, ans),
        0 <= i < levels.len(),
    ensures
        read::rest_of_level(levels[i], 0, None, ans) matches Some(v) ==> (exists|j: int|
            0 <= j < levels[i].paths.len() && ans(#[trigger] levels[i].paths[j]) == Some(v)) && (
        forall|j: int|
            0 <= j < levels[i].paths.len() && ans(#[trigger] levels[i].paths[j]) is Some ==> ans(
                levels[i].paths[j],
            )->0.lsn <= v.lsn),
        read::rest_of_level(levels[i], 0, None, ans) is None ==> forall|j: int|
            0 <= j < levels[i].paths.len() ==> ans(#[trigger] levels[i].paths[j]) is None,
{
    let l = levels[i];
    if l.level == 0 {
        read::law_level_zero_newest(l, 0, None, ans);
        read::lemma_level_zero_source(l, 0, None, ans);
    } else {
        lemma_level_source(l, 0, ans);
        if let Some(v) = read::rest_of_level(l, 0, None, ans) {
            let j = choose|j: int| 0 <= j < l.paths.len() && ans(#[trigger] l.paths[j]) == Some(v);
            assert forall|k: int|
                0 <= k < l.paths.len() && ans(#[trigger] l.paths[k]) is Some implies ans(
                l.paths[k],
            )->0.lsn <= v.lsn by {
                let (a, b) = (at(levels[i].paths[j]), at(levels[i].paths[k]));
                assert(s.table_record(a, key) is Some && s.table_record(b, key) is Some);
                if j != k {
                    assert(a != b);
                    assert(s.apart(a, b, key));
                }
            }
        }
    }
}

/// What the levels from a place on give is the newest record that their tables have.
proof fn lemma_levels_newest(
    s: StoreView,
    levels: Seq<LevelView>,
    at: spec_fn(Seq<char>) -> (u32, u64),
    key: Seq<u8>,
    ans: spec_fn(Seq<char>) -> Option<Version>,
    from: nat,
) -> (r: Option<Version>)
    requires
        s.ok(),
        lists_tables(s, levels, at),
        answers(s, levels, at, key, ans),
    ensures
        read::levels_answer(levels, from, ans) == (match r {
            Some(v) => read::live(v),
            None => None,
        }),
        r matches Some(v) ==> (exists|i: int, j: int|
            #![trigger levels[i].paths[j]]
            from <= i < levels.len() && 0 <= j < levels[i].paths.len() && ans(levels[i].paths[j])
                == Some(v)) && (forall|i: int, j: int|
            #![trigger levels[i].paths[j]]
            from <= i < levels.len() && 0 <= j < levels[i].paths.len() && ans(levels[i].paths[j])
                is Some ==> ans(levels[i].paths[j])->0.lsn <= v.lsn),
        r is None ==> forall|i: int, j: int|
            #![trigger levels[i].paths[j]]
            from <= i < levels.len() && 0 <= j < levels[i].paths.len() ==> ans(levels[i].paths[j])
                is None,
    decreases levels.len() - from,
{
    if from >= levels.len() {
        None
    } else {
        lemma_level_newest(s, levels, at, key, ans, from as int);
        match read::rest_of_level(levels[from as int], 0, None, ans) {
            Some(v) => {
                let j = choose|j: int|
                    0 <= j < levels[from as int].paths.len() && ans(
                        #[trigger] levels[from as int].paths[j],
                    ) == Some(v);
                assert(ans(levels[from as int].paths[j]) == Some(v));
                assert forall|i: int, k: int|
                    #![trigger levels[i].paths[k]]
                    from <= i < levels.len() && 0 <= k < levels[i].paths.len() && ans(
                        levels[i].paths[k],
                    ) is Some implies ans(levels[i].paths[k])->0.lsn <= v.lsn by {
                    if i > from {
                        let a = at(levels[from as int].paths[j]);
                        let b = at(levels[i].paths[k]);
                        assert(levels[from as int].level < levels[i].level);
                        assert(s.table_record(a, key) is Some && s.table_record(b, key) is Some);
                        assert(s.apart(a, b, key));
                    }
                }
                Some(v)
            },
            None => {
                let r = lemma_levels_newest(s, levels, at, key, ans, from + 1);
                if let Some(v) = r {
                    let (i, j) = choose|i: int, j: int|
                        #![trigger levels[i].paths[j]]
                        from + 1 <= i < levels.len() && 0 <= j < levels[i].paths.len() && ans(
                            levels[i].paths[j],
                        ) == Some(v);
                    assert(ans(levels[i].paths[j]) == Some(v));
                    assert forall|i: int, k: int|
                        #![trigger levels[i].paths[k]]
                        from <= i < levels.len() && 0 <= k < levels[i].paths.len() && ans(
                            levels[i].paths[k],
                        ) is Some implies ans(levels[i].paths[k])->0.lsn <= v.lsn by {
                        assert(i != from);
                    }
                }
                r
            },
        }
    }
}

/// The record that the memtable gives is the newest one of the store.
proof fn lemma_found_is_newest(s: StoreView, key: Seq<u8>, v: Version)
    requires
        s.ok(),
        memtable::newest_in(s.write.table, key, s.write.sequence, Some(v)),
    ensures
        s.newest(key, v.under(key)),
{
    let m = s.write.table;
    let l = choose|l: u64|
        {
            &&& l <= s.write.sequence
            &&& #[trigger] m.dom().contains((key, l))
            &&& m[(key, l)] == v
            &&& forall|o: u64|
                l < o <= s.write.sequence ==> !#[trigger] m.dom().contains((key, o))
        };
    assert(m.dom().contains((key, l)) && m[(key, l)].under(key) == v.under(key));
    assert(s.in_memtable(key, v.under(key)));
    assert forall|w: Version| #[trigger] s.stores(key, w) implies w.lsn <= v.lsn by {
        if s.in_memtable(key, w) {
            let o = choose|o: u64| #[trigger] m.dom().contains((key, o)) && m[(key, o)].under(key)
                == w;
            assert((key, o).1 <= s.write.sequence);
        } else {
            let slot = choose|slot: (u32, u64)| #[trigger] s.table_record(slot, key) == Some(w);
            assert(s.table_record(slot, key) is Some && m.dom().contains((key, l)));
        }
    }
}

/// A lookup at the current sequence number gives the value that the store has of the
/// key: it goes through the memtable and, where that has no record, through the tables.
pub proof fn law_lookup_gives_value(
    s: StoreView,
    key: Seq<u8>,
    found: Option<Version>,
    levels: Seq<LevelView>,
    at: spec_fn(Seq<char>) -> (u32, u64),
    ans: spec_fn(Seq<char>) -> Option<Version>,
)
    requires
        s.ok(),
        memtable::newest_in(s.write.table, key, s.write.sequence, found),
        lists_tables(s, levels, at),
        answers(s, levels, at, key, ans),
    ensures
        kv2::visible_value(read::start_view(found, levels).outcome(ans)) == s.value(key),
{
    let fresh = SearchView { levels, level_at: 0, file_at: 0, best: None, answer: None };
    read::lemma_settled_twice(fresh);
    read::law_read_precedence(found, levels, fresh.settled(), ans);
    match found {
        Some(v) => {
            lemma_found_is_newest(s, key, v);
            lemma_value(s, key, v.under(key));
        },
        None => {
            let m = s.write.table;
            assert forall|v: Version| !s.in_memtable(key, v) by {
                if s.in_memtable(key, v) {
                    let l = choose|l: u64| #[trigger]
                        m.dom().contains((key, l)) && m[(key, l)].under(key) == v;
                    assert((key, l).1 <= s.write.sequence);
                }
            }
            let r = lemma_levels_newest(s, levels, at, key, ans, 0);
            assert forall|w: Version| #[trigger] s.stores(key, w) implies exists|i: int, j: int|
                #![trigger levels[i].paths[j]]
                0 <= i < levels.len() && 0 <= j < levels[i].paths.len() && ans(levels[i].paths[j])
                    == Some(w) by {
                let slot = choose|slot: (u32, u64)| #[trigger] s.table_record(slot, key) == Some(w);
                assert(s.tables.dom().contains(slot));
                let (i, j) = choose|i: int, j: int|
                    #![trigger levels[i].paths[j]]
                    0 <= i < levels.len() && 0 <= j < levels[i].paths.len() && at(
                        levels[i].paths[j],
                    ) == slot;
                assert(ans(levels[i].paths[j]) == Some(w));
            }
            match r {
                Some(v) => {
                    let (i, j) = choose|i: int, j: int|
                        #![trigger levels[i].paths[j]]
                        0 <= i < levels.len() && 0 <= j < levels[i].paths.len() && ans(
                            levels[i].paths[j],
                        ) == Some(v);
                    assert(s.table_record(at(levels[i].paths[j]), key) == Some(v));
                    assert(s.newest(key, v));
                    lemma_value(s, key, v);
                },
                None => {
                    if exists|v: Version| s.newest(key, v) {
                        let v = choose|v: Version| s.newest(key, v);
                        assert(s.stores(key, v));
                    }
                },
            }
        },
    }
}

/// The newest records of keys, with those that count of what was read from tables, one
/// table after the other.
pub open spec fn scanned(
    m: Map<Seq<u8>, Version>,
    reads: Seq<Seq<Version>>,
    r: RangeView,
    sequence_number: u64,
) -> Map<Seq<u8>, Version>
    decreases reads.len(),
{
    if reads.len() == 0 {
        m
    } else {
        read::absorbed(
            scanned(m, reads.drop_last(), r, sequence_number),
            reads.last(),
            r,
            sequence_number,
        )
    }
}

/// What was read has, of each table, the records in the range, and nothing else than
/// records of tables.
pub open spec fn reads_tables(s: StoreView, reads: Seq<Seq<Version>>, r: RangeView) -> bool {
    &&& forall|slot: (u32, u64), key: Seq<u8>| #[trigger]
        s.table_record(slot, key) is Some && r.has(key) ==> exists|i: int|
            0 <= i < reads.len() && (#[trigger] reads[i]).contains(s.table_record(slot, key)->0)
    &&& forall|i: int, j: int|
        #![trigger reads[i][j]]
        0 <= i < reads.len() && 0 <= j < reads[i].len() ==> s.in_tables(
            reads[i][j].key,
            reads[i][j],
        )
}

/// What a scan of several tables keeps.
proof fn lemma_scanned(
    m: Map<Seq<u8>, Version>,
    reads: Seq<Seq<Version>>,
    r: RangeView,
    sequence_number: u64,
)
    requires
        read::kept_in_range(m, r, sequence_number),
    ensures
        ({
            let out = scanned(m, reads, r, sequence_number);
            &&& read::kept_in_range(out, r, sequence_number)
            &&& forall|i: int, j: int|
                #![trigger reads[i][j]]
                0 <= i < reads.len() && 0 <= j < reads[i].len() && read::visible(
                    reads[i][j],
                    r,
                    sequence_number,
                ) ==> out.dom().contains(reads[i][j].key) && out[reads[i][j].key].lsn
                    >= reads[i][j].lsn
            &&& forall|k: Seq<u8>| #[trigger]
                m.dom().contains(k) ==> out.dom().contains(k) && out[k].lsn >= m[k].lsn
            &&& forall|k: Seq<u8>| #[trigger]
                out.dom().contains(k) ==> (m.dom().contains(k) && out[k] == m[k]) || exists|
                    i: int,
                    j: int,
                |
                    #![trigger reads[i][j]]
                    0 <= i < reads.len() && 0 <= j < reads[i].len() && reads[i][j] == out[k]
        }),
    decreases reads.len(),
{
    if reads.len() > 0 {
        let front = reads.drop_last();
        let vs = reads.last();
        let n = reads.len() - 1;
        lemma_scanned(m, front, r, sequence_number);
        let a = scanned(m, front, r, sequence_number);
        let out = scanned(m, reads, r, sequence_number);
        read::law_scan_keeps_newest(a, vs, r, sequence_number);
        read::law_scan_stays_in_range(a, vs, r, sequence_number);
        assert(reads[n] == vs);
        assert forall|i: int, j: int|
            #![trigger reads[i][j]]
            0 <= i < reads.len() && 0 <= j < reads[i].len() && read::visible(
                reads[i][j],
                r,
                sequence_number,
            ) implies out.dom().contains(reads[i][j].key) && out[reads[i][j].key].lsn
            >= reads[i][j].lsn by {
            if i < n {
                assert(front[i][j] == reads[i][j]);
            } else {
                assert(vs[j] == reads[i][j]);
            }
        }
        assert forall|k: Seq<u8>| #[trigger] out.dom().contains(k) implies (m.dom().contains(k)
            && out[k] == m[k]) || exists|i: int, j: int|
            #![trigger reads[i][j]]
            0 <= i < reads.len() && 0 <= j < reads[i].len() && reads[i][j] == out[k] by {
            if a.dom().contains(k) && out[k] == a[k] {
                if !(m.dom().contains(k) && a[k] == m[k]) {
                    let (i, j) = choose|i: int, j: int|
                        #![trigger front[i][j]]
                        0 <= i < front.len() && 0 <= j < front[i].len() && front[i][j] == a[k];
                    assert(reads[i][j] == out[k]);
                }
            } else {
                let j = choose|j: int| 0 <= j < vs.len() && vs[j] == out[k];
                assert(reads[n][j] == out[k]);
            }
        }
    }
}

/// A memtable has a newest record of a key, or none.
proof fn lemma_newest_in_exists(
    m: Map<(Seq<u8>, u64), Version>,
    key: Seq<u8>,
    last: u64,
    least: u64,
) -> (found: Option<Version>)
    requires
        m.dom().contains((key, least)) && least <= last || forall|l: u64|
            l <= last ==> !#[trigger] m.dom().contains((key, l)),
    ensures
        memtable::newest_in(m, key, last, found),
    decreases u64::MAX - least,
{
    if !(m.dom().contains((key, least)) && least <= last) {
        None
    } else if exists|l: u64| least < l <= last && #[trigger] m.dom().contains((key, l)) {
        let l = choose|l: u64| least < l <= last && #[trigger] m.dom().contains((key, l));
        lemma_newest_in_exists(m, key, last, l)
    } else {
        Some(m[(key, least)])
    }
}

/// What the memtable gives of a key.
proof fn lemma_memtable_gives(s: StoreView, key: Seq<u8>) -> (found: Option<Version>)
    requires
        s.ok(),
    ensures
        memtable::newest_in(s.write.table, key, s.write.sequence, found),
        found is None ==> forall|v: Version| !s.in_memtable(key, v),
{
    let m = s.write.table;
    let l = choose|l: u64| l <= s.write.sequence && #[trigger] m.dom().contains((key, l));
    let found = lemma_newest_in_exists(m, key, s.write.sequence, l);
    if found is None {
        assert forall|v: Version| !s.in_memtable(key, v) by {
            if s.in_memtable(key, v) {
                let l = choose|l: u64| #[trigger] m.dom().contains((key, l)) && m[(key, l)].under(
                    key,
                ) == v;
                assert((key, l).1 <= s.write.sequence);
            }
        }
    }
    found
}

/// A scan starts out with records in its range.
proof fn lemma_scan_starts_in_range(
    m: Map<(Seq<u8>, u64), Version>,
    r: RangeView,
    sequence_number: u64,
    start: Map<Seq<u8>, Version>,
)
    requires
        read::scan_starts(m, r, sequence_number, start),
    ensures
        read::kept_in_range(start, r, sequence_number),
{
    let (from, to) = range::slot_bounds(r);
    let slots = choose|slots: Seq<Slot>|
        {
            &&& #[trigger] memtable::lists_slots(slots, m, from, to)
            &&& start == read::absorbed(
                Map::empty(),
                read::slot_versions(slots),
                r,
                sequence_number,
            )
        };
    read::law_scan_stays_in_range(Map::empty(), read::slot_versions(slots), r, sequence_number);
}

/// A scan at the current sequence number gives the keys of the range that the store has,
/// each with its value, and no others.
pub proof fn law_scan_gives_contents(
    s: StoreView,
    r: RangeView,
    start: Map<Seq<u8>, Version>,
    reads: Seq<Seq<Version>>,
)
    requires
        s.ok(),
        read::scan_starts(s.write.table, r, s.write.sequence, start),
        reads_tables(s, reads, r),
    ensures
        read::live_values(scanned(start, reads, r, s.write.sequence)) == s.contents().restrict(
            Set::new(|key: Seq<u8>| r.has(key)),
        ),
{
    let m = s.write.table;
    let last = s.write.sequence;
    let out = scanned(start, reads, r, last);
    lemma_scan_starts_in_range(m, r, last, start);
    lemma_scanned(start, reads, r, last);
    assert forall|key: Seq<u8>| r.has(key) implies s.value(key) == (if #[trigger] out.dom().contains(
        key,
    ) {
        kv2::visible_value(Some(out[key]))
    } else {
        None
    }) by {
        let found = lemma_memtable_gives(s, key);
        read::law_scan_agrees_with_get(m, r, last, start, key, found);
        if let Some(v) = found {
            lemma_found_is_newest(s, key, v);
        }
        if out.dom().contains(key) {
            let w = out[key];
            if start.dom().contains(key) && w == start[key] {
                assert(s.stores(key, w));
            } else {
                let (i, j) = choose|i: int, j: int|
                    #![trigger reads[i][j]]
                    0 <= i < reads.len() && 0 <= j < reads[i].len() && reads[i][j] == w;
                assert(s.in_tables(key, w));
                assert(s.stores(key, w));
            }
            assert forall|v: Version| #[trigger] s.stores(key, v) implies v.lsn <= w.lsn by {
                if s.in_memtable(key, v) {
                    assert(start.dom().contains(key));
                } else {
                    let slot = choose|slot: (u32, u64)| #[trigger]
                        s.table_record(slot, key) == Some(v);
                    table::lemma_first_of(s.tables[slot], key);
                    assert(s.table_record(slot, key) is Some);
                    let i = choose|i: int|
                        0 <= i < reads.len() && (#[trigger] reads[i]).contains(v);
                    let j = choose|j: int| 0 <= j < reads[i].len() && reads[i][j] == v;
                    assert(read::visible(reads[i][j], r, last));
                }
            }
            assert(s.newest(key, w));
            lemma_value(s, key, w);
        } else if exists|v: Version| s.newest(key, v) {
            let v = choose|v: Version| s.newest(key, v);
            assert(s.stores(key, v));
            if s.in_memtable(key, v) {
                assert(start.dom().contains(key));
            } else {
                let slot = choose|slot: (u32, u64)| #[trigger] s.table_record(slot, key) == Some(v);
                table::lemma_first_of(s.tables[slot], key);
                assert(s.table_record(slot, key) is Some);
                let i = choose|i: int| 0 <= i < reads.len() && (#[trigger] reads[i]).contains(v);
                let j = choose|j: int| 0 <= j < reads[i].len() && reads[i][j] == v;
                assert(read::visible(reads[i][j], r, last));
            }
        }
    }
    let part = s.contents().restrict(Set::new(|key: Seq<u8>| r.has(key)));
    let live = read::live_values(out);
    assert forall|key: Seq<u8>| live.dom().contains(key) == part.dom().contains(key) && (
    live.dom().contains(key) ==> live[key] == part[key]) by {
        assert(out.dom().contains(key) ==> r.has(key));
    }
    assert(live =~= part);
}

/// The manifest lists the tables of a store. Where it knows a span of keys of a table, the
/// span has all of the table's keys.
pub open spec fn lists_metas(s: StoreView, metas: Seq<MetaView>) -> bool {
    &&& forall|i: int|
        0 <= i < metas.len() ==> s.tables.dom().contains(
            manifest_state::slot_of(#[trigger] metas[i]),
        )
    &&& forall|slot: (u32, u64)| #[trigger]
        s.tables.dom().contains(slot) ==> manifest_state::has_slot(metas, slot)
    &&& forall|i: int, key: Seq<u8>|
        #![trigger s.table_record(manifest_state::slot_of(metas[i]), key)]
        0 <= i < metas.len() && s.table_record(manifest_state::slot_of(metas[i]), key) is Some
            && span::known_span(metas[i]) is Some ==> span::in_span(
            span::known_span(metas[i])->0,
            key,
        )
}

/// What a scan read of the table of `m`, which was written with the filter `f`.
pub open spec fn read_of_table(
    s: StoreView,
    m: MetaView,
    f: BloomFilterWrapper,
    r: RangeView,
    found: Seq<Version>,
) -> bool {
    let vs = s.tables[manifest_state::slot_of(m)];
    &&& table::tabular(vs, f)
    &&& table::table_records(table::table_of(vs, f), r) == Ok::<_, IoFailure>(found)
}

/// The tables that a scan chooses by the manifest are all that it has to read.
pub proof fn law_scan_chooses_tables(
    s: StoreView,
    metas: Seq<MetaView>,
    filters: Seq<BloomFilterWrapper>,
    r: RangeView,
    reads: Seq<Seq<Version>>,
)
    requires
        s.ok(),
        lists_metas(s, metas),
        reads.len() == read::wanted_tables(metas, r).len(),
        filters.len() == reads.len(),
        forall|i: int|
            0 <= i < reads.len() ==> read_of_table(
                s,
                read::wanted_tables(metas, r)[i],
                filters[i],
                r,
                #[trigger] reads[i],
            ),
    ensures
        reads_tables(s, reads, r),
{
    let chosen = read::wanted_tables(metas, r);
    read::lemma_wanted_tables(metas, r);
    assert forall|slot: (u32, u64), key: Seq<u8>| #[trigger]
        s.table_record(slot, key) is Some && r.has(key) implies exists|i: int|
        0 <= i < reads.len() && (#[trigger] reads[i]).contains(s.table_record(slot, key)->0) by {
        let v = s.table_record(slot, key)->0;
        assert(s.tables.dom().contains(slot));
        assert(manifest_state::has_slot(metas, slot));
        let m = metas[manifest_state::slot_place(metas, slot)];
        assert(manifest_state::slot_of(m) == slot);
        assert(metas.contains(m));
        if let Some(known) = span::known_span(m) {
            assert(span::in_span(known, key));
            range::law_touches(r, key, known.0, known.1);
        }
        assert(chosen.contains(m));
        let i = choose|i: int| 0 <= i < chosen.len() && chosen[i] == m;
        let vs = s.tables[slot];
        assert(read_of_table(s, chosen[i], filters[i], r, reads[i]));
        table::law_range_in_table(vs, filters[i], r);
        table::lemma_first_of(vs, key);
        let at = choose|at: int| 0 <= at < vs.len() && vs[at] == v;
        assert(r.has(vs[at].key));
        assert(reads[i].contains(v));
    }
    assert forall|i: int, j: int|
        #![trigger reads[i][j]]
        0 <= i < reads.len() && 0 <= j < reads[i].len() implies s.in_tables(
        reads[i][j].key,
        reads[i][j],
    ) by {
        let v = reads[i][j];
        let slot = manifest_state::slot_of(chosen[i]);
        let vs = s.tables[slot];
        assert(read_of_table(s, chosen[i], filters[i], r, reads[i]));
        assert(chosen.contains(chosen[i]));
        let k = choose|k: int| 0 <= k < metas.len() && metas[k] == chosen[i];
        assert(s.tables.dom().contains(slot));
        table::law_range_in_table(vs, filters[i], r);
        let found = table::table_records(table::table_of(vs, filters[i]), r)->Ok_0;
        assert(found == reads[i]);
        assert(found.contains(v));
        lemma_first_of_sorted(vs, v);
        assert(s.table_record(slot, v.key) == Some(v));
    }
}

/// Among records with ascending keys, a record is the first of its key.
proof fn lemma_first_of_sorted(vs: Seq<Version>, v: Version)
    requires
        keyed::strictly_sorted(vs, block::version_key()),
        vs.contains(v),
    ensures
        table::first_of(vs, v.key) == Some(v),
{
    let a = choose|a: int| 0 <= a < vs.len() && vs[a] == v;
    table::lemma_first_of(vs, v.key);
    assert(vs[a].key == v.key);
    let w = table::first_of(vs, v.key)->0;
    let b = choose|b: int| 0 <= b < vs.len() && vs[b] == w;
    order::lemma_key_irreflexive(v.key);
    let key = block::version_key();
    assert(key(vs[a]) == v.key && key(vs[b]) == v.key);
}

/// A table that was written answers with the record that it has of the key.
pub proof fn law_table_answers(vs: Seq<Version>, f: BloomFilterWrapper, key: Seq<u8>)
    requires
        table::tabular(vs, f),
        merge::all_reported(vs, f@.members),
    ensures
        table::table_lookup(table::table_of(vs, f), key) == Ok::<_, IoFailure>(
            table::first_of(vs, key),
        ),
{
    table::law_lookup_in_table(vs, f, key);
    table::lemma_first_of(vs, key);
    if let Some(v) = table::first_of(vs, key) {
        let i = choose|i: int| 0 <= i < vs.len() && vs[i] == v;
        assert(f@.members.contains(vs[i].key));
    }
}

/// The manifest lists the tables of a level, and knows of each a span that has all of its
/// keys.
pub open spec fn lists_level(s: StoreView, level: u32, metas: Seq<MetaView>) -> bool {
    &&& forall|i: int|
        0 <= i < metas.len() ==> s.tables.dom().contains((level, (#[trigger] metas[i]).file_id))
            && span::known_span(metas[i]) is Some
    &&& forall|i: int, key: Seq<u8>|
        #![trigger s.table_record((level, metas[i].file_id), key)]
        0 <= i < metas.len() && s.table_record((level, metas[i].file_id), key) is Some
            ==> span::in_span(span::known_span(metas[i])->0, key)
    &&& forall|slot: (u32, u64)| #[trigger]
        s.tables.dom().contains(slot) && slot.0 == level ==> exists|i: int|
            0 <= i < metas.len() && (#[trigger] metas[i]).file_id == slot.1
}

/// The tables that a compaction loads.
pub open spec fn input_slots(run: RunView) -> Seq<(u32, u64)> {
    Seq::new(run.inputs().len(), |i: int| (run.input_level(i), run.inputs()[i].file_id))
}

/// The tables that a compaction chooses are inputs with which it keeps what the store
/// has.
pub proof fn law_compaction_chooses_inputs(
    s: StoreView,
    level: u32,
    current: Seq<MetaView>,
    next: Seq<MetaView>,
    deeper: bool,
)
    requires
        level < u32::MAX,
        current.len() > 0,
        lists_level(s, level, current),
        lists_level(s, (level + 1) as u32, next),
    ensures
        s.inputs_of(level, input_slots(RunView::start(level, current, next, deeper))),
{
    let below = (level + 1) as u32;
    let run = RunView::start(level, current, next, deeper);
    let slots = input_slots(run);
    compaction::law_compaction_inputs(level, current, next, deeper);
    let range = span::span_of_all(compaction::known_spans(current))->0;
    let chosen = compaction::overlapping_of(next, range);
    assert(run.inputs() == current + chosen);
    assert forall|i: int| 0 <= i < chosen.len() implies next.contains(#[trigger] chosen[i]) by {
        let pred = |m: MetaView|
            span::known_span(m) matches Some(s) && span::spans_overlap(range, s);
        assert(chosen == next.filter(pred));
        next.lemma_filter_contains_rev(pred, chosen[i]);
    }
    assert forall|i: int| 0 <= i < slots.len() implies s.tables.dom().contains(#[trigger] slots[i])
        && (slots[i].0 == level || slots[i].0 == level + 1) by {
        if i < current.len() {
            assert(run.inputs()[i] == current[i]);
        } else {
            let m = chosen[i - current.len()];
            assert(run.inputs()[i] == m);
            let j = choose|j: int| 0 <= j < next.len() && next[j] == m;
            assert(s.tables.dom().contains((below, next[j].file_id)));
        }
    }
    assert forall|slot: (u32, u64)| #[trigger]
        s.tables.dom().contains(slot) && slot.0 == level implies slots.contains(slot) by {
        let i = choose|i: int| 0 <= i < current.len() && (#[trigger] current[i]).file_id == slot.1;
        assert(run.inputs()[i] == current[i]);
        assert(slots[i] == slot);
    }
    assert forall|a: (u32, u64), b: (u32, u64), key: Seq<u8>|
        #![trigger s.table_record(a, key), s.table_record(b, key)]
        a.0 == level && b.0 == level + 1 && s.table_record(a, key) is Some && s.table_record(b, key)
            is Some implies slots.contains(b) by {
        assert(s.tables.dom().contains(a) && s.tables.dom().contains(b));
        let i = choose|i: int| 0 <= i < current.len() && (#[trigger] current[i]).file_id == a.1;
        let j = choose|j: int| 0 <= j < next.len() && (#[trigger] next[j]).file_id == b.1;
        assert(a == (level, current[i].file_id) && b == (below, next[j].file_id));
        compaction::law_no_overlap_missed(level, current, next, deeper, i, j, key);
        let k = choose|k: int| 0 <= k < chosen.len() && chosen[k] == next[j];
        assert(run.inputs()[current.len() + k] == next[j]);
        assert(slots[current.len() + k] == b);
    }
}

/// The levels that the manifest lists are those that have tables in the store.
pub open spec fn lists_levels(s: StoreView, levels: Seq<LevelMetas>) -> bool {
    &&& forall|i: int|
        0 <= i < levels.len() ==> exists|slot: (u32, u64)| #[trigger]
            s.tables.dom().contains(slot) && slot.0 == (#[trigger] levels[i]).level
    &&& forall|slot: (u32, u64)| #[trigger]
        s.tables.dom().contains(slot) ==> exists|i: int|
            0 <= i < levels.len() && (#[trigger] levels[i]).level == slot.0
}

/// A compaction keeps deletions just where a level further down has tables.
pub proof fn law_compaction_keeps_deletions(s: StoreView, levels: Seq<LevelMetas>, level: u32)
    requires
        level < u32::MAX,
        lists_levels(s, levels),
    ensures
        compaction::has_level_behind(levels, (level + 1) as u32) == s.behind(level),
{
    if compaction::has_level_behind(levels, (level + 1) as u32) {
        let i = choose|i: int|
            0 <= i < levels.len() && (#[trigger] levels[i]).level > (level + 1) as u32;
        let slot = choose|slot: (u32, u64)| #[trigger]
            s.tables.dom().contains(slot) && slot.0 == levels[i].level;
        assert(s.tables.dom().contains(slot) && slot.0 > level + 1);
    }
    if s.behind(level) {
        let slot = choose|slot: (u32, u64)| #[trigger]
            s.tables.dom().contains(slot) && slot.0 > level + 1;
        let i = choose|i: int| 0 <= i < levels.len() && (#[trigger] levels[i]).level == slot.0;
        assert(levels[i].level > (level + 1) as u32);
    }
}

/// What happens to a store.
pub enum StoreStep {
    /// A key is changed.
    Change(KeyChange),
    /// The latest record of each key of the memtable goes into a table, which gets this
    /// number.
    Flush(Seq<(Seq<u8>, Version)>, TableView, u64),
    /// The tables of a level and those of the next one in the slots, which have been
    /// loaded, are merged into the table with this number.
    Compaction(u32, Seq<(u32, u64)>, Seq<TableView>, TableView, u64),
}

impl StoreView {
    /// The step can happen.
    pub open spec fn allows(self, step: StoreStep) -> bool {
        match step {
            StoreStep::Change(_) => self.write.sequence < u64::MAX,
            StoreStep::Flush(l, t, id) => flushes(self, l, t, id),
            StoreStep::Compaction(level, slots, tables, t, id) => compacts(
                self,
                level,
                slots,
                tables,
                t,
                id,
            ),
        }
    }

    /// The store after a step.
    pub open spec fn stepped(self, step: StoreStep) -> StoreView {
        match step {
            StoreStep::Change(c) => self.changed(c.record_type, c.key, c.value),
            StoreStep::Flush(_, t, id) => self.flushed(id, pack::records_of(t.blocks)),
            StoreStep::Compaction(level, slots, tables, t, id) => self.compacted(
                slots,
                (level + 1) as u32,
                id,
                pack::records_of(t.blocks),
            ),
        }
    }

    /// The store after steps.
    pub open spec fn run(self, steps: Seq<StoreStep>) -> StoreView
        decreases steps.len(),
    {
        if steps.len() == 0 {
            self
        } else {
            self.run(steps.drop_last()).stepped(steps.last())
        }
    }

    /// The steps can happen one after the other.
    pub open spec fn allows_all(self, steps: Seq<StoreStep>) -> bool
        decreases steps.len(),
    {
        steps.len() == 0 || (self.allows_all(steps.drop_last()) && self.run(
            steps.drop_last(),
        ).allows(steps.last()))
    }
}

/// What the changes among the steps make of a map.
pub open spec fn remembered(m: Map<Seq<u8>, Seq<u8>>, steps: Seq<StoreStep>) -> Map<
    Seq<u8>,
    Seq<u8>,
>
    decreases steps.len(),
{
    if steps.len() == 0 {
        m
    } else {
        let front = remembered(m, steps.drop_last());
        match steps.last() {
            StoreStep::Change(c) => match c.record_type {
                RecordType::Put => front.insert(c.key, c.value),
                RecordType::Delete => front.remove(c.key),
            },
            _ => front,
        }
    }
}

/// A store is a map: whatever changes, flushes and compactions it went through, as far as
/// they are allowed, it has of each key what the last change of the key has left.
pub proof fn law_store_is_a_map(dir: Seq<char>, steps: Seq<StoreStep>)
    requires
        StoreView::fresh(dir).allows_all(steps),
    ensures
        StoreView::fresh(dir).run(steps).ok(),
        StoreView::fresh(dir).run(steps).contents() == remembered(Map::empty(), steps),
    decreases steps.len(),
{
    if steps.len() == 0 {
        law_fresh_store(dir);
    } else {
        let front = steps.drop_last();
        law_store_is_a_map(dir, front);
        let s = StoreView::fresh(dir).run(front);
        match steps.last() {
            StoreStep::Change(c) => law_change_sets_key(s, c.record_type, c.key, c.value),
            StoreStep::Flush(l, t, id) => law_flush_keeps_contents(s, l, t, id),
            StoreStep::Compaction(level, slots, tables, t, id) => law_compaction_keeps_contents(
                s,
                level,
                slots,
                tables,
                t,
                id,
            ),
        }
    }
}

} // verus!
