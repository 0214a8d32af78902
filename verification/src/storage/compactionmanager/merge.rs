//! Merging tables: of each key the newest record stays.
use vstd::prelude::*;
use crate::bytes;
use crate::error::IoFailure;
use crate::order;
use crate::storage::bloom;
use crate::storage::bloom::BloomFilterWrapper;
use crate::storage::index;
use crate::storage::keyed;
use crate::storage::keymap;
use crate::storage::keymap::KeyMap;
use crate::storage::record::{MemtableRecord, RecordType, Version};
use crate::storage::readmanager::table;
use crate::storage::sstable_codec;
use crate::storage::sstable_codec::{SSTableCodec, TableView};
use crate::storage::writemanager::block;
use crate::storage::writemanager::block::Block;
use crate::storage::writemanager::pack;
use crate::storage::writemanager::pack::Packer;

verus! {

/// Which of two records of a key stays: the newer one; of two that are equally new
/// the one that deletes the key, or the first.
pub open spec fn winner(current: Version, candidate: Version) -> Version {
    if candidate.lsn > current.lsn {
        candidate
    } else if candidate.lsn < current.lsn {
        current
    } else if current.record_type == RecordType::Delete {
        current
    } else if candidate.record_type == RecordType::Delete {
        candidate
    } else {
        current
    }
}

/// The records that stay of `vs`.
pub open spec fn merged(vs: Seq<Version>) -> Map<Seq<u8>, Version>
    decreases vs.len(),
{
    if vs.len() == 0 {
        Map::empty()
    } else {
        let front = merged(vs.drop_last());
        let v = vs.last();
        if front.dom().contains(v.key) {
            front.insert(v.key, winner(front[v.key], v))
        } else {
            front.insert(v.key, v)
        }
    }
}

/// The records of tables, one table after the other.
pub open spec fn table_versions(tables: Seq<TableView>) -> Seq<Version>
    decreases tables.len(),
{
    if tables.len() == 0 {
        seq![]
    } else {
        table_versions(tables.drop_last()) + pack::records_of(tables.last().blocks)
    }
}

/// A record goes into the merged table: all do where deletions are kept, else those that
/// are no deletions.
pub open spec fn goes_in(v: Version, keep: bool) -> bool {
    keep || v.record_type == RecordType::Put
}

/// The records that go into the merged table, in their order.
pub open spec fn kept_versions(s: Seq<(Seq<u8>, Version)>, keep: bool) -> Seq<Version>
    decreases s.len(),
{
    if s.len() == 0 {
        seq![]
    } else if goes_in(s.last().1, keep) {
        kept_versions(s.drop_last(), keep).push(s.last().1)
    } else {
        kept_versions(s.drop_last(), keep)
    }
}

/// Of the records of a key the newest one stays: it is one of them, and none of them
/// is newer; where a deletion is as new, a deletion stays.
pub proof fn law_merge_latest_wins(vs: Seq<Version>)
    ensures
        forall|i: int|
            0 <= i < vs.len() ==> merged(vs).dom().contains((#[trigger] vs[i]).key) && merged(
                vs,
            )[vs[i].key].lsn >= vs[i].lsn,
        forall|i: int|
            0 <= i < vs.len() && (#[trigger] vs[i]).record_type == RecordType::Delete && merged(
                vs,
            )[vs[i].key].lsn == vs[i].lsn ==> merged(vs)[vs[i].key].record_type
                == RecordType::Delete,
        forall|k: Seq<u8>| #[trigger]
            merged(vs).dom().contains(k) ==> merged(vs)[k].key == k && vs.contains(merged(vs)[k]),
    decreases vs.len(),
{
    if vs.len() > 0 {
        let front = vs.drop_last();
        let v = vs.last();
        law_merge_latest_wins(front);
        let (a, m) = (merged(front), merged(vs));
        assert(vs[vs.len() - 1] == v);
        assert forall|i: int| 0 <= i < vs.len() implies m.dom().contains((#[trigger] vs[i]).key)
            && m[vs[i].key].lsn >= vs[i].lsn && (vs[i].record_type == RecordType::Delete
            && m[vs[i].key].lsn == vs[i].lsn ==> m[vs[i].key].record_type
            == RecordType::Delete) by {
            if i < front.len() {
                assert(front[i] == vs[i]);
            }
        }
        assert forall|k: Seq<u8>| #[trigger] m.dom().contains(k) implies m[k].key == k
            && vs.contains(m[k]) by {
            if k == v.key && m[k] == v {
            } else {
                assert(a.dom().contains(k) && a[k] == m[k]);
                let j = choose|j: int| 0 <= j < front.len() && front[j] == a[k];
                assert(vs[j] == m[k]);
            }
        }
    }
}

/// The records that go into the merged table have ascending keys.
pub proof fn law_merged_ascends(s: Seq<(Seq<u8>, Version)>, keep: bool)
    requires
        keymap::ascending(s),
        forall|i: int| 0 <= i < s.len() ==> (#[trigger] s[i]).1.key == s[i].0,
    ensures
        keyed::strictly_sorted(kept_versions(s, keep), block::version_key()),
        forall|i: int|
            0 <= i < kept_versions(s, keep).len() ==> keymap::has_key(
                s,
                (#[trigger] kept_versions(s, keep)[i]).key,
            ) && goes_in(kept_versions(s, keep)[i], keep),
        forall|i: int|
            0 <= i < s.len() && goes_in((#[trigger] s[i]).1, keep)
                ==> kept_versions(s, keep).contains(s[i].1),
    decreases s.len(),
{
    if s.len() > 0 {
        let t = s.drop_last();
        let (k, v) = s.last();
        keymap::lemma_drop_last(s);
        assert forall|i: int| 0 <= i < t.len() implies (#[trigger] t[i]).1.key == t[i].0 by {
            assert(t[i] == s[i]);
        }
        law_merged_ascends(t, keep);
        let (a, b) = (kept_versions(t, keep), kept_versions(s, keep));
        let key = block::version_key();
        assert(s[s.len() - 1] == s.last());
        assert forall|i: int| 0 <= i < a.len() implies order::key_lt((#[trigger] a[i]).key, k) by {
            let j = keymap::place(t, a[i].key);
            assert(t[j].0 == a[i].key);
            assert(s[j] == t[j]);
            assert(order::key_lt(s[j].0, s[s.len() - 1].0));
        }
        assert forall|i: int, j: int| 0 <= i < j < b.len() implies order::key_lt(
            key(#[trigger] b[i]),
            key(#[trigger] b[j]),
        ) by {
            if j < a.len() {
                assert(b[i] == a[i] && b[j] == a[j]);
            } else {
                assert(b[i] == a[i]);
            }
        }
        assert forall|i: int| 0 <= i < b.len() implies keymap::has_key(s, (#[trigger] b[i]).key)
            && goes_in(b[i], keep) by {
            if i < a.len() {
                assert(b[i] == a[i]);
                let j = keymap::place(t, a[i].key);
                assert(t[j].0 == a[i].key);
                assert(s[j] == t[j]);
            }
        }
        assert forall|i: int|
            0 <= i < s.len() && goes_in((#[trigger] s[i]).1, keep) implies b.contains(s[i].1) by {
            if i < t.len() {
                assert(t[i] == s[i]);
                let j = choose|j: int| 0 <= j < a.len() && a[j] == t[i].1;
                assert(b[j] == s[i].1);
            } else {
                assert(b[b.len() - 1] == v);
            }
        }
    }
}

/// Which of two records of a key stays.
pub fn choose_winner(current: MemtableRecord, candidate: MemtableRecord) -> (r: MemtableRecord)
    ensures
        r@ == winner(current@, candidate@),
{
    if candidate.lsn > current.lsn {
        return candidate;
    }
    if candidate.lsn < current.lsn {
        return current;
    }
    match (current.record_type, candidate.record_type) {
        (RecordType::Delete, _) => current,
        (_, RecordType::Delete) => candidate,
        _ => current,
    }
}

/// Packs a record that stays, unless it deletes its key.
pub fn flush_winner(packer: &mut Packer, winner: &MemtableRecord)
    requires
        old(packer)@.packed.builder.offset == 0,
    ensures
        winner.record_type == RecordType::Delete ==> final(packer)@ == old(packer)@,
        winner.record_type == RecordType::Put ==> {
            &&& final(packer)@.packed == old(packer)@.packed.with(winner@)
            &&& final(packer)@.members.contains(winner.key@)
            &&& old(packer)@.members.subset_of(final(packer)@.members)
        },
{
    match winner.record_type {
        RecordType::Delete => {},
        RecordType::Put => {
            assert(winner@.under(winner.key@) =~= winner@);
            packer.add_record(&winner.key, winner);
        },
    }
}

/// Merges one more record.
fn merge_record(found: &mut KeyMap<MemtableRecord>, record: &MemtableRecord)
    ensures
        final(found)@ == (if old(found)@.dom().contains(record.key@) {
            old(found)@.insert(record.key@, winner(old(found)@[record.key@], record@))
        } else {
            old(found)@.insert(record.key@, record@)
        }),
{
    let stays: MemtableRecord = match found.get(record.key.as_slice()) {
        Some(existing) => choose_winner(existing.clone(), record.clone()),
        None => record.clone(),
    };
    found.insert(bytes::copy_bytes(record.key.as_slice()), stays);
}

/// Merges the records of one block.
fn merge_block(found: &mut KeyMap<MemtableRecord>, b: &Block, Ghost(before): Ghost<Seq<Version>>)
    requires
        old(found)@ == merged(before),
    ensures
        final(found)@ == merged(before + b@.records()),
{
    match &b.data {
        None => {
            assert(before + b@.records() =~= before);
        },
        Some(records) => {
            let ghost all = keyed::views(records@);
            let mut i: usize = 0;
            assert(before + all.take(0) =~= before);
            while i < records.len()
                invariant
                    i <= records@.len(),
                    all == keyed::views(records@),
                    found@ == merged(before + all.take(i as int)),
                decreases records@.len() - i,
            {
                let ghost s = before + all.take(i + 1);
                proof {
                    assert(s.drop_last() =~= before + all.take(i as int));
                    assert(s.last() == all[i as int]);
                }
                merge_record(found, &records[i]);
                i = i + 1;
            }
            assert(all.take(i as int) =~= all);
        },
    }
}

/// Merges the records of one table.
fn merge_table(
    found: &mut KeyMap<MemtableRecord>,
    table: &SSTableCodec,
    Ghost(before): Ghost<Seq<Version>>,
)
    requires
        old(found)@ == merged(before),
    ensures
        final(found)@ == merged(before + pack::records_of(table@.blocks)),
{
    let ghost all = table@.blocks;
    let mut i: usize = 0;
    assert(before + pack::records_of(all.take(0)) =~= before);
    while i < table.blocks.len()
        invariant
            i <= table.blocks@.len(),
            all == keyed::views(table.blocks@),
            found@ == merged(before + pack::records_of(all.take(i as int))),
        decreases table.blocks@.len() - i,
    {
        proof {
            assert(all.take(i + 1).drop_last() =~= all.take(i as int));
            assert(all.take(i + 1).last() == all[i as int]);
            assert(before + pack::records_of(all.take(i + 1)) =~= before + pack::records_of(
                all.take(i as int),
            ) + all[i as int].records());
        }
        merge_block(
            found,
            &table.blocks[i],
            Ghost(before + pack::records_of(all.take(i as int))),
        );
        i = i + 1;
    }
    assert(all.take(i as int) =~= all);
}

/// The keys of records are all reported.
pub open spec fn all_reported(vs: Seq<Version>, members: Set<Seq<u8>>) -> bool {
    forall|i: int| 0 <= i < vs.len() ==> members.contains((#[trigger] vs[i]).key)
}

/// Packs the records that stay into a table, without the deletions unless they are kept.
pub fn pack_winners(
    found: KeyMap<MemtableRecord>,
    bloom: BloomFilterWrapper,
    keep: bool,
) -> (t: SSTableCodec)
    ensures
        t@.index == Seq::<index::SparseItem>::empty(),
        bloom@.members.subset_of(t@.bloom.members),
        exists|s: Seq<(Seq<u8>, Version)>| #[trigger]
            keymap::lists(s, found@) && t@.blocks == pack::packed_blocks(kept_versions(s, keep))
                && all_reported(kept_versions(s, keep), t@.bloom.members),
{
    let ghost map = found@;
    let entries = found.into_entries();
    let ghost all = keymap::pairs(entries@);
    let ghost start = bloom@.members;
    let mut packer = Packer::new(bloom);
    let mut i: usize = 0;
    while i < entries.len()
        invariant
            i <= entries@.len(),
            all == keymap::pairs(entries@),
            packer@.packed == pack::pack(kept_versions(all.take(i as int), keep)),
            packer@.packed.builder.offset == 0,
            start.subset_of(packer@.members),
            all_reported(kept_versions(all.take(i as int), keep), packer@.members),
        decreases entries@.len() - i,
    {
        let ghost front = kept_versions(all.take(i as int), keep);
        let ghost before = packer@.members;
        proof {
            assert(all.take(i + 1).drop_last() =~= all.take(i as int));
            assert(all.take(i + 1).last() == all[i as int]);
        }
        if keep {
            let winner = &entries[i].1;
            assert(winner@.under(winner.key@) =~= winner@);
            packer.add_record(&winner.key, winner);
        } else {
            flush_winner(&mut packer, &entries[i].1);
        }
        proof {
            let v = all[i as int].1;
            let now = kept_versions(all.take(i + 1), keep);
            if goes_in(v, keep) {
                assert(now == front.push(v));
                assert(now.drop_last() =~= front);
                assert forall|j: int| 0 <= j < now.len() implies packer@.members.contains(
                    (#[trigger] now[j]).key,
                ) by {
                    if j < front.len() {
                        assert(now[j] == front[j]);
                        assert(before.contains(front[j].key));
                    }
                }
            }
        }
        i = i + 1;
    }
    assert(all.take(i as int) =~= all);
    let t = packer.finish();
    assert(keymap::lists(all, map) && t@.blocks == pack::packed_blocks(kept_versions(all, keep))
        && all_reported(kept_versions(all, keep), t@.bloom.members));
    t
}

/// One table with the records that stay of the given ones, without the deletions.
/// `bloom` is the filter that the keys are noted in.
pub fn merge_files(sstables: &Vec<SSTableCodec>, bloom: BloomFilterWrapper) -> (t: SSTableCodec)
    ensures
        t@.index == Seq::<index::SparseItem>::empty(),
        bloom@.members.subset_of(t@.bloom.members),
        merges(keyed::views(sstables@), t@, false),
{
    merge_level(sstables, bloom, false)
}

/// One table with the records that stay of the given ones. The deletions are left out,
/// unless they are to be kept. `bloom` is the filter that the keys are noted in.
pub fn merge_level(sstables: &Vec<SSTableCodec>, bloom: BloomFilterWrapper, keep: bool) -> (t:
    SSTableCodec)
    ensures
        t@.index == Seq::<index::SparseItem>::empty(),
        bloom@.members.subset_of(t@.bloom.members),
        merges(keyed::views(sstables@), t@, keep),
{
    let ghost all = keyed::views(sstables@);
    let mut found: KeyMap<MemtableRecord> = KeyMap::new();
    let mut i: usize = 0;
    assert(found@ =~= merged(table_versions(all.take(0))));
    while i < sstables.len()
        invariant
            i <= sstables@.len(),
            all == keyed::views(sstables@),
            found@ == merged(table_versions(all.take(i as int))),
        decreases sstables@.len() - i,
    {
        proof {
            assert(all.take(i + 1).drop_last() =~= all.take(i as int));
            assert(all.take(i + 1).last() == all[i as int]);
        }
        merge_table(&mut found, &sstables[i], Ghost(table_versions(all.take(i as int))));
        i = i + 1;
    }
    assert(all.take(i as int) =~= all);
    let t = pack_winners(found, bloom, keep);
    proof {
        let s = choose|s: Seq<(Seq<u8>, Version)>| #[trigger]
            keymap::lists(s, found@) && t@.blocks == pack::packed_blocks(kept_versions(s, keep))
                && all_reported(kept_versions(s, keep), t@.bloom.members);
        assert(merge_listed(all, t@, s, keep));
    }
    t
}

/// `s` has the records that stay of the tables, and `t` has them packed.
pub open spec fn merge_listed(
    tables: Seq<TableView>,
    t: TableView,
    s: Seq<(Seq<u8>, Version)>,
    keep: bool,
) -> bool {
    &&& keymap::lists(s, merged(table_versions(tables)))
    &&& t.blocks == pack::packed_blocks(kept_versions(s, keep))
    &&& all_reported(kept_versions(s, keep), t.bloom.members)
}

/// `t` is the merge of the tables: of each key the record that stays, in ascending
/// order of the keys, without the deletions unless they are kept, packed into blocks; and
/// its filter reports their keys.
pub open spec fn merges(tables: Seq<TableView>, t: TableView, keep: bool) -> bool {
    exists|s: Seq<(Seq<u8>, Version)>| merge_listed(tables, t, s, keep)
}

/// The records that go into the merged table are among the given ones.
pub proof fn lemma_kept_among(s: Seq<(Seq<u8>, Version)>, keep: bool, i: int) -> (j: int)
    requires
        0 <= i < kept_versions(s, keep).len(),
    ensures
        0 <= j < s.len(),
        s[j].1 == kept_versions(s, keep)[i],
    decreases s.len(),
{
    let t = s.drop_last();
    if i < kept_versions(t, keep).len() {
        lemma_kept_among(t, keep, i)
    } else {
        s.len() - 1
    }
}

/// A lookup in a merged table finds, of each key of the tables, the newest record, though
/// a deletion only where deletions are kept; of a key that no table has it finds nothing.
pub proof fn law_lookup_in_merged(
    tables: Seq<TableView>,
    t: TableView,
    keep: bool,
    f: BloomFilterWrapper,
    key: Seq<u8>,
)
    requires
        merges(tables, t, keep),
        t.bloom == f@,
        bloom::sound(f),
        pack::all_fit(table_versions(tables)),
        t.blocks.len() <= u64::MAX,
        sstable_codec::table_bytes(t.blocks, f@.words, f@.hashes).len() <= u64::MAX,
    ensures
        table::table_lookup(sstable_codec::table_bytes(t.blocks, f@.words, f@.hashes), key) == Ok::<
            _,
            IoFailure,
        >(
            if merged(table_versions(tables)).dom().contains(key) && goes_in(
                merged(table_versions(tables))[key],
                keep,
            ) {
                Some(merged(table_versions(tables))[key])
            } else {
                None
            },
        ),
{
    let all = table_versions(tables);
    let m = merged(all);
    let s = choose|s: Seq<(Seq<u8>, Version)>| merge_listed(tables, t, s, keep);
    law_merge_latest_wins(all);
    assert forall|i: int| 0 <= i < s.len() implies (#[trigger] s[i]).1.key == s[i].0 && m.dom().contains(
        s[i].0,
    ) && m[s[i].0] == s[i].1 by {
        keymap::lemma_listed(s, i);
        assert(m.dom().contains(s[i].0));
    }
    law_merged_ascends(s, keep);
    let vs = kept_versions(s, keep);
    assert forall|i: int| 0 <= i < vs.len() implies pack::fits_block(#[trigger] vs[i]) by {
        let j = lemma_kept_among(s, keep, i);
        assert(m.dom().contains(s[j].0));
        let a = choose|a: int| 0 <= a < all.len() && all[a] == m[s[j].0];
        assert(pack::fits_block(all[a]));
    }
    assert(table::tabular(vs, f));
    table::law_lookup_in_table(vs, f, key);
    table::lemma_first_of(vs, key);
    if m.dom().contains(key) && goes_in(m[key], keep) {
        let i = keymap::place(s, key);
        assert(keymap::has_key(s, key));
        assert(s[i].0 == key);
        assert(vs.contains(s[i].1));
        let j = choose|j: int| 0 <= j < vs.len() && vs[j] == s[i].1;
        assert(vs[j].key == key);
        assert(f@.members.contains(vs[j].key));
        let v = table::first_of(vs, key)->0;
        let l = choose|l: int| 0 <= l < vs.len() && vs[l] == v;
        table::lemma_one_of_key(vs, j, l);
    } else if let Some(v) = table::first_of(vs, key) {
        let l = choose|l: int| 0 <= l < vs.len() && vs[l] == v;
        let j = lemma_kept_among(s, keep, l);
        assert(s[j].0 == key);
        assert(m[key] == v);
        assert(goes_in(vs[l], keep));
    }
}

/// The records of a merged table ascend, fit into blocks, and are among those that were
/// merged.
pub proof fn lemma_merged_records(tables: Seq<TableView>, t: TableView, keep: bool) -> (vs: Seq<
    Version,
>)
    requires
        merges(tables, t, keep),
        pack::all_fit(table_versions(tables)),
    ensures
        t.blocks == pack::packed_blocks(vs),
        pack::all_fit(vs),
        keyed::strictly_sorted(vs, block::version_key()),
        forall|i: int| 0 <= i < vs.len() ==> table_versions(tables).contains(#[trigger] vs[i]),
{
    let all = table_versions(tables);
    let m = merged(all);
    let s = choose|s: Seq<(Seq<u8>, Version)>| merge_listed(tables, t, s, keep);
    law_merge_latest_wins(all);
    assert forall|i: int| 0 <= i < s.len() implies (#[trigger] s[i]).1.key == s[i].0 && m.dom().contains(
        s[i].0,
    ) && m[s[i].0] == s[i].1 by {
        keymap::lemma_listed(s, i);
        assert(m.dom().contains(s[i].0));
    }
    law_merged_ascends(s, keep);
    let vs = kept_versions(s, keep);
    assert forall|i: int| 0 <= i < vs.len() implies all.contains(#[trigger] vs[i])
        && pack::fits_block(vs[i]) by {
        let j = lemma_kept_among(s, keep, i);
        assert(m.dom().contains(s[j].0));
        let a = choose|a: int| 0 <= a < all.len() && all[a] == m[s[j].0];
        assert(pack::fits_block(all[a]));
    }
    vs
}

/// A record that is older than what was merged for its key changes nothing. Nor does one of
/// the same number, unless it deletes what was stored.
pub proof fn law_no_newer_record_changes_nothing(vs: Seq<Version>, v: Version)
    requires
        merged(vs).dom().contains(v.key),
        v.lsn <= merged(vs)[v.key].lsn,
        v.lsn == merged(vs)[v.key].lsn ==> v.record_type == RecordType::Put || merged(
            vs,
        )[v.key].record_type == RecordType::Delete,
    ensures
        merged(vs.push(v)) == merged(vs),
{
    assert(vs.push(v).drop_last() =~= vs);
    assert(merged(vs).insert(v.key, merged(vs)[v.key]) =~= merged(vs));
}

} // verus!
