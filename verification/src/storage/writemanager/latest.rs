//! The latest version of each key of a memtable.
use vstd::prelude::*;
use crate::bytes;
use crate::order;
use crate::storage::keymap;
use crate::storage::keymap::KeyMap;
use crate::storage::memtable;
use crate::storage::memtable::{Memtable, Slot};
use crate::storage::record::{MemtableRecord, Version};

verus! {

/// Of the records of `k` the one under `lsn` is the latest: no other has a greater
/// sequence number, and those with the same one stand behind it.
pub open spec fn is_latest(m: Map<(Seq<u8>, u64), Version>, k: Seq<u8>, lsn: u64) -> bool {
    &&& m.dom().contains((k, lsn))
    &&& forall|other: u64| #[trigger]
        m.dom().contains((k, other)) ==> m[(k, other)].lsn < m[(k, lsn)].lsn || (m[(k, other)].lsn
            == m[(k, lsn)].lsn && lsn <= other)
}

/// The pair has the latest record of its key.
pub open spec fn latest_pair(m: Map<(Seq<u8>, u64), Version>, p: (Seq<u8>, Version)) -> bool {
    exists|lsn: u64| #[trigger] is_latest(m, p.0, lsn) && m[(p.0, lsn)] == p.1
}

/// `s` has, in ascending order of the keys, the latest record of each key of `m`.
pub open spec fn lists_latest(
    s: Seq<(Seq<u8>, Version)>,
    m: Map<(Seq<u8>, u64), Version>,
) -> bool {
    &&& keymap::ascending(s)
    &&& forall|i: int| 0 <= i < s.len() ==> latest_pair(m, #[trigger] s[i])
    &&& forall|slot: (Seq<u8>, u64)| #[trigger]
        m.dom().contains(slot) ==> keymap::has_key(s, slot.0)
}

/// Each record stands under its own sequence number.
pub open spec fn consistent(m: Map<(Seq<u8>, u64), Version>) -> bool {
    forall|slot: (Seq<u8>, u64)| #[trigger] m.dom().contains(slot) ==> m[slot].lsn == slot.1
}

/// The record that is kept of a key is the one with the greatest sequence number.
pub proof fn law_latest_lsn_wins(
    s: Seq<(Seq<u8>, Version)>,
    m: Map<(Seq<u8>, u64), Version>,
    k: Seq<u8>,
    lsn: u64,
)
    requires
        lists_latest(s, m),
        consistent(m),
        m.dom().contains((k, lsn)),
    ensures
        keymap::listed(s).dom().contains(k),
        keymap::listed(s)[k].lsn >= lsn,
        m.dom().contains((k, keymap::listed(s)[k].lsn)),
        keymap::listed(s)[k] == m[(k, keymap::listed(s)[k].lsn)],
{
    assert(keymap::has_key(s, (k, lsn).0));
    let i = keymap::place(s, k);
    assert(s[i].0 == k);
    keymap::lemma_listed(s, i);
    assert(latest_pair(m, s[i]));
    let l = choose|l: u64| #[trigger] is_latest(m, s[i].0, l) && m[(s[i].0, l)] == s[i].1;
    assert(m.dom().contains((k, l)));
    assert(m[(k, l)].lsn == l);
    assert(m[(k, lsn)].lsn == lsn);
}

/// Of the first `n` entries the one at `j` has the latest record of `k`.
spec fn latest_at(slots: Seq<Slot>, n: int, k: Seq<u8>, j: int) -> bool {
    &&& 0 <= j < n
    &&& slots[j]@.key == k
    &&& forall|i: int|
        #![trigger slots[i]]
        0 <= i < n && slots[i]@.key == k ==> slots[i]@.record.lsn < slots[j]@.record.lsn || (
        slots[i]@.record.lsn == slots[j]@.record.lsn && j <= i)
}

/// The map has the latest record of each key of the first `n` entries.
spec fn holds_latest(m: Map<Seq<u8>, Version>, slots: Seq<Slot>, n: int) -> bool {
    &&& forall|i: int| 0 <= i < n ==> m.dom().contains((#[trigger] slots[i])@.key)
    &&& forall|k: Seq<u8>| #[trigger]
        m.dom().contains(k) ==> exists|j: int| #[trigger]
            latest_at(slots, n, k, j) && m[k] == slots[j]@.record
}

/// One more entry.
proof fn lemma_one_more(m: Map<Seq<u8>, Version>, after: Map<Seq<u8>, Version>, slots: Seq<
    Slot,
>, n: int)
    requires
        0 <= n < slots.len(),
        holds_latest(m, slots, n),
        ({
            let k = slots[n]@.key;
            let v = slots[n]@.record;
            after == if m.dom().contains(k) && !(m[k].lsn < v.lsn) {
                m
            } else {
                m.insert(k, v)
            }
        }),
    ensures
        holds_latest(after, slots, n + 1),
{
    let k = slots[n]@.key;
    let v = slots[n]@.record;
    assert forall|x: Seq<u8>| #[trigger] after.dom().contains(x) implies exists|j: int| #[trigger]
        latest_at(slots, n + 1, x, j) && after[x] == slots[j]@.record by {
        if x != k {
            assert(m.dom().contains(x));
            let j = choose|j: int| #[trigger]
                latest_at(slots, n, x, j) && m[x] == slots[j]@.record;
            assert(latest_at(slots, n + 1, x, j));
        } else if m.dom().contains(k) {
            let j = choose|j: int| #[trigger]
                latest_at(slots, n, k, j) && m[k] == slots[j]@.record;
            if m[k].lsn < v.lsn {
                assert(latest_at(slots, n + 1, k, n));
            } else {
                assert(latest_at(slots, n + 1, k, j));
            }
        } else {
            assert forall|i: int|
                #![trigger slots[i]]
                0 <= i < n + 1 && slots[i]@.key == k implies i == n by {
                if i < n {
                    assert(m.dom().contains(slots[i]@.key));
                }
            }
            assert(latest_at(slots, n + 1, k, n));
        }
    }
}

/// The latest of the entries is the latest of the memtable.
proof fn lemma_latest_of_map(
    slots: Seq<Slot>,
    m: Map<(Seq<u8>, u64), Version>,
    k: Seq<u8>,
    j: int,
)
    requires
        memtable::lists_slots(
            slots,
            m,
            memtable::SlotBoundView::Unbounded,
            memtable::SlotBoundView::Unbounded,
        ),
        latest_at(slots, slots.len() as int, k, j),
    ensures
        is_latest(m, k, slots[j]@.lsn),
        m[(k, slots[j]@.lsn)] == slots[j]@.record,
{
    let lsn = slots[j]@.lsn;
    assert(m.dom().contains((slots[j]@.key, slots[j]@.lsn)));
    assert forall|other: u64| #[trigger] m.dom().contains((k, other)) implies m[(k, other)].lsn < m[(
        k,
        lsn,
    )].lsn || (m[(k, other)].lsn == m[(k, lsn)].lsn && lsn <= other) by {
        let slot = (k, other);
        assert(memtable::above(slot, memtable::SlotBoundView::Unbounded));
        let i = choose|i: int|
            0 <= i < slots.len() && (#[trigger] slots[i])@.key == slot.0 && slots[i]@.lsn == slot.1;
        assert(m[(slots[i]@.key, slots[i]@.lsn)] == slots[i]@.record);
        if j < i {
            order::lemma_key_irreflexive(k);
            assert(memtable::slot_lt(
                (slots[j]@.key, slots[j]@.lsn),
                (slots[i]@.key, slots[i]@.lsn),
            ));
        }
    }
}

/// The latest record of each key of the memtable, in ascending order of the keys.
pub fn latest_records(table: &Memtable) -> (out: Vec<(Vec<u8>, MemtableRecord)>)
    ensures
        lists_latest(keymap::pairs(out@), table@),
{
    let slots = table.entries();
    let mut found: KeyMap<MemtableRecord> = KeyMap::new();
    let mut i: usize = 0;
    while i < slots.len()
        invariant
            i <= slots@.len(),
            holds_latest(found@, slots@, i as int),
        decreases slots@.len() - i,
    {
        let slot = &slots[i];
        let ghost before = found@;
        let keep = match found.get(slot.key.as_slice()) {
            Some(existing) => !(existing.lsn < slot.record.lsn),
            None => false,
        };
        if !keep {
            found.insert(bytes::copy_bytes(slot.key.as_slice()), slot.record.clone());
        }
        proof {
            lemma_one_more(before, found@, slots@, i as int);
        }
        i = i + 1;
    }
    let ghost m = found@;
    let out = found.into_entries();
    proof {
        let s = keymap::pairs(out@);
        assert forall|j: int| 0 <= j < s.len() implies latest_pair(table@, #[trigger] s[j]) by {
            keymap::lemma_listed(s, j);
            assert(m.dom().contains(s[j].0));
            let at = choose|at: int| #[trigger]
                latest_at(slots@, slots@.len() as int, s[j].0, at) && m[s[j].0]
                    == slots@[at]@.record;
            lemma_latest_of_map(slots@, table@, s[j].0, at);
        }
        assert forall|slot: (Seq<u8>, u64)| #[trigger] table@.dom().contains(
            slot,
        ) implies keymap::has_key(s, slot.0) by {
            assert(memtable::above(slot, memtable::SlotBoundView::Unbounded));
            let at = choose|at: int|
                0 <= at < slots@.len() && (#[trigger] slots@[at])@.key == slot.0 && slots@[at]@.lsn
                    == slot.1;
            assert(m.dom().contains(slots@[at]@.key));
            assert(keymap::listed(s).dom().contains(slot.0));
        }
    }
    out
}

} // verus!
