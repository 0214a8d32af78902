//! Tables of timestamped records.
use vstd::prelude::*;
use crate::bytes;
use crate::error::{DBFailure, IoFailure};
use crate::order;
use crate::storage::block;
use crate::storage::block::{BlockBuilder, TimedBlock, TimedBuilder};
use crate::storage::bloom;
use crate::storage::bloom::BloomFilterWrapper;
use crate::storage::checksum;
use crate::storage::checksum::calculate_crc32;
use crate::storage::footer;
use crate::storage::footer::SSTableFooter;
use crate::storage::index;
use crate::storage::index::{SparseIndexEntry, SparseItem};
use crate::storage::keyed;
use crate::storage::record::{Record, TimedRecord};
use crate::storage::sstable_codec;

verus! {

/// The bytes of the block of a builder.
pub open spec fn block_bytes(b: TimedBuilder) -> Seq<u8> {
    block::sealed_bytes(b.block().header(), block::records_bytes(b.records))
}

/// The bytes of blocks, one after the other.
pub open spec fn data_bytes(blocks: Seq<TimedBuilder>) -> Seq<u8>
    decreases blocks.len(),
{
    if blocks.len() == 0 {
        seq![]
    } else {
        data_bytes(blocks.drop_last()) + block_bytes(blocks.last())
    }
}

/// The records of blocks, one block after the other.
pub open spec fn timed_records_of(blocks: Seq<TimedBuilder>) -> Seq<TimedRecord>
    decreases blocks.len(),
{
    if blocks.len() == 0 {
        seq![]
    } else {
        timed_records_of(blocks.drop_last()) + blocks.last().records
    }
}

/// Records on their way into blocks: the blocks that are full, and the next one.
#[verifier::ext_equal]
pub struct TimedPacked {
    pub full: Seq<TimedBuilder>,
    pub builder: TimedBuilder,
}

impl TimedPacked {
    /// Nothing packed yet.
    pub open spec fn empty() -> TimedPacked {
        TimedPacked { full: seq![], builder: TimedBuilder { offset: 0, records: seq![] } }
    }

    /// All blocks, the last one included if it has records.
    pub open spec fn finished(self) -> Seq<TimedBuilder> {
        if self.builder.records.len() == 0 {
            self.full
        } else {
            self.full.push(self.builder)
        }
    }

    /// One more record. Where the block so far does not accept it, it goes into the
    /// next one, which a record that is longer than a block has for itself.
    pub open spec fn with(self, r: TimedRecord) -> TimedPacked {
        if self.builder.accepts(r) {
            TimedPacked { full: self.full, builder: self.builder.with(r) }
        } else {
            TimedPacked {
                full: self.finished(),
                builder: TimedBuilder {
                    offset: data_bytes(self.finished()).len() as u64,
                    records: seq![r],
                },
            }
        }
    }
}

/// Records packed one after the other.
pub open spec fn pack_timed(rs: Seq<TimedRecord>) -> TimedPacked
    decreases rs.len(),
{
    if rs.len() == 0 {
        TimedPacked::empty()
    } else {
        pack_timed(rs.drop_last()).with(rs.last())
    }
}

/// The blocks of records.
pub open spec fn timed_blocks(rs: Seq<TimedRecord>) -> Seq<TimedBuilder> {
    pack_timed(rs).finished()
}

/// The sparse index of blocks.
pub open spec fn timed_index(blocks: Seq<TimedBuilder>) -> Seq<SparseItem> {
    Seq::new(
        blocks.len(),
        |i: int|
            SparseItem {
                first_key: blocks[i].records[0].key,
                block_offset: blocks[i].offset,
                last_key: blocks[i].records.last().key,
                record_count: blocks[i].records.len() as u32,
            },
    )
}

/// The footer of a table of blocks.
pub open spec fn timed_footer(
    blocks: Seq<TimedBuilder>,
    words: Seq<u64>,
    hashes: u32,
) -> SSTableFooter {
    let index = sstable_codec::index_bytes(timed_index(blocks));
    let filter = bloom::bloom_bytes(words, hashes);
    let data_end = data_bytes(blocks).len();
    let index_end = data_end + index.len();
    SSTableFooter {
        data_block_start: 0,
        data_block_end: data_end as u64,
        index_block_start: data_end as u64,
        index_block_end: index_end as u64,
        index_checksum: checksum::crc32(index),
        bloom_block_start: index_end as u64,
        bloom_block_end: (index_end + filter.len()) as u64,
        bloom_checksum: checksum::crc32(filter),
    }
}

/// The bytes of a table: blocks, sparse index, filter and footer.
pub open spec fn timed_table(blocks: Seq<TimedBuilder>, words: Seq<u64>, hashes: u32) -> Seq<u8> {
    data_bytes(blocks) + sstable_codec::index_bytes(timed_index(blocks)) + bloom::bloom_bytes(
        words,
        hashes,
    ) + timed_footer(blocks, words, hashes).bytes()
}

/// Each record fits in a block, if need be in one of its own: the bytes of a block are
/// counted in 32 bits.
pub open spec fn all_fit(rs: Seq<TimedRecord>) -> bool {
    forall|i: int| 0 <= i < rs.len() ==> (#[trigger] rs[i]).bytes().len() <= u32::MAX
}

/// The filter reports the keys of the records.
pub open spec fn timed_reported(rs: Seq<TimedRecord>, members: Set<Seq<u8>>) -> bool {
    forall|i: int| 0 <= i < rs.len() ==> members.contains((#[trigger] rs[i]).key)
}

/// Collects the blocks of a table.
struct TimedPacker {
    builder: BlockBuilder,
    data: Vec<u8>,
    index: Vec<SparseIndexEntry>,
    full: Ghost<Seq<TimedBuilder>>,
}

impl TimedPacker {
    spec fn packed(self) -> TimedPacked {
        TimedPacked { full: self.full@, builder: self.builder@ }
    }

    spec fn ok(self) -> bool {
        &&& self.data@ == data_bytes(self.full@)
        &&& keyed::views(self.index@) == timed_index(self.full@)
        &&& self.builder@.offset == data_bytes(self.full@).len()
    }

    fn new() -> (p: TimedPacker)
        ensures
            p.ok(),
            p.packed() == TimedPacked::empty(),
    {
        let p = TimedPacker {
            builder: BlockBuilder::new(0),
            data: Vec::new(),
            index: Vec::new(),
            full: Ghost(Seq::empty()),
        };
        assert(p.data@ =~= data_bytes(p.full@));
        assert(keyed::views(p.index@) =~= timed_index(p.full@));
        p
    }

    /// Closes the block so far, if it has records, and begins the next one.
    fn close(&mut self)
        requires
            old(self).ok(),
        ensures
            final(self).ok(),
            final(self).full@ == old(self).packed().finished(),
            final(self).builder@.records.len() == 0,
    {
        let mut builder = BlockBuilder::new(0);
        std::mem::swap(&mut builder, &mut self.builder);
        let ghost b = builder@;
        let ghost before = self.full@;
        match builder.build() {
            None => {
                self.builder = BlockBuilder::new(self.data.len() as u64);
            },
            Some((meta, encoded)) => {
                bytes::push_all(&mut self.data, encoded.as_slice());
                let entry = SparseIndexEntry {
                    first_key: meta.first_key,
                    block_offset: meta.offset,
                    last_key: meta.last_key,
                    record_count: meta.record_count,
                };
                let ghost item = entry@;
                let ghost items = keyed::views(self.index@);
                self.index.push(entry);
                proof {
                    let after = before.push(b);
                    self.full@ = after;
                    assert(after.drop_last() =~= before);
                    assert(keyed::views(self.index@) =~= items.push(item));
                    assert(timed_index(after) =~= items.push(item));
                }
                self.builder = BlockBuilder::new(self.data.len() as u64);
            },
        }
    }

    fn add(&mut self, record: &Record)
        requires
            old(self).ok(),
        ensures
            final(self).ok(),
            final(self).packed() == old(self).packed().with(record@),
    {
        let ghost before = self.packed();
        match self.builder.add_record(record) {
            Ok(()) => {},
            Err(_) => {
                self.close();
                self.builder = BlockBuilder::with_record(self.data.len() as u64, record);
            },
        }
        assert(self.packed() =~= before.with(record@));
    }
}

/// The bytes of the table of records, and its filter. `bloom` is the filter that the
/// keys are noted in.
pub fn encode_timed_table(records: &Vec<Record>, bloom: BloomFilterWrapper) -> (r: (
    Vec<u8>,
    BloomFilterWrapper,
))
    ensures
        r.0@ == timed_table(timed_blocks(keyed::views(records@)), r.1@.words, r.1@.hashes),
        timed_reported(keyed::views(records@), r.1@.members),
        bloom@.members.subset_of(r.1@.members),
        bloom::sound(r.1),
{
    let ghost all = keyed::views(records@);
    let ghost start = bloom@.members;
    let mut bloom = bloom;
    let mut packer = TimedPacker::new();
    let mut i: usize = 0;
    assert(all.take(0) =~= seq![]);
    while i < records.len()
        invariant
            i <= records@.len(),
            all == keyed::views(records@),
            packer.ok(),
            packer.packed() == pack_timed(all.take(i as int)),
            start.subset_of(bloom@.members),
            timed_reported(all.take(i as int), bloom@.members),
        decreases records@.len() - i,
    {
        let record = &records[i];
        let ghost before = bloom@.members;
        bloom.insert(record.key.as_slice());
        proof {
            assert(all[i as int] == record@);
            let now = all.take(i + 1);
            assert(now.drop_last() =~= all.take(i as int));
            assert(now.last() == record@);
            assert forall|j: int| 0 <= j < now.len() implies bloom@.members.contains(
                (#[trigger] now[j]).key,
            ) by {
                if j < i {
                    assert(now[j] == all.take(i as int)[j]);
                    assert(before.contains(all.take(i as int)[j].key));
                }
            }
        }
        packer.add(record);
        i = i + 1;
    }
    assert(all.take(i as int) =~= all);
    packer.close();
    let TimedPacker { builder: _, data, index, full } = packer;
    let ghost blocks = full@;
    let mut out: Vec<u8> = data;
    let data_end: u64 = out.len() as u64;
    let ghost items = timed_index(blocks);
    assert(items.len() == keyed::views(index@).len());
    let mut index_data: Vec<u8> = Vec::new();
    bytes::push_be64(&mut index_data, index.len() as u64);
    assert(index_data@ =~= bytes::be64(items.len() as u64));
    let mut j: usize = 0;
    assert(items.take(0) =~= seq![]);
    while j < index.len()
        invariant
            j <= index@.len(),
            items == keyed::views(index@),
            index_data@ == bytes::be64(items.len() as u64) + sstable_codec::entries_bytes(
                items.take(j as int),
            ),
        decreases index@.len() - j,
    {
        proof {
            assert(items.take(j + 1).drop_last() =~= items.take(j as int));
            assert(items.take(j + 1).last() == items[j as int]);
        }
        let encoded: Vec<u8> = index[j].encode();
        let ghost before = index_data@;
        bytes::push_all(&mut index_data, encoded.as_slice());
        assert(index_data@ =~= bytes::be64(items.len() as u64) + sstable_codec::entries_bytes(
            items.take(j + 1),
        ));
        j = j + 1;
    }
    assert(items.take(j as int) =~= items);
    assert(index_data@ == sstable_codec::index_bytes(items));
    let index_checksum: u32 = calculate_crc32(index_data.as_slice());
    bytes::push_all(&mut out, index_data.as_slice());
    let index_end: u64 = out.len() as u64;
    let bloom_data: Vec<u8> = bloom.encode();
    let bloom_checksum: u32 = calculate_crc32(bloom_data.as_slice());
    bytes::push_all(&mut out, bloom_data.as_slice());
    let footer = SSTableFooter {
        data_block_start: 0,
        data_block_end: data_end,
        index_block_start: data_end,
        index_block_end: index_end,
        index_checksum,
        bloom_block_start: index_end,
        bloom_block_end: out.len() as u64,
        bloom_checksum,
    };
    assert(footer == timed_footer(blocks, bloom@.words, bloom@.hashes));
    let encoded: Vec<u8> = footer.encode();
    bytes::push_all(&mut out, encoded.as_slice());
    (out, bloom)
}

/// What holds of each block of a table.
pub open spec fn block_ok(b: TimedBuilder) -> bool {
    &&& b.records.len() > 0
    &&& b.records.len() <= u32::MAX
    &&& b.size() <= u32::MAX
    &&& block::encodable(b.records)
}

proof fn lemma_pack_timed(rs: Seq<TimedRecord>)
    requires
        all_fit(rs),
    ensures
        ({
            let p = pack_timed(rs);
            &&& timed_records_of(p.full) + p.builder.records == rs
            &&& p.builder.offset == data_bytes(p.full).len() as u64
            &&& p.builder.size() <= u32::MAX
            &&& 29 * p.builder.records.len() <= p.builder.size()
            &&& block::encodable(p.builder.records)
            &&& forall|i: int|
                #![trigger p.full[i]]
                0 <= i < p.full.len() ==> block_ok(p.full[i]) && p.full[i].offset == data_bytes(
                    p.full.take(i),
                ).len() as u64
        }),
    decreases rs.len(),
{
    let p = pack_timed(rs);
    if rs.len() == 0 {
        assert(timed_records_of(seq![]) + Seq::<TimedRecord>::empty() =~= rs);
        assert(block::records_bytes(seq![]).len() == 0);
        assert(data_bytes(seq![]).len() == 0);
    } else {
        let front = rs.drop_last();
        let r = rs.last();
        assert forall|i: int| 0 <= i < front.len() implies (#[trigger] front[i]).bytes().len()
            <= u32::MAX by {
            assert(front[i] == rs[i]);
        }
        lemma_pack_timed(front);
        let q = pack_timed(front);
        assert(rs[rs.len() - 1] == r);
        block::lemma_record_size(r);
        assert(front.push(r) =~= rs);
        if q.builder.accepts(r) {
            let now = q.builder.records.push(r);
            assert(now.drop_last() =~= q.builder.records);
            assert(timed_records_of(q.full) + now =~= (timed_records_of(q.full)
                + q.builder.records).push(r));
            assert forall|i: int| #![trigger now[i]] 0 <= i < now.len() implies now[i].key.len()
                <= u64::MAX && now[i].value.len() <= u64::MAX by {
                if i < q.builder.records.len() {
                    assert(now[i] == q.builder.records[i]);
                }
            }
        } else {
            let now = seq![r];
            assert(now.drop_last() =~= seq![]);
            assert(block::records_bytes(seq![]).len() == 0);
            assert(now.last() == r);
            let full = q.finished();
            if q.builder.records.len() > 0 {
                assert(full.drop_last() =~= q.full);
                assert(full.last() == q.builder);
                assert(timed_records_of(full) + now =~= rs);
                assert forall|i: int| #![trigger full[i]] 0 <= i < full.len() implies block_ok(
                    full[i],
                ) && full[i].offset == data_bytes(full.take(i)).len() as u64 by {
                    if i < q.full.len() {
                        assert(full[i] == q.full[i]);
                        assert(full.take(i) =~= q.full.take(i));
                    } else {
                        assert(full.take(i) =~= q.full);
                    }
                }
            } else {
                assert(q.builder.records =~= seq![]);
                assert(timed_records_of(full) + now =~= rs);
            }
        }
    }
}

/// The blocks of records have all records, in order, and say of them what they are.
pub proof fn law_timed_pack_keeps_records(rs: Seq<TimedRecord>)
    requires
        all_fit(rs),
    ensures
        timed_records_of(timed_blocks(rs)) == rs,
        forall|i: int|
            #![trigger timed_blocks(rs)[i]]
            0 <= i < timed_blocks(rs).len() ==> block_ok(timed_blocks(rs)[i]) && timed_blocks(
                rs,
            )[i].offset == data_bytes(timed_blocks(rs).take(i)).len() as u64,
{
    lemma_pack_timed(rs);
    let p = pack_timed(rs);
    let blocks = timed_blocks(rs);
    if p.builder.records.len() > 0 {
        assert(blocks.drop_last() =~= p.full);
        assert(blocks.last() == p.builder);
        assert forall|i: int| #![trigger blocks[i]] 0 <= i < blocks.len() implies block_ok(
            blocks[i],
        ) && blocks[i].offset == data_bytes(blocks.take(i)).len() as u64 by {
            if i < p.full.len() {
                assert(blocks[i] == p.full[i]);
                assert(blocks.take(i) =~= p.full.take(i));
            } else {
                assert(blocks.take(i) =~= p.full);
            }
        }
    } else {
        assert(p.builder.records =~= seq![]);
        assert(timed_records_of(p.full) =~= rs);
    }
}

/// The records of one block are among the records of all.
proof fn lemma_timed_block(blocks: Seq<TimedBuilder>, b: int) -> (start: int)
    requires
        0 <= b < blocks.len(),
    ensures
        start == timed_records_of(blocks.take(b)).len(),
        start + blocks[b].records.len() <= timed_records_of(blocks).len(),
        forall|i: int|
            0 <= i < blocks[b].records.len() ==> timed_records_of(blocks)[start + i]
                == #[trigger] blocks[b].records[i],
    decreases blocks.len(),
{
    let front = blocks.drop_last();
    if b == blocks.len() - 1 {
        assert(blocks.take(b) =~= front);
        timed_records_of(front).len() as int
    } else {
        let start = lemma_timed_block(front, b);
        assert(front[b] == blocks[b]);
        assert(front.take(b) =~= blocks.take(b));
        start
    }
}

/// The records of a block come before those of a later one.
proof fn lemma_timed_before(blocks: Seq<TimedBuilder>, b: int, c: int)
    requires
        0 <= b < c <= blocks.len(),
    ensures
        timed_records_of(blocks.take(b)).len() + blocks[b].records.len() <= timed_records_of(
            blocks.take(c),
        ).len(),
    decreases c,
{
    let upto = blocks.take(c);
    assert(upto.drop_last() =~= blocks.take(c - 1));
    assert(upto.last() == blocks[c - 1]);
    if b < c - 1 {
        lemma_timed_before(blocks, b, c - 1);
    }
}

/// Each record is a record of one of the blocks.
proof fn lemma_timed_record(blocks: Seq<TimedBuilder>, i: int) -> (at: (int, int))
    requires
        0 <= i < timed_records_of(blocks).len(),
    ensures
        0 <= at.0 < blocks.len(),
        0 <= at.1 < blocks[at.0].records.len(),
        blocks[at.0].records[at.1] == timed_records_of(blocks)[i],
    decreases blocks.len(),
{
    let front = blocks.drop_last();
    let n = timed_records_of(front).len();
    if i < n {
        let at = lemma_timed_record(front, i);
        assert(front[at.0] == blocks[at.0]);
        at
    } else {
        (blocks.len() - 1, i - n)
    }
}

/// Where the records ascend, so do the records of each block, and the ranges of the
/// blocks ascend and do not overlap.
proof fn lemma_timed_ordered(blocks: Seq<TimedBuilder>)
    requires
        keyed::strictly_sorted(timed_records_of(blocks), block::record_key()),
        forall|i: int| 0 <= i < blocks.len() ==> (#[trigger] blocks[i]).records.len() > 0,
    ensures
        index::ordered_index(timed_index(blocks)),
        forall|b: int|
            0 <= b < blocks.len() ==> keyed::strictly_sorted(
                (#[trigger] blocks[b]).records,
                block::record_key(),
            ),
{
    let rs = timed_records_of(blocks);
    let key = block::record_key();
    let idx = timed_index(blocks);
    assert forall|b: int| 0 <= b < blocks.len() implies keyed::strictly_sorted(
        (#[trigger] blocks[b]).records,
        key,
    ) && order::key_le(idx[b].first_key, idx[b].last_key) by {
        let start = lemma_timed_block(blocks, b);
        let part = blocks[b].records;
        assert forall|i: int, j: int| 0 <= i < j < part.len() implies order::key_lt(
            key(#[trigger] part[i]),
            key(#[trigger] part[j]),
        ) by {
            assert(rs[start + i] == part[i] && rs[start + j] == part[j]);
        }
        if part.len() > 1 {
            assert(order::key_lt(key(part[0]), key(part[part.len() - 1])));
        }
    }
    assert forall|b: int| #![trigger idx[b]] 0 <= b < idx.len() implies order::key_le(
        idx[b].first_key,
        idx[b].last_key,
    ) by {
        assert(blocks[b].records.len() > 0);
    }
    assert forall|b: int, c: int| #![trigger idx[b], idx[c]] 0 <= b < c < idx.len() implies order::key_lt(
        idx[b].last_key,
        idx[c].first_key,
    ) by {
        let sb = lemma_timed_block(blocks, b);
        let sc = lemma_timed_block(blocks, c);
        lemma_timed_before(blocks, b, c);
        let nb = blocks[b].records.len();
        assert(blocks[c].records.len() > 0);
        assert(rs[sb + (nb - 1)] == blocks[b].records[nb - 1]);
        assert(rs[sc + 0] == blocks[c].records[0]);
        assert(order::key_lt(key(rs[sb + (nb - 1)]), key(rs[sc + 0])));
    }
}

/// The bytes before a block, its bytes, and the rest make up the bytes of all blocks.
proof fn lemma_data_split(blocks: Seq<TimedBuilder>, b: int) -> (rest: Seq<u8>)
    requires
        0 <= b < blocks.len(),
    ensures
        data_bytes(blocks) == data_bytes(blocks.take(b)) + block_bytes(blocks[b]) + rest,
    decreases blocks.len(),
{
    let front = blocks.drop_last();
    if b == blocks.len() - 1 {
        assert(blocks.take(b) =~= front);
        let rest = Seq::<u8>::empty();
        assert(data_bytes(blocks) =~= data_bytes(front) + block_bytes(blocks[b]) + rest);
        rest
    } else {
        let before = lemma_data_split(front, b);
        assert(front[b] == blocks[b]);
        assert(front.take(b) =~= blocks.take(b));
        let rest = before + block_bytes(blocks.last());
        assert(data_bytes(blocks) =~= data_bytes(blocks.take(b)) + block_bytes(blocks[b]) + rest);
        rest
    }
}

/// The table of records reads back: its footer, its sparse index and the bytes of its
/// filter are what they were, and the checksums match.
pub proof fn law_timed_table_sections(rs: Seq<TimedRecord>, words: Seq<u64>, hashes: u32)
    requires
        all_fit(rs),
        words.len() <= u64::MAX,
        timed_blocks(rs).len() <= u64::MAX,
        timed_table(timed_blocks(rs), words, hashes).len() <= u64::MAX,
    ensures
        ({
            let blocks = timed_blocks(rs);
            let s = timed_table(blocks, words, hashes);
            let f = timed_footer(blocks, words, hashes);
            &&& SSTableFooter::of_table(s) == Ok::<_, IoFailure>(f)
            &&& footer::sparse_index_of(s, f) == Ok::<_, IoFailure>(timed_index(blocks))
            &&& footer::bloom_section_of(s, f) == Ok::<_, IoFailure>(
                bloom::bloom_bytes(words, hashes),
            )
        }),
{
    broadcast use crate::bytes::group_bytes;

    let blocks = timed_blocks(rs);
    let s = timed_table(blocks, words, hashes);
    let f = timed_footer(blocks, words, hashes);
    let items = timed_index(blocks);
    let data = data_bytes(blocks);
    let idx = sstable_codec::index_bytes(items);
    let blm = bloom::bloom_bytes(words, hashes);
    law_timed_pack_keeps_records(rs);
    footer::lemma_footer_size(f);
    footer::law_footer_round_trip(data + idx + blm, f, seq![]);
    assert forall|i: int| #![trigger items[i]] 0 <= i < items.len() implies items[i].first_key.len()
        <= u64::MAX && items[i].last_key.len() <= u64::MAX by {
        assert(block_ok(blocks[i]));
        let part = blocks[i].records;
        assert(part[0].key.len() <= u64::MAX);
        assert(part[part.len() - 1].key.len() <= u64::MAX);
    }
    sstable_codec::law_sparse_index_round_trip(seq![], items, seq![]);
    assert(seq![] + idx + seq![] =~= idx);
    assert(idx.len() >= 8);
    assert(blm.len() >= 20);
    assert(s.subrange(f.index_block_start as int, f.index_block_end as int) =~= idx);
    assert(s.subrange(f.bloom_block_start as int, f.bloom_block_end as int) =~= blm);
}

/// Parts of a sequence can be taken together.
proof fn lemma_taken_together(
    front: Seq<u8>,
    part: Seq<u8>,
    rest: Seq<u8>,
    a: Seq<u8>,
    b: Seq<u8>,
    c: Seq<u8>,
)
    ensures
        front + part + rest + a + b + c == front + part + (rest + a + b + c),
{
    assert(front + part + rest + a + b + c =~= front + part + (rest + a + b + c));
}

/// Each block of a table is read at the offset that the index has for it, with its records
/// sorted.
pub proof fn lemma_timed_block_read(rs: Seq<TimedRecord>, words: Seq<u64>, hashes: u32, b: int)
    requires
        all_fit(rs),
        timed_table(timed_blocks(rs), words, hashes).len() <= u64::MAX,
        0 <= b < timed_blocks(rs).len(),
    ensures
        TimedBlock::parse(
            timed_table(timed_blocks(rs), words, hashes),
            timed_index(timed_blocks(rs))[b].block_offset,
        ) matches Ok(p) && p.0.data == Some(
            keyed::stable_sort(timed_blocks(rs)[b].records, block::record_key()),
        ),
{
    let blocks = timed_blocks(rs);
    let s = timed_table(blocks, words, hashes);
    law_timed_pack_keeps_records(rs);
    assert(block_ok(blocks[b]));
    let rest = lemma_data_split(blocks, b);
    let pre = data_bytes(blocks.take(b));
    let (idx, blm, end) = (
        sstable_codec::index_bytes(timed_index(blocks)),
        bloom::bloom_bytes(words, hashes),
        timed_footer(blocks, words, hashes).bytes(),
    );
    lemma_taken_together(pre, block_bytes(blocks[b]), rest, idx, blm, end);
    block::law_block_round_trip(pre, blocks[b], rest + idx + blm + end);
}

/// Each block of a table is found at the offset that the index has for it.
pub proof fn lemma_timed_block_found(rs: Seq<TimedRecord>, words: Seq<u64>, hashes: u32, b: int)
    requires
        all_fit(rs),
        timed_table(timed_blocks(rs), words, hashes).len() <= u64::MAX,
        0 <= b < timed_blocks(rs).len(),
        keyed::strictly_sorted(timed_blocks(rs)[b].records, block::record_key()),
    ensures
        TimedBlock::parse(
            timed_table(timed_blocks(rs), words, hashes),
            timed_index(timed_blocks(rs))[b].block_offset,
        ) matches Ok(p) && p.0.data == Some(timed_blocks(rs)[b].records),
{
    lemma_timed_block_read(rs, words, hashes, b);
    keyed::lemma_strict_is_sorted(timed_blocks(rs)[b].records, block::record_key());
    keyed::lemma_sort_of_sorted(timed_blocks(rs)[b].records, block::record_key());
}

/// What a lookup among ascending records finds is what it finds in the block that has
/// the key.
pub proof fn lemma_value_in(rs: Seq<TimedRecord>, i: int)
    requires
        keyed::strictly_sorted(rs, block::record_key()),
        0 <= i < rs.len(),
    ensures
        index::value_in(rs, rs[i].key) == index::value_in(seq![rs[i]], rs[i].key),
    decreases i,
{
    let key = block::record_key();
    if i == 0 {
    } else {
        order::lemma_key_irreflexive(rs[i].key);
        assert(order::key_lt(key(rs[0]), key(rs[i])));
        let rest = rs.skip(1);
        assert forall|a: int, b: int| 0 <= a < b < rest.len() implies order::key_lt(
            key(#[trigger] rest[a]),
            key(#[trigger] rest[b]),
        ) by {
            assert(rest[a] == rs[a + 1] && rest[b] == rs[b + 1]);
        }
        assert(rest[i - 1] == rs[i]);
        lemma_value_in(rest, i - 1);
    }
}

/// Without a record of the key nothing is found.
pub proof fn lemma_value_missing(rs: Seq<TimedRecord>, key: Seq<u8>)
    requires
        forall|i: int| 0 <= i < rs.len() ==> (#[trigger] rs[i]).key != key,
    ensures
        index::value_in(rs, key) is None,
    decreases rs.len(),
{
    if rs.len() > 0 {
        let rest = rs.skip(1);
        assert forall|i: int| 0 <= i < rest.len() implies (#[trigger] rest[i]).key != key by {
            assert(rest[i] == rs[i + 1]);
        }
        assert(rs[0].key != key);
        lemma_value_missing(rest, key);
    }
}

/// A lookup of a key that a record has.
proof fn lemma_lookup_there(rs: Seq<TimedRecord>, words: Seq<u64>, hashes: u32, i: int)
    requires
        all_fit(rs),
        keyed::strictly_sorted(rs, block::record_key()),
        timed_table(timed_blocks(rs), words, hashes).len() <= u64::MAX,
        timed_records_of(timed_blocks(rs)) == rs,
        index::ordered_index(timed_index(timed_blocks(rs))),
        forall|b: int|
            0 <= b < timed_blocks(rs).len() ==> keyed::strictly_sorted(
                (#[trigger] timed_blocks(rs)[b]).records,
                block::record_key(),
            ),
        0 <= i < rs.len(),
    ensures
        index::sparse_lookup(
            timed_table(timed_blocks(rs), words, hashes),
            rs[i].key,
            timed_index(timed_blocks(rs)),
        ) == Ok::<_, DBFailure>(index::value_in(rs, rs[i].key)),
{
    let blocks = timed_blocks(rs);
    let items = timed_index(blocks);
    let key = rs[i].key;
    let n = items.len() as int;
    index::law_search_blocks(items, key, 0, n);
    let at = lemma_timed_record(blocks, i);
    let part = blocks[at.0].records;
    assert(part[at.1] == rs[i]);
    lemma_key_in_range(blocks[at.0], at.1);
    assert(items[at.0].covers(key));
    let found = index::search_blocks(items, key, 0, n);
    assert(found is Block);
    let b = found->Block_0;
    lemma_one_block(items, key, at.0, b);
    lemma_timed_block_found(rs, words, hashes, b);
    lemma_value_in(rs, i);
    lemma_value_in(part, at.1);
}

/// A lookup of a key that no record has.
proof fn lemma_lookup_missing(rs: Seq<TimedRecord>, words: Seq<u64>, hashes: u32, key: Seq<u8>)
    requires
        all_fit(rs),
        timed_table(timed_blocks(rs), words, hashes).len() <= u64::MAX,
        timed_records_of(timed_blocks(rs)) == rs,
        index::ordered_index(timed_index(timed_blocks(rs))),
        forall|b: int|
            0 <= b < timed_blocks(rs).len() ==> keyed::strictly_sorted(
                (#[trigger] timed_blocks(rs)[b]).records,
                block::record_key(),
            ),
        forall|i: int| 0 <= i < rs.len() ==> (#[trigger] rs[i]).key != key,
    ensures
        index::sparse_lookup(
            timed_table(timed_blocks(rs), words, hashes),
            key,
            timed_index(timed_blocks(rs)),
        ) == Ok::<_, DBFailure>(None::<Seq<u8>>),
{
    let blocks = timed_blocks(rs);
    let items = timed_index(blocks);
    let n = items.len() as int;
    index::law_search_blocks(items, key, 0, n);
    let found = index::search_blocks(items, key, 0, n);
    if found is Block {
        let b = found->Block_0;
        lemma_timed_block_found(rs, words, hashes, b);
        let part = blocks[b].records;
        let start = lemma_timed_block(blocks, b);
        assert forall|i: int| 0 <= i < part.len() implies (#[trigger] part[i]).key != key by {
            assert(rs[start + i] == part[i]);
        }
        lemma_value_missing(part, key);
    }
}

/// A lookup through the sparse index of a table of records with ascending keys finds
/// the value of the key, and nothing where the key is deleted or not there.
pub proof fn law_timed_table_lookup(
    rs: Seq<TimedRecord>,
    words: Seq<u64>,
    hashes: u32,
    key: Seq<u8>,
)
    requires
        all_fit(rs),
        keyed::strictly_sorted(rs, block::record_key()),
        timed_table(timed_blocks(rs), words, hashes).len() <= u64::MAX,
    ensures
        index::sparse_lookup(
            timed_table(timed_blocks(rs), words, hashes),
            key,
            timed_index(timed_blocks(rs)),
        ) == Ok::<_, DBFailure>(index::value_in(rs, key)),
{
    let blocks = timed_blocks(rs);
    law_timed_pack_keeps_records(rs);
    assert forall|i: int| 0 <= i < blocks.len() implies (#[trigger] blocks[i]).records.len() > 0 by {
        assert(block_ok(blocks[i]));
    }
    lemma_timed_ordered(blocks);
    if exists|i: int| 0 <= i < rs.len() && (#[trigger] rs[i]).key == key {
        let i = choose|i: int| 0 <= i < rs.len() && (#[trigger] rs[i]).key == key;
        lemma_lookup_there(rs, words, hashes, i);
    } else {
        lemma_value_missing(rs, key);
        lemma_lookup_missing(rs, words, hashes, key);
    }
}

/// The keys of a block of ascending records are in its range.
proof fn lemma_key_in_range(b: TimedBuilder, i: int)
    requires
        keyed::strictly_sorted(b.records, block::record_key()),
        0 <= i < b.records.len(),
    ensures
        order::key_le(b.records[0].key, b.records[i].key),
        order::key_le(b.records[i].key, b.records.last().key),
{
    let key = block::record_key();
    let rs = b.records;
    if i > 0 {
        assert(order::key_lt(key(rs[0]), key(rs[i])));
    }
    if i < rs.len() - 1 {
        assert(order::key_lt(key(rs[i]), key(rs[rs.len() - 1])));
    }
}

/// Only one block of an ordered index has a key in its range.
proof fn lemma_one_block(items: Seq<SparseItem>, key: Seq<u8>, a: int, b: int)
    requires
        index::ordered_index(items),
        0 <= a < items.len(),
        0 <= b < items.len(),
        items[a].covers(key),
        items[b].covers(key),
    ensures
        a == b,
{
    if a < b {
        lemma_not_both(items[a], items[b], key);
    } else if b < a {
        lemma_not_both(items[b], items[a], key);
    }
}

/// Of two ranges, one behind the other, at most one has a key.
proof fn lemma_not_both(a: SparseItem, b: SparseItem, key: Seq<u8>)
    requires
        order::key_lt(a.last_key, b.first_key),
    ensures
        !(a.covers(key) && b.covers(key)),
{
    if a.covers(key) && b.covers(key) {
        if key != a.last_key {
            order::lemma_key_transitive(key, a.last_key, b.first_key);
        }
        order::lemma_key_asymmetric(key, b.first_key);
        order::lemma_key_irreflexive(key);
    }
}

/// A block of ascending records ascends.
pub proof fn lemma_timed_block_sorted(rs: Seq<TimedRecord>, b: int)
    requires
        all_fit(rs),
        keyed::strictly_sorted(rs, block::record_key()),
        0 <= b < timed_blocks(rs).len(),
    ensures
        keyed::strictly_sorted(timed_blocks(rs)[b].records, block::record_key()),
{
    let blocks = timed_blocks(rs);
    let key = block::record_key();
    law_timed_pack_keeps_records(rs);
    let start = lemma_timed_block(blocks, b);
    let own = blocks[b].records;
    assert forall|i: int, j: int| #![trigger own[i], own[j]] 0 <= i < j < own.len() implies order::key_lt(
        key(own[i]),
        key(own[j]),
    ) by {
        assert(rs[start + i] == own[i] && rs[start + j] == own[j]);
    }
}

} // verus!
