//! Packing records into blocks.
use vstd::prelude::*;
use crate::bytes;
use crate::order;
use crate::storage::bloom::BloomFilterWrapper;
use crate::storage::constant::SSTABLE_BLOCK_SIZE;
use crate::storage::index;
use crate::storage::index::SparseIndexEntry;
use crate::storage::keyed;
use crate::storage::record::{MemtableRecord, Version};
use crate::storage::sstable_codec;
use crate::storage::sstable_codec::SSTableCodec;
use crate::storage::writemanager::block;
use crate::storage::writemanager::block::{Block, BlockBuilder, BlockBuilderState, BlockView,
    BuilderView};

verus! {

/// Records on their way into blocks: the blocks that are full, and the builder of
/// the next one.
#[verifier::ext_equal]
pub struct Packed {
    pub blocks: Seq<BlockView>,
    pub builder: BuilderView,
}

impl Packed {
    /// Nothing packed yet.
    pub open spec fn empty() -> Packed {
        Packed {
            blocks: seq![],
            builder: BuilderView { offset: 0, records: seq![], last_key: None },
        }
    }

    /// One more record. Where it does not fit, the block so far is full and the
    /// record goes into the next one; a record that is longer than a block gets a
    /// block of its own.
    pub open spec fn with(self, v: Version) -> Packed {
        let next = self.builder.emptied();
        if self.builder.has_room(v) {
            Packed { blocks: self.blocks, builder: self.builder.with(v) }
        } else if next.has_room(v) {
            Packed { blocks: self.blocks.push(self.builder.block()), builder: next.with(v) }
        } else {
            Packed { blocks: self.finished().push(own_block(v)), builder: next }
        }
    }

    /// All blocks, the last one included if it has records.
    pub open spec fn finished(self) -> Seq<BlockView> {
        if self.builder.records.len() == 0 {
            self.blocks
        } else {
            self.blocks.push(self.builder.block())
        }
    }
}

/// A block with one record.
pub open spec fn own_block(v: Version) -> BlockView {
    BlockView {
        offset: 0,
        first_key: v.key,
        last_key: v.key,
        record_count: 1,
        data_size: v.size() as u32,
        data: Some(seq![v]),
    }
}

/// Records packed one after the other.
pub open spec fn pack(vs: Seq<Version>) -> Packed
    decreases vs.len(),
{
    if vs.len() == 0 {
        Packed::empty()
    } else {
        pack(vs.drop_last()).with(vs.last())
    }
}

/// The blocks of records.
pub open spec fn packed_blocks(vs: Seq<Version>) -> Seq<BlockView> {
    pack(vs).finished()
}

/// The records of blocks, one block after the other.
pub open spec fn records_of(blocks: Seq<BlockView>) -> Seq<Version>
    decreases blocks.len(),
{
    if blocks.len() == 0 {
        seq![]
    } else {
        records_of(blocks.drop_last()) + blocks.last().records()
    }
}

/// A record fits in a block, if need be in one of its own: the bytes of a block are
/// counted in 32 bits.
pub open spec fn fits_block(v: Version) -> bool {
    v.size() <= u32::MAX
}

/// Each record fits in a block.
pub open spec fn all_fit(vs: Seq<Version>) -> bool {
    forall|i: int| 0 <= i < vs.len() ==> fits_block(#[trigger] vs[i])
}

/// A block says of its records what they are.
pub open spec fn faithful(b: BlockView) -> bool {
    &&& b.data is Some
    &&& b.records().len() > 0
    &&& b.first_key == b.records()[0].key
    &&& b.last_key == b.records().last().key
    &&& b.record_count == b.records().len()
    &&& b.data_size == block::versions_bytes(b.records()).len()
    &&& b.data_size <= SSTABLE_BLOCK_SIZE || b.records().len() == 1
}

/// Packs records into blocks and notes their keys in a filter.
pub struct Packer {
    builder: BlockBuilder,
    blocks: Vec<Block>,
    bloom: BloomFilterWrapper,
}

/// What a packer holds.
pub struct PackerView {
    pub packed: Packed,
    pub members: Set<Seq<u8>>,
}

impl View for Packer {
    type V = PackerView;

    closed spec fn view(&self) -> PackerView {
        PackerView {
            packed: Packed { blocks: keyed::views(self.blocks@), builder: self.builder@ },
            members: self.bloom@.members,
        }
    }
}

/// The block of one record.
fn block_of(key: &Vec<u8>, record: &MemtableRecord) -> (b: Block)
    ensures
        b@ == own_block(record@.under(key@)),
{
    let size: u32 = record.encode(key).len() as u32;
    let mut records: Vec<MemtableRecord> = Vec::new();
    let added = MemtableRecord {
        key: bytes::copy_bytes(key.as_slice()),
        value: bytes::copy_bytes(record.value.as_slice()),
        record_type: record.record_type,
        lsn: record.lsn,
    };
    let ghost v = record@.under(key@);
    assert(added@ =~= v);
    records.push(added);
    proof {
        crate::storage::record::lemma_version_size(v);
        assert(keyed::views(records@) =~= seq![v]);
    }
    Block {
        offset: 0,
        first_key: bytes::copy_bytes(key.as_slice()),
        last_key: bytes::copy_bytes(key.as_slice()),
        record_count: 1,
        data_size: size,
        data: Some(records),
    }
}

impl Packer {
    /// A packer without records that notes keys in `bloom`.
    pub fn new(bloom: BloomFilterWrapper) -> (p: Packer)
        ensures
            p@.packed == Packed::empty(),
            p@.members == bloom@.members,
    {
        let blocks: Vec<Block> = Vec::new();
        let builder = BlockBuilder::new(0);
        assert(keyed::views(blocks@) =~= seq![]);
        Packer { builder, blocks, bloom }
    }

    /// Notes `key` in the filter and packs `record` under it.
    pub fn add_record(&mut self, key: &Vec<u8>, record: &MemtableRecord)
        requires
            old(self)@.packed.builder.offset == 0,
        ensures
            final(self)@.packed == old(self)@.packed.with(record@.under(key@)),
            final(self)@.members.contains(key@),
            old(self)@.members.subset_of(final(self)@.members),
    {
        let ghost before = self@.packed;
        let ghost v = record@.under(key@);
        self.bloom.insert(key.as_slice());
        match self.builder.add_record(key, record) {
            BlockBuilderState::EnoughSpace => {},
            BlockBuilderState::Full(block, _) => {
                let ghost blocks = keyed::views(self.blocks@);
                let ghost b = block@;
                let filled: bool = block.record_count > 0;
                if filled {
                    self.blocks.push(block);
                    assert(keyed::views(self.blocks@) =~= blocks.push(b));
                }
                match self.builder.add_record(key, record) {
                    BlockBuilderState::EnoughSpace => {},
                    BlockBuilderState::Full(_, _) => {
                        let own = block_of(key, record);
                        let ghost o = own@;
                        let ghost so_far = keyed::views(self.blocks@);
                        self.blocks.push(own);
                        proof {
                            assert(keyed::views(self.blocks@) =~= so_far.push(o));
                            let next = before.builder.emptied();
                            assert(next.emptied() =~= next);
                        }
                    },
                }
                proof {
                    crate::storage::record::lemma_version_size(v);
                    if before.builder.records.len() == 0 {
                        assert(before.builder.records =~= seq![]);
                    }
                }
            },
        }
        assert(self@.packed =~= before.with(v));
    }

    /// The table of the records.
    pub fn finish(self) -> (t: SSTableCodec)
        ensures
            t@.blocks == self@.packed.finished(),
            t@.index == Seq::<index::SparseItem>::empty(),
            t@.bloom.members == self@.members,
    {
        let ghost packed = self@.packed;
        let Packer { builder, mut blocks, bloom } = self;
        let ghost before = keyed::views(blocks@);
        match builder.build() {
            None => {},
            Some((block, _)) => {
                let ghost b = block@;
                blocks.push(block);
                assert(keyed::views(blocks@) =~= before.push(b));
            },
        }
        let index: Vec<SparseIndexEntry> = Vec::new();
        assert(keyed::views(index@) =~= Seq::<index::SparseItem>::empty());
        SSTableCodec { blocks, index, bloom }
    }
}

/// Packing records that fit loses none and keeps their order; each full block has
/// records and says of them what they are.
proof fn lemma_pack(vs: Seq<Version>)
    requires
        all_fit(vs),
    ensures
        records_of(pack(vs).blocks) + pack(vs).builder.records == vs,
        pack(vs).builder.offset == 0,
        pack(vs).builder.ok(),
        forall|i: int| 0 <= i < pack(vs).blocks.len() ==> faithful(#[trigger] pack(vs).blocks[i]),
    decreases vs.len(),
{
    if vs.len() == 0 {
        assert(records_of(seq![]) + Seq::<Version>::empty() =~= vs);
        assert(block::versions_bytes(seq![]).len() == 0);
    } else {
        let front = vs.drop_last();
        let v = vs.last();
        assert forall|i: int| 0 <= i < front.len() implies fits_block(#[trigger] front[i]) by {
            assert(front[i] == vs[i]);
        }
        lemma_pack(front);
        let p = pack(front);
        let q = p.with(v);
        assert(fits_block(vs[vs.len() - 1]));
        crate::storage::record::lemma_version_size(v);
        let next = p.builder.emptied();
        assert(block::versions_bytes(seq![]).len() == 0);
        assert(front.push(v) =~= vs);
        if p.builder.has_room(v) {
            assert(q.builder.records.drop_last() =~= p.builder.records);
            let done = records_of(p.blocks);
            assert(done + p.builder.records.push(v) =~= (done + p.builder.records).push(v));
        } else {
            lemma_finished(p);
            let full = p.finished();
            if next.has_room(v) {
                assert(q.builder.records =~= seq![v]);
                assert(q.builder.records.drop_last() =~= seq![]);
                if p.builder.records.len() == 0 {
                    assert(p.builder.records =~= seq![]);
                    assert(false);
                }
                assert(q.blocks == full);
                assert(records_of(full) + q.builder.records =~= vs);
            } else {
                assert(q.blocks.drop_last() =~= full);
                assert(q.blocks.last() == own_block(v));
                assert(own_block(v).records() =~= seq![v]);
                assert(records_of(q.blocks) + q.builder.records =~= vs);
                assert(seq![v].drop_last() =~= seq![]);
                assert(block::versions_bytes(seq![v]) =~= v.bytes());
                assert(faithful(own_block(v)));
                assert forall|i: int| 0 <= i < q.blocks.len() implies faithful(
                    #[trigger] q.blocks[i],
                ) by {
                    if i < full.len() {
                        assert(q.blocks[i] == full[i]);
                    }
                }
            }
        }
    }
}

/// What holds of the blocks once the last one is included.
proof fn lemma_finished(p: Packed)
    requires
        p.builder.ok(),
        forall|i: int| 0 <= i < p.blocks.len() ==> faithful(#[trigger] p.blocks[i]),
    ensures
        records_of(p.finished()) == records_of(p.blocks) + p.builder.records,
        forall|i: int| 0 <= i < p.finished().len() ==> faithful(#[trigger] p.finished()[i]),
{
    let out = p.finished();
    if p.builder.records.len() > 0 {
        assert(out.drop_last() =~= p.blocks);
        assert(out.last() == p.builder.block());
        assert(p.builder.block().records() == p.builder.records);
        assert forall|i: int| 0 <= i < out.len() implies faithful(#[trigger] out[i]) by {
            if i < p.blocks.len() {
                assert(out[i] == p.blocks[i]);
            }
        }
    } else {
        assert(p.builder.records =~= seq![]);
        assert(records_of(p.blocks) + p.builder.records =~= records_of(p.blocks));
    }
}

/// Packing records that fit loses none and keeps their order: the records of the
/// blocks, one block after the other, are the records that were packed. Each block
/// has records, at most as many bytes of them as a block holds unless it is only one,
/// and says of them what they are.
pub proof fn law_pack_keeps_records(vs: Seq<Version>)
    requires
        all_fit(vs),
    ensures
        records_of(packed_blocks(vs)) == vs,
        forall|i: int|
            0 <= i < packed_blocks(vs).len() ==> faithful(#[trigger] packed_blocks(vs)[i]),
{
    lemma_pack(vs);
    lemma_finished(pack(vs));
}

/// The records of one block are among the records of all.
pub proof fn lemma_records_of_block(blocks: Seq<BlockView>, b: int) -> (start: int)
    requires
        0 <= b < blocks.len(),
    ensures
        0 <= start,
        start + blocks[b].records().len() <= records_of(blocks).len(),
        forall|i: int|
            0 <= i < blocks[b].records().len() ==> records_of(blocks)[start + i]
                == #[trigger] blocks[b].records()[i],
        forall|c: int|
            #![trigger blocks[c]]
            0 <= c < b ==> records_of(blocks.take(c)).len() + blocks[c].records().len() <= start,
        start == records_of(blocks.take(b)).len(),
    decreases blocks.len(),
{
    let front = blocks.drop_last();
    if b == blocks.len() - 1 {
        assert(blocks.take(b) =~= front);
        assert forall|c: int| #![trigger blocks[c]] 0 <= c < b implies records_of(
            blocks.take(c),
        ).len() + blocks[c].records().len() <= records_of(front).len() by {
            let s = lemma_records_of_block(front, c);
            assert(front.take(c) =~= blocks.take(c));
            assert(front[c] == blocks[c]);
        }
        records_of(front).len() as int
    } else {
        let start = lemma_records_of_block(front, b);
        assert(front[b] == blocks[b]);
        assert(front.take(b) =~= blocks.take(b));
        assert forall|c: int| #![trigger blocks[c]] 0 <= c < b implies records_of(
            blocks.take(c),
        ).len() + blocks[c].records().len() <= start by {
            assert(front[c] == blocks[c]);
            assert(front.take(c) =~= blocks.take(c));
        }
        start
    }
}

/// Each record of blocks is a record of one of them.
pub proof fn lemma_record_in_block(blocks: Seq<BlockView>, i: int) -> (at: (int, int))
    requires
        0 <= i < records_of(blocks).len(),
    ensures
        0 <= at.0 < blocks.len(),
        0 <= at.1 < blocks[at.0].records().len(),
        blocks[at.0].records()[at.1] == records_of(blocks)[i],
        i == records_of(blocks.take(at.0)).len() + at.1,
    decreases blocks.len(),
{
    let front = blocks.drop_last();
    let n = records_of(front).len();
    if i < n {
        let at = lemma_record_in_block(front, i);
        assert(front[at.0] == blocks[at.0]);
        assert(front.take(at.0) =~= blocks.take(at.0));
        at
    } else {
        assert(blocks.take(blocks.len() - 1) =~= front);
        (blocks.len() - 1, i - n)
    }
}

/// A block of ascending records ascends.
proof fn lemma_block_sorted(blocks: Seq<BlockView>, b: int)
    requires
        keyed::strictly_sorted(records_of(blocks), block::version_key()),
        0 <= b < blocks.len(),
    ensures
        keyed::strictly_sorted(blocks[b].records(), block::version_key()),
{
    let vs = records_of(blocks);
    let key = block::version_key();
    let start = lemma_records_of_block(blocks, b);
    let rs = blocks[b].records();
    assert forall|i: int, j: int| 0 <= i < j < rs.len() implies order::key_lt(
        key(#[trigger] rs[i]),
        key(#[trigger] rs[j]),
    ) by {
        assert(vs[start + i] == rs[i] && vs[start + j] == rs[j]);
    }
}

/// The first key of a block is not behind its last key.
proof fn lemma_block_range(blocks: Seq<BlockView>, b: int)
    requires
        keyed::strictly_sorted(records_of(blocks), block::version_key()),
        0 <= b < blocks.len(),
        faithful(blocks[b]),
    ensures
        order::key_le(blocks[b].first_key, blocks[b].last_key),
{
    let key = block::version_key();
    lemma_block_sorted(blocks, b);
    let rs = blocks[b].records();
    if rs.len() > 1 {
        assert(order::key_lt(key(rs[0]), key(rs[rs.len() - 1])));
    }
}

/// A block ends before a later one begins.
proof fn lemma_block_pair(blocks: Seq<BlockView>, b: int, c: int)
    requires
        keyed::strictly_sorted(records_of(blocks), block::version_key()),
        0 <= b < c < blocks.len(),
        faithful(blocks[b]),
        faithful(blocks[c]),
    ensures
        order::key_lt(blocks[b].last_key, blocks[c].first_key),
{
    let vs = records_of(blocks);
    let key = block::version_key();
    let sb = lemma_records_of_block(blocks, b);
    let sc = lemma_records_of_block(blocks, c);
    let nb = blocks[b].records().len();
    assert(vs[sb + (nb - 1)] == blocks[b].records()[nb - 1]);
    assert(vs[sc + 0] == blocks[c].records()[0]);
    assert(records_of(blocks.take(b)).len() + blocks[b].records().len() <= sc);
    assert(order::key_lt(key(vs[sb + (nb - 1)]), key(vs[sc + 0])));
}

/// Where the packed records ascend by key, the ranges of the blocks ascend and do
/// not overlap, and each block is sorted.
pub proof fn law_packed_index_ordered(vs: Seq<Version>)
    requires
        all_fit(vs),
        keyed::strictly_sorted(vs, block::version_key()),
    ensures
        index::ordered_index(sstable_codec::index_of(packed_blocks(vs))),
        forall|b: int|
            0 <= b < packed_blocks(vs).len() ==> keyed::strictly_sorted(
                (#[trigger] packed_blocks(vs)[b]).records(),
                block::version_key(),
            ),
{
    law_pack_keeps_records(vs);
    let blocks = packed_blocks(vs);
    let idx = sstable_codec::index_of(blocks);
    assert forall|b: int| 0 <= b < blocks.len() implies keyed::strictly_sorted(
        (#[trigger] blocks[b]).records(),
        block::version_key(),
    ) by {
        lemma_block_sorted(blocks, b);
    }
    assert forall|b: int| #![trigger idx[b]] 0 <= b < idx.len() implies order::key_le(
        idx[b].first_key,
        idx[b].last_key,
    ) by {
        assert(faithful(blocks[b]));
        lemma_block_range(blocks, b);
    }
    assert forall|b: int, c: int| #![trigger idx[b], idx[c]] 0 <= b < c < idx.len() implies order::key_lt(
        idx[b].last_key,
        idx[c].first_key,
    ) by {
        assert(faithful(blocks[b]));
        assert(faithful(blocks[c]));
        lemma_block_pair(blocks, b, c);
    }
}

/// The first block begins with the key of the first record, and the last one ends with
/// that of the last record. Without records there are no blocks.
pub proof fn law_packed_ends(vs: Seq<Version>)
    requires
        all_fit(vs),
    ensures
        vs.len() == 0 <==> packed_blocks(vs).len() == 0,
        vs.len() > 0 ==> packed_blocks(vs)[0].first_key == vs[0].key,
        vs.len() > 0 ==> packed_blocks(vs).last().last_key == vs.last().key,
{
    law_pack_keeps_records(vs);
    let blocks = packed_blocks(vs);
    let n = blocks.len() - 1;
    if blocks.len() > 0 {
        assert(faithful(blocks[0]));
        assert(faithful(blocks[n]));
        let a = lemma_records_of_block(blocks, 0);
        assert(blocks.take(0) =~= seq![]);
        assert(vs[a + 0] == blocks[0].records()[0]);
        let z = lemma_records_of_block(blocks, n);
        let m = blocks[n].records().len() - 1;
        assert(vs[z + m] == blocks[n].records()[m]);
        assert(blocks.take(n) =~= blocks.drop_last());
        assert(records_of(blocks) == records_of(blocks.drop_last()) + blocks.last().records());
    }
}

} // verus!
