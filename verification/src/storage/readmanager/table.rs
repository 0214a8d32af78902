//! Lookups and scans in one table.
use vstd::prelude::*;
use crate::error::{DBError, IoFailure};
use crate::order;
use crate::order::{order_keys, same_key, KeyOrder};
use crate::storage::bloom;
use crate::storage::bloom::BloomFilterWrapper;
use crate::storage::footer::SSTableFooter;
use crate::storage::index::{Found, SparseItem};
use crate::storage::keyed;
use crate::storage::memtable;
use crate::storage::readmanager::range::{ranges_overlap, KeyRange, RangeView};
use crate::storage::record::{MemtableRecord, Version};
use crate::storage::sstable_codec;
use crate::storage::sstable_codec::SSTableCodec;
use crate::storage::writemanager::block;
use crate::storage::writemanager::block::BlockView;
use crate::storage::writemanager::pack;

verus! {

/// The first record of `key`.
pub open spec fn first_of(records: Seq<Version>, key: Seq<u8>) -> Option<Version>
    decreases records.len(),
{
    if records.len() == 0 {
        None
    } else if records[0].key == key {
        Some(records[0])
    } else {
        first_of(records.skip(1), key)
    }
}

/// The first record of `key` in the blocks whose range has the key, from the place
/// `from` of the index on.
pub open spec fn probe(
    s: Seq<u8>,
    f: SSTableFooter,
    index: Seq<SparseItem>,
    key: Seq<u8>,
    from: int,
) -> Result<Option<Version>, IoFailure>
    decreases index.len() - from,
{
    if from >= index.len() {
        Ok(None)
    } else if !index[from].covers(key) {
        probe(s, f, index, key, from + 1)
    } else {
        match sstable_codec::block_for(s, f, index, index[from].first_key) {
            Err(e) => Err(e),
            Ok(b) => match first_of(b.records(), key) {
                Some(v) => Ok(Some(v)),
                None => probe(s, f, index, key, from + 1),
            },
        }
    }
}

/// The filter of the table `s` reports `key`.
pub open spec fn reported(s: Seq<u8>, key: Seq<u8>) -> bool {
    exists|b: BloomFilterWrapper| #[trigger]
        sstable_codec::filter_of(s, b) && b@.members.contains(key)
}

/// What a lookup in the table `s` finds.
pub open spec fn table_lookup(s: Seq<u8>, key: Seq<u8>) -> Result<Option<Version>, IoFailure> {
    match sstable_codec::sections_of(s) {
        Err(e) => Err(e),
        Ok((f, index, _, _)) => if reported(s, key) {
            probe(s, f, index, key, 0)
        } else {
            Ok(None)
        },
    }
}

/// Two filters of one table report the same keys.
pub proof fn lemma_same_filter(s: Seq<u8>, a: BloomFilterWrapper, b: BloomFilterWrapper)
    requires
        sstable_codec::filter_of(s, a),
        sstable_codec::filter_of(s, b),
    ensures
        a@ == b@,
{
    let (fa, ea) = choose|footer: SSTableFooter, end: int| #[trigger]
        sstable_codec::footer_ok(s, footer) && #[trigger] bloom::filter_read(
            s,
            footer.bloom_block_start as int,
            a,
            end,
        );
    let (fb, eb) = choose|footer: SSTableFooter, end: int| #[trigger]
        sstable_codec::footer_ok(s, footer) && #[trigger] bloom::filter_read(
            s,
            footer.bloom_block_start as int,
            b,
            end,
        );
    assert(fa == fb);
    assert(bloom::filter_members(b) == bloom::filter_members(a));
}

/// The first record of `key`.
fn find_first(records: &Vec<MemtableRecord>, key: &[u8]) -> (r: Option<MemtableRecord>)
    ensures
        memtable::opt_version(r) == first_of(keyed::views(records@), key@),
{
    let ghost all = keyed::views(records@);
    let mut i: usize = 0;
    assert(all.skip(0) =~= all);
    while i < records.len()
        invariant
            i <= records@.len(),
            all == keyed::views(records@),
            first_of(all, key@) == first_of(all.skip(i as int), key@),
        decreases records@.len() - i,
    {
        assert(all.skip(i as int)[0] == records@[i as int]@);
        if same_key(records[i].key.as_slice(), key) {
            return Some(records[i].clone());
        }
        assert(all.skip(i as int).skip(1) =~= all.skip(i + 1));
        i = i + 1;
    }
    None
}

/// Looks `key` up in the table `data`.
pub fn get_from_single_sstable(data: &[u8], key: &[u8]) -> (r: Result<
    Option<MemtableRecord>,
    DBError,
>)
    requires
        sstable_codec::table_usable(data@),
    ensures
        match r {
            Ok(found) => table_lookup(data@, key@) == Ok::<_, IoFailure>(
                memtable::opt_version(found),
            ),
            Err(e) => e@ is Io && table_lookup(data@, key@) == Err::<Option<Version>, _>(
                e@->Io_0,
            ),
        },
{
    let (f, index, bloom) = match SSTableCodec::deserialize_sections(data) {
        Err(e) => {
            return Err(DBError::Io(e));
        },
        Ok(sections) => sections,
    };
    let known = bloom.contains(key);
    proof {
        assert(sstable_codec::filter_of(data@, bloom));
        if reported(data@, key@) {
            let b = choose|b: BloomFilterWrapper| #[trigger]
                sstable_codec::filter_of(data@, b) && b@.members.contains(key@);
            lemma_same_filter(data@, bloom, b);
        }
        assert(known == reported(data@, key@));
    }
    if !known {
        return Ok(None);
    }
    let ghost all = keyed::views(index@);
    let mut i: usize = 0;
    while i < index.len()
        invariant
            i <= index@.len(),
            all == keyed::views(index@),
            table_lookup(data@, key@) == probe(data@, f, all, key@, i as int),
        decreases index@.len() - i,
    {
        proof {
            order::lemma_key_total(key@, index@[i as int].first_key@);
            order::lemma_key_total(key@, index@[i as int].last_key@);
            order::lemma_key_irreflexive(key@);
        }
        let first_key = index[i].first_key.as_slice();
        let outside = matches!(order_keys(key, first_key), KeyOrder::Before) || matches!(
            order_keys(key, index[i].last_key.as_slice()),
            KeyOrder::After
        );
        if !outside {
            assert(all[i as int].covers(key@));
            match SSTableCodec::get_block(data, &f, &index, first_key) {
                Err(e) => {
                    return Err(DBError::Io(e));
                },
                Ok(block) => {
                    match &block.data {
                        None => {},
                        Some(records) => {
                            let found = find_first(records, key);
                            if found.is_some() {
                                return Ok(found);
                            }
                        },
                    }
                },
            }
        }
        i = i + 1;
    }
    Ok(None)
}

/// The records of the blocks that a range touches, from the place `from` of the
/// index on.
pub open spec fn records_from(
    s: Seq<u8>,
    f: SSTableFooter,
    index: Seq<SparseItem>,
    r: RangeView,
    from: int,
) -> Result<Seq<Version>, IoFailure>
    decreases index.len() - from,
{
    if from >= index.len() {
        Ok(seq![])
    } else if !r.touches(index[from].first_key, index[from].last_key) {
        records_from(s, f, index, r, from + 1)
    } else {
        match sstable_codec::block_for(s, f, index, index[from].first_key) {
            Err(e) => Err(e),
            Ok(b) => match records_from(s, f, index, r, from + 1) {
                Err(e) => Err(e),
                Ok(rest) => Ok(b.records() + rest),
            },
        }
    }
}

/// The records of the blocks of the table `s` that a range touches.
pub open spec fn table_records(s: Seq<u8>, r: RangeView) -> Result<Seq<Version>, IoFailure> {
    match sstable_codec::sections_of(s) {
        Err(e) => Err(e),
        Ok((f, index, _, _)) => records_from(s, f, index, r, 0),
    }
}

/// What reading some blocks gives, put behind what was read before.
pub open spec fn read_behind(front: Seq<Version>, rest: Result<Seq<Version>, IoFailure>) -> Result<
    Seq<Version>,
    IoFailure,
> {
    match rest {
        Err(e) => Err(e),
        Ok(rest) => Ok(front + rest),
    }
}

/// The records of the blocks of the table `data` that a range touches.
pub fn read_table_range(data: &[u8], range: &KeyRange) -> (r: Result<Vec<MemtableRecord>, DBError>)
    requires
        sstable_codec::table_usable(data@),
    ensures
        match r {
            Ok(records) => table_records(data@, range@) == Ok::<_, IoFailure>(
                keyed::views(records@),
            ),
            Err(e) => e@ is Io && table_records(data@, range@) == Err::<Seq<Version>, _>(e@->Io_0),
        },
{
    let (f, index, _) = match SSTableCodec::deserialize_sections(data) {
        Err(e) => {
            return Err(DBError::Io(e));
        },
        Ok(sections) => sections,
    };
    let ghost all = keyed::views(index@);
    let mut out: Vec<MemtableRecord> = Vec::new();
    let mut i: usize = 0;
    proof {
        if let Ok(rest) = table_records(data@, range@) {
            assert(keyed::views(out@) + rest =~= rest);
        }
    }
    while i < index.len()
        invariant
            i <= index@.len(),
            all == keyed::views(index@),
            table_records(data@, range@) == read_behind(
                keyed::views(out@),
                records_from(data@, f, all, range@, i as int),
            ),
        decreases index@.len() - i,
    {
        let first_key = index[i].first_key.as_slice();
        if ranges_overlap(range, first_key, index[i].last_key.as_slice()) {
            match SSTableCodec::get_block(data, &f, &index, first_key) {
                Err(e) => {
                    return Err(DBError::Io(e));
                },
                Ok(block) => {
                    let ghost before = keyed::views(out@);
                    let ghost added = block@.records();
                    match block.data {
                        None => {
                            assert(before + added =~= before);
                        },
                        Some(records) => {
                            let mut records: Vec<MemtableRecord> = records;
                            let ghost rs = records@;
                            out.append(&mut records);
                            assert(keyed::views(out@) =~= before + added);
                        },
                    }
                    proof {
                        if let Ok(rest) = records_from(data@, f, all, range@, i + 1) {
                            assert(before + (added + rest) =~= (before + added) + rest);
                        }
                    }
                },
            }
        }
        i = i + 1;
    }
    assert(keyed::views(out@) + Seq::<Version>::empty() =~= keyed::views(out@));
    Ok(out)
}

/// The first record of a key has that key, and there is one if any record has.
pub proof fn lemma_first_of(records: Seq<Version>, key: Seq<u8>)
    ensures
        first_of(records, key) matches Some(v) ==> v.key == key && records.contains(v),
        first_of(records, key) is None ==> forall|i: int|
            0 <= i < records.len() ==> (#[trigger] records[i]).key != key,
    decreases records.len(),
{
    if records.len() > 0 {
        let rest = records.skip(1);
        if records[0].key == key {
            assert(records.contains(records[0]));
        } else {
            lemma_first_of(rest, key);
            if let Some(v) = first_of(rest, key) {
                let j = choose|j: int| 0 <= j < rest.len() && rest[j] == v;
                assert(records[j + 1] == v);
            } else {
                assert forall|i: int| 0 <= i < records.len() implies (#[trigger] records[i]).key
                    != key by {
                    if i > 0 {
                        assert(rest[i - 1] == records[i]);
                    }
                }
            }
        }
    }
}

/// Two records of one key, in ascending records, are the same.
pub proof fn lemma_one_of_key(vs: Seq<Version>, i: int, j: int)
    requires
        keyed::strictly_sorted(vs, block::version_key()),
        0 <= i < vs.len(),
        0 <= j < vs.len(),
        vs[i].key == vs[j].key,
    ensures
        i == j,
{
    let key = block::version_key();
    order::lemma_key_irreflexive(vs[i].key);
    if i < j {
        assert(order::key_lt(key(vs[i]), key(vs[j])));
    } else if j < i {
        assert(order::key_lt(key(vs[j]), key(vs[i])));
    }
}

/// What holds of a table that was made of ascending records.
spec fn well_made(s: Seq<u8>, f: SSTableFooter, blocks: Seq<BlockView>) -> bool {
    let index = sstable_codec::index_of(blocks);
    &&& crate::storage::index::ordered_index(index)
    &&& forall|i: int|
        #![trigger blocks[i]]
        0 <= i < blocks.len() ==> {
            &&& pack::faithful(blocks[i])
            &&& keyed::strictly_sorted(blocks[i].records(), block::version_key())
            &&& index[i].block_offset == sstable_codec::blocks_bytes(blocks.take(i)).len()
            &&& index[i].block_offset + blocks[i].bytes().len() <= f.data_block_end
            &&& BlockView::parse(s, index[i].block_offset) matches Ok(p)
            &&& p.0.records() == blocks[i].records()
        }
}

/// Looking for the first key of a block leads to that block.
proof fn lemma_block_found(s: Seq<u8>, f: SSTableFooter, blocks: Seq<BlockView>, i: int)
    requires
        well_made(s, f, blocks),
        0 <= i < blocks.len(),
    ensures
        sstable_codec::block_for(
            s,
            f,
            sstable_codec::index_of(blocks),
            blocks[i].first_key,
        ) matches Ok(b) && b.records() == blocks[i].records(),
{
    let index = sstable_codec::index_of(blocks);
    let key = blocks[i].first_key;
    let n = index.len() as int;
    crate::storage::index::law_search_blocks(index, key, 0, n);
    assert(index[i].first_key == key);
    assert(order::key_le(index[i].first_key, index[i].last_key));
    assert(index[i].covers(key));
    match crate::storage::index::search_blocks(index, key, 0, n) {
        Found::Before(at) => {
            assert(!index[i].covers(key));
        },
        Found::Block(at) => {
            if at < i {
                assert(order::key_lt(index[at].last_key, index[i].first_key));
                order::lemma_key_asymmetric(index[at].last_key, key);
            } else if i < at {
                assert(order::key_lt(index[i].last_key, index[at].first_key));
                if index[i].first_key != index[i].last_key {
                    order::lemma_key_transitive(key, index[i].last_key, index[at].first_key);
                }
                order::lemma_key_asymmetric(key, index[at].first_key);
            }
            assert(at == i);
            if i + 1 < n {
                assert(blocks.take(i + 1).drop_last() =~= blocks.take(i));
                assert(blocks.take(i + 1).last() == blocks[i]);
                assert(pack::faithful(blocks[i + 1]));
            }
        },
    }
}

/// A block in which the key is has a range that has the key.
proof fn lemma_covers(blocks: Seq<BlockView>, b: int, key: Seq<u8>)
    requires
        0 <= b < blocks.len(),
        pack::faithful(blocks[b]),
        keyed::strictly_sorted(blocks[b].records(), block::version_key()),
        first_of(blocks[b].records(), key) is Some,
    ensures
        sstable_codec::index_of(blocks)[b].covers(key),
{
    let rs = blocks[b].records();
    let k = block::version_key();
    lemma_first_of(rs, key);
    let v = first_of(rs, key)->0;
    let i = choose|i: int| 0 <= i < rs.len() && rs[i] == v;
    if i > 0 {
        assert(order::key_lt(k(rs[0]), k(rs[i])));
    }
    if i < rs.len() - 1 {
        assert(order::key_lt(k(rs[i]), k(rs[rs.len() - 1])));
    }
}

/// Probing a table that was made of ascending records finds the record of the key.
proof fn lemma_probe(
    s: Seq<u8>,
    f: SSTableFooter,
    blocks: Seq<BlockView>,
    key: Seq<u8>,
    from: int,
)
    requires
        well_made(s, f, blocks),
        0 <= from <= blocks.len(),
    ensures
        (forall|b: int|
            from <= b < blocks.len() ==> first_of((#[trigger] blocks[b]).records(), key) is None)
            ==> probe(s, f, sstable_codec::index_of(blocks), key, from) == Ok::<_, IoFailure>(
                None::<Version>,
            ),
        forall|b: int|
            from <= b < blocks.len() && first_of(
                (#[trigger] blocks[b]).records(),
                key,
            ) is Some ==> probe(s, f, sstable_codec::index_of(blocks), key, from) == Ok::<
                _,
                IoFailure,
            >(first_of(blocks[b].records(), key)),
    decreases blocks.len() - from,
{
    let index = sstable_codec::index_of(blocks);
    if from < blocks.len() {
        lemma_probe(s, f, blocks, key, from + 1);
        lemma_block_found(s, f, blocks, from);
        assert(pack::faithful(blocks[from]));
        assert forall|b: int|
            from <= b < blocks.len() && first_of(
                (#[trigger] blocks[b]).records(),
                key,
            ) is Some implies probe(s, f, index, key, from) == Ok::<_, IoFailure>(
            first_of(blocks[b].records(), key),
        ) by {
            assert(pack::faithful(blocks[b]));
            lemma_covers(blocks, b, key);
            if b > from && index[from].covers(key) {
                assert(index[b].covers(key));
                assert(order::key_lt(index[from].last_key, index[b].first_key));
                if key != index[from].last_key {
                    order::lemma_key_transitive(key, index[from].last_key, index[b].first_key);
                }
                order::lemma_key_asymmetric(key, index[b].first_key);
            }
        }
    }
}

/// Blocks of records that fit can be encoded.
pub proof fn lemma_packed_encodable(vs: Seq<Version>)
    requires
        pack::all_fit(vs),
    ensures
        forall|i: int|
            0 <= i < pack::packed_blocks(vs).len() ==> sstable_codec::block_encodable(
                #[trigger] pack::packed_blocks(vs)[i],
            ),
{
    let blocks = pack::packed_blocks(vs);
    pack::law_pack_keeps_records(vs);
    assert forall|i: int| 0 <= i < blocks.len() implies sstable_codec::block_encodable(
        #[trigger] blocks[i],
    ) by {
        assert(pack::faithful(blocks[i]));
        let start = pack::lemma_records_of_block(blocks, i);
        let rs = blocks[i].records();
        assert forall|j: int| #![trigger rs[j]] 0 <= j < rs.len() implies rs[j].key.len()
            <= u32::MAX && rs[j].value.len() <= u32::MAX by {
            assert(vs[start + j] == rs[j]);
            assert(pack::fits_block(vs[start + j]));
        }
        assert(rs[0].key.len() <= u32::MAX);
        assert(rs[rs.len() - 1].key.len() <= u32::MAX);
    }
}

/// The bytes of a table of records.
pub open spec fn table_of(vs: Seq<Version>, f: BloomFilterWrapper) -> Seq<u8> {
    sstable_codec::table_bytes(pack::packed_blocks(vs), f@.words, f@.hashes)
}

/// The footer of a table of records.
pub open spec fn footer_for(vs: Seq<Version>, f: BloomFilterWrapper) -> SSTableFooter {
    sstable_codec::footer_of(pack::packed_blocks(vs), f@.words, f@.hashes)
}

/// Records that a table can be made of: each fits in a block, their keys ascend, and
/// the table is no longer than a length can be.
pub open spec fn tabular(vs: Seq<Version>, f: BloomFilterWrapper) -> bool {
    &&& pack::all_fit(vs)
    &&& keyed::strictly_sorted(vs, block::version_key())
    &&& bloom::sound(f)
    &&& pack::packed_blocks(vs).len() <= u64::MAX
    &&& table_of(vs, f).len() <= u64::MAX
}

/// A table of records has the sections that it was made with.
proof fn lemma_table_sections(vs: Seq<Version>, f: BloomFilterWrapper)
    requires
        tabular(vs, f),
    ensures
        sstable_codec::sections_of(table_of(vs, f)) == Ok::<_, IoFailure>(
            (
                footer_for(vs, f),
                sstable_codec::index_of(pack::packed_blocks(vs)),
                f@.words,
                f@.hashes,
            ),
        ),
        forall|key: Seq<u8>| #[trigger]
            reported(table_of(vs, f), key) == f@.members.contains(key),
{
    let blocks = pack::packed_blocks(vs);
    let s = table_of(vs, f);
    let footer = footer_for(vs, f);
    lemma_packed_encodable(vs);
    sstable_codec::law_table_round_trip(blocks, f@.words, f@.hashes);
    assert(sstable_codec::footer_ok(s, footer));
    let end = bloom::parse_bloom(s, footer.bloom_block_start as int)->Ok_0.2;
    assert(bloom::filter_read(s, footer.bloom_block_start as int, f, end));
    assert(sstable_codec::filter_of(s, f));
    assert forall|key: Seq<u8>| #[trigger] reported(s, key) == f@.members.contains(key) by {
        if reported(s, key) {
            let b = choose|b: BloomFilterWrapper| #[trigger]
                sstable_codec::filter_of(s, b) && b@.members.contains(key);
            lemma_same_filter(s, f, b);
        }
    }
}

/// A table of records is well made.
proof fn lemma_table_well_made(vs: Seq<Version>, f: BloomFilterWrapper)
    requires
        tabular(vs, f),
    ensures
        well_made(table_of(vs, f), footer_for(vs, f), pack::packed_blocks(vs)),
{
    let blocks = pack::packed_blocks(vs);
    let s = table_of(vs, f);
    let index = sstable_codec::index_of(blocks);
    lemma_packed_encodable(vs);
    sstable_codec::law_table_round_trip(blocks, f@.words, f@.hashes);
    pack::law_pack_keeps_records(vs);
    pack::law_packed_index_ordered(vs);
    assert forall|i: int| #![trigger blocks[i]] 0 <= i < blocks.len() implies {
        &&& pack::faithful(blocks[i])
        &&& keyed::strictly_sorted(blocks[i].records(), block::version_key())
        &&& index[i].block_offset == sstable_codec::blocks_bytes(blocks.take(i)).len()
        &&& index[i].block_offset + blocks[i].bytes().len() <= footer_for(vs, f).data_block_end
        &&& BlockView::parse(s, index[i].block_offset) matches Ok(p)
        &&& p.0.records() == blocks[i].records()
    } by {
        keyed::lemma_strict_is_sorted(blocks[i].records(), block::version_key());
        keyed::lemma_sort_of_sorted(blocks[i].records(), block::version_key());
    }
}

/// The record of a key among ascending records is that of the block it is in.
proof fn lemma_first_in_blocks(blocks: Seq<BlockView>, key: Seq<u8>)
    requires
        keyed::strictly_sorted(pack::records_of(blocks), block::version_key()),
    ensures
        first_of(pack::records_of(blocks), key) is None ==> forall|b: int|
            0 <= b < blocks.len() ==> first_of((#[trigger] blocks[b]).records(), key) is None,
        first_of(pack::records_of(blocks), key) is Some ==> exists|b: int|
            0 <= b < blocks.len() && first_of((#[trigger] blocks[b]).records(), key) == first_of(
                pack::records_of(blocks),
                key,
            ),
{
    let vs = pack::records_of(blocks);
    lemma_first_of(vs, key);
    match first_of(vs, key) {
        Some(v) => {
            let i = choose|i: int| 0 <= i < vs.len() && vs[i] == v;
            let at = pack::lemma_record_in_block(blocks, i);
            let rs = blocks[at.0].records();
            assert(rs[at.1] == v);
            lemma_first_of(rs, key);
            assert(first_of(rs, key) is Some);
            let w = first_of(rs, key)->0;
            let j = choose|j: int| 0 <= j < rs.len() && rs[j] == w;
            let start = pack::lemma_records_of_block(blocks, at.0);
            assert(vs[start + j] == rs[j]);
            assert(vs[start + at.1] == rs[at.1]);
            lemma_one_of_key(vs, start + at.1, start + j);
            assert(first_of(blocks[at.0].records(), key) == first_of(vs, key));
        },
        None => {
            assert forall|b: int| 0 <= b < blocks.len() implies first_of(
                (#[trigger] blocks[b]).records(),
                key,
            ) is None by {
                let rs = blocks[b].records();
                lemma_first_of(rs, key);
                if let Some(w) = first_of(rs, key) {
                    let j = choose|j: int| 0 <= j < rs.len() && rs[j] == w;
                    let start = pack::lemma_records_of_block(blocks, b);
                    assert(vs[start + j] == rs[j]);
                }
            }
        },
    }
}

/// A lookup in a table that was made of records with ascending keys finds the record
/// of the key, provided that the filter of the table reports the key; else it finds
/// nothing.
pub proof fn law_lookup_in_table(vs: Seq<Version>, f: BloomFilterWrapper, key: Seq<u8>)
    requires
        tabular(vs, f),
    ensures
        table_lookup(table_of(vs, f), key) == Ok::<_, IoFailure>(
            if f@.members.contains(key) {
                first_of(vs, key)
            } else {
                None
            },
        ),
{
    let blocks = pack::packed_blocks(vs);
    let s = table_of(vs, f);
    pack::law_pack_keeps_records(vs);
    lemma_table_sections(vs, f);
    lemma_table_well_made(vs, f);
    assert(reported(s, key) == f@.members.contains(key));
    lemma_probe(s, footer_for(vs, f), blocks, key, 0);
    lemma_first_in_blocks(blocks, key);
}

/// The keys of a block are in its range.
proof fn lemma_in_block_range(b: BlockView, i: int)
    requires
        pack::faithful(b),
        keyed::strictly_sorted(b.records(), block::version_key()),
        0 <= i < b.records().len(),
    ensures
        order::key_le(b.first_key, b.records()[i].key),
        order::key_le(b.records()[i].key, b.last_key),
{
    let rs = b.records();
    let k = block::version_key();
    if i > 0 {
        assert(order::key_lt(k(rs[0]), k(rs[i])));
    }
    if i < rs.len() - 1 {
        assert(order::key_lt(k(rs[i]), k(rs[rs.len() - 1])));
    }
}

/// Some block from the place `from` on has the record.
spec fn in_some_block(blocks: Seq<BlockView>, from: int, v: Version) -> bool {
    exists|b: int| from <= b < blocks.len() && (#[trigger] blocks[b]).records().contains(v)
}

/// What holds of the records from one block on, given what holds from the next one on.
proof fn lemma_one_block_more(
    blocks: Seq<BlockView>,
    from: int,
    r: RangeView,
    rest: Seq<Version>,
    all: Seq<Version>,
    touched: bool,
)
    requires
        0 <= from < blocks.len(),
        all == if touched {
            blocks[from].records() + rest
        } else {
            rest
        },
        forall|i: int|
            0 <= i < blocks[from].records().len() && r.has(
                (#[trigger] blocks[from].records()[i]).key,
            ) ==> touched,
        forall|v: Version| #[trigger] rest.contains(v) ==> in_some_block(blocks, from + 1, v),
        forall|v: Version| #[trigger]
            in_some_block(blocks, from + 1, v) && r.has(v.key) ==> rest.contains(v),
    ensures
        forall|v: Version| #[trigger] all.contains(v) ==> in_some_block(blocks, from, v),
        forall|v: Version| #[trigger]
            in_some_block(blocks, from, v) && r.has(v.key) ==> all.contains(v),
{
    let here = blocks[from].records();
    assert forall|v: Version| #[trigger] all.contains(v) implies in_some_block(
        blocks,
        from,
        v,
    ) by {
        let i = choose|i: int| 0 <= i < all.len() && all[i] == v;
        if touched && i < here.len() {
            assert(here[i] == v);
            assert(blocks[from].records().contains(v));
        } else {
            let j = if touched {
                i - here.len()
            } else {
                i
            };
            assert(rest[j] == v);
            assert(rest.contains(v));
            let b = choose|b: int|
                from + 1 <= b < blocks.len() && (#[trigger] blocks[b]).records().contains(v);
            assert(blocks[b].records().contains(v));
        }
    }
    assert forall|v: Version| #[trigger]
        in_some_block(blocks, from, v) && r.has(v.key) implies all.contains(v) by {
        let b = choose|b: int|
            from <= b < blocks.len() && (#[trigger] blocks[b]).records().contains(v);
        if b == from {
            let i = choose|i: int| 0 <= i < here.len() && here[i] == v;
            assert(r.has(blocks[from].records()[i].key));
            assert(all[i] == v);
        } else {
            assert(in_some_block(blocks, from + 1, v));
            assert(rest.contains(v));
            let j = choose|j: int| 0 <= j < rest.len() && rest[j] == v;
            if touched {
                assert(all[here.len() + j] == v);
            }
        }
    }
}

/// Reading the blocks that a range touches gives all their records that are in the
/// range, and only records of blocks.
proof fn lemma_records_from(
    s: Seq<u8>,
    f: SSTableFooter,
    blocks: Seq<BlockView>,
    r: RangeView,
    from: int,
)
    requires
        well_made(s, f, blocks),
        0 <= from <= blocks.len(),
    ensures
        records_from(s, f, sstable_codec::index_of(blocks), r, from) is Ok,
        forall|v: Version| #[trigger]
            records_from(s, f, sstable_codec::index_of(blocks), r, from)->Ok_0.contains(v)
                ==> in_some_block(blocks, from, v),
        forall|v: Version| #[trigger]
            in_some_block(blocks, from, v) && r.has(v.key) ==> records_from(
                s,
                f,
                sstable_codec::index_of(blocks),
                r,
                from,
            )->Ok_0.contains(v),
    decreases blocks.len() - from,
{
    let index = sstable_codec::index_of(blocks);
    if from < blocks.len() {
        lemma_records_from(s, f, blocks, r, from + 1);
        lemma_block_found(s, f, blocks, from);
        let here = blocks[from].records();
        let rest = records_from(s, f, index, r, from + 1)->Ok_0;
        let all = records_from(s, f, index, r, from)->Ok_0;
        let touched = r.touches(index[from].first_key, index[from].last_key);
        assert(pack::faithful(blocks[from]));
        assert(all == if touched {
            here + rest
        } else {
            rest
        });
        assert forall|i: int| 0 <= i < here.len() && r.has((#[trigger] here[i]).key) implies touched by {
            lemma_in_block_range(blocks[from], i);
            crate::storage::readmanager::range::law_touches(
                r,
                here[i].key,
                blocks[from].first_key,
                blocks[from].last_key,
            );
        }
        lemma_one_block_more(blocks, from, r, rest, all, touched);
    }
}

/// A scan of a table that was made of records with ascending keys reads all of the
/// records whose key is in the range, and no record that the table was not made of.
pub proof fn law_range_in_table(vs: Seq<Version>, f: BloomFilterWrapper, r: RangeView)
    requires
        tabular(vs, f),
    ensures
        table_records(table_of(vs, f), r) matches Ok(rs) && (forall|v: Version| #[trigger]
            rs.contains(v) ==> vs.contains(v)) && (forall|i: int|
            0 <= i < vs.len() && r.has((#[trigger] vs[i]).key) ==> rs.contains(vs[i])),
{
    let blocks = pack::packed_blocks(vs);
    let s = table_of(vs, f);
    pack::law_pack_keeps_records(vs);
    lemma_table_sections(vs, f);
    lemma_table_well_made(vs, f);
    lemma_records_from(s, footer_for(vs, f), blocks, r, 0);
    let rs = table_records(s, r)->Ok_0;
    assert forall|v: Version| #[trigger] rs.contains(v) implies vs.contains(v) by {
        assert(in_some_block(blocks, 0, v));
        let b = choose|b: int|
            0 <= b < blocks.len() && (#[trigger] blocks[b]).records().contains(v);
        let i = choose|i: int| 0 <= i < blocks[b].records().len() && blocks[b].records()[i] == v;
        let start = pack::lemma_records_of_block(blocks, b);
        assert(vs[start + i] == v);
    }
    assert forall|i: int| 0 <= i < vs.len() && r.has((#[trigger] vs[i]).key) implies rs.contains(
        vs[i],
    ) by {
        let at = pack::lemma_record_in_block(blocks, i);
        assert(blocks[at.0].records().contains(vs[i]));
        assert(in_some_block(blocks, 0, vs[i]));
    }
}

/// Blocks with the same records, one by one, have the same records altogether.
pub proof fn lemma_same_records(a: Seq<BlockView>, b: Seq<BlockView>)
    requires
        a.len() == b.len(),
        forall|i: int| 0 <= i < a.len() ==> (#[trigger] a[i]).records() == b[i].records(),
    ensures
        pack::records_of(a) == pack::records_of(b),
    decreases a.len(),
{
    if a.len() > 0 {
        let (x, y) = (a.drop_last(), b.drop_last());
        assert forall|i: int| 0 <= i < x.len() implies (#[trigger] x[i]).records()
            == y[i].records() by {
            assert(x[i] == a[i] && y[i] == b[i]);
        }
        lemma_same_records(x, y);
        assert(a[a.len() - 1] == a.last() && b[b.len() - 1] == b.last());
    }
}

proof fn lemma_blocks_load(vs: Seq<Version>, f: BloomFilterWrapper, n: nat)
    requires
        tabular(vs, f),
        n <= pack::packed_blocks(vs).len(),
    ensures
        ({
            let blocks = pack::packed_blocks(vs);
            let r = sstable_codec::blocks_of(
                table_of(vs, f),
                sstable_codec::index_of(blocks),
                n,
            );
            &&& r matches Ok(bs)
            &&& bs.len() == n
            &&& forall|i: int|
                0 <= i < n ==> (#[trigger] bs[i]).records() == blocks[i].records()
                    && bs[i].first_key == blocks[i].first_key && bs[i].last_key
                    == blocks[i].last_key && bs[i].record_count == blocks[i].record_count
        }),
    decreases n,
{
    if n > 0 {
        let blocks = pack::packed_blocks(vs);
        lemma_blocks_load(vs, f, (n - 1) as nat);
        lemma_packed_encodable(vs);
        sstable_codec::law_table_round_trip(blocks, f@.words, f@.hashes);
        pack::law_packed_index_ordered(vs);
        let b = blocks[n - 1];
        keyed::lemma_strict_is_sorted(b.records(), block::version_key());
        keyed::lemma_sort_of_sorted(b.records(), block::version_key());
        assert(sstable_codec::block_encodable(b));
    }
}

/// A table that was written is loaded with the records that it was made of, and with the
/// index and the filter that it was written with.
pub proof fn law_table_loads_back(vs: Seq<Version>, f: BloomFilterWrapper)
    requires
        tabular(vs, f),
    ensures
        sstable_codec::sections_of(table_of(vs, f)) matches Ok((_, index, words, hashes)) && words
            == f@.words && hashes == f@.hashes && (sstable_codec::blocks_of(
            table_of(vs, f),
            index,
            index.len(),
        ) matches Ok(bs) && pack::records_of(bs) == vs),
{
    let blocks = pack::packed_blocks(vs);
    lemma_table_sections(vs, f);
    lemma_blocks_load(vs, f, blocks.len());
    pack::law_pack_keeps_records(vs);
    let index = sstable_codec::index_of(blocks);
    assert(index.len() == blocks.len());
    let bs = sstable_codec::blocks_of(table_of(vs, f), index, blocks.len())->Ok_0;
    lemma_same_records(bs, blocks);
}

/// What the block behind one index entry says of `key`.
pub open spec fn block_answer(
    s: Seq<u8>,
    f: SSTableFooter,
    index: Seq<SparseItem>,
    key: Seq<u8>,
    i: int,
) -> Result<Option<Version>, IoFailure> {
    if !index[i].covers(key) {
        Ok(None)
    } else {
        match sstable_codec::block_for(s, f, index, index[i].first_key) {
            Err(e) => Err(e),
            Ok(b) => Ok(first_of(b.records(), key)),
        }
    }
}

/// A search stops at the first block that has the key or cannot be read, and finds nothing
/// only where no block has the key.
pub proof fn law_blocks_searched_in_turn(
    s: Seq<u8>,
    f: SSTableFooter,
    index: Seq<SparseItem>,
    key: Seq<u8>,
    from: int,
)
    requires
        0 <= from <= index.len(),
    ensures
        ({
            let r = probe(s, f, index, key, from);
            ||| {
                &&& r == Ok::<Option<Version>, IoFailure>(None)
                &&& forall|i: int|
                    from <= i < index.len() ==> #[trigger] block_answer(s, f, index, key, i) == Ok::<
                        Option<Version>,
                        IoFailure,
                    >(None)
            }
            ||| exists|i: int|
                {
                    &&& from <= i < index.len()
                    &&& r == #[trigger] block_answer(s, f, index, key, i)
                    &&& r != Ok::<Option<Version>, IoFailure>(None)
                    &&& forall|j: int|
                        from <= j < i ==> #[trigger] block_answer(s, f, index, key, j) == Ok::<
                            Option<Version>,
                            IoFailure,
                        >(None)
                }
        }),
    decreases index.len() - from,
{
    if from < index.len() {
        law_blocks_searched_in_turn(s, f, index, key, from + 1);
        let here = block_answer(s, f, index, key, from);
        if here != Ok::<Option<Version>, IoFailure>(None) {
            assert(probe(s, f, index, key, from) == here);
        }
    }
}

/// What the block behind one index entry has for a range: its records, or nothing where it
/// lies beside the range.
pub open spec fn block_part(
    s: Seq<u8>,
    f: SSTableFooter,
    index: Seq<SparseItem>,
    r: RangeView,
    i: int,
) -> Result<Seq<Version>, IoFailure> {
    if !r.touches(index[i].first_key, index[i].last_key) {
        Ok(seq![])
    } else {
        match sstable_codec::block_for(s, f, index, index[i].first_key) {
            Err(e) => Err(e),
            Ok(b) => Ok(b.records()),
        }
    }
}

/// A scan gives the records of every block that the range touches, one block after the
/// other, and fails as the first block does that cannot be read.
pub proof fn law_blocks_scanned_in_turn(
    s: Seq<u8>,
    f: SSTableFooter,
    index: Seq<SparseItem>,
    r: RangeView,
    from: int,
)
    requires
        0 <= from <= index.len(),
    ensures
        match records_from(s, f, index, r, from) {
            Ok(vs) => {
                &&& forall|i: int|
                    from <= i < index.len() ==> (#[trigger] block_part(s, f, index, r, i)) is Ok
                &&& vs == Seq::new(
                    (index.len() - from) as nat,
                    |k: int| block_part(s, f, index, r, from + k)->Ok_0,
                ).flatten()
            },
            Err(e) => exists|i: int|
                {
                    &&& from <= i < index.len()
                    &&& #[trigger] block_part(s, f, index, r, i) == Err::<Seq<Version>, _>(e)
                    &&& forall|j: int|
                        from <= j < i ==> (#[trigger] block_part(s, f, index, r, j)) is Ok
                },
        },
    decreases index.len() - from,
{
    reveal_with_fuel(Seq::flatten, 2);
    let parts = Seq::new(
        (index.len() - from) as nat,
        |k: int| block_part(s, f, index, r, from + k)->Ok_0,
    );
    if from < index.len() {
        law_blocks_scanned_in_turn(s, f, index, r, from + 1);
        let here = block_part(s, f, index, r, from);
        assert(parts.drop_first() =~= Seq::new(
            (index.len() - (from + 1)) as nat,
            |k: int| block_part(s, f, index, r, from + 1 + k)->Ok_0,
        ));
        assert(parts.first() == here->Ok_0);
    }
}

} // verus!
