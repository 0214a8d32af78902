//! Tables as bytes: the blocks, the sparse index, the filter and the footer.
use vstd::prelude::*;
use vstd::slice::slice_subrange;
use crate::bytes;
use crate::error::{ErrorKind, IoError, IoFailure};
use crate::order;
use crate::storage::bloom;
use crate::storage::bloom::{BloomFilterWrapper, BloomView};
use crate::storage::checksum;
use crate::storage::checksum::calculate_crc32;
use crate::storage::footer;
use crate::storage::footer::{decode_sparse_index_at, read_sstable_footer, verify_bloom_checksum,
    SSTableFooter};
use crate::storage::index;
use crate::storage::index::{locate_block, verify_index_checksum, Found, SparseIndexEntry,
    SparseItem};
use crate::storage::keyed;
use crate::storage::writemanager::block;
use crate::storage::writemanager::block::{Block, BlockView};

verus! {

/// A table: its blocks, its sparse index and its filter.
pub struct SSTableCodec {
    pub blocks: Vec<Block>,
    pub index: Vec<SparseIndexEntry>,
    pub bloom: BloomFilterWrapper,
}

/// What a table holds.
pub struct TableView {
    pub blocks: Seq<BlockView>,
    pub index: Seq<SparseItem>,
    pub bloom: BloomView,
}

impl View for SSTableCodec {
    type V = TableView;

    open spec fn view(&self) -> TableView {
        TableView {
            blocks: keyed::views(self.blocks@),
            index: keyed::views(self.index@),
            bloom: self.bloom@,
        }
    }
}

/// The bytes of blocks, one after the other.
pub open spec fn blocks_bytes(blocks: Seq<BlockView>) -> Seq<u8>
    decreases blocks.len(),
{
    if blocks.len() == 0 {
        seq![]
    } else {
        blocks_bytes(blocks.drop_last()) + blocks.last().bytes()
    }
}

/// The sparse index of blocks that are written one after the other.
pub open spec fn index_of(blocks: Seq<BlockView>) -> Seq<SparseItem> {
    Seq::new(
        blocks.len(),
        |i: int|
            SparseItem {
                first_key: blocks[i].first_key,
                block_offset: blocks_bytes(blocks.take(i)).len() as u64,
                last_key: blocks[i].last_key,
                record_count: blocks[i].record_count,
            },
    )
}

/// The bytes of index entries, one after the other.
pub open spec fn entries_bytes(index: Seq<SparseItem>) -> Seq<u8>
    decreases index.len(),
{
    if index.len() == 0 {
        seq![]
    } else {
        entries_bytes(index.drop_last()) + index.last().bytes()
    }
}

/// The bytes of a sparse index: the number of entries, then the entries.
pub open spec fn index_bytes(index: Seq<SparseItem>) -> Seq<u8> {
    bytes::be64(index.len() as u64) + entries_bytes(index)
}

/// The bytes of a table before its footer.
pub open spec fn body_bytes(blocks: Seq<BlockView>, words: Seq<u64>, hashes: u32) -> Seq<u8> {
    blocks_bytes(blocks) + index_bytes(index_of(blocks)) + bloom::bloom_bytes(words, hashes)
}

/// The footer of a table.
pub open spec fn footer_of(blocks: Seq<BlockView>, words: Seq<u64>, hashes: u32) -> SSTableFooter {
    let data_end = blocks_bytes(blocks).len();
    let index_end = data_end + index_bytes(index_of(blocks)).len();
    let bloom_end = index_end + bloom::bloom_bytes(words, hashes).len();
    SSTableFooter {
        data_block_start: 0,
        data_block_end: data_end as u64,
        index_block_start: data_end as u64,
        index_block_end: index_end as u64,
        index_checksum: checksum::crc32(index_bytes(index_of(blocks))),
        bloom_block_start: index_end as u64,
        bloom_block_end: bloom_end as u64,
        bloom_checksum: checksum::crc32(bloom::bloom_bytes(words, hashes)),
    }
}

/// The bytes of a table.
pub open spec fn table_bytes(blocks: Seq<BlockView>, words: Seq<u64>, hashes: u32) -> Seq<u8> {
    body_bytes(blocks, words, hashes) + footer_of(blocks, words, hashes).bytes()
}

/// What is wrong with the sections that a footer tells of: the table ends before, or a
/// section does not match its checksum.
pub open spec fn section_failure(s: Seq<u8>, f: SSTableFooter) -> Option<IoFailure> {
    let index = s.subrange(f.index_block_start as int, f.index_block_end as int);
    let filter = s.subrange(f.bloom_block_start as int, f.bloom_block_end as int);
    if !(f.index_block_start <= f.index_block_end <= s.len()) {
        Some(crate::error::eof_failure())
    } else if checksum::crc32(index) != f.index_checksum {
        Some(index::index_mismatch(f.index_checksum, checksum::crc32(index)))
    } else if !(f.bloom_block_start <= f.bloom_block_end <= s.len()) {
        Some(crate::error::eof_failure())
    } else if checksum::crc32(filter) != f.bloom_checksum {
        Some(footer::bloom_mismatch(f.bloom_checksum, checksum::crc32(filter)))
    } else {
        None
    }
}

/// Accepts the sections that a footer tells of if they match their checksums.
fn check_sections(data: &[u8], f: &SSTableFooter) -> (r: Result<(), IoError>)
    ensures
        match section_failure(data@, *f) {
            Some(failure) => r matches Err(e) && e@ == failure,
            None => r is Ok,
        },
{
    let len: u64 = data.len() as u64;
    if f.index_block_start > f.index_block_end || f.index_block_end > len {
        return Err(IoError::eof());
    }
    let index = slice_subrange(data, f.index_block_start as usize, f.index_block_end as usize);
    match verify_index_checksum(index, f.index_checksum) {
        Err(e) => {
            return Err(e);
        },
        Ok(_) => {},
    }
    if f.bloom_block_start > f.bloom_block_end || f.bloom_block_end > len {
        return Err(IoError::eof());
    }
    let filter = slice_subrange(data, f.bloom_block_start as usize, f.bloom_block_end as usize);
    verify_bloom_checksum(filter, f.bloom_checksum)
}

/// What the sections of a table give, which have to match their checksums: footer,
/// sparse index and, from the bytes of the filter, its words and its number of hashes.
pub open spec fn sections_of(s: Seq<u8>) -> Result<
    (SSTableFooter, Seq<SparseItem>, Seq<u64>, u32),
    IoFailure,
> {
    match SSTableFooter::of_table(s) {
        Err(e) => Err(e),
        Ok(f) => match section_failure(s, f) {
            Some(e) => Err(e),
            None => match footer::parse_sparse_index(s, f.data_block_end as int) {
                Err(e) => Err(e),
                Ok((index, _)) => match bloom::parse_bloom(s, f.bloom_block_start as int) {
                    Err(e) => Err(e),
                    Ok((words, hashes, _)) => Ok((f, index, words, hashes)),
                },
            },
        },
    }
}

/// The sections of a table cannot be read, or a filter can be made of its bytes.
pub open spec fn table_usable(s: Seq<u8>) -> bool {
    sections_of(s) matches Ok(p) ==> 0 < p.2.len() <= usize::MAX / 64
}

/// `f` is the filter that the table `s` has.
pub open spec fn filter_of(s: Seq<u8>, f: BloomFilterWrapper) -> bool {
    exists|footer: SSTableFooter, end: int| #[trigger]
        footer_ok(s, footer) && #[trigger] bloom::filter_read(
            s,
            footer.bloom_block_start as int,
            f,
            end,
        )
}

/// `f` is the footer of the table `s`.
pub open spec fn footer_ok(s: Seq<u8>, f: SSTableFooter) -> bool {
    SSTableFooter::of_table(s) == Ok::<_, IoFailure>(f)
}

/// The failure for a key before the first block.
pub open spec fn before_first() -> IoFailure {
    IoFailure {
        kind: ErrorKind::NotFound,
        message: "key is smaller than the first key in the index"@,
    }
}

/// The failure for a block that would end before it starts.
pub open spec fn bad_block_range() -> IoFailure {
    IoFailure {
        kind: ErrorKind::InvalidData,
        message: "invalid block range in sparse index"@,
    }
}

/// The place in the index of the block in which `key` is looked for: the block
/// whose range has it, or the last one before it.
pub open spec fn block_place(index: Seq<SparseItem>, key: Seq<u8>) -> Option<int> {
    match index::search_blocks(index, key, 0, index.len() as int) {
        Found::Block(at) => Some(at),
        Found::Before(at) => if at == 0 {
            None
        } else {
            Some(at - 1)
        },
    }
}

/// The block in which `key` is looked for.
pub open spec fn block_for(
    s: Seq<u8>,
    f: SSTableFooter,
    index: Seq<SparseItem>,
    key: Seq<u8>,
) -> Result<BlockView, IoFailure> {
    match block_place(index, key) {
        None => Err(before_first()),
        Some(at) => {
            let end = if at + 1 < index.len() {
                index[at + 1].block_offset
            } else {
                f.data_block_end
            };
            if end < index[at].block_offset {
                Err(bad_block_range())
            } else {
                match BlockView::parse(s, index[at].block_offset) {
                    Err(e) => Err(e),
                    Ok((b, _)) => Ok(b),
                }
            }
        },
    }
}

/// The first `n` blocks of a table, in the order of its index.
pub open spec fn blocks_of(s: Seq<u8>, index: Seq<SparseItem>, n: nat) -> Result<
    Seq<BlockView>,
    IoFailure,
>
    decreases n,
{
    if n == 0 {
        Ok(seq![])
    } else {
        match blocks_of(s, index, (n - 1) as nat) {
            Err(e) => Err(e),
            Ok(front) => match BlockView::parse(s, index[n - 1].block_offset) {
                Err(e) => Err(e),
                Ok((b, _)) => Ok(front.push(b)),
            },
        }
    }
}

/// An error of a block stops the reading.
proof fn lemma_blocks_err(s: Seq<u8>, index: Seq<SparseItem>, i: nat, n: nat)
    requires
        i <= n,
        blocks_of(s, index, i) is Err,
    ensures
        blocks_of(s, index, n) == blocks_of(s, index, i),
    decreases n,
{
    if i < n {
        lemma_blocks_err(s, index, i, (n - 1) as nat);
    }
}

impl SSTableCodec {
    /// A table with the given parts.
    pub fn new(blocks: Vec<Block>, index: Vec<SparseIndexEntry>, bloom: BloomFilterWrapper) -> (t:
        SSTableCodec)
        ensures
            t@ == (TableView {
                blocks: keyed::views(blocks@),
                index: keyed::views(index@),
                bloom: bloom@,
            }),
    {
        SSTableCodec { blocks, index, bloom }
    }

    /// The bytes of the table, with an index made anew from the blocks, and its
    /// footer.
    pub fn serialize(&self) -> (r: (Vec<u8>, SSTableFooter))
        ensures
            r.0@ == table_bytes(self@.blocks, self@.bloom.words, self@.bloom.hashes),
            r.1 == footer_of(self@.blocks, self@.bloom.words, self@.bloom.hashes),
            bloom::sound(self.bloom),
            r.0@.len() <= usize::MAX,
    {
        let ghost all = self@.blocks;
        let mut out: Vec<u8> = Vec::new();
        let mut entries: Vec<u8> = Vec::new();
        let mut i: usize = 0;
        proof {
            assert(out@ =~= blocks_bytes(all.take(0)));
            assert(entries@ =~= entries_bytes(index_of(all).take(0)));
        }
        while i < self.blocks.len()
            invariant
                i <= self.blocks@.len(),
                all == keyed::views(self.blocks@),
                out@ == blocks_bytes(all.take(i as int)),
                entries@ == entries_bytes(index_of(all).take(i as int)),
            decreases self.blocks@.len() - i,
        {
            let block = &self.blocks[i];
            let entry = SparseIndexEntry {
                first_key: bytes::copy_bytes(block.first_key.as_slice()),
                block_offset: out.len() as u64,
                last_key: bytes::copy_bytes(block.last_key.as_slice()),
                record_count: block.record_count,
            };
            proof {
                assert(entry@ =~= index_of(all)[i as int]);
                assert(index_of(all).take(i + 1).drop_last() =~= index_of(all).take(i as int));
                assert(index_of(all).take(i + 1).last() == entry@);
                assert(all.take(i + 1).drop_last() =~= all.take(i as int));
            }
            let encoded_entry: Vec<u8> = entry.encode();
            bytes::push_all(&mut entries, encoded_entry.as_slice());
            let encoded: Vec<u8> = block.encode();
            bytes::push_all(&mut out, encoded.as_slice());
            i = i + 1;
        }
        proof {
            assert(all.take(i as int) =~= all);
            assert(index_of(all).take(i as int) =~= index_of(all));
        }
        let data_end: u64 = out.len() as u64;
        let mut index_block: Vec<u8> = Vec::new();
        bytes::push_be64(&mut index_block, self.blocks.len() as u64);
        bytes::push_all(&mut index_block, entries.as_slice());
        assert(index_block@ =~= index_bytes(index_of(all)));
        bytes::push_all(&mut out, index_block.as_slice());
        let index_end: u64 = out.len() as u64;
        let bloom_block: Vec<u8> = self.bloom.encode();
        bytes::push_all(&mut out, bloom_block.as_slice());
        let bloom_end: u64 = out.len() as u64;
        let footer = SSTableFooter {
            data_block_start: 0,
            data_block_end: data_end,
            index_block_start: data_end,
            index_block_end: index_end,
            index_checksum: calculate_crc32(index_block.as_slice()),
            bloom_block_start: index_end,
            bloom_block_end: bloom_end,
            bloom_checksum: calculate_crc32(bloom_block.as_slice()),
        };
        let encoded: Vec<u8> = footer.encode();
        bytes::push_all(&mut out, encoded.as_slice());
        assert(out.len() == out@.len());
        (out, footer)
    }

    /// Whether `deserialize_sections` may be called on `data`.
    pub fn readable(data: &[u8]) -> (r: bool)
        ensures
            r == table_usable(data@),
    {
        match read_sstable_footer(data) {
            Err(_) => true,
            Ok(f) => {
                if check_sections(data, &f).is_err() {
                    return true;
                }
                if f.data_block_end > data.len() as u64 {
                    return true;
                }
                match decode_sparse_index_at(data, f.data_block_end as usize) {
                    Err(_) => true,
                    Ok(_) => {
                        if f.bloom_block_start > data.len() as u64 {
                            return true;
                        }
                        BloomFilterWrapper::decodable(data, f.bloom_block_start as usize)
                    },
                }
            },
        }
    }

    /// The footer, the sparse index and the filter of the table `data`.
    pub fn deserialize_sections(data: &[u8]) -> (r: Result<
        (SSTableFooter, Vec<SparseIndexEntry>, BloomFilterWrapper),
        IoError,
    >)
        requires
            table_usable(data@),
        ensures
            match r {
                Ok((f, index, bloom)) => {
                    &&& sections_of(data@) matches Ok((f1, index1, words, hashes))
                    &&& f == f1
                    &&& keyed::views(index@) == index1
                    &&& bloom@.words == words
                    &&& bloom@.hashes == bloom::at_least_one(hashes)
                    &&& filter_of(data@, bloom)
                },
                Err(e) => sections_of(data@) == Err::<
                    (SSTableFooter, Seq<SparseItem>, Seq<u64>, u32),
                    _,
                >(e@),
            },
    {
        let f = match read_sstable_footer(data) {
            Err(e) => {
                return Err(e);
            },
            Ok(f) => f,
        };
        match check_sections(data, &f) {
            Err(e) => {
                return Err(e);
            },
            Ok(_) => {},
        }
        if f.data_block_end > data.len() as u64 {
            return Err(IoError::eof());
        }
        let (index, _) = match decode_sparse_index_at(data, f.data_block_end as usize) {
            Err(e) => {
                return Err(e);
            },
            Ok(found) => found,
        };
        if f.bloom_block_start > data.len() as u64 {
            return Err(IoError::eof());
        }
        match BloomFilterWrapper::decode(data, f.bloom_block_start as usize) {
            Err(e) => Err(e),
            Ok((bloom, end)) => {
                assert(footer_ok(data@, f));
                assert(bloom::filter_read(data@, f.bloom_block_start as int, bloom, end as int));
                let sections = (f, index, bloom);
                assert(filter_of(data@, sections.2));
                Ok(sections)
            },
        }
    }

    /// The table `data` without its blocks.
    pub fn deserialize(data: &[u8]) -> (r: Result<SSTableCodec, IoError>)
        requires
            table_usable(data@),
        ensures
            match r {
                Ok(t) => {
                    &&& sections_of(data@) matches Ok((f1, index1, words, hashes))
                    &&& t@.blocks == Seq::<BlockView>::empty()
                    &&& t@.index == index1
                    &&& t@.bloom.words == words
                    &&& t@.bloom.hashes == bloom::at_least_one(hashes)
                    &&& filter_of(data@, t.bloom)
                },
                Err(e) => sections_of(data@) == Err::<
                    (SSTableFooter, Seq<SparseItem>, Seq<u64>, u32),
                    _,
                >(e@),
            },
    {
        match SSTableCodec::deserialize_sections(data) {
            Err(e) => Err(e),
            Ok((_, index, bloom)) => {
                let blocks: Vec<Block> = Vec::new();
                assert(keyed::views(blocks@) =~= Seq::<BlockView>::empty());
                let table = SSTableCodec { blocks, index, bloom };
                assert(filter_of(data@, table.bloom));
                Ok(table)
            },
        }
    }

    /// The filter of the table.
    pub fn bloom(&self) -> (f: &BloomFilterWrapper)
        ensures
            *f == self.bloom,
    {
        &self.bloom
    }

    /// The block of the table `data` in which `key` is looked for.
    pub fn get_block(
        data: &[u8],
        footer: &SSTableFooter,
        index: &Vec<SparseIndexEntry>,
        key: &[u8],
    ) -> (r: Result<Block, IoError>)
        ensures
            match r {
                Ok(b) => block_for(data@, *footer, keyed::views(index@), key@) == Ok::<
                    _,
                    IoFailure,
                >(b@),
                Err(e) => block_for(data@, *footer, keyed::views(index@), key@) == Err::<
                    BlockView,
                    _,
                >(e@),
            },
    {
        let at: usize = match locate_block(index, key) {
            Ok(at) => at,
            Err(at) => {
                if at == 0 {
                    return Err(
                        IoError::new(
                            ErrorKind::NotFound,
                            "key is smaller than the first key in the index",
                        ),
                    );
                }
                at - 1
            },
        };
        let start: u64 = index[at].block_offset;
        let end: u64 = if at < index.len() - 1 {
            index[at + 1].block_offset
        } else {
            footer.data_block_end
        };
        if end < start {
            return Err(IoError::new(ErrorKind::InvalidData, "invalid block range in sparse index"));
        }
        match Block::decode_at(data, start) {
            Err(e) => Err(e),
            Ok((b, _)) => Ok(b),
        }
    }

    /// All blocks of the table `data`, in the order of its index.
    pub fn get_all_blocks(data: &[u8], index: &Vec<SparseIndexEntry>) -> (r: Result<
        Vec<Block>,
        IoError,
    >)
        ensures
            match r {
                Ok(blocks) => blocks_of(data@, keyed::views(index@), index@.len()) == Ok::<
                    _,
                    IoFailure,
                >(keyed::views(blocks@)),
                Err(e) => blocks_of(data@, keyed::views(index@), index@.len()) == Err::<
                    Seq<BlockView>,
                    _,
                >(e@),
            },
    {
        let ghost all = keyed::views(index@);
        let mut blocks: Vec<Block> = Vec::new();
        let mut i: usize = 0;
        assert(keyed::views(blocks@) =~= seq![]);
        while i < index.len()
            invariant
                i <= index@.len(),
                all == keyed::views(index@),
                blocks_of(data@, all, i as nat) == Ok::<_, IoFailure>(keyed::views(blocks@)),
            decreases index@.len() - i,
        {
            match Block::decode_at(data, index[i].block_offset) {
                Err(e) => {
                    proof {
                        lemma_blocks_err(data@, all, (i + 1) as nat, index@.len());
                    }
                    return Err(e);
                },
                Ok((b, _)) => {
                    let ghost before = keyed::views(blocks@);
                    let ghost v = b@;
                    blocks.push(b);
                    assert(keyed::views(blocks@) =~= before.push(v));
                },
            }
            i = i + 1;
        }
        Ok(blocks)
    }

    /// The range of the keys that an index covers: from the first key of its first
    /// block to the last key of its last one.
    pub fn range_from_index(index: &Vec<SparseIndexEntry>) -> (r: Option<(Vec<u8>, Vec<u8>)>)
        ensures
            match r {
                Some((first, last)) => index@.len() > 0 && first@ == index@[0].first_key@ && last@
                    == index@.last().last_key@,
                None => index@.len() == 0,
            },
    {
        if index.len() == 0 {
            return None;
        }
        Some(
            (
                bytes::copy_bytes(index[0].first_key.as_slice()),
                bytes::copy_bytes(index[index.len() - 1].last_key.as_slice()),
            ),
        )
    }
}

/// The failure for an index section that has no room for the number of entries.
pub open spec fn index_too_small() -> IoFailure {
    IoFailure { kind: ErrorKind::UnexpectedEof, message: "Index block too small"@ }
}

/// The entries of an index section.
pub fn decode_sparse_index(index_block: &[u8]) -> (r: Result<Vec<SparseIndexEntry>, IoError>)
    ensures
        index_block@.len() < 8 ==> (r matches Err(e) && e@ == index_too_small()),
        index_block@.len() >= 8 ==> match r {
            Ok(entries) => footer::parse_sparse_index(index_block@, 0) matches Ok(p) && p.0
                == keyed::views(entries@),
            Err(e) => footer::parse_sparse_index(index_block@, 0) == Err::<
                (Seq<SparseItem>, int),
                _,
            >(e@),
        },
{
    if index_block.len() < 8 {
        return Err(IoError::new(ErrorKind::UnexpectedEof, "Index block too small"));
    }
    match decode_sparse_index_at(index_block, 0) {
        Err(e) => Err(e),
        Ok((entries, _)) => Ok(entries),
    }
}

/// Decoding gives back the entries that were encoded, wherever their bytes stand.
pub proof fn law_sparse_index_round_trip(pre: Seq<u8>, index: Seq<SparseItem>, post: Seq<u8>)
    requires
        index.len() <= u64::MAX,
        forall|i: int|
            #![trigger index[i]]
            0 <= i < index.len() ==> index[i].first_key.len() <= u64::MAX
                && index[i].last_key.len() <= u64::MAX,
    ensures
        footer::parse_sparse_index(pre + index_bytes(index) + post, pre.len() as int) == Ok::<
            _,
            IoFailure,
        >((index, (pre.len() + index_bytes(index).len()) as int)),
{
    broadcast use crate::bytes::group_bytes;

    let n = bytes::be64(index.len() as u64);
    let s = pre + index_bytes(index) + post;
    bytes::lemma_be64_at(pre, index.len() as u64, entries_bytes(index) + post);
    assert(pre + n + (entries_bytes(index) + post) =~= s);
    lemma_entries_round_trip(pre + n, index, post);
    assert(pre + n + entries_bytes(index) + post =~= s);
}

proof fn lemma_entries_round_trip(pre: Seq<u8>, index: Seq<SparseItem>, post: Seq<u8>)
    requires
        forall|i: int|
            #![trigger index[i]]
            0 <= i < index.len() ==> index[i].first_key.len() <= u64::MAX
                && index[i].last_key.len() <= u64::MAX,
    ensures
        footer::parse_sparse_entries(
            pre + entries_bytes(index) + post,
            pre.len() as int,
            index.len(),
        ) == Ok::<_, IoFailure>((index, (pre.len() + entries_bytes(index).len()) as int)),
    decreases index.len(),
{
    if index.len() == 0 {
        assert(index =~= seq![]);
    } else {
        let front = index.drop_last();
        let e = index.last();
        assert(index[index.len() - 1] == e);
        assert forall|i: int| 0 <= i < front.len() implies (#[trigger] front[i]).first_key.len()
            <= u64::MAX && front[i].last_key.len() <= u64::MAX by {
            assert(front[i] == index[i]);
        }
        let s = pre + entries_bytes(index) + post;
        lemma_entries_round_trip(pre, front, e.bytes() + post);
        assert(pre + entries_bytes(front) + (e.bytes() + post) =~= s);
        let upto = pre + entries_bytes(front);
        index::law_sparse_entry_round_trip(upto, e, post);
        assert(upto + e.bytes() + post =~= s);
        assert(front.push(e) =~= index);
    }
}

/// The bytes up to a block are the beginning of the bytes of all blocks.
proof fn lemma_blocks_prefix(blocks: Seq<BlockView>, i: int)
    requires
        0 <= i < blocks.len(),
    ensures
        exists|tail: Seq<u8>|
            blocks_bytes(blocks) == #[trigger] (blocks_bytes(blocks.take(i)) + blocks[i].bytes()
                + tail),
    decreases blocks.len(),
{
    let front = blocks.drop_last();
    if i == blocks.len() - 1 {
        assert(blocks.take(i) =~= front);
        let tail = Seq::<u8>::empty();
        assert(blocks_bytes(blocks) =~= blocks_bytes(blocks.take(i)) + blocks[i].bytes() + tail);
    } else {
        lemma_blocks_prefix(front, i);
        assert(front.take(i) =~= blocks.take(i));
        assert(front[i] == blocks[i]);
        let tail = choose|tail: Seq<u8>|
            blocks_bytes(front) == #[trigger] (blocks_bytes(front.take(i)) + front[i].bytes()
                + tail);
        let more = tail + blocks.last().bytes();
        assert(blocks_bytes(blocks) =~= blocks_bytes(blocks.take(i)) + blocks[i].bytes() + more);
    }
}

/// A block can be encoded: its sizes fit in the fields that hold them, and the
/// number of its records is what it says.
pub open spec fn block_encodable(b: BlockView) -> bool {
    &&& b.first_key.len() <= u32::MAX
    &&& b.last_key.len() <= u32::MAX
    &&& b.data is Some
    &&& b.record_count == b.records().len()
    &&& block::encodable(b.records())
}

/// A table that was serialized reads back: its footer, its index and its filter are
/// what they were, the checksums match, and each block is found at the offset that
/// the index has for it, with its records sorted by key.
pub proof fn law_table_round_trip(blocks: Seq<BlockView>, words: Seq<u64>, hashes: u32)
    requires
        table_bytes(blocks, words, hashes).len() <= u64::MAX,
        blocks.len() <= u64::MAX,
        words.len() <= u64::MAX,
        forall|i: int| 0 <= i < blocks.len() ==> block_encodable(#[trigger] blocks[i]),
    ensures
        sections_of(table_bytes(blocks, words, hashes)) == Ok::<_, IoFailure>(
            (footer_of(blocks, words, hashes), index_of(blocks), words, hashes),
        ),
        footer::sparse_index_of(
            table_bytes(blocks, words, hashes),
            footer_of(blocks, words, hashes),
        ) == Ok::<_, IoFailure>(index_of(blocks)),
        footer::bloom_section_of(
            table_bytes(blocks, words, hashes),
            footer_of(blocks, words, hashes),
        ) == Ok::<_, IoFailure>(bloom::bloom_bytes(words, hashes)),
        forall|i: int|
            0 <= i < blocks.len() ==> {
                let at = index_of(blocks)[i].block_offset;
                &&& at == blocks_bytes(blocks.take(i)).len()
                &&& at + (#[trigger] blocks[i]).bytes().len() <= footer_of(
                    blocks,
                    words,
                    hashes,
                ).data_block_end
                &&& BlockView::parse(table_bytes(blocks, words, hashes), at) == Ok::<_, IoFailure>(
                    (
                        BlockView {
                            offset: at,
                            data: Some(
                                keyed::stable_sort(blocks[i].records(), block::version_key()),
                            ),
                            ..blocks[i]
                        },
                        (at + blocks[i].bytes().len()) as int,
                    ),
                )
            },
{
    broadcast use crate::bytes::group_bytes;

    let s = table_bytes(blocks, words, hashes);
    let f = footer_of(blocks, words, hashes);
    let data = blocks_bytes(blocks);
    let idx = index_bytes(index_of(blocks));
    let blm = bloom::bloom_bytes(words, hashes);
    footer::lemma_footer_size(f);
    footer::law_footer_round_trip(body_bytes(blocks, words, hashes), f, seq![]);
    assert forall|i: int|
        #![trigger index_of(blocks)[i]]
        0 <= i < blocks.len() implies index_of(blocks)[i].first_key.len() <= u64::MAX && index_of(
        blocks,
    )[i].last_key.len() <= u64::MAX by {
        assert(block_encodable(blocks[i]));
    }
    law_sparse_index_round_trip(data, index_of(blocks), blm + f.bytes());
    assert(data + idx + (blm + f.bytes()) =~= s);
    bloom::law_bloom_round_trip(data + idx, words, hashes, f.bytes());
    assert(data + idx + blm + f.bytes() =~= s);
    law_sparse_index_round_trip(seq![], index_of(blocks), seq![]);
    assert(seq![] + idx + seq![] =~= idx);
    assert(idx.len() >= 8);
    assert(blm.len() >= 20);
    assert(s.subrange(f.index_block_start as int, f.index_block_end as int) =~= idx);
    assert(s.subrange(f.bloom_block_start as int, f.bloom_block_end as int) =~= blm);
    assert forall|i: int| 0 <= i < blocks.len() implies {
        let at = index_of(blocks)[i].block_offset;
        &&& at == blocks_bytes(blocks.take(i)).len()
        &&& at + (#[trigger] blocks[i]).bytes().len() <= footer_of(
            blocks,
            words,
            hashes,
        ).data_block_end
        &&& BlockView::parse(s, at) == Ok::<_, IoFailure>(
            (
                BlockView {
                    offset: at,
                    data: Some(keyed::stable_sort(blocks[i].records(), block::version_key())),
                    ..blocks[i]
                },
                (at + blocks[i].bytes().len()) as int,
            ),
        )
    } by {
        lemma_blocks_prefix(blocks, i);
        let front = blocks_bytes(blocks.take(i));
        let tail = choose|tail: Seq<u8>|
            data == #[trigger] (front + blocks[i].bytes() + tail);
        let post = tail + idx + blm + f.bytes();
        assert(front + blocks[i].bytes() + post =~= s);
        assert(block_encodable(blocks[i]));
        block::law_block_round_trip(front, blocks[i], post);
    }
}

/// A table with one byte changed in its index, its filter or its footer is refused as
/// invalid data.
pub proof fn law_damaged_table_refused(
    blocks: Seq<BlockView>,
    words: Seq<u64>,
    hashes: u32,
    i: int,
    b: u8,
)
    requires
        table_bytes(blocks, words, hashes).len() <= u64::MAX,
        blocks_bytes(blocks).len() <= i < table_bytes(blocks, words, hashes).len(),
        b != table_bytes(blocks, words, hashes)[i],
    ensures
        sections_of(table_bytes(blocks, words, hashes).update(i, b)) matches Err(e) && e.kind
            == ErrorKind::InvalidData,
{
    broadcast use crate::bytes::group_bytes;

    let f = footer_of(blocks, words, hashes);
    let body = body_bytes(blocks, words, hashes);
    let s = table_bytes(blocks, words, hashes).update(i, b);
    let data = blocks_bytes(blocks);
    let idx = index_bytes(index_of(blocks));
    let blm = bloom::bloom_bytes(words, hashes);
    footer::lemma_footer_size(f);
    if i >= body.len() {
        footer::law_damaged_footer_refused(body, f, i - body.len(), b, seq![]);
        assert(s =~= body + f.bytes().update(i - body.len(), b));
    } else {
        footer::law_footer_round_trip(body.update(i, b), f, seq![]);
        assert(s =~= body.update(i, b) + f.bytes());
        let x = i - data.len();
        let index = s.subrange(f.index_block_start as int, f.index_block_end as int);
        let filter = s.subrange(f.bloom_block_start as int, f.bloom_block_end as int);
        if x < idx.len() {
            checksum::law_changed_byte_changes_checksum(idx, x, b);
            assert(index =~= idx.update(x, b));
        } else {
            checksum::law_changed_byte_changes_checksum(blm, x - idx.len(), b);
            assert(index =~= idx);
            assert(filter =~= blm.update(x - idx.len(), b));
        }
    }
}

/// The block for a key is the last one that does not begin behind it; a key before the
/// first block has none.
pub proof fn law_block_place(index: Seq<SparseItem>, key: Seq<u8>)
    requires
        index::ordered_index(index),
    ensures
        match block_place(index, key) {
            None => index.len() == 0 || order::key_lt(key, index[0].first_key),
            Some(at) => {
                &&& 0 <= at < index.len()
                &&& order::key_le(index[at].first_key, key)
                &&& at + 1 < index.len() ==> order::key_lt(key, index[at + 1].first_key)
            },
        },
{
    index::law_search_blocks(index, key, 0, index.len() as int);
    match index::search_blocks(index, key, 0, index.len() as int) {
        Found::Block(at) => {
            if at + 1 < index.len() {
                assert(order::key_lt(index[at].last_key, index[at + 1].first_key));
                if key != index[at].last_key {
                    order::lemma_key_transitive(
                        key,
                        index[at].last_key,
                        index[at + 1].first_key,
                    );
                }
            }
        },
        Found::Before(at) => {
            if at > 0 {
                let e = index[at - 1];
                assert(order::key_lt(e.last_key, key));
                assert(order::key_le(e.first_key, e.last_key));
                if e.first_key != e.last_key {
                    order::lemma_key_transitive(e.first_key, e.last_key, key);
                }
            }
        },
    }
}

/// The block for a key is read where the index says; an index whose next block begins
/// before it is refused, as is a key without a block.
pub proof fn law_block_for_key(
    s: Seq<u8>,
    f: SSTableFooter,
    index: Seq<SparseItem>,
    key: Seq<u8>,
    at: int,
)
    ensures
        block_place(index, key) is None ==> (block_for(s, f, index, key) matches Err(e) && e.kind
            == ErrorKind::NotFound),
        block_place(index, key) == Some(at) ==> {
            let end = if at + 1 < index.len() {
                index[at + 1].block_offset
            } else {
                f.data_block_end
            };
            &&& end < index[at].block_offset ==> (block_for(s, f, index, key) matches Err(e)
                && e.kind == ErrorKind::InvalidData)
            &&& end >= index[at].block_offset ==> match BlockView::parse(
                s,
                index[at].block_offset,
            ) {
                Ok((b, _)) => block_for(s, f, index, key) == Ok::<_, IoFailure>(b),
                Err(e) => block_for(s, f, index, key) == Err::<BlockView, _>(e),
            }
        },
{
}

} // verus!
