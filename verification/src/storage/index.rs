//! The indexes of a table: from keys to offsets, and from key ranges to blocks.
use vstd::prelude::*;
use vstd::string::*;
use crate::bytes;
use crate::error::{DBError, DBFailure, ErrorKind, IoError, IoFailure};
use crate::order;
use crate::order::{order_keys, KeyOrder};
use crate::storage::block::{Block, TimedBlock};
use crate::storage::bloom::BloomFilterWrapper;
use crate::storage::checksum;
use crate::storage::checksum::calculate_crc32;
use crate::storage::footer;
use crate::storage::footer::decode_record_from_file;
use crate::storage::keyed;
use crate::storage::keymap::KeyMap;
use crate::storage::record::{Record, RecordType, TimedRecord};
use crate::text;

verus! {

/// Where the record of a key starts.
#[derive(Debug)]
pub struct IndexEntry {
    pub key: Vec<u8>,
    pub offset: u64,
}

/// What an index entry says.
#[verifier::ext_equal]
pub struct IndexItem {
    pub key: Seq<u8>,
    pub offset: u64,
}

impl View for IndexEntry {
    type V = IndexItem;

    open spec fn view(&self) -> IndexItem {
        IndexItem { key: self.key@, offset: self.offset }
    }
}

impl IndexItem {
    /// The bytes of the entry.
    pub open spec fn bytes(self) -> Seq<u8> {
        bytes::field64(self.key) + bytes::be64(self.offset)
    }

    /// The entry that starts at `at`, and where it ends.
    pub open spec fn parse(s: Seq<u8>, at: int) -> Result<(IndexItem, int), IoFailure> {
        match bytes::field64_at(s, at) {
            None => Err(crate::error::eof_failure()),
            Some((key, mid)) => if bytes::holds(s, mid, 8) {
                Ok((IndexItem { key, offset: bytes::be64_at(s, mid) }, mid + 8))
            } else {
                Err(crate::error::eof_failure())
            },
        }
    }
}

impl IndexEntry {
    /// The bytes of the entry.
    pub fn encode(&self) -> (out: Vec<u8>)
        ensures
            out@ == self@.bytes(),
    {
        let mut out: Vec<u8> = Vec::new();
        bytes::push_be64(&mut out, self.key.len() as u64);
        bytes::push_all(&mut out, self.key.as_slice());
        bytes::push_be64(&mut out, self.offset);
        assert(out@ =~= self@.bytes());
        out
    }

    /// The entry that starts at `at`, and where it ends.
    pub fn decode(data: &[u8], at: usize) -> (r: Result<(IndexEntry, usize), IoError>)
        ensures
            match r {
                Ok((entry, end)) => IndexItem::parse(data@, at as int) == Ok::<_, IoFailure>(
                    (entry@, end as int),
                ) && end <= data@.len(),
                Err(e) => IndexItem::parse(data@, at as int) == Err::<(IndexItem, int), _>(e@),
            },
    {
        match bytes::get_field64(data, at) {
            None => Err(IoError::eof()),
            Some((key, mid)) => {
                if data.len() - mid < 8 {
                    Err(IoError::eof())
                } else {
                    Ok((IndexEntry { key, offset: bytes::get_be64(data, mid) }, mid + 8))
                }
            },
        }
    }
}

/// Decoding gives back the entry that was encoded, wherever its bytes stand.
pub proof fn law_index_entry_round_trip(pre: Seq<u8>, e: IndexItem, post: Seq<u8>)
    requires
        e.key.len() <= u64::MAX,
    ensures
        IndexItem::parse(pre + e.bytes() + post, pre.len() as int) == Ok::<_, IoFailure>(
            (e, (pre.len() + e.bytes().len()) as int),
        ),
{
    broadcast use crate::bytes::group_bytes;

    let s = pre + e.bytes() + post;
    let offset = bytes::be64(e.offset);
    bytes::lemma_field64(pre, e.key, offset + post);
    assert(pre + bytes::field64(e.key) + (offset + post) =~= s);
    bytes::lemma_be64_at(pre + bytes::field64(e.key), e.offset, post);
    assert(pre + bytes::field64(e.key) + offset + post =~= s);
}

/// Where a block starts, and which keys and how many records it has.
#[derive(Debug)]
pub struct SparseIndexEntry {
    pub first_key: Vec<u8>,
    pub block_offset: u64,
    pub last_key: Vec<u8>,
    pub record_count: u32,
}

/// What an entry of the sparse index says.
#[verifier::ext_equal]
pub struct SparseItem {
    pub first_key: Seq<u8>,
    pub block_offset: u64,
    pub last_key: Seq<u8>,
    pub record_count: u32,
}

impl View for SparseIndexEntry {
    type V = SparseItem;

    open spec fn view(&self) -> SparseItem {
        SparseItem {
            first_key: self.first_key@,
            block_offset: self.block_offset,
            last_key: self.last_key@,
            record_count: self.record_count,
        }
    }
}

impl SparseItem {
    /// The bytes of the entry.
    pub open spec fn bytes(self) -> Seq<u8> {
        bytes::field64(self.first_key) + bytes::be64(self.block_offset) + bytes::field64(
            self.last_key,
        ) + bytes::be32(self.record_count)
    }

    /// The entry that starts at `at`, and where it ends.
    pub open spec fn parse(s: Seq<u8>, at: int) -> Result<(SparseItem, int), IoFailure> {
        match bytes::field64_at(s, at) {
            None => Err(crate::error::eof_failure()),
            Some((first_key, a)) => if !bytes::holds(s, a, 8) {
                Err(crate::error::eof_failure())
            } else {
                match bytes::field64_at(s, a + 8) {
                    None => Err(crate::error::eof_failure()),
                    Some((last_key, b)) => if !bytes::holds(s, b, 4) {
                        Err(crate::error::eof_failure())
                    } else {
                        Ok(
                            (
                                SparseItem {
                                    first_key,
                                    block_offset: bytes::be64_at(s, a),
                                    last_key,
                                    record_count: bytes::be32_at(s, b),
                                },
                                b + 4,
                            ),
                        )
                    },
                }
            },
        }
    }

    /// The key is within the range of the block.
    pub open spec fn covers(self, key: Seq<u8>) -> bool {
        order::key_le(self.first_key, key) && order::key_le(key, self.last_key)
    }
}

impl Clone for SparseIndexEntry {
    fn clone(&self) -> (e: SparseIndexEntry)
        ensures
            e@ == self@,
    {
        SparseIndexEntry {
            first_key: bytes::copy_bytes(self.first_key.as_slice()),
            block_offset: self.block_offset,
            last_key: bytes::copy_bytes(self.last_key.as_slice()),
            record_count: self.record_count,
        }
    }
}

impl SparseIndexEntry {
    /// The bytes of the entry.
    pub fn encode(&self) -> (out: Vec<u8>)
        ensures
            out@ == self@.bytes(),
    {
        let mut out: Vec<u8> = Vec::new();
        bytes::push_be64(&mut out, self.first_key.len() as u64);
        bytes::push_all(&mut out, self.first_key.as_slice());
        bytes::push_be64(&mut out, self.block_offset);
        bytes::push_be64(&mut out, self.last_key.len() as u64);
        bytes::push_all(&mut out, self.last_key.as_slice());
        bytes::push_be32(&mut out, self.record_count);
        assert(out@ =~= self@.bytes());
        out
    }

    /// The entry that starts at `at`, and where it ends.
    pub fn decode(data: &[u8], at: usize) -> (r: Result<(SparseIndexEntry, usize), IoError>)
        ensures
            match r {
                Ok((entry, end)) => SparseItem::parse(data@, at as int) == Ok::<_, IoFailure>(
                    (entry@, end as int),
                ) && end <= data@.len(),
                Err(e) => SparseItem::parse(data@, at as int) == Err::<(SparseItem, int), _>(e@),
            },
    {
        let (first_key, a) = match bytes::get_field64(data, at) {
            None => {
                return Err(IoError::eof());
            },
            Some(found) => found,
        };
        if data.len() - a < 8 {
            return Err(IoError::eof());
        }
        let (last_key, b) = match bytes::get_field64(data, a + 8) {
            None => {
                return Err(IoError::eof());
            },
            Some(found) => found,
        };
        if data.len() - b < 4 {
            return Err(IoError::eof());
        }
        let entry = SparseIndexEntry {
            first_key,
            block_offset: bytes::get_be64(data, a),
            last_key,
            record_count: bytes::get_be32(data, b),
        };
        Ok((entry, b + 4))
    }
}

/// Decoding gives back the entry that was encoded, wherever its bytes stand.
pub proof fn law_sparse_entry_round_trip(pre: Seq<u8>, e: SparseItem, post: Seq<u8>)
    requires
        e.first_key.len() <= u64::MAX,
        e.last_key.len() <= u64::MAX,
    ensures
        SparseItem::parse(pre + e.bytes() + post, pre.len() as int) == Ok::<_, IoFailure>(
            (e, (pre.len() + e.bytes().len()) as int),
        ),
{
    broadcast use crate::bytes::group_bytes;

    let s = pre + e.bytes() + post;
    let f = bytes::field64(e.first_key);
    let o = bytes::be64(e.block_offset);
    let l = bytes::field64(e.last_key);
    let c = bytes::be32(e.record_count);
    bytes::lemma_field64(pre, e.first_key, o + l + c + post);
    assert(pre + f + (o + l + c + post) =~= s);
    bytes::lemma_be64_at(pre + f, e.block_offset, l + c + post);
    assert(pre + f + o + (l + c + post) =~= s);
    bytes::lemma_field64(pre + f + o, e.last_key, c + post);
    assert(pre + f + o + l + (c + post) =~= s);
    bytes::lemma_be32_at(pre + f + o + l, e.record_count, post);
    assert(pre + f + o + l + c + post =~= s);
}

/// The failure for an index that does not match its checksum.
pub open spec fn index_mismatch(expected: u32, got: u32) -> IoFailure {
    IoFailure {
        kind: ErrorKind::InvalidData,
        message: "Index block checksum mismatch: expected 0x"@ + text::hex_upper(expected as nat)
            + ", got 0x"@ + text::hex_upper(got as nat),
    }
}

/// Accepts `data` if and only if `expected` is its checksum.
pub fn verify_index_checksum(data: &[u8], expected: u32) -> (r: Result<(), IoError>)
    ensures
        r is Ok <==> checksum::crc32(data@) == expected,
        r matches Err(e) ==> e@ == index_mismatch(expected, checksum::crc32(data@)),
{
    let calculated: u32 = calculate_crc32(data);
    if calculated == expected {
        return Ok(());
    }
    let mut message = "Index block checksum mismatch: expected 0x".to_owned();
    text::push_hex_upper(&mut message, expected);
    message.append(", got 0x");
    text::push_hex_upper(&mut message, calculated);
    Err(IoError::with_message(ErrorKind::InvalidData, message))
}

/// Where a search for the block of a key ends: at the block whose range has the
/// key, or before the first block behind the key.
pub enum Found {
    Block(int),
    Before(int),
}

/// Binary search in `index[left..right]` for the block whose range has `key`.
pub open spec fn search_blocks(index: Seq<SparseItem>, key: Seq<u8>, left: int, right: int) -> Found
    decreases right - left,
{
    if left >= right {
        Found::Before(left)
    } else {
        let mid = left + (right - left) / 2;
        if order::key_lt(key, index[mid].first_key) {
            search_blocks(index, key, left, mid)
        } else if order::key_lt(index[mid].last_key, key) {
            search_blocks(index, key, mid + 1, right)
        } else {
            Found::Block(mid)
        }
    }
}

/// The blocks' ranges ascend and do not overlap.
pub open spec fn ordered_index(index: Seq<SparseItem>) -> bool {
    &&& forall|i: int|
        #![trigger index[i]]
        0 <= i < index.len() ==> order::key_le(index[i].first_key, index[i].last_key)
    &&& forall|i: int, j: int|
        #![trigger index[i], index[j]]
        0 <= i < j < index.len() ==> order::key_lt(index[i].last_key, index[j].first_key)
}

/// In an ordered index the search finds the block whose range has the key, if
/// there is one; else it ends behind the blocks that come before the key and
/// before those that come after it.
pub proof fn law_search_blocks(index: Seq<SparseItem>, key: Seq<u8>, left: int, right: int)
    requires
        ordered_index(index),
        0 <= left <= right <= index.len(),
        forall|i: int| 0 <= i < left ==> order::key_lt((#[trigger] index[i]).last_key, key),
        forall|i: int|
            right <= i < index.len() ==> order::key_lt(key, (#[trigger] index[i]).first_key),
    ensures
        match search_blocks(index, key, left, right) {
            Found::Block(at) => 0 <= at < index.len() && index[at].covers(key),
            Found::Before(at) => {
                &&& 0 <= at <= index.len()
                &&& forall|i: int|
                    0 <= i < at ==> order::key_lt((#[trigger] index[i]).last_key, key)
                &&& forall|i: int|
                    at <= i < index.len() ==> order::key_lt(key, (#[trigger] index[i]).first_key)
                &&& forall|i: int| 0 <= i < index.len() ==> !(#[trigger] index[i]).covers(key)
            },
        },
    decreases right - left,
{
    if left < right {
        let mid = left + (right - left) / 2;
        let m = index[mid];
        if order::key_lt(key, m.first_key) {
            assert forall|i: int| mid <= i < index.len() implies order::key_lt(
                key,
                (#[trigger] index[i]).first_key,
            ) by {
                if mid < i {
                    assert(order::key_lt(index[mid].last_key, index[i].first_key));
                    if m.first_key != m.last_key {
                        order::lemma_key_transitive(m.first_key, m.last_key, index[i].first_key);
                    }
                    order::lemma_key_transitive(key, m.first_key, index[i].first_key);
                }
            }
            law_search_blocks(index, key, left, mid);
        } else if order::key_lt(m.last_key, key) {
            assert forall|i: int| 0 <= i < mid + 1 implies order::key_lt(
                (#[trigger] index[i]).last_key,
                key,
            ) by {
                if i < mid {
                    assert(order::key_lt(index[i].last_key, index[mid].first_key));
                    if m.first_key != m.last_key {
                        order::lemma_key_transitive(index[i].last_key, m.first_key, m.last_key);
                    }
                    order::lemma_key_transitive(index[i].last_key, m.last_key, key);
                }
            }
            law_search_blocks(index, key, mid + 1, right);
        } else {
            order::lemma_key_total(key, m.first_key);
            order::lemma_key_total(m.last_key, key);
        }
    } else {
        assert forall|i: int| 0 <= i < index.len() implies !(#[trigger] index[i]).covers(key) by {
            if i < left {
                order::lemma_key_asymmetric(index[i].last_key, key);
            } else {
                order::lemma_key_asymmetric(key, index[i].first_key);
            }
        }
    }
}

/// Binary search for the block whose range has `key`: its place, or where it would
/// be.
pub fn locate_block(index: &Vec<SparseIndexEntry>, key: &[u8]) -> (r: Result<usize, usize>)
    ensures
        match r {
            Ok(at) => at < index@.len() && search_blocks(
                keyed::views(index@),
                key@,
                0,
                index@.len() as int,
            ) == Found::Block(at as int),
            Err(at) => at <= index@.len() && search_blocks(
                keyed::views(index@),
                key@,
                0,
                index@.len() as int,
            ) == Found::Before(at as int),
        },
{
    let ghost all = keyed::views(index@);
    let mut left: usize = 0;
    let mut right: usize = index.len();
    while left < right
        invariant
            left <= right <= index@.len(),
            all == keyed::views(index@),
            search_blocks(all, key@, 0, index@.len() as int) == search_blocks(
                all,
                key@,
                left as int,
                right as int,
            ),
        decreases right - left,
    {
        let mid: usize = left + (right - left) / 2;
        if matches!(order_keys(key, index[mid].first_key.as_slice()), KeyOrder::Before) {
            right = mid;
        } else if matches!(order_keys(key, index[mid].last_key.as_slice()), KeyOrder::After) {
            left = mid + 1;
        } else {
            return Ok(mid);
        }
    }
    Err(left)
}

/// The first record of `key`, as its value or, where it deletes the key, as
/// nothing.
pub open spec fn value_in(records: Seq<TimedRecord>, key: Seq<u8>) -> Option<Seq<u8>>
    decreases records.len(),
{
    if records.len() == 0 {
        None
    } else if records[0].key == key {
        match records[0].record_type {
            RecordType::Put => Some(records[0].value),
            RecordType::Delete => None,
        }
    } else {
        value_in(records.skip(1), key)
    }
}

/// What a lookup through the sparse index finds: nothing where no block's range
/// has the key, else what the block says.
pub open spec fn sparse_lookup(data: Seq<u8>, key: Seq<u8>, index: Seq<SparseItem>) -> Result<
    Option<Seq<u8>>,
    DBFailure,
> {
    match search_blocks(index, key, 0, index.len() as int) {
        Found::Before(_) => Ok(None),
        Found::Block(at) => match TimedBlock::parse(data, index[at].block_offset) {
            Err(e) => Err(e),
            Ok((block, _)) => match block.data {
                Some(records) => Ok(value_in(records, key)),
                None => Ok(None),
            },
        },
    }
}

/// The value that an optional vector stands for.
pub open spec fn opt_bytes(v: Option<Vec<u8>>) -> Option<Seq<u8>> {
    match v {
        Some(v) => Some(v@),
        None => None,
    }
}

/// The first record of `key`, as its value.
fn find_value(records: &Vec<Record>, key: &[u8]) -> (r: Option<Vec<u8>>)
    ensures
        opt_bytes(r) == value_in(keyed::views(records@), key@),
{
    let ghost all = keyed::views(records@);
    let mut i: usize = 0;
    assert(all.skip(0) =~= all);
    while i < records.len()
        invariant
            i <= records@.len(),
            all == keyed::views(records@),
            value_in(all, key@) == value_in(all.skip(i as int), key@),
        decreases records@.len() - i,
    {
        assert(all.skip(i as int)[0] == records@[i as int]@);
        if order::same_key(records[i].key.as_slice(), key) {
            return match records[i].record_type {
                RecordType::Put => Some(bytes::copy_bytes(records[i].value.as_slice())),
                RecordType::Delete => None,
            };
        }
        assert(all.skip(i as int).skip(1) =~= all.skip(i + 1));
        i = i + 1;
    }
    None
}

/// Looks `key` up in the table `data` through its sparse index.
pub fn search_sstable_sparse(data: &[u8], key: &[u8], sparse_index: &Vec<SparseIndexEntry>) -> (r:
    Result<Option<Vec<u8>>, DBError>)
    ensures
        match r {
            Ok(v) => sparse_lookup(data@, key@, keyed::views(sparse_index@)) == Ok::<_, DBFailure>(
                opt_bytes(v),
            ),
            Err(e) => sparse_lookup(data@, key@, keyed::views(sparse_index@)) == Err::<
                Option<Seq<u8>>,
                _,
            >(e@),
        },
{
    match locate_block(sparse_index, key) {
        Err(_) => Ok(None),
        Ok(at) => match Block::decode_at(data, sparse_index[at].block_offset) {
            Err(e) => Err(e),
            Ok((block, _)) => match &block.data {
                Some(records) => Ok(find_value(records, key)),
                None => Ok(None),
            },
        },
    }
}

/// A number stands for itself.
pub struct Offset {
    pub offset: u64,
}

impl View for Offset {
    type V = u64;

    open spec fn view(&self) -> u64 {
        self.offset
    }
}

/// What a lookup through a key index finds.
pub open spec fn index_lookup(data: Seq<u8>, key: Seq<u8>, index: Map<Seq<u8>, u64>) -> Result<
    Option<Seq<u8>>,
    IoFailure,
> {
    if !index.dom().contains(key) {
        Ok(None)
    } else {
        match footer::parse_plain_record(data, index[key] as int) {
            Err(e) => Err(e),
            Ok((r, _)) => if r.key == key && r.record_type == RecordType::Put {
                Ok(Some(r.value))
            } else {
                Ok(None)
            },
        }
    }
}

/// Looks `key` up in the table `data` through its index.
pub fn search_sstable(data: &[u8], key: &[u8], index: &KeyMap<Offset>) -> (r: Result<
    Option<Vec<u8>>,
    IoError,
>)
    requires
        index@.dom().contains(key@) ==> footer::plain_record_fits(data@, index@[key@] as int),
    ensures
        match r {
            Ok(v) => index_lookup(data@, key@, index@) == Ok::<_, IoFailure>(opt_bytes(v)),
            Err(e) => index_lookup(data@, key@, index@) == Err::<Option<Seq<u8>>, _>(e@),
        },
{
    match index.get(key) {
        None => Ok(None),
        Some(at) => {
            assert(at.offset < data.len());
            match decode_record_from_file(data, at.offset as usize) {
                Err(e) => Err(e),
                Ok((record_key, value, record_type, _)) => {
                    if order::same_key(record_key.as_slice(), key) && record_type
                        == RecordType::Put {
                        Ok(Some(value))
                    } else {
                        Ok(None)
                    }
                },
            }
        },
    }
}

/// Looks `key` up in the table `data` through its index, unless the filter says
/// that the key is not there.
pub fn search_sstable_with_bloom(
    data: &[u8],
    key: &[u8],
    bloom: &BloomFilterWrapper,
    index: &KeyMap<Offset>,
) -> (r: Result<Option<Vec<u8>>, IoError>)
    requires
        index@.dom().contains(key@) ==> footer::plain_record_fits(data@, index@[key@] as int),
    ensures
        !bloom@.members.contains(key@) ==> r matches Ok(None),
        bloom@.members.contains(key@) ==> match r {
            Ok(v) => index_lookup(data@, key@, index@) == Ok::<_, IoFailure>(opt_bytes(v)),
            Err(e) => index_lookup(data@, key@, index@) == Err::<Option<Seq<u8>>, _>(e@),
        },
{
    if !bloom.contains(key) {
        return Ok(None);
    }
    search_sstable(data, key, index)
}

/// Where the fields of an index entry are: the key with its length before it, then the
/// offset; numbers are big-endian.
pub proof fn law_index_entry_layout(e: IndexItem)
    requires
        e.key.len() <= u64::MAX,
    ensures
        ({
            let (b, k) = (e.bytes(), e.key.len() as int);
            &&& b.len() == 16 + k
            &&& bytes::be64_at(b, 0) == k
            &&& b.subrange(8, 8 + k) == e.key
            &&& bytes::be64_at(b, 8 + k) == e.offset
        }),
{
    broadcast use bytes::group_bytes;

    let (b, k) = (e.bytes(), e.key.len() as int);
    assert(b.subrange(0, 8) =~= bytes::be64(k as u64));
    assert(b.subrange(8, 8 + k) =~= e.key);
    assert(b.subrange(8 + k, 16 + k) =~= bytes::be64(e.offset));
}

/// Where the fields of an entry of the sparse index are: the first key with its length
/// before it, the block's offset, the last key with its length before it, and the number
/// of records; numbers are big-endian.
pub proof fn law_sparse_entry_layout(e: SparseItem)
    requires
        e.first_key.len() <= u64::MAX,
        e.last_key.len() <= u64::MAX,
    ensures
        ({
            let (b, f, l) = (e.bytes(), e.first_key.len() as int, e.last_key.len() as int);
            &&& b.len() == 28 + f + l
            &&& bytes::be64_at(b, 0) == f
            &&& b.subrange(8, 8 + f) == e.first_key
            &&& bytes::be64_at(b, 8 + f) == e.block_offset
            &&& bytes::be64_at(b, 16 + f) == l
            &&& b.subrange(24 + f, 24 + f + l) == e.last_key
            &&& bytes::be32_at(b, 24 + f + l) == e.record_count
        }),
{
    broadcast use bytes::group_bytes;

    let (b, f, l) = (e.bytes(), e.first_key.len() as int, e.last_key.len() as int);
    assert(b.subrange(0, 8) =~= bytes::be64(f as u64));
    assert(b.subrange(8, 8 + f) =~= e.first_key);
    assert(b.subrange(8 + f, 16 + f) =~= bytes::be64(e.block_offset));
    assert(b.subrange(16 + f, 24 + f) =~= bytes::be64(l as u64));
    assert(b.subrange(24 + f, 24 + f + l) =~= e.last_key);
    assert(b.subrange(24 + f + l, 28 + f + l) =~= bytes::be32(e.record_count));
}

/// What is read as an entry of an index is the bytes of that entry.
pub proof fn law_entry_read_was_written(s: Seq<u8>, at: int)
    ensures
        IndexItem::parse(s, at) matches Ok((e, end)) ==> 0 <= at <= end <= s.len() && s.subrange(
            at,
            end,
        ) == e.bytes(),
        SparseItem::parse(s, at) matches Ok((e, end)) ==> 0 <= at <= end <= s.len() && s.subrange(
            at,
            end,
        ) == e.bytes(),
{
    broadcast use bytes::group_bytes;

    bytes::lemma_field_at(s, at);
    if let Ok((e, end)) = IndexItem::parse(s, at) {
        let mid = end - 8;
        bytes::lemma_number_at(s, mid);
        assert(s.subrange(at, end) =~= s.subrange(at, mid) + s.subrange(mid, end));
    }
    if let Ok((e, end)) = SparseItem::parse(s, at) {
        let a = at + 8 + e.first_key.len();
        let b = end - 4;
        bytes::lemma_number_at(s, a);
        bytes::lemma_field_at(s, a + 8);
        bytes::lemma_number_at(s, b);
        assert(s.subrange(at, end) =~= s.subrange(at, a) + s.subrange(a, a + 8) + s.subrange(
            a + 8,
            b,
        ) + s.subrange(b, end));
    }
}

/// A block covers the keys from its first to its last one, both included.
pub proof fn law_block_covers(e: SparseItem, key: Seq<u8>)
    ensures
        order::key_lt(key, e.first_key) ==> !e.covers(key),
        order::key_lt(e.last_key, key) ==> !e.covers(key),
        !order::key_lt(key, e.first_key) && !order::key_lt(e.last_key, key) ==> e.covers(key),
{
    order::lemma_key_total(key, e.first_key);
    order::lemma_key_total(key, e.last_key);
    order::lemma_key_irreflexive(key);
    if order::key_lt(key, e.first_key) {
        order::lemma_key_asymmetric(key, e.first_key);
    }
    if order::key_lt(e.last_key, key) {
        order::lemma_key_asymmetric(e.last_key, key);
    }
}

/// Of records with the key the first one decides: its value, or none where it deletes the
/// key; without such a record there is none either.
pub proof fn law_first_record_decides(records: Seq<TimedRecord>, key: Seq<u8>, i: int)
    requires
        0 <= i <= records.len(),
        forall|j: int| 0 <= j < i ==> (#[trigger] records[j]).key != key,
    ensures
        i == records.len() ==> value_in(records, key) is None,
        i < records.len() && records[i].key == key ==> value_in(records, key) == (
        match records[i].record_type {
            RecordType::Put => Some(records[i].value),
            RecordType::Delete => None,
        }),
    decreases i,
{
    if i > 0 {
        let rest = records.skip(1);
        assert(records[0].key != key);
        assert forall|j: int| 0 <= j < i - 1 implies (#[trigger] rest[j]).key != key by {
            assert(rest[j] == records[j + 1]);
        }
        law_first_record_decides(rest, key, i - 1);
        if i < records.len() {
            assert(rest[i - 1] == records[i]);
        }
    }
}

/// A lookup through an index gives the value of the record at the offset that the index
/// has for the key, if the record is of that key and does not delete it; a key that the
/// index does not have has no value.
pub proof fn law_index_lookup(
    pre: Seq<u8>,
    r: footer::PlainRecord,
    post: Seq<u8>,
    key: Seq<u8>,
    index: Map<Seq<u8>, u64>,
)
    requires
        r.key.len() <= u64::MAX,
        r.value.len() <= u64::MAX,
        pre.len() <= u64::MAX,
        index.dom().contains(key) ==> index[key] == pre.len(),
    ensures
        index_lookup(
            pre + (seq![r.record_type.code()] + bytes::be64(r.key.len() as u64) + bytes::be64(
                r.value.len() as u64,
            ) + r.key + r.value + bytes::be32(checksum::crc32(r.value))) + post,
            key,
            index,
        ) == Ok::<_, IoFailure>(
            if index.dom().contains(key) && r.key == key && r.record_type == RecordType::Put {
                Some(r.value)
            } else {
                None
            },
        ),
{
    footer::law_plain_record_reads_back(pre, r, post);
}

/// Where the block that would have the key cannot be read, the lookup fails as reading the
/// block does, and a key that no block can have is looked for in none.
pub proof fn law_unreadable_block_refused(data: Seq<u8>, key: Seq<u8>, index: Seq<SparseItem>)
    ensures
        search_blocks(index, key, 0, index.len() as int) matches Found::Block(at) ==> (
        TimedBlock::parse(data, index[at].block_offset) matches Err(e) ==> sparse_lookup(
            data,
            key,
            index,
        ) == Err::<Option<Seq<u8>>, _>(e)),
        search_blocks(index, key, 0, index.len() as int) is Before ==> sparse_lookup(
            data,
            key,
            index,
        ) == Ok::<_, DBFailure>(None::<Seq<u8>>),
{
}

} // verus!
