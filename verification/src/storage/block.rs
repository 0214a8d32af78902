//! Checksummed blocks of timestamped records.
use vstd::prelude::*;
use vstd::string::*;
use crate::bytes;
use crate::cursor::Cursor;
use crate::error::{DBError, DBFailure, IoError, IoFailure};
use crate::storage::checksum;
use crate::storage::checksum::{calculate_crc32, verify_crc32};
use crate::storage::constant::SSTABLE_BLOCK_SIZE;
use crate::storage::header::{decode_header, encode_header, Header};
use crate::storage::keyed;
use crate::storage::keyed::{sort_by_key, Keyed};
use crate::storage::record::{Record, TimedRecord};

verus! {

/// A block: keys and sizes, and the records where they have been loaded.
#[derive(Debug)]
pub struct Block {
    /// Where the block starts.
    pub offset: u64,
    /// The key of its first record.
    pub first_key: Vec<u8>,
    /// The key of its last record.
    pub last_key: Vec<u8>,
    /// How many records it has.
    pub record_count: u32,
    /// How many bytes the records take.
    pub data_size: u32,
    /// The records.
    pub data: Option<Vec<Record>>,
}

/// What a block says.
#[verifier::ext_equal]
pub struct TimedBlock {
    pub offset: u64,
    pub first_key: Seq<u8>,
    pub last_key: Seq<u8>,
    pub record_count: u32,
    pub data_size: u32,
    pub data: Option<Seq<TimedRecord>>,
}

impl View for Block {
    type V = TimedBlock;

    open spec fn view(&self) -> TimedBlock {
        TimedBlock {
            offset: self.offset,
            first_key: self.first_key@,
            last_key: self.last_key@,
            record_count: self.record_count,
            data_size: self.data_size,
            data: match self.data {
                Some(records) => Some(keyed::views(records@)),
                None => None,
            },
        }
    }
}

/// The bytes of records, one after the other.
pub open spec fn records_bytes(s: Seq<TimedRecord>) -> Seq<u8>
    decreases s.len(),
{
    if s.len() == 0 {
        seq![]
    } else {
        records_bytes(s.drop_last()) + s.last().bytes()
    }
}

/// The first `n` records from `at` on, and where they end.
pub open spec fn parse_records(s: Seq<u8>, at: int, n: nat) -> Result<
    (Seq<TimedRecord>, int),
    IoFailure,
>
    decreases n,
{
    if n == 0 {
        Ok((seq![], at))
    } else {
        match parse_records(s, at, (n - 1) as nat) {
            Err(e) => Err(e),
            Ok((front, mid)) => match TimedRecord::parse(s, mid) {
                Err(e) => Err(e),
                Ok((r, end)) => Ok((front.push(r), end)),
            },
        }
    }
}

/// The order of records in a block.
pub open spec fn record_key() -> spec_fn(TimedRecord) -> Seq<u8> {
    |r: TimedRecord| r.key
}

/// The bytes of a block: header and records, then the checksum of both.
pub open spec fn sealed_bytes(h: Header, data: Seq<u8>) -> Seq<u8> {
    h.bytes() + data + bytes::be32(checksum::crc32(h.bytes() + data))
}

impl TimedBlock {
    /// The header of the block.
    pub open spec fn header(self) -> Header {
        Header {
            first_key: self.first_key,
            last_key: self.last_key,
            record_count: self.record_count,
            data_size: self.data_size,
        }
    }

    /// The block whose bytes start at `offset`, its records sorted by key, and
    /// where it ends.
    pub open spec fn parse(s: Seq<u8>, offset: u64) -> Result<(TimedBlock, int), DBFailure> {
        match Header::parse(s, offset as int) {
            Err(e) => Err(DBFailure::Io(e)),
            Ok((h, data_at)) => {
                let end = data_at + h.data_size as int;
                let data = s.subrange(data_at, end);
                let sum = checksum::crc32(h.bytes() + data);
                if !bytes::holds(s, end, 4) {
                    Err(DBFailure::Io(crate::error::eof_failure()))
                } else if sum != bytes::be32_at(s, end) {
                    Err(DBFailure::Corrupted(checksum::crc32_mismatch(bytes::be32_at(s, end), sum)))
                } else {
                    match parse_records(data, 0, h.record_count as nat) {
                        Err(e) => Err(DBFailure::Io(e)),
                        Ok((records, _)) => Ok(
                            (
                                TimedBlock {
                                    offset,
                                    first_key: h.first_key,
                                    last_key: h.last_key,
                                    record_count: h.record_count,
                                    data_size: h.data_size,
                                    data: Some(keyed::stable_sort(records, record_key())),
                                },
                                end + 4,
                            ),
                        ),
                    }
                }
            },
        }
    }
}

/// Collects records for a block.
pub struct BlockBuilder {
    data: Vec<u8>,
    first_key: Option<Vec<u8>>,
    last_key: Option<Vec<u8>>,
    record_count: u32,
    block_offset: u64,
    records: Ghost<Seq<TimedRecord>>,
}

/// What a block builder holds.
#[verifier::ext_equal]
pub struct TimedBuilder {
    pub offset: u64,
    pub records: Seq<TimedRecord>,
}

impl View for BlockBuilder {
    type V = TimedBuilder;

    closed spec fn view(&self) -> TimedBuilder {
        TimedBuilder { offset: self.block_offset, records: self.records@ }
    }
}

impl TimedBuilder {
    /// How many bytes the records take.
    pub open spec fn size(self) -> nat {
        records_bytes(self.records).len()
    }

    /// A record is accepted: with its bytes the builder stays within a block.
    pub open spec fn accepts(self, r: TimedRecord) -> bool {
        self.size() + r.bytes().len() <= SSTABLE_BLOCK_SIZE
    }

    /// The builder with one more record.
    pub open spec fn with(self, r: TimedRecord) -> TimedBuilder {
        TimedBuilder { offset: self.offset, records: self.records.push(r) }
    }

    /// The block of the records, without the records themselves.
    pub open spec fn block(self) -> TimedBlock {
        TimedBlock {
            offset: self.offset,
            first_key: self.records[0].key,
            last_key: self.records.last().key,
            record_count: self.records.len() as u32,
            data_size: self.size() as u32,
            data: None,
        }
    }
}

/// A record takes 29 bytes besides its key and its value.
pub proof fn lemma_record_size(r: TimedRecord)
    ensures
        r.bytes().len() == 29 + r.key.len() + r.value.len(),
{
    broadcast use crate::bytes::group_bytes;

}

impl BlockBuilder {
    #[verifier::type_invariant]
    spec fn inv(self) -> bool {
        let records = self.records@;
        &&& self.data@ == records_bytes(records)
        &&& self.record_count == records.len()
        &&& records.len() == 0 ==> self.first_key is None && self.last_key is None
        &&& records.len() > 0 ==> {
            &&& self.first_key matches Some(k)
            &&& k@ == records[0].key
        }
        &&& records.len() > 0 ==> {
            &&& self.last_key matches Some(k)
            &&& k@ == records.last().key
        }
        &&& 29 * records.len() <= self.data@.len()
        &&& self.data@.len() <= SSTABLE_BLOCK_SIZE || records.len() == 1
    }

    /// A builder without records, for a block at `block_offset`.
    pub fn new(block_offset: u64) -> (b: BlockBuilder)
        ensures
            b@ == (TimedBuilder { offset: block_offset, records: seq![] }),
    {
        let data: Vec<u8> = Vec::new();
        assert(data@ =~= records_bytes(seq![]));
        BlockBuilder {
            data,
            first_key: None,
            last_key: None,
            record_count: 0,
            block_offset,
            records: Ghost(Seq::empty()),
        }
    }

    /// A builder for a block that has just this record, however long it is.
    pub(crate) fn with_record(block_offset: u64, record: &Record) -> (b: BlockBuilder)
        ensures
            b@ == (TimedBuilder { offset: block_offset, records: seq![record@] }),
    {
        let data: Vec<u8> = record.encode();
        let ghost all = seq![record@];
        proof {
            lemma_record_size(record@);
            assert(all.drop_last() =~= seq![]);
            assert(records_bytes(seq![]) =~= seq![]);
            assert(records_bytes(all) =~= record@.bytes());
        }
        BlockBuilder {
            data,
            first_key: Some(bytes::copy_bytes(record.key.as_slice())),
            last_key: Some(bytes::copy_bytes(record.key.as_slice())),
            record_count: 1,
            block_offset,
            records: Ghost(all),
        }
    }

    /// Adds `record` if its bytes fit in what is left of a block. If not, changes
    /// nothing and hands the bytes of the record back.
    pub fn add_record(&mut self, record: &Record) -> (r: Result<(), Vec<u8>>)
        ensures
            r is Ok <==> old(self)@.size() + record@.bytes().len() <= SSTABLE_BLOCK_SIZE,
            r is Ok ==> final(self)@ == old(self)@.with(record@) && final(self)@.size() == old(
                self,
            )@.size() + record@.bytes().len(),
            r matches Err(e) ==> final(self)@ == old(self)@ && e@ == record@.bytes(),
    {
        proof {
            use_type_invariant(&*self);
        }
        let ghost before = self@;
        let used: usize = self.data.len();
        let encoded: Vec<u8> = record.encode();
        if used > SSTABLE_BLOCK_SIZE || encoded.len() > SSTABLE_BLOCK_SIZE - used {
            return Err(encoded);
        }
        let mut fresh = BlockBuilder::new(self.block_offset);
        std::mem::swap(self, &mut fresh);
        let BlockBuilder { mut data, first_key, last_key: _, record_count, block_offset, records } =
            fresh;
        let ghost after = before.records.push(record@);
        let first_key: Option<Vec<u8>> = match first_key {
            Some(key) => Some(key),
            None => Some(bytes::copy_bytes(record.key.as_slice())),
        };
        bytes::push_all(&mut data, encoded.as_slice());
        proof {
            lemma_record_size(record@);
            assert(after.drop_last() =~= before.records);
            assert(after.last() == record@);
        }
        *self = BlockBuilder {
            data,
            first_key,
            last_key: Some(bytes::copy_bytes(record.key.as_slice())),
            record_count: record_count + 1,
            block_offset,
            records: Ghost(after),
        };
        Ok(())
    }

    /// The block of the records and its bytes, if there are records: header and
    /// records, then the checksum of both.
    pub fn build(self) -> (r: Option<(Block, Vec<u8>)>)
        ensures
            r is Some <==> self@.records.len() > 0,
            r matches Some((block, bytes)) ==> block@ == self@.block() && bytes@ == sealed_bytes(
                block@.header(),
                records_bytes(self@.records),
            ),
    {
        proof {
            use_type_invariant(&self);
        }
        let ghost before = self@;
        if self.data.len() == 0 {
            return None;
        }
        let BlockBuilder { data, first_key, last_key, record_count, block_offset, records: _ } =
            self;
        let block = Block {
            offset: block_offset,
            first_key: first_key.unwrap(),
            last_key: last_key.unwrap(),
            record_count,
            data_size: data.len() as u32,
            data: None,
        };
        assert(block@ =~= before.block());
        let mut out: Vec<u8> = block.encode();
        bytes::push_all(&mut out, data.as_slice());
        let checksum: u32 = calculate_crc32(out.as_slice());
        bytes::push_be32(&mut out, checksum);
        Some((block, out))
    }

    /// There are no records.
    pub fn is_empty(&self) -> (empty: bool)
        ensures
            empty <==> self@.records.len() == 0,
    {
        proof {
            use_type_invariant(self);
        }
        self.data.len() == 0
    }

    /// How many bytes the records take.
    pub fn size(&self) -> (n: usize)
        ensures
            n == self@.size(),
    {
        proof {
            use_type_invariant(self);
        }
        self.data.len()
    }
}

/// An error of a record stops the reading.
proof fn lemma_parse_records_err(s: Seq<u8>, at: int, i: nat, n: nat)
    requires
        i <= n,
        parse_records(s, at, i) is Err,
    ensures
        parse_records(s, at, n) == parse_records(s, at, i),
    decreases n,
{
    if i < n {
        lemma_parse_records_err(s, at, i, (n - 1) as nat);
    }
}

/// The first `n` records of `data`.
fn decode_records(data: &[u8], n: u32) -> (r: Result<Vec<Record>, IoError>)
    ensures
        match r {
            Ok(records) => parse_records(data@, 0, n as nat) matches Ok(p) && p.0 == keyed::views(
                records@,
            ),
            Err(e) => parse_records(data@, 0, n as nat) == Err::<(Seq<TimedRecord>, int), _>(e@),
        },
{
    let mut records: Vec<Record> = Vec::new();
    let mut pos: usize = 0;
    let mut i: u32 = 0;
    assert(keyed::views(records@) =~= seq![]);
    while i < n
        invariant
            i <= n,
            parse_records(data@, 0, i as nat) == Ok::<_, IoFailure>(
                (keyed::views(records@), pos as int),
            ),
        decreases n - i,
    {
        match Record::decode(data, pos) {
            Err(e) => {
                proof {
                    lemma_parse_records_err(data@, 0, (i + 1) as nat, n as nat);
                }
                return Err(e);
            },
            Ok((record, end)) => {
                let ghost before = keyed::views(records@);
                let ghost r = record@;
                records.push(record);
                assert(keyed::views(records@) =~= before.push(r));
                pos = end;
            },
        }
        i = i + 1;
    }
    Ok(records)
}

/// Every record that is encoded has keys and values whose lengths fit in eight
/// bytes.
pub open spec fn encodable(s: Seq<TimedRecord>) -> bool {
    forall|i: int|
        #![trigger s[i]]
        0 <= i < s.len() ==> s[i].key.len() <= u64::MAX && s[i].value.len() <= u64::MAX
}

/// Decoding gives back the records that were encoded, wherever their bytes stand.
pub proof fn law_records_round_trip(pre: Seq<u8>, s: Seq<TimedRecord>, post: Seq<u8>)
    requires
        encodable(s),
    ensures
        parse_records(pre + records_bytes(s) + post, pre.len() as int, s.len()) == Ok::<
            _,
            IoFailure,
        >((s, (pre.len() + records_bytes(s).len()) as int)),
    decreases s.len(),
{
    if s.len() > 0 {
        let front = s.drop_last();
        let r = s.last();
        assert(encodable(front)) by {
            assert forall|i: int| 0 <= i < front.len() implies (#[trigger] front[i]).key.len()
                <= u64::MAX && front[i].value.len() <= u64::MAX by {
                assert(front[i] == s[i]);
            }
        }
        let all = pre + records_bytes(s) + post;
        law_records_round_trip(pre, front, r.bytes() + post);
        assert(pre + records_bytes(front) + (r.bytes() + post) =~= all);
        let upto = pre + records_bytes(front);
        assert(s[s.len() - 1] == r);
        crate::storage::record::law_record_round_trip(upto, r, post);
        assert(upto + r.bytes() + post =~= all);
        assert(front.push(r) =~= s);
    } else {
        assert(s =~= seq![]);
    }
}

/// Decoding the bytes that a builder made gives back its block, with the records
/// that were added, sorted by key.
pub proof fn law_block_round_trip(pre: Seq<u8>, b: TimedBuilder, post: Seq<u8>)
    requires
        pre.len() <= u64::MAX,
        b.records.len() > 0,
        b.records.len() <= u32::MAX,
        b.size() <= u32::MAX,
        encodable(b.records),
    ensures
        TimedBlock::parse(
            pre + sealed_bytes(b.block().header(), records_bytes(b.records)) + post,
            pre.len() as u64,
        ) == Ok::<_, DBFailure>(
            (
                TimedBlock {
                    offset: pre.len() as u64,
                    data: Some(keyed::stable_sort(b.records, record_key())),
                    ..b.block()
                },
                (pre.len() + sealed_bytes(b.block().header(), records_bytes(b.records)).len()) as int,
            ),
        ),
{
    broadcast use crate::bytes::group_bytes;

    let h = b.block().header();
    let data = records_bytes(b.records);
    let sum = bytes::be32(checksum::crc32(h.bytes() + data));
    let all = pre + sealed_bytes(h, data) + post;
    let data_at = pre.len() + h.bytes().len();
    lemma_keys_bounded(b.records, 0);
    lemma_keys_bounded(b.records, b.records.len() - 1);
    crate::storage::header::law_header_round_trip(pre, h, data + sum + post);
    assert(pre + h.bytes() + (data + sum + post) =~= all);
    assert(all.subrange(data_at as int, (data_at + data.len()) as int) =~= data);
    assert(all.subrange((data_at + data.len()) as int, (data_at + data.len() + 4) as int) =~= sum);
    law_records_round_trip(seq![], b.records, seq![]);
    assert(seq![] + data + seq![] =~= data);
}

/// The key of each record is among the bytes of the records.
proof fn lemma_keys_bounded(s: Seq<TimedRecord>, i: int)
    requires
        0 <= i < s.len(),
    ensures
        s[i].key.len() <= records_bytes(s).len(),
    decreases s.len(),
{
    lemma_record_size(s.last());
    if i < s.len() - 1 {
        lemma_keys_bounded(s.drop_last(), i);
    }
}

/// A copy of records.
pub fn copy_records(records: &Vec<Record>) -> (out: Vec<Record>)
    ensures
        keyed::views(out@) == keyed::views(records@),
{
    let mut out: Vec<Record> = Vec::new();
    let mut i: usize = 0;
    while i < records.len()
        invariant
            i <= records@.len(),
            out@.len() == i,
            forall|j: int| 0 <= j < i ==> (#[trigger] out@[j])@ == records@[j]@,
        decreases records@.len() - i,
    {
        out.push(records[i].clone());
        i = i + 1;
    }
    assert(keyed::views(out@) =~= keyed::views(records@));
    out
}

impl Clone for Block {
    fn clone(&self) -> (b: Block)
        ensures
            b@ == self@,
    {
        let data = match &self.data {
            None => None,
            Some(records) => Some(copy_records(records)),
        };
        Block {
            offset: self.offset,
            first_key: bytes::copy_bytes(self.first_key.as_slice()),
            last_key: bytes::copy_bytes(self.last_key.as_slice()),
            record_count: self.record_count,
            data_size: self.data_size,
            data,
        }
    }
}

impl Block {
    /// The bytes of the block's header.
    pub fn encode(&self) -> (out: Vec<u8>)
        ensures
            out@ == self@.header().bytes(),
    {
        encode_header(
            self.first_key.as_slice(),
            self.last_key.as_slice(),
            self.record_count,
            self.data_size,
        )
    }

    /// Reads the block at `offset` and leaves the cursor behind it. Where that
    /// fails, the cursor stands at `offset`.
    pub fn decode(data: &mut Cursor, offset: u64) -> (r: Result<Block, DBError>)
        ensures
            final(data)@.data == old(data)@.data,
            match r {
                Ok(block) => TimedBlock::parse(old(data)@.data, offset) == Ok::<_, DBFailure>(
                    (block@, final(data)@.position as int),
                ),
                Err(e) => final(data)@.position == offset && TimedBlock::parse(
                    old(data)@.data,
                    offset,
                ) == Err::<(TimedBlock, int), _>(e@),
            },
    {
        data.set_position(offset);
        match Block::decode_at(data.get_ref(), offset) {
            Err(e) => Err(e),
            Ok((block, end)) => {
                data.set_position(end as u64);
                Ok(block)
            },
        }
    }

    /// The block whose bytes start at `offset`, and where they end.
    pub fn decode_at(data: &[u8], offset: u64) -> (r: Result<(Block, usize), DBError>)
        ensures
            match r {
                Ok((block, end)) => TimedBlock::parse(data@, offset) == Ok::<_, DBFailure>(
                    (block@, end as int),
                ),
                Err(e) => TimedBlock::parse(data@, offset) == Err::<(TimedBlock, int), _>(e@),
            },
    {
        let len: usize = data.len();
        if offset > len as u64 {
            return Err(DBError::Io(IoError::eof()));
        }
        let (header, data_at) = match decode_header(data, offset as usize) {
            Err(e) => {
                return Err(DBError::Io(e));
            },
            Ok(found) => found,
        };
        let size: usize = header.data_size as usize;
        let left: usize = len - data_at;
        if size > left || left - size < 4 {
            return Err(DBError::Io(IoError::eof()));
        }
        let end: usize = data_at + size;
        let record_data: Vec<u8> = bytes::copy_range(data, data_at, end);
        let stored: u32 = bytes::get_be32(data, end);
        let mut covered: Vec<u8> = encode_header(
            header.first_key.as_slice(),
            header.last_key.as_slice(),
            header.record_count,
            header.data_size,
        );
        bytes::push_all(&mut covered, record_data.as_slice());
        match verify_crc32(covered.as_slice(), stored) {
            Err(e) => {
                return Err(e);
            },
            Ok(_) => {},
        }
        let records = match decode_records(record_data.as_slice(), header.record_count) {
            Err(e) => {
                return Err(DBError::Io(e));
            },
            Ok(records) => records,
        };
        let sorted: Vec<Record> = sort_by_key(records);
        proof {
            assert(record_key() =~= (|m: TimedRecord| Record::key_of(m)));
        }
        let block = Block {
            offset,
            first_key: header.first_key,
            last_key: header.last_key,
            record_count: header.record_count,
            data_size: header.data_size,
            data: Some(sorted),
        };
        Ok((block, end + 4))
    }
}

/// A block with one byte changed in its records or its checksum is refused as corrupted.
pub proof fn law_damaged_block_refused(pre: Seq<u8>, b: TimedBuilder, i: int, x: u8, post: Seq<u8>)
    requires
        pre.len() <= u64::MAX,
        b.records.len() > 0,
        b.size() <= u32::MAX,
        encodable(b.records),
        b.block().header().bytes().len() <= i < sealed_bytes(
            b.block().header(),
            records_bytes(b.records),
        ).len(),
        x != sealed_bytes(b.block().header(), records_bytes(b.records))[i],
    ensures
        TimedBlock::parse(
            pre + sealed_bytes(b.block().header(), records_bytes(b.records)).update(i, x) + post,
            pre.len() as u64,
        ) matches Err(e) && e is Corrupted,
{
    broadcast use crate::bytes::group_bytes;

    let h = b.block().header();
    let data = records_bytes(b.records);
    let covered = h.bytes() + data;
    let sum = bytes::be32(checksum::crc32(covered));
    let tail = (data + sum).update(i - h.bytes().len(), x);
    let all = pre + sealed_bytes(h, data).update(i, x) + post;
    let data_at = (pre.len() + h.bytes().len()) as int;
    let end = data_at + data.len();
    lemma_keys_bounded(b.records, 0);
    lemma_keys_bounded(b.records, b.records.len() - 1);
    crate::storage::header::law_header_round_trip(pre, h, tail + post);
    assert(pre + h.bytes() + (tail + post) =~= all);
    if i < covered.len() {
        checksum::law_changed_byte_changes_checksum(covered, i, x);
        assert(h.bytes() + all.subrange(data_at, end) =~= covered.update(i, x));
        assert(all.subrange(end, end + 4) =~= sum);
    } else {
        let at = i - covered.len();
        assert(h.bytes() + all.subrange(data_at, end) =~= covered);
        assert(all.subrange(end, end + 4) =~= sum.update(at, x));
        bytes::lemma_from_be32(sum.update(at, x));
        assert(sum.update(at, x)[at] != sum[at]);
    }
}

/// A block takes a record just where the records then still fit into a block.
pub proof fn law_accepted_where_it_fits(b: TimedBuilder, r: TimedRecord)
    ensures
        b.accepts(r) <==> b.with(r).size() <= SSTABLE_BLOCK_SIZE,
        b.with(r).records == b.records.push(r),
        b.with(r).offset == b.offset,
{
    assert(b.records.push(r).drop_last() =~= b.records);
    assert(b.records.push(r).last() == r);
}

} // verus!
