//! Blocks of memtable records.
use vstd::prelude::*;
use crate::bytes;
use crate::cursor::Cursor;
use crate::error::{DBError, IoError, IoFailure};
use crate::storage::constant::SSTABLE_BLOCK_SIZE;
use crate::storage::header::{decode_header, encode_header, Header};
use crate::storage::keyed;
use crate::storage::keyed::{sort_by_key, Keyed};
use crate::storage::record::{MemtableRecord, Version};

verus! {

/// A block: keys and sizes, and the records where they have been loaded.
#[derive(Debug)]
pub struct Block {
    /// Where the block starts.
    pub offset: u64,
    /// The key of its first record.
    pub first_key: Vec<u8>,
    /// The key of its last record.
    pub last_key: Vec<u8>,
    /// How many records it has.
    pub record_count: u32,
    /// How many bytes the records take.
    pub data_size: u32,
    /// The records.
    pub data: Option<Vec<MemtableRecord>>,
}

/// What a block says.
#[verifier::ext_equal]
pub struct BlockView {
    pub offset: u64,
    pub first_key: Seq<u8>,
    pub last_key: Seq<u8>,
    pub record_count: u32,
    pub data_size: u32,
    pub data: Option<Seq<Version>>,
}

impl View for Block {
    type V = BlockView;

    open spec fn view(&self) -> BlockView {
        BlockView {
            offset: self.offset,
            first_key: self.first_key@,
            last_key: self.last_key@,
            record_count: self.record_count,
            data_size: self.data_size,
            data: match self.data {
                Some(records) => Some(keyed::views(records@)),
                None => None,
            },
        }
    }
}

/// The bytes of records, one after the other.
pub open spec fn versions_bytes(s: Seq<Version>) -> Seq<u8>
    decreases s.len(),
{
    if s.len() == 0 {
        seq![]
    } else {
        versions_bytes(s.drop_last()) + s.last().bytes()
    }
}

/// The first `n` records from `at` on, and where they end.
pub open spec fn parse_versions(s: Seq<u8>, at: int, n: nat) -> Result<
    (Seq<Version>, int),
    IoFailure,
>
    decreases n,
{
    if n == 0 {
        Ok((seq![], at))
    } else {
        match parse_versions(s, at, (n - 1) as nat) {
            Err(e) => Err(e),
            Ok((front, mid)) => match Version::parse(s, mid) {
                Err(e) => Err(e),
                Ok((v, end)) => Ok((front.push(v), end)),
            },
        }
    }
}

/// The order of records in a block.
pub open spec fn version_key() -> spec_fn(Version) -> Seq<u8> {
    |v: Version| v.key
}

impl BlockView {
    /// The header of the block.
    pub open spec fn header(self) -> Header {
        Header {
            first_key: self.first_key,
            last_key: self.last_key,
            record_count: self.record_count,
            data_size: self.data_size,
        }
    }

    /// The records, where they have been loaded.
    pub open spec fn records(self) -> Seq<Version> {
        match self.data {
            Some(records) => records,
            None => seq![],
        }
    }

    /// The bytes of the block: the header, then the records.
    pub open spec fn bytes(self) -> Seq<u8> {
        self.header().bytes() + versions_bytes(self.records())
    }

    /// The block whose bytes start at `offset`, its records sorted by key, and
    /// where it ends.
    pub open spec fn parse(s: Seq<u8>, offset: u64) -> Result<(BlockView, int), IoFailure> {
        match Header::parse(s, offset as int) {
            Err(e) => Err(e),
            Ok((h, data_at)) => match parse_versions(s, data_at, h.record_count as nat) {
                Err(e) => Err(e),
                Ok((records, end)) => Ok(
                    (
                        BlockView {
                            offset,
                            first_key: h.first_key,
                            last_key: h.last_key,
                            record_count: h.record_count,
                            data_size: h.data_size,
                            data: Some(keyed::stable_sort(records, version_key())),
                        },
                        end,
                    ),
                ),
            },
        }
    }
}

/// What an attempt to add a record to a block leads to.
pub enum BlockBuilderState {
    /// The record was added.
    EnoughSpace,
    /// The record was not added: the block that is full, and the offset behind it.
    Full(Block, u64),
}

/// Collects records for a block.
pub struct BlockBuilder {
    records: Vec<MemtableRecord>,
    data: Vec<u8>,
    last_key: Option<Vec<u8>>,
    block_offset: u64,
}

/// What a block builder holds.
#[verifier::ext_equal]
pub struct BuilderView {
    /// The offset of the block.
    pub offset: u64,
    /// The records of the block.
    pub records: Seq<Version>,
    /// The key of the record that was added last, to this block or to one before.
    pub last_key: Option<Seq<u8>>,
}

impl BuilderView {
    /// How many bytes the records take.
    pub open spec fn size(self) -> nat {
        versions_bytes(self.records).len()
    }

    /// A record fits in what is left of the block.
    pub open spec fn has_room(self, v: Version) -> bool {
        self.size() + v.size() <= SSTABLE_BLOCK_SIZE
    }

    /// The block of the records.
    pub open spec fn block(self) -> BlockView {
        BlockView {
            offset: self.offset,
            first_key: if self.records.len() == 0 {
                seq![]
            } else {
                self.records[0].key
            },
            last_key: match self.last_key {
                Some(key) => key,
                None => seq![],
            },
            record_count: self.records.len() as u32,
            data_size: self.size() as u32,
            data: Some(self.records),
        }
    }

    /// The builder with one more record.
    pub open spec fn with(self, v: Version) -> BuilderView {
        BuilderView {
            offset: self.offset,
            records: self.records.push(v),
            last_key: Some(v.key),
        }
    }

    /// The builder once its block was handed out.
    pub open spec fn emptied(self) -> BuilderView {
        BuilderView { offset: self.offset, records: seq![], last_key: self.last_key }
    }

    /// What holds of every builder: the records fit in a block, and the last key
    /// is that of the last record.
    pub open spec fn ok(self) -> bool {
        &&& self.size() <= SSTABLE_BLOCK_SIZE
        &&& 17 * self.records.len() <= self.size()
        &&& self.records.len() > 0 ==> self.last_key == Some(self.records.last().key)
    }
}

impl View for BlockBuilder {
    type V = BuilderView;

    closed spec fn view(&self) -> BuilderView {
        BuilderView {
            offset: self.block_offset,
            records: keyed::views(self.records@),
            last_key: match self.last_key {
                Some(key) => Some(key@),
                None => None,
            },
        }
    }
}

impl BlockBuilder {
    /// The collected bytes are those of the collected records, which fit in a
    /// block.
    #[verifier::type_invariant]
    spec fn inv(self) -> bool {
        self.data@ == versions_bytes(self@.records) && self@.ok()
    }

    /// A builder without records, for a block at `block_offset`.
    pub fn new(block_offset: u64) -> (b: BlockBuilder)
        ensures
            b@ == (BuilderView { offset: block_offset, records: seq![], last_key: None }),
            b@.ok(),
    {
        let records: Vec<MemtableRecord> = Vec::new();
        let data: Vec<u8> = Vec::new();
        proof {
            assert(keyed::views(records@) =~= seq![]);
            assert(data@ =~= versions_bytes(seq![]));
        }
        assert(versions_bytes(seq![]).len() == 0);
        BlockBuilder { records, data, last_key: None, block_offset }
    }

    /// Adds `record` under `key` if it fits. If not, hands out the block so far and
    /// starts a new one, without the record.
    pub fn add_record(&mut self, key: &Vec<u8>, record: &MemtableRecord) -> (state:
        BlockBuilderState)
        requires
            old(self)@.offset + SSTABLE_BLOCK_SIZE <= u64::MAX,
        ensures
            old(self)@.ok(),
            final(self)@.ok(),
            old(self)@.has_room(record@.under(key@)) ==> state is EnoughSpace && final(self)@
                == old(self)@.with(record@.under(key@)),
            !old(self)@.has_room(record@.under(key@)) ==> {
                &&& state matches BlockBuilderState::Full(block, next)
                &&& block@ == old(self)@.block()
                &&& next == old(self)@.offset + old(self)@.size()
                &&& final(self)@ == old(self)@.emptied()
            },
    {
        proof {
            use_type_invariant(&*self);
        }
        let ghost before = self@;
        let ghost v = record@.under(key@);
        let used: usize = self.data.len();
        if key.len() > SSTABLE_BLOCK_SIZE || record.value.len() > SSTABLE_BLOCK_SIZE || used + 17
            + key.len() + record.value.len() > SSTABLE_BLOCK_SIZE {
            let records: Vec<MemtableRecord> = Vec::new();
            let data: Vec<u8> = Vec::new();
            proof {
                assert(keyed::views(records@) =~= seq![]);
                assert(data@ =~= versions_bytes(seq![]));
            }
            let first_key: Vec<u8> = if self.records.len() == 0 {
                Vec::new()
            } else {
                bytes::copy_bytes(self.records[0].key.as_slice())
            };
            let last_key: Vec<u8> = match &self.last_key {
                Some(last) => bytes::copy_bytes(last.as_slice()),
                None => Vec::new(),
            };
            let keep: Option<Vec<u8>> = match &self.last_key {
                Some(last) => Some(bytes::copy_bytes(last.as_slice())),
                None => None,
            };
            let offset: u64 = self.block_offset;
            let mut fresh = BlockBuilder { records, data, last_key: keep, block_offset: offset };
            std::mem::swap(self, &mut fresh);
            let block = Block {
                offset,
                first_key,
                last_key,
                record_count: fresh.records.len() as u32,
                data_size: used as u32,
                data: Some(fresh.records),
            };
            assert(block@ =~= before.block());
            return BlockBuilderState::Full(block, offset + used as u64);
        }
        let encoded: Vec<u8> = record.encode(key);
        let added = MemtableRecord {
            key: bytes::copy_bytes(key.as_slice()),
            value: bytes::copy_bytes(record.value.as_slice()),
            record_type: record.record_type,
            lsn: record.lsn,
        };
        let mut fresh = BlockBuilder::new(self.block_offset);
        std::mem::swap(self, &mut fresh);
        let BlockBuilder { mut records, mut data, last_key: _, block_offset } = fresh;
        records.push(added);
        bytes::push_all(&mut data, encoded.as_slice());
        proof {
            crate::storage::record::lemma_version_size(v);
            assert(keyed::views(records@) =~= before.records.push(v));
            assert(before.records.push(v).drop_last() =~= before.records);
        }
        *self = BlockBuilder {
            records,
            data,
            last_key: Some(bytes::copy_bytes(key.as_slice())),
            block_offset,
        };
        BlockBuilderState::EnoughSpace
    }

    /// The block of the records and its bytes, if there are records.
    pub fn build(self) -> (r: Option<(Block, Vec<u8>)>)
        ensures
            self@.ok(),
            r is Some <==> self@.records.len() > 0,
            r matches Some((block, bytes)) ==> block@ == self@.block() && bytes@ == block@.bytes(),
    {
        proof {
            use_type_invariant(&self);
        }
        let ghost before = self@;
        if self.records.len() == 0 {
            return None;
        }
        let first_key: Vec<u8> = bytes::copy_bytes(self.records[0].key.as_slice());
        let last_key: Vec<u8> = match &self.last_key {
            Some(last) => bytes::copy_bytes(last.as_slice()),
            None => Vec::new(),
        };
        let BlockBuilder { records, data, last_key: _, block_offset } = self;
        let block = Block {
            offset: block_offset,
            first_key,
            last_key,
            record_count: records.len() as u32,
            data_size: data.len() as u32,
            data: Some(records),
        };
        assert(block@ =~= before.block());
        let mut out: Vec<u8> = encode_header(
            block.first_key.as_slice(),
            block.last_key.as_slice(),
            block.record_count,
            block.data_size,
        );
        bytes::push_all(&mut out, data.as_slice());
        Some((block, out))
    }

    /// There are no records.
    pub fn is_empty(&self) -> (empty: bool)
        ensures
            empty <==> self@.records.len() == 0,
    {
        proof {
            use_type_invariant(self);
        }
        self.data.len() == 0
    }

    /// How many bytes the records take.
    pub fn size(&self) -> (n: usize)
        ensures
            n == self@.size(),
    {
        proof {
            use_type_invariant(self);
        }
        self.data.len()
    }
}

/// An error of a record stops the reading.
proof fn lemma_parse_versions_err(s: Seq<u8>, at: int, i: nat, n: nat)
    requires
        i <= n,
        parse_versions(s, at, i) is Err,
    ensures
        parse_versions(s, at, n) == parse_versions(s, at, i),
    decreases n,
{
    if i < n {
        lemma_parse_versions_err(s, at, i, (n - 1) as nat);
    }
}

/// Appends the bytes of `records`.
fn push_versions(out: &mut Vec<u8>, records: &Vec<MemtableRecord>)
    ensures
        final(out)@ == old(out)@ + versions_bytes(keyed::views(records@)),
{
    let ghost all = keyed::views(records@);
    let mut i: usize = 0;
    assert(out@ =~= old(out)@ + versions_bytes(all.take(0)));
    while i < records.len()
        invariant
            i <= records@.len(),
            all == keyed::views(records@),
            out@ == old(out)@ + versions_bytes(all.take(i as int)),
        decreases records@.len() - i,
    {
        let encoded: Vec<u8> = records[i].encode(&records[i].key);
        proof {
            assert(records@[i as int]@.under(records@[i as int]@.key) =~= all[i as int]);
            assert(all.take(i + 1).drop_last() =~= all.take(i as int));
        }
        let ghost before = out@;
        bytes::push_all(out, encoded.as_slice());
        assert(out@ =~= old(out)@ + versions_bytes(all.take(i + 1)));
        i = i + 1;
    }
    assert(all.take(i as int) =~= all);
}

/// The first `n` records from `at` on, and where they end.
fn decode_versions(data: &[u8], at: usize, n: u32) -> (r: Result<
    (Vec<MemtableRecord>, usize),
    IoError,
>)
    requires
        at <= data@.len(),
    ensures
        match r {
            Ok((records, end)) => parse_versions(data@, at as int, n as nat) == Ok::<_, IoFailure>(
                (keyed::views(records@), end as int),
            ) && end <= data@.len(),
            Err(e) => parse_versions(data@, at as int, n as nat) == Err::<
                (Seq<Version>, int),
                _,
            >(e@),
        },
{
    let mut records: Vec<MemtableRecord> = Vec::new();
    let mut pos: usize = at;
    let mut i: u32 = 0;
    assert(keyed::views(records@) =~= seq![]);
    while i < n
        invariant
            i <= n,
            pos <= data@.len(),
            parse_versions(data@, at as int, i as nat) == Ok::<_, IoFailure>(
                (keyed::views(records@), pos as int),
            ),
        decreases n - i,
    {
        match MemtableRecord::decode(data, pos) {
            Err(e) => {
                proof {
                    lemma_parse_versions_err(data@, at as int, (i + 1) as nat, n as nat);
                }
                return Err(e);
            },
            Ok((record, end)) => {
                let ghost before = keyed::views(records@);
                let ghost v = record@;
                records.push(record);
                assert(keyed::views(records@) =~= before.push(v));
                pos = end;
            },
        }
        i = i + 1;
    }
    Ok((records, pos))
}

/// Every record that is encoded has keys and values whose lengths fit in the
/// four bytes that hold them.
pub open spec fn encodable(s: Seq<Version>) -> bool {
    forall|i: int|
        #![trigger s[i]]
        0 <= i < s.len() ==> s[i].key.len() <= u32::MAX && s[i].value.len() <= u32::MAX
}

/// Decoding gives back the records that were encoded, wherever their bytes stand.
pub proof fn law_versions_round_trip(pre: Seq<u8>, s: Seq<Version>, post: Seq<u8>)
    requires
        encodable(s),
    ensures
        parse_versions(pre + versions_bytes(s) + post, pre.len() as int, s.len()) == Ok::<
            _,
            IoFailure,
        >((s, (pre.len() + versions_bytes(s).len()) as int)),
    decreases s.len(),
{
    if s.len() > 0 {
        let front = s.drop_last();
        let v = s.last();
        assert(encodable(front)) by {
            assert forall|i: int| 0 <= i < front.len() implies (#[trigger] front[i]).key.len()
                <= u32::MAX && front[i].value.len() <= u32::MAX by {
                assert(front[i] == s[i]);
            }
        }
        let all = pre + versions_bytes(s) + post;
        law_versions_round_trip(pre, front, v.bytes() + post);
        assert(pre + versions_bytes(front) + (v.bytes() + post) =~= all);
        let upto = pre + versions_bytes(front);
        assert(s[s.len() - 1] == v);
        crate::storage::record::law_version_round_trip(upto, v, post);
        crate::storage::record::lemma_version_size(v);
        assert(upto + v.bytes() + post =~= all);
        assert(front.push(v) =~= s);
    } else {
        assert(s =~= seq![]);
    }
}

/// Decoding gives back the block that was encoded, wherever its bytes stand: its
/// keys, its sizes and its records, sorted by key.
pub proof fn law_block_round_trip(pre: Seq<u8>, b: BlockView, post: Seq<u8>)
    requires
        pre.len() <= u64::MAX,
        b.first_key.len() <= u32::MAX,
        b.last_key.len() <= u32::MAX,
        b.data is Some,
        b.record_count == b.records().len(),
        encodable(b.records()),
    ensures
        BlockView::parse(pre + b.bytes() + post, pre.len() as u64) == Ok::<_, IoFailure>(
            (
                BlockView {
                    offset: pre.len() as u64,
                    data: Some(keyed::stable_sort(b.records(), version_key())),
                    ..b
                },
                (pre.len() + b.bytes().len()) as int,
            ),
        ),
        keyed::sorted_by_key(b.records(), version_key()) ==> BlockView::parse(
            pre + b.bytes() + post,
            pre.len() as u64,
        ) == Ok::<_, IoFailure>(
            (BlockView { offset: pre.len() as u64, ..b }, (pre.len() + b.bytes().len()) as int),
        ),
{
    let all = pre + b.bytes() + post;
    let h = b.header();
    let data = versions_bytes(b.records());
    crate::storage::header::law_header_round_trip(pre, h, data + post);
    assert(pre + h.bytes() + (data + post) =~= all);
    law_versions_round_trip(pre + h.bytes(), b.records(), post);
    assert(pre + h.bytes() + data + post =~= all);
    if keyed::sorted_by_key(b.records(), version_key()) {
        keyed::lemma_sort_of_sorted(b.records(), version_key());
    }
}

impl Clone for Block {
    fn clone(&self) -> (b: Block)
        ensures
            b@ == self@,
    {
        let data = match &self.data {
            None => None,
            Some(records) => Some(copy_records(records)),
        };
        Block {
            offset: self.offset,
            first_key: bytes::copy_bytes(self.first_key.as_slice()),
            last_key: bytes::copy_bytes(self.last_key.as_slice()),
            record_count: self.record_count,
            data_size: self.data_size,
            data,
        }
    }
}

/// A copy of records.
pub fn copy_records(records: &Vec<MemtableRecord>) -> (out: Vec<MemtableRecord>)
    ensures
        keyed::views(out@) == keyed::views(records@),
{
    let mut out: Vec<MemtableRecord> = Vec::new();
    let mut i: usize = 0;
    while i < records.len()
        invariant
            i <= records@.len(),
            out@.len() == i,
            forall|j: int| 0 <= j < i ==> (#[trigger] out@[j])@ == records@[j]@,
        decreases records@.len() - i,
    {
        out.push(records[i].clone());
        i = i + 1;
    }
    assert(keyed::views(out@) =~= keyed::views(records@));
    out
}

impl Block {
    /// The bytes of the block: the header, then the records where they have been
    /// loaded.
    pub fn encode(&self) -> (out: Vec<u8>)
        ensures
            out@ == self@.bytes(),
    {
        let mut out: Vec<u8> = encode_header(
            self.first_key.as_slice(),
            self.last_key.as_slice(),
            self.record_count,
            self.data_size,
        );
        match &self.data {
            None => {
                assert(out@ =~= self@.bytes());
            },
            Some(records) => {
                push_versions(&mut out, records);
            },
        }
        out
    }

    /// Reads the block at `offset` and leaves the cursor behind it. Where that
    /// fails, the cursor stands at `offset`.
    pub fn decode(data: &mut Cursor, offset: u64) -> (r: Result<Block, DBError>)
        ensures
            final(data)@.data == old(data)@.data,
            match r {
                Ok(block) => BlockView::parse(old(data)@.data, offset) == Ok::<_, IoFailure>(
                    (block@, final(data)@.position as int),
                ),
                Err(e) => final(data)@.position == offset && e@ is Io && BlockView::parse(
                    old(data)@.data,
                    offset,
                ) == Err::<(BlockView, int), _>(e@->Io_0),
            },
    {
        data.set_position(offset);
        match Block::decode_at(data.get_ref(), offset) {
            Err(e) => Err(DBError::Io(e)),
            Ok((block, end)) => {
                data.set_position(end as u64);
                Ok(block)
            },
        }
    }

    /// The block whose bytes start at `offset`, and where they end.
    pub fn decode_at(data: &[u8], offset: u64) -> (r: Result<(Block, usize), IoError>)
        ensures
            match r {
                Ok((block, end)) => BlockView::parse(data@, offset) == Ok::<_, IoFailure>(
                    (block@, end as int),
                ) && end <= data@.len(),
                Err(e) => BlockView::parse(data@, offset) == Err::<(BlockView, int), _>(e@),
            },
    {
        if offset > data.len() as u64 {
            return Err(IoError::eof());
        }
        let (header, data_at) = match decode_header(data, offset as usize) {
            Err(e) => {
                return Err(e);
            },
            Ok(found) => found,
        };
        let (records, end) = match decode_versions(data, data_at, header.record_count) {
            Err(e) => {
                return Err(e);
            },
            Ok(found) => found,
        };
        let ghost read = keyed::views(records@);
        let sorted: Vec<MemtableRecord> = sort_by_key(records);
        let block = Block {
            offset,
            first_key: header.first_key,
            last_key: header.last_key,
            record_count: header.record_count,
            data_size: header.data_size,
            data: Some(sorted),
        };
        proof {
            assert(version_key() =~= (|m: Version| MemtableRecord::key_of(m)));
        }
        Ok((block, end))
    }
}

/// A block has room for a record just where the records then still fit into a block.
pub proof fn law_room_where_it_fits(b: BuilderView, v: Version)
    requires
        v.key.len() <= u32::MAX,
        v.value.len() <= u32::MAX,
    ensures
        b.has_room(v) <==> b.with(v).size() <= SSTABLE_BLOCK_SIZE,
        b.with(v).records == b.records.push(v),
        b.with(v).offset == b.offset,
        b.emptied().records.len() == 0,
        b.emptied().offset == b.offset,
{
    assert(b.records.push(v).drop_last() =~= b.records);
    assert(b.records.push(v).last() == v);
    crate::storage::record::law_version_layout(v);
}

} // verus!
