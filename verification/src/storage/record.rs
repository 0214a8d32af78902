//! Records: a key with a value, or the mark that the key was deleted.
use vstd::prelude::*;
use crate::bytes;
use crate::error::{ErrorKind, IoError, IoFailure};
use crate::order;
use crate::order::{order_keys, KeyOrder};
use crate::storage::checksum;
use crate::storage::checksum::calculate_crc32;
use crate::storage::keyed::Keyed;

verus! {

/// Whether a record sets its key or deletes it.
#[derive(Clone, Copy, Debug, PartialEq, Eq, Structural)]
pub enum RecordType {
    Put,
    Delete,
}

impl RecordType {
    /// The byte that stands for the type.
    pub open spec fn code(self) -> u8 {
        match self {
            RecordType::Put => 1,
            RecordType::Delete => 2,
        }
    }

    /// The type that a byte stands for.
    pub open spec fn of_code(code: u8) -> Option<RecordType> {
        if code == 1 {
            Some(RecordType::Put)
        } else if code == 2 {
            Some(RecordType::Delete)
        } else {
            None
        }
    }

    /// The byte that stands for the type.
    pub fn to_u8(self) -> (code: u8)
        ensures
            code == self.code(),
    {
        match self {
            RecordType::Put => 1,
            RecordType::Delete => 2,
        }
    }

    /// The type that a byte stands for.
    pub fn from_u8(code: u8) -> (r: Option<RecordType>)
        ensures
            r == Self::of_code(code),
    {
        if code == 1 {
            Some(RecordType::Put)
        } else if code == 2 {
            Some(RecordType::Delete)
        } else {
            None
        }
    }
}

/// The failure for a byte that stands for no record type.
pub open spec fn bad_record_type() -> IoFailure {
    IoFailure { kind: ErrorKind::InvalidData, message: "Invalid record type"@ }
}

/// The failure for a value that does not match its checksum.
pub open spec fn bad_checksum() -> IoFailure {
    IoFailure { kind: ErrorKind::InvalidData, message: "Checksum mismatch"@ }
}

/// A record with the time at which it was written.
#[derive(Debug)]
pub struct Record {
    pub key: Vec<u8>,
    pub value: Vec<u8>,
    pub record_type: RecordType,
    pub timestamp: u64,
}

/// What a record says.
#[verifier::ext_equal]
pub struct TimedRecord {
    pub key: Seq<u8>,
    pub value: Seq<u8>,
    pub record_type: RecordType,
    pub timestamp: u64,
}

impl View for Record {
    type V = TimedRecord;

    open spec fn view(&self) -> TimedRecord {
        TimedRecord {
            key: self.key@,
            value: self.value@,
            record_type: self.record_type,
            timestamp: self.timestamp,
        }
    }
}

impl TimedRecord {
    /// The bytes of a record: type, timestamp, the two lengths, key, value and the
    /// checksum of the value.
    pub open spec fn bytes(self) -> Seq<u8> {
        seq![self.record_type.code()] + bytes::be64(self.timestamp) + bytes::be64(
            self.key.len() as u64,
        ) + bytes::be64(self.value.len() as u64) + self.key + self.value + bytes::be32(
            checksum::crc32(self.value),
        )
    }

    /// The record whose bytes start at `at`, and where they end.
    pub open spec fn parse(s: Seq<u8>, at: int) -> Result<(TimedRecord, int), IoFailure> {
        if !bytes::holds(s, at, 1) {
            Err(crate::error::eof_failure())
        } else {
            match RecordType::of_code(s[at]) {
                None => Err(bad_record_type()),
                Some(record_type) => {
                    let key_len = bytes::be64_at(s, at + 9) as int;
                    let value_len = bytes::be64_at(s, at + 17) as int;
                    let key_at = at + 25;
                    let value_at = key_at + key_len;
                    let end = value_at + value_len;
                    let value = s.subrange(value_at, end);
                    if !bytes::holds(s, at, 25) || !bytes::holds(s, at, end + 4 - at) {
                        Err(crate::error::eof_failure())
                    } else if checksum::crc32(value) != bytes::be32_at(s, end) {
                        Err(bad_checksum())
                    } else {
                        Ok(
                            (
                                TimedRecord {
                                    key: s.subrange(key_at, value_at),
                                    value,
                                    record_type,
                                    timestamp: bytes::be64_at(s, at + 1),
                                },
                                end + 4,
                            ),
                        )
                    }
                },
            }
        }
    }

    /// A record comes before another one if its key does, or if the keys are the
    /// same and it is newer.
    pub open spec fn before(self, other: TimedRecord) -> bool {
        order::key_lt(self.key, other.key) || (self.key == other.key && self.timestamp
            > other.timestamp)
    }
}

impl Keyed for Record {
    open spec fn key_of(v: TimedRecord) -> Seq<u8> {
        v.key
    }

    fn key_bytes(&self) -> (k: &[u8]) {
        self.key.as_slice()
    }
}

impl Clone for Record {
    fn clone(&self) -> (r: Record)
        ensures
            r@ == self@,
    {
        Record {
            key: bytes::copy_bytes(self.key.as_slice()),
            value: bytes::copy_bytes(self.value.as_slice()),
            record_type: self.record_type,
            timestamp: self.timestamp,
        }
    }
}

/// How one record stands to another.
pub open spec fn record_order(a: TimedRecord, b: TimedRecord) -> KeyOrder {
    if a.before(b) {
        KeyOrder::Before
    } else if b.before(a) {
        KeyOrder::After
    } else {
        KeyOrder::Same
    }
}

impl Record {
    /// A record with the given parts.
    pub fn new(key: Vec<u8>, value: Vec<u8>, record_type: RecordType, timestamp: u64) -> (r: Record)
        ensures
            r@ == (TimedRecord { key: key@, value: value@, record_type, timestamp }),
    {
        Record { key, value, record_type, timestamp }
    }

    /// The record that deletes `key`.
    pub fn tombstone(key: Vec<u8>, timestamp: u64) -> (r: Record)
        ensures
            r@ == (TimedRecord {
                key: key@,
                value: Seq::empty(),
                record_type: RecordType::Delete,
                timestamp,
            }),
    {
        let value: Vec<u8> = Vec::new();
        assert(value@ =~= Seq::empty());
        Record { key, value, record_type: RecordType::Delete, timestamp }
    }

    /// The bytes of the record.
    pub fn encode(&self) -> (out: Vec<u8>)
        ensures
            out@ == self@.bytes(),
    {
        let mut out: Vec<u8> = Vec::new();
        out.push(self.record_type.to_u8());
        assert(out@ =~= seq![self.record_type.code()]);
        bytes::push_be64(&mut out, self.timestamp);
        bytes::push_be64(&mut out, self.key.len() as u64);
        bytes::push_be64(&mut out, self.value.len() as u64);
        bytes::push_all(&mut out, self.key.as_slice());
        bytes::push_all(&mut out, self.value.as_slice());
        bytes::push_be32(&mut out, calculate_crc32(self.value.as_slice()));
        out
    }

    /// The record whose bytes start at `at`, and where they end.
    pub fn decode(data: &[u8], at: usize) -> (r: Result<(Record, usize), IoError>)
        ensures
            match r {
                Ok((record, end)) => TimedRecord::parse(data@, at as int) == Ok::<_, IoFailure>(
                    (record@, end as int),
                ),
                Err(e) => TimedRecord::parse(data@, at as int) == Err::<(TimedRecord, int), _>(e@),
            },
    {
        let len: usize = data.len();
        if at >= len {
            return Err(IoError::eof());
        }
        let record_type = match RecordType::from_u8(data[at]) {
            None => {
                return Err(IoError::new(ErrorKind::InvalidData, "Invalid record type"));
            },
            Some(record_type) => record_type,
        };
        if len - at < 25 {
            return Err(IoError::eof());
        }
        let timestamp: u64 = bytes::get_be64(data, at + 1);
        let key_len: u64 = bytes::get_be64(data, at + 9);
        let value_len: u64 = bytes::get_be64(data, at + 17);
        let left: u64 = (len - at - 25) as u64;
        if key_len > left || value_len > left - key_len || left - key_len - value_len < 4 {
            return Err(IoError::eof());
        }
        let key_at: usize = at + 25;
        let value_at: usize = key_at + key_len as usize;
        let end: usize = value_at + value_len as usize;
        let value: Vec<u8> = bytes::copy_range(data, value_at, end);
        if calculate_crc32(value.as_slice()) != bytes::get_be32(data, end) {
            return Err(IoError::new(ErrorKind::InvalidData, "Checksum mismatch"));
        }
        let key: Vec<u8> = bytes::copy_range(data, key_at, value_at);
        Ok((Record { key, value, record_type, timestamp }, end + 4))
    }

    /// Compares by key and, for the same key, puts the newer record first.
    pub fn order(&self, other: &Record) -> (o: KeyOrder)
        ensures
            o == record_order(self@, other@),
    {
        proof {
            order::lemma_key_irreflexive(self.key@);
            if order::key_lt(self.key@, other.key@) {
                order::lemma_key_asymmetric(self.key@, other.key@);
            }
            if order::key_lt(other.key@, self.key@) {
                order::lemma_key_asymmetric(other.key@, self.key@);
            }
        }
        match order_keys(self.key.as_slice(), other.key.as_slice()) {
            KeyOrder::Before => KeyOrder::Before,
            KeyOrder::After => KeyOrder::After,
            KeyOrder::Same => {
                if self.timestamp > other.timestamp {
                    KeyOrder::Before
                } else if self.timestamp < other.timestamp {
                    KeyOrder::After
                } else {
                    KeyOrder::Same
                }
            },
        }
    }
}

/// Decoding gives back the record that was encoded, wherever its bytes stand.
pub proof fn law_record_round_trip(pre: Seq<u8>, r: TimedRecord, post: Seq<u8>)
    requires
        r.key.len() <= u64::MAX,
        r.value.len() <= u64::MAX,
    ensures
        TimedRecord::parse(pre + r.bytes() + post, pre.len() as int) == Ok::<_, IoFailure>(
            (r, (pre.len() + r.bytes().len()) as int),
        ),
{
    broadcast use crate::bytes::group_bytes;

    let s = pre + r.bytes() + post;
    let t = seq![r.record_type.code()];
    let (a, b, c) = (
        bytes::be64(r.timestamp),
        bytes::be64(r.key.len() as u64),
        bytes::be64(r.value.len() as u64),
    );
    let d = bytes::be32(checksum::crc32(r.value));
    let at = pre.len() as int;
    let (k, v) = (r.key.len() as int, r.value.len() as int);
    assert(s[at] == r.record_type.code());
    assert(s.subrange(at + 1, at + 9) =~= a);
    assert(s.subrange(at + 9, at + 17) =~= b);
    assert(s.subrange(at + 17, at + 25) =~= c);
    assert(s.subrange(at + 25, at + 25 + k) =~= r.key);
    assert(s.subrange(at + 25 + k, at + 25 + k + v) =~= r.value);
    assert(s.subrange(at + 25 + k + v, at + 29 + k + v) =~= d);
}

/// A record of the memtable: the log sequence number tells which of two records
/// of one key is the newer.
#[derive(Debug)]
pub struct MemtableRecord {
    pub key: Vec<u8>,
    pub value: Vec<u8>,
    pub record_type: RecordType,
    pub lsn: u64,
}

/// What a record of the memtable says.
#[verifier::ext_equal]
pub struct Version {
    pub key: Seq<u8>,
    pub value: Seq<u8>,
    pub record_type: RecordType,
    pub lsn: u64,
}

impl View for MemtableRecord {
    type V = Version;

    open spec fn view(&self) -> Version {
        Version {
            key: self.key@,
            value: self.value@,
            record_type: self.record_type,
            lsn: self.lsn,
        }
    }
}

impl Version {
    /// The number of bytes of the record.
    pub open spec fn size(self) -> nat {
        17 + self.key.len() + self.value.len()
    }

    /// The bytes of the record: each of key and value behind its length, then type
    /// and sequence number; the numbers with the least significant byte first.
    pub open spec fn bytes(self) -> Seq<u8> {
        bytes::le32(self.key.len() as u32) + self.key + bytes::le32(self.value.len() as u32)
            + self.value + seq![self.record_type.code()] + bytes::le64(self.lsn)
    }

    /// The record under another key.
    pub open spec fn under(self, key: Seq<u8>) -> Version {
        Version { key, ..self }
    }

    /// The record whose bytes start at `at`, and where they end.
    pub open spec fn parse(s: Seq<u8>, at: int) -> Result<(Version, int), IoFailure> {
        let key_len = bytes::le32_at(s, at) as int;
        let value_at = at + 4 + key_len;
        let value_len = bytes::le32_at(s, value_at) as int;
        let type_at = value_at + 4 + value_len;
        if !bytes::holds(s, at, 4) || !bytes::holds(s, at, 8 + key_len) || !bytes::holds(
            s,
            at,
            9 + key_len + value_len,
        ) {
            Err(crate::error::eof_failure())
        } else {
            match RecordType::of_code(s[type_at]) {
                None => Err(bad_record_type()),
                Some(record_type) => if !bytes::holds(s, type_at + 1, 8) {
                    Err(crate::error::eof_failure())
                } else {
                    Ok(
                        (
                            Version {
                                key: s.subrange(at + 4, value_at),
                                value: s.subrange(value_at + 4, type_at),
                                record_type,
                                lsn: bytes::le64_at(s, type_at + 1),
                            },
                            type_at + 9,
                        ),
                    )
                },
            }
        }
    }
}

impl Keyed for MemtableRecord {
    open spec fn key_of(v: Version) -> Seq<u8> {
        v.key
    }

    fn key_bytes(&self) -> (k: &[u8]) {
        self.key.as_slice()
    }
}

impl Clone for MemtableRecord {
    fn clone(&self) -> (r: MemtableRecord)
        ensures
            r@ == self@,
    {
        MemtableRecord {
            key: bytes::copy_bytes(self.key.as_slice()),
            value: bytes::copy_bytes(self.value.as_slice()),
            record_type: self.record_type,
            lsn: self.lsn,
        }
    }
}

impl MemtableRecord {
    /// A record that does not know its key yet.
    pub fn new(value: Vec<u8>, record_type: RecordType, lsn: u64) -> (r: MemtableRecord)
        ensures
            r@ == (Version { key: Seq::empty(), value: value@, record_type, lsn }),
    {
        let key: Vec<u8> = Vec::new();
        assert(key@ =~= Seq::empty());
        MemtableRecord { key, value, record_type, lsn }
    }

    /// The same record under `key`.
    pub fn with_key(self, key: Vec<u8>) -> (r: MemtableRecord)
        ensures
            r@ == self@.under(key@),
    {
        MemtableRecord { key, value: self.value, record_type: self.record_type, lsn: self.lsn }
    }

    /// The bytes of the record under `key`.
    pub fn encode(&self, key: &Vec<u8>) -> (out: Vec<u8>)
        ensures
            out@ == self@.under(key@).bytes(),
    {
        let mut out: Vec<u8> = Vec::new();
        bytes::push_le32(&mut out, key.len() as u32);
        bytes::push_all(&mut out, key.as_slice());
        bytes::push_le32(&mut out, self.value.len() as u32);
        bytes::push_all(&mut out, self.value.as_slice());
        out.push(self.record_type.to_u8());
        bytes::push_le64(&mut out, self.lsn);
        assert(out@ =~= self@.under(key@).bytes());
        out
    }

    /// The number of bytes of the record under `key`.
    pub fn record_length(&self, key: &Vec<u8>) -> (n: usize)
        requires
            self@.under(key@).size() <= usize::MAX,
        ensures
            n == self@.under(key@).size(),
    {
        4 + key.len() + 4 + self.value.len() + 1 + 8
    }

    /// The record whose bytes start at `at`, and where they end.
    pub fn decode(data: &[u8], at: usize) -> (r: Result<(MemtableRecord, usize), IoError>)
        ensures
            match r {
                Ok((record, end)) => Version::parse(data@, at as int) == Ok::<_, IoFailure>(
                    (record@, end as int),
                ),
                Err(e) => Version::parse(data@, at as int) == Err::<(Version, int), _>(e@),
            },
    {
        let len: usize = data.len();
        if at > len || len - at < 4 {
            return Err(IoError::eof());
        }
        let key_len: usize = bytes::get_le32(data, at) as usize;
        let left: usize = len - at - 4;
        if key_len > left || left - key_len < 4 {
            return Err(IoError::eof());
        }
        let value_at: usize = at + 4 + key_len;
        let value_len: usize = bytes::get_le32(data, value_at) as usize;
        let left: usize = len - value_at - 4;
        if value_len >= left {
            return Err(IoError::eof());
        }
        let type_at: usize = value_at + 4 + value_len;
        match RecordType::from_u8(data[type_at]) {
            None => Err(IoError::new(ErrorKind::InvalidData, "Invalid record type")),
            Some(record_type) => {
                if len - type_at - 1 < 8 {
                    return Err(IoError::eof());
                }
                let record = MemtableRecord {
                    key: bytes::copy_range(data, at + 4, value_at),
                    value: bytes::copy_range(data, value_at + 4, type_at),
                    record_type,
                    lsn: bytes::get_le64(data, type_at + 1),
                };
                Ok((record, type_at + 9))
            },
        }
    }
}

/// The bytes of a record are as many as its size says.
pub proof fn lemma_version_size(v: Version)
    ensures
        v.bytes().len() == v.size(),
{
    broadcast use crate::bytes::group_bytes;

}

/// Decoding gives back the memtable record that was encoded, wherever its bytes
/// stand.
pub proof fn law_version_round_trip(pre: Seq<u8>, v: Version, post: Seq<u8>)
    requires
        v.key.len() <= u32::MAX,
        v.value.len() <= u32::MAX,
    ensures
        Version::parse(pre + v.bytes() + post, pre.len() as int) == Ok::<_, IoFailure>(
            (v, (pre.len() + v.size()) as int),
        ),
{
    broadcast use crate::bytes::group_bytes;

    lemma_version_size(v);
    let s = pre + v.bytes() + post;
    let at = pre.len() as int;
    let (k, n) = (v.key.len() as int, v.value.len() as int);
    assert(s.subrange(at, at + 4) =~= bytes::le32(v.key.len() as u32));
    assert(s.subrange(at + 4, at + 4 + k) =~= v.key);
    assert(s.subrange(at + 4 + k, at + 8 + k) =~= bytes::le32(v.value.len() as u32));
    assert(s.subrange(at + 8 + k, at + 8 + k + n) =~= v.value);
    assert(s[at + 8 + k + n] == v.record_type.code());
    assert(s.subrange(at + 9 + k + n, at + 17 + k + n) =~= bytes::le64(v.lsn));
}

/// Each type has its own code, and no other code stands for a type.
pub proof fn law_type_codes(t: RecordType, code: u8)
    ensures
        RecordType::of_code(t.code()) == Some(t),
        RecordType::of_code(code) == Some(t) ==> code == t.code(),
        RecordType::Put.code() == 1,
        RecordType::Delete.code() == 2,
{
}

/// Where the fields of a record are: the length of its key, the key, the length of its
/// value, the value, the type in one byte, and its number; numbers are little-endian.
pub proof fn law_version_layout(v: Version)
    requires
        v.key.len() <= u32::MAX,
        v.value.len() <= u32::MAX,
    ensures
        ({
            let (b, k, n) = (v.bytes(), v.key.len() as int, v.value.len() as int);
            &&& b.len() == 17 + k + n
            &&& bytes::le32_at(b, 0) == k
            &&& b.subrange(4, 4 + k) == v.key
            &&& bytes::le32_at(b, 4 + k) == n
            &&& b.subrange(8 + k, 8 + k + n) == v.value
            &&& b[8 + k + n] == v.record_type.code()
            &&& bytes::le64_at(b, 9 + k + n) == v.lsn
        }),
{
    broadcast use bytes::group_bytes;

    let (b, k, n) = (v.bytes(), v.key.len() as int, v.value.len() as int);
    assert(b.subrange(0, 4) =~= bytes::le32(k as u32));
    assert(b.subrange(4, 4 + k) =~= v.key);
    assert(b.subrange(4 + k, 8 + k) =~= bytes::le32(n as u32));
    assert(b.subrange(8 + k, 8 + k + n) =~= v.value);
    assert(b.subrange(9 + k + n, 17 + k + n) =~= bytes::le64(v.lsn));
}

/// What is read as a record is the bytes of that record.
pub proof fn law_version_read_was_written(s: Seq<u8>, at: int)
    ensures
        Version::parse(s, at) matches Ok((v, end)) ==> 0 <= at <= end <= s.len() && s.subrange(
            at,
            end,
        ) == v.bytes(),
{
    broadcast use bytes::group_bytes;

    if let Ok((v, end)) = Version::parse(s, at) {
        let (k, n) = (v.key.len() as int, v.value.len() as int);
        bytes::lemma_number_at(s, at);
        bytes::lemma_number_at(s, at + 4 + k);
        bytes::lemma_number_at(s, at + 9 + k + n);
        law_type_codes(v.record_type, s[at + 8 + k + n]);
        assert(s.subrange(at, end) =~= v.bytes());
    }
}

/// Where the fields of a timestamped record are: the type in one byte, the timestamp, the
/// lengths of key and value, the key, the value, and the checksum of the value; numbers
/// are big-endian.
pub proof fn law_record_layout(r: TimedRecord)
    requires
        r.key.len() <= u64::MAX,
        r.value.len() <= u64::MAX,
    ensures
        ({
            let (b, k, n) = (r.bytes(), r.key.len() as int, r.value.len() as int);
            &&& b.len() == 29 + k + n
            &&& b[0] == r.record_type.code()
            &&& bytes::be64_at(b, 1) == r.timestamp
            &&& bytes::be64_at(b, 9) == k
            &&& bytes::be64_at(b, 17) == n
            &&& b.subrange(25, 25 + k) == r.key
            &&& b.subrange(25 + k, 25 + k + n) == r.value
            &&& bytes::be32_at(b, 25 + k + n) == checksum::crc32(r.value)
        }),
{
    broadcast use bytes::group_bytes;

    let (b, k, n) = (r.bytes(), r.key.len() as int, r.value.len() as int);
    assert(b.subrange(1, 9) =~= bytes::be64(r.timestamp));
    assert(b.subrange(9, 17) =~= bytes::be64(k as u64));
    assert(b.subrange(17, 25) =~= bytes::be64(n as u64));
    assert(b.subrange(25, 25 + k) =~= r.key);
    assert(b.subrange(25 + k, 25 + k + n) =~= r.value);
    assert(b.subrange(25 + k + n, 29 + k + n) =~= bytes::be32(checksum::crc32(r.value)));
}

/// What is read as a timestamped record is the bytes of that record.
pub proof fn law_record_read_was_written(s: Seq<u8>, at: int)
    ensures
        TimedRecord::parse(s, at) matches Ok((r, end)) ==> 0 <= at <= end <= s.len() && s.subrange(
            at,
            end,
        ) == r.bytes(),
{
    broadcast use bytes::group_bytes;

    if let Ok((r, end)) = TimedRecord::parse(s, at) {
        let (k, n) = (r.key.len() as int, r.value.len() as int);
        bytes::lemma_number_at(s, at + 1);
        bytes::lemma_number_at(s, at + 9);
        bytes::lemma_number_at(s, at + 17);
        bytes::lemma_number_at(s, at + 25 + k + n);
        law_type_codes(r.record_type, s[at]);
        assert(s.subrange(at, end) =~= r.bytes());
    }
}

/// Timestamped records come in the order of their keys, those of one key the newest first.
pub proof fn law_record_order(a: TimedRecord, b: TimedRecord)
    ensures
        order::key_lt(a.key, b.key) ==> record_order(a, b) == KeyOrder::Before && record_order(
            b,
            a,
        ) == KeyOrder::After,
        a.key == b.key && a.timestamp > b.timestamp ==> record_order(a, b) == KeyOrder::Before
            && record_order(b, a) == KeyOrder::After,
        a.key == b.key && a.timestamp == b.timestamp ==> record_order(a, b) == KeyOrder::Same,
{
    order::lemma_key_irreflexive(a.key);
    if order::key_lt(a.key, b.key) {
        order::lemma_key_asymmetric(a.key, b.key);
    }
}

/// What is no record at all and what is a damaged one are told apart.
pub proof fn law_failures_told_apart()
    ensures
        bad_record_type() != bad_checksum(),
        bad_record_type().kind == ErrorKind::InvalidData,
        bad_checksum().kind == ErrorKind::InvalidData,
{
    reveal_strlit("Invalid record type");
    reveal_strlit("Checksum mismatch");
    assert(bad_record_type().message.len() == 19);
    assert(bad_checksum().message.len() == 17);
}

} // verus!
