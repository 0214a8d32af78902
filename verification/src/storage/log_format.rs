//! The records of the write-ahead logs: type, sequence number, key and value, and
//! a checksum.
use vstd::prelude::*;
use crate::bytes;
use crate::error::{ErrorKind, IoError, IoFailure};
use crate::storage::checksum;
use crate::storage::checksum::calculate_crc32;
use crate::storage::record;
use crate::storage::record::RecordType;

verus! {

/// What the checksum of a record covers.
#[derive(Clone, Copy, Debug, PartialEq, Eq, Structural)]
pub enum Coverage {
    /// The value alone.
    Value,
    /// All that stands before the checksum.
    Body,
}

/// A record that was read from a log.
#[derive(Debug)]
pub struct LogRecord {
    pub record_type: RecordType,
    pub lsn: u64,
    pub key: Vec<u8>,
    pub value: Vec<u8>,
    pub checksum: u32,
}

/// What a record of a log says.
#[verifier::ext_equal]
pub struct LogEntry {
    pub record_type: RecordType,
    pub lsn: u64,
    pub key: Seq<u8>,
    pub value: Seq<u8>,
}

impl View for LogRecord {
    type V = LogEntry;

    open spec fn view(&self) -> LogEntry {
        LogEntry {
            record_type: self.record_type,
            lsn: self.lsn,
            key: self.key@,
            value: self.value@,
        }
    }
}

impl LogEntry {
    /// The bytes before the checksum.
    pub open spec fn body(self) -> Seq<u8> {
        seq![self.record_type.code()] + bytes::be64(self.lsn) + bytes::field64(self.key)
            + bytes::field64(self.value)
    }

    /// The checksum.
    pub open spec fn sum(self, c: Coverage) -> u32 {
        match c {
            Coverage::Value => checksum::crc32(self.value),
            Coverage::Body => checksum::crc32(self.body()),
        }
    }

    /// The bytes of the record.
    pub open spec fn bytes(self, c: Coverage) -> Seq<u8> {
        self.body() + bytes::be32(self.sum(c))
    }

    /// The number of bytes of the record.
    pub open spec fn size(self) -> nat {
        29 + self.key.len() + self.value.len()
    }

    /// The byte `i` of the record is one of the key.
    pub open spec fn in_key(self, i: int) -> bool {
        17 <= i < 17 + self.key.len()
    }

    /// The byte `i` of the record is one of the value.
    pub open spec fn in_value(self, i: int) -> bool {
        25 + self.key.len() <= i < 25 + self.key.len() + self.value.len()
    }

    /// The byte `i` of the record is one of the value or, where the checksum covers it, the
    /// key.
    pub open spec fn covered(self, i: int, c: Coverage) -> bool {
        self.in_value(i) || (c == Coverage::Body && self.in_key(i))
    }

    /// What the record says with `b` in place of its byte `i`, one of the key or the
    /// value.
    pub open spec fn with_byte(self, i: int, b: u8) -> LogEntry {
        if self.in_key(i) {
            LogEntry { key: self.key.update(i - 17, b), ..self }
        } else {
            LogEntry { value: self.value.update(i - 25 - self.key.len(), b), ..self }
        }
    }

    /// The record whose body starts at `at`, and where the body ends.
    pub open spec fn parse_body(s: Seq<u8>, at: int) -> Result<(LogEntry, int), IoFailure> {
        if !bytes::holds(s, at, 1) {
            Err(crate::error::eof_failure())
        } else {
            match RecordType::of_code(s[at]) {
                None => Err(record::bad_record_type()),
                Some(record_type) => if !bytes::holds(s, at, 9) {
                    Err(crate::error::eof_failure())
                } else {
                    match bytes::field64_at(s, at + 9) {
                        None => Err(crate::error::eof_failure()),
                        Some((key, mid)) => match bytes::field64_at(s, mid) {
                            None => Err(crate::error::eof_failure()),
                            Some((value, end)) => Ok(
                                (
                                    LogEntry {
                                        record_type,
                                        lsn: bytes::be64_at(s, at + 1),
                                        key,
                                        value,
                                    },
                                    end,
                                ),
                            ),
                        },
                    }
                },
            }
        }
    }

    /// The record that starts at `at`, and where it ends.
    pub open spec fn parse(s: Seq<u8>, at: int, c: Coverage) -> Result<(LogEntry, int), IoFailure> {
        match LogEntry::parse_body(s, at) {
            Err(e) => Err(e),
            Ok((entry, mid)) => if !bytes::holds(s, mid, 4) {
                Err(crate::error::eof_failure())
            } else if entry.sum(c) != bytes::be32_at(s, mid) {
                Err(record::bad_checksum())
            } else {
                Ok((entry, mid + 4))
            },
        }
    }
}

/// A body moves forward.
pub proof fn lemma_body_advances(s: Seq<u8>, at: int)
    ensures
        LogEntry::parse_body(s, at) matches Ok(p) ==> at + 25 <= p.1 <= s.len(),
{
}

/// The records from `at` on: up to the end of the data, or to a record that the
/// data ends in the middle of. A record that is damaged makes reading fail.
pub open spec fn parse_log(s: Seq<u8>, at: int, c: Coverage) -> Result<Seq<LogEntry>, IoFailure>
    decreases s.len() - at,
{
    match LogEntry::parse(s, at, c) {
        Err(e) => if e.kind == ErrorKind::UnexpectedEof {
            Ok(seq![])
        } else {
            Err(e)
        },
        Ok((entry, end)) => if at < end <= s.len() {
            match parse_log(s, end, c) {
                Err(e) => Err(e),
                Ok(rest) => Ok(seq![entry] + rest),
            }
        } else {
            Err(crate::error::eof_failure())
        },
    }
}

/// The bytes of records, one after the other.
pub open spec fn log_bytes(entries: Seq<LogEntry>, c: Coverage) -> Seq<u8>
    decreases entries.len(),
{
    if entries.len() == 0 {
        seq![]
    } else {
        entries[0].bytes(c) + log_bytes(entries.skip(1), c)
    }
}

/// The number of bytes of a record.
pub proof fn lemma_entry_size(e: LogEntry, c: Coverage)
    ensures
        e.body().len() == e.size() - 4,
        e.bytes(c).len() == e.size(),
{
    broadcast use crate::bytes::group_bytes;

}

/// Keys and values have lengths that fit in the eight bytes that hold them.
pub open spec fn loggable(e: LogEntry) -> bool {
    e.key.len() <= u64::MAX && e.value.len() <= u64::MAX
}

/// Reading gives back the record that was written, wherever its bytes stand.
pub proof fn law_log_record_round_trip(pre: Seq<u8>, e: LogEntry, post: Seq<u8>, c: Coverage)
    requires
        loggable(e),
    ensures
        LogEntry::parse(pre + e.bytes(c) + post, pre.len() as int, c) == Ok::<_, IoFailure>(
            (e, (pre.len() + e.size()) as int),
        ),
{
    broadcast use crate::bytes::group_bytes;

    lemma_entry_size(e, c);
    let s = pre + e.bytes(c) + post;
    let at = pre.len() as int;
    let t = seq![e.record_type.code()];
    let l = bytes::be64(e.lsn);
    let k = bytes::field64(e.key);
    let v = bytes::field64(e.value);
    let d = bytes::be32(e.sum(c));
    assert(s[at] == e.record_type.code());
    assert(s.subrange(at + 1, at + 9) =~= l);
    bytes::lemma_field64(pre + t + l, e.key, v + d + post);
    assert(pre + t + l + k + (v + d + post) =~= s);
    bytes::lemma_field64(pre + t + l + k, e.value, d + post);
    assert(pre + t + l + k + v + (d + post) =~= s);
    bytes::lemma_be32_at(pre + t + l + k + v, e.sum(c), post);
    assert(pre + t + l + k + v + d + post =~= s);
}

/// A record of which the end is missing reads as the end of the data.
pub proof fn law_torn_record(pre: Seq<u8>, e: LogEntry, n: int, c: Coverage)
    requires
        loggable(e),
        0 <= n < e.size(),
    ensures
        LogEntry::parse(pre + e.bytes(c).take(n), pre.len() as int, c) == Err::<
            (LogEntry, int),
            _,
        >(crate::error::eof_failure()),
{
    broadcast use crate::bytes::group_bytes;

    lemma_entry_size(e, c);
    let full = pre + e.bytes(c);
    let s = pre + e.bytes(c).take(n);
    let at = pre.len() as int;
    law_log_record_round_trip(pre, e, seq![], c);
    assert(pre + e.bytes(c) + seq![] =~= full);
    assert forall|i: int, j: int| 0 <= i <= j <= s.len() implies #[trigger] s.subrange(i, j)
        == full.subrange(i, j) by {
        assert(s.subrange(i, j) =~= full.subrange(i, j));
    }
    if n > 0 {
        assert(s[at] == full[at]);
        assert(full[at] == e.record_type.code());
    }
    if n >= 17 {
        assert(s.subrange(at + 9, at + 17) == full.subrange(at + 9, at + 17));
        let key_end = at + 17 + e.key.len();
        if key_end + 8 <= s.len() {
            assert(s.subrange(key_end, key_end + 8) == full.subrange(key_end, key_end + 8));
        }
    }
}

/// A changed byte that the checksum covers changes the checksum.
proof fn lemma_changed_sum(e: LogEntry, i: int, b: u8, c: Coverage)
    requires
        e.covered(i, c),
        b != e.bytes(c)[i],
    ensures
        e.with_byte(i, b).sum(c) != e.sum(c),
{
    broadcast use crate::bytes::group_bytes;

    lemma_entry_size(e, c);
    match c {
        Coverage::Value => {
            let at = i - 25 - e.key.len();
            assert(e.bytes(c)[i] == e.value[at]);
            checksum::law_changed_byte_changes_checksum(e.value, at, b);
        },
        Coverage::Body => {
            assert(e.bytes(c)[i] == e.body()[i]);
            checksum::law_changed_byte_changes_checksum(e.body(), i, b);
            assert(e.with_byte(i, b).body() =~= e.body().update(i, b));
        },
    }
}

/// A record with one byte changed that the checksum covers, one of its value or its key,
/// is refused.
pub proof fn law_damaged_record_refused(
    pre: Seq<u8>,
    e: LogEntry,
    i: int,
    b: u8,
    post: Seq<u8>,
    c: Coverage,
)
    requires
        loggable(e),
        e.covered(i, c),
        b != e.bytes(c)[i],
    ensures
        LogEntry::parse(pre + e.bytes(c).update(i, b) + post, pre.len() as int, c) == Err::<
            (LogEntry, int),
            _,
        >(record::bad_checksum()),
{
    broadcast use crate::bytes::group_bytes;

    let d = e.with_byte(i, b);
    lemma_entry_size(e, c);
    lemma_entry_size(d, c);
    lemma_changed_sum(e, i, b, c);
    let sum = bytes::be32(e.sum(c));
    assert(e.bytes(c).update(i, b) =~= d.body() + sum);
    let s = pre + e.bytes(c).update(i, b) + post;
    let whole = pre + d.bytes(c) + post;
    let at = pre.len() as int;
    let end = at + d.body().len();
    law_log_record_round_trip(pre, d, post, c);
    assert forall|x: int, y: int| 0 <= x <= y <= end implies #[trigger] s.subrange(x, y)
        == whole.subrange(x, y) by {
        assert(s.subrange(x, y) =~= whole.subrange(x, y));
    }
    assert(s[at] == whole[at]);
    assert(LogEntry::parse_body(s, at) == LogEntry::parse_body(whole, at)) by {
        let mid = at + 17 + d.key.len();
        assert(s.subrange(at + 9, at + 17) == whole.subrange(at + 9, at + 17));
        assert(s.subrange(mid, mid + 8) == whole.subrange(mid, mid + 8));
    }
    assert(s.subrange(end, end + 4) =~= sum);
}

/// Recovery refuses a log in which one byte of a record is changed that its checksum
/// covers, one of its value or its key, whatever stands behind that record.
pub proof fn law_damaged_log_refused(
    pre: Seq<u8>,
    front: Seq<LogEntry>,
    e: LogEntry,
    i: int,
    b: u8,
    post: Seq<u8>,
    c: Coverage,
)
    requires
        forall|j: int| 0 <= j < front.len() ==> loggable(#[trigger] front[j]),
        loggable(e),
        e.covered(i, c),
        b != e.bytes(c)[i],
    ensures
        parse_log(
            pre + log_bytes(front, c) + (e.bytes(c).update(i, b) + post),
            pre.len() as int,
            c,
        ) == Err::<Seq<LogEntry>, _>(record::bad_checksum()),
    decreases front.len(),
{
    let damaged = e.bytes(c).update(i, b);
    let s = pre + log_bytes(front, c) + (damaged + post);
    if front.len() == 0 {
        law_damaged_record_refused(pre, e, i, b, post, c);
        assert(s =~= pre + damaged + post);
    } else {
        let first = front[0];
        let rest = front.skip(1);
        assert forall|j: int| 0 <= j < rest.len() implies loggable(#[trigger] rest[j]) by {
            assert(rest[j] == front[j + 1]);
        }
        bytes::lemma_regroup(pre, first.bytes(c), log_bytes(rest, c), damaged + post);
        law_log_record_round_trip(pre, first, log_bytes(rest, c) + (damaged + post), c);
        law_damaged_log_refused(pre + first.bytes(c), rest, e, i, b, post, c);
        lemma_entry_size(first, c);
        lemma_parse_log_step(s, pre.len() as int, c);
    }
}

/// What follows a record in a log is read as if it stood alone.
proof fn lemma_parse_log_step(s: Seq<u8>, at: int, c: Coverage)
    requires
        LogEntry::parse(s, at, c) is Ok,
    ensures
        ({
            let (entry, end) = LogEntry::parse(s, at, c)->Ok_0;
            parse_log(s, at, c) == match parse_log(s, end, c) {
                Err(e) => Err(e),
                Ok(rest) => Ok(seq![entry] + rest),
            }
        }),
{
    lemma_body_advances(s, at);
}

/// Recovery gives back all records that were written in full, in order, even
/// where the writing of one more was cut off.
pub proof fn law_log_recovery(
    pre: Seq<u8>,
    entries: Seq<LogEntry>,
    torn: LogEntry,
    n: int,
    c: Coverage,
)
    requires
        forall|i: int| 0 <= i < entries.len() ==> loggable(#[trigger] entries[i]),
        loggable(torn),
        0 <= n < torn.size(),
    ensures
        parse_log(pre + log_bytes(entries, c) + torn.bytes(c).take(n), pre.len() as int, c) == Ok::<
            _,
            IoFailure,
        >(entries),
    decreases entries.len(),
{
    let tail = torn.bytes(c).take(n);
    let s = pre + log_bytes(entries, c) + tail;
    if entries.len() == 0 {
        law_torn_record(pre, torn, n, c);
        assert(s =~= pre + tail);
        assert(entries =~= seq![]);
    } else {
        let first = entries[0];
        let rest = entries.skip(1);
        assert forall|i: int| 0 <= i < rest.len() implies loggable(#[trigger] rest[i]) by {
            assert(rest[i] == entries[i + 1]);
        }
        bytes::lemma_regroup(pre, first.bytes(c), log_bytes(rest, c), tail);
        law_log_record_round_trip(pre, first, log_bytes(rest, c) + tail, c);
        law_log_recovery(pre + first.bytes(c), rest, torn, n, c);
        lemma_entry_size(first, c);
        lemma_parse_log_step(s, pre.len() as int, c);
        assert(entries =~= seq![first] + rest);
    }
}

/// The bytes of a record before its checksum.
fn encode_body(record_type: RecordType, lsn: u64, key: &[u8], value: &[u8]) -> (out: Vec<u8>)
    ensures
        out@ == (LogEntry { record_type, lsn, key: key@, value: value@ }).body(),
{
    let mut out: Vec<u8> = Vec::new();
    out.push(record_type.to_u8());
    bytes::push_be64(&mut out, lsn);
    bytes::push_be64(&mut out, key.len() as u64);
    bytes::push_all(&mut out, key);
    bytes::push_be64(&mut out, value.len() as u64);
    bytes::push_all(&mut out, value);
    assert(out@ =~= (LogEntry { record_type, lsn, key: key@, value: value@ }).body());
    out
}

/// The bytes of a record.
pub fn encode_log_record(
    record_type: RecordType,
    lsn: u64,
    key: &[u8],
    value: &[u8],
    coverage: Coverage,
) -> (out: Vec<u8>)
    ensures
        out@ == (LogEntry { record_type, lsn, key: key@, value: value@ }).bytes(coverage),
{
    let mut out: Vec<u8> = encode_body(record_type, lsn, key, value);
    let checksum: u32 = match coverage {
        Coverage::Value => calculate_crc32(value),
        Coverage::Body => calculate_crc32(out.as_slice()),
    };
    bytes::push_be32(&mut out, checksum);
    out
}

/// The record that starts at `at`, and where it ends.
pub fn decode_log_record(data: &[u8], at: usize, coverage: Coverage) -> (r: Result<
    (LogRecord, usize),
    IoError,
>)
    ensures
        match r {
            Ok((record, end)) => LogEntry::parse(data@, at as int, coverage) == Ok::<_, IoFailure>(
                (record@, end as int),
            ) && record.checksum == record@.sum(coverage) && end <= data@.len(),
            Err(e) => LogEntry::parse(data@, at as int, coverage) == Err::<(LogEntry, int), _>(e@),
        },
{
    let len: usize = data.len();
    if at >= len {
        return Err(IoError::eof());
    }
    let record_type = match RecordType::from_u8(data[at]) {
        None => {
            return Err(IoError::new(ErrorKind::InvalidData, "Invalid record type"));
        },
        Some(record_type) => record_type,
    };
    if len - at < 9 {
        return Err(IoError::eof());
    }
    let lsn: u64 = bytes::get_be64(data, at + 1);
    let (key, mid) = match bytes::get_field64(data, at + 9) {
        None => {
            return Err(IoError::eof());
        },
        Some(found) => found,
    };
    let (value, end) = match bytes::get_field64(data, mid) {
        None => {
            return Err(IoError::eof());
        },
        Some(found) => found,
    };
    if len - end < 4 {
        return Err(IoError::eof());
    }
    let checksum: u32 = match coverage {
        Coverage::Value => calculate_crc32(value.as_slice()),
        Coverage::Body => {
            let body: Vec<u8> = encode_body(record_type, lsn, key.as_slice(), value.as_slice());
            calculate_crc32(body.as_slice())
        },
    };
    if checksum != bytes::get_be32(data, end) {
        return Err(IoError::new(ErrorKind::InvalidData, "Checksum mismatch"));
    }
    Ok((LogRecord { record_type, lsn, key, value, checksum }, end + 4))
}

/// What reading a log from some place on gives, put behind what was read before.
pub open spec fn behind(front: Seq<LogEntry>, rest: Result<Seq<LogEntry>, IoFailure>) -> Result<
    Seq<LogEntry>,
    IoFailure,
> {
    match rest {
        Err(e) => Err(e),
        Ok(rest) => Ok(front + rest),
    }
}

/// The records from `start` on.
pub fn decode_log(data: &[u8], start: usize, coverage: Coverage) -> (r: Result<
    Vec<LogRecord>,
    IoError,
>)
    ensures
        match r {
            Ok(records) => parse_log(data@, start as int, coverage) == Ok::<_, IoFailure>(
                crate::storage::keyed::views(records@),
            ) && forall|i: int|
                0 <= i < records@.len() ==> (#[trigger] records@[i]).checksum == records@[i]@.sum(
                    coverage,
                ),
            Err(e) => parse_log(data@, start as int, coverage) == Err::<Seq<LogEntry>, _>(e@),
        },
{
    let mut records: Vec<LogRecord> = Vec::new();
    let mut pos: usize = start;
    assert(behind(crate::storage::keyed::views(records@), parse_log(data@, pos as int, coverage))
        == parse_log(data@, start as int, coverage)) by {
        if let Ok(rest) = parse_log(data@, pos as int, coverage) {
            assert(crate::storage::keyed::views(records@) + rest =~= rest);
        }
    }
    loop
        invariant
            behind(crate::storage::keyed::views(records@), parse_log(data@, pos as int, coverage))
                == parse_log(data@, start as int, coverage),
            forall|i: int|
                0 <= i < records@.len() ==> (#[trigger] records@[i]).checksum == records@[i]@.sum(
                    coverage,
                ),
        decreases data@.len() - pos,
    {
        match decode_log_record(data, pos, coverage) {
            Err(e) => {
                if e.kind() == ErrorKind::UnexpectedEof {
                    assert(crate::storage::keyed::views(records@) + Seq::<LogEntry>::empty()
                        =~= crate::storage::keyed::views(records@));
                    return Ok(records);
                }
                return Err(e);
            },
            Ok((record, end)) => {
                let ghost before = crate::storage::keyed::views(records@);
                let ghost entry = record@;
                proof {
                    lemma_parse_log_step(data@, pos as int, coverage);
                    lemma_body_advances(data@, pos as int);
                }
                records.push(record);
                proof {
                    assert(crate::storage::keyed::views(records@) =~= before.push(entry));
                    if let Ok(rest) = parse_log(data@, end as int, coverage) {
                        assert(before + (seq![entry] + rest) =~= before.push(entry) + rest);
                    }
                }
                pos = end;
            },
        }
    }
}

/// Where the fields of a log record are: the type in one byte, the number, key and value
/// each with its length before it, and the checksum of the value or of all before it;
/// numbers are big-endian.
pub proof fn law_log_record_layout(e: LogEntry, c: Coverage)
    requires
        loggable(e),
    ensures
        ({
            let (b, k, n) = (e.bytes(c), e.key.len() as int, e.value.len() as int);
            &&& b.len() == 29 + k + n
            &&& b.len() == e.size()
            &&& b[0] == e.record_type.code()
            &&& bytes::be64_at(b, 1) == e.lsn
            &&& bytes::be64_at(b, 9) == k
            &&& b.subrange(17, 17 + k) == e.key
            &&& bytes::be64_at(b, 17 + k) == n
            &&& b.subrange(25 + k, 25 + k + n) == e.value
            &&& bytes::be32_at(b, 25 + k + n) == (match c {
                Coverage::Value => checksum::crc32(e.value),
                Coverage::Body => checksum::crc32(b.take(25 + k + n)),
            })
        }),
{
    broadcast use bytes::group_bytes;

    let (b, k, n) = (e.bytes(c), e.key.len() as int, e.value.len() as int);
    assert(b.subrange(1, 9) =~= bytes::be64(e.lsn));
    assert(b.subrange(9, 17) =~= bytes::be64(k as u64));
    assert(b.subrange(17, 17 + k) =~= e.key);
    assert(b.subrange(17 + k, 25 + k) =~= bytes::be64(n as u64));
    assert(b.subrange(25 + k, 25 + k + n) =~= e.value);
    assert(b.take(25 + k + n) =~= e.body());
    assert(b.subrange(25 + k + n, 29 + k + n) =~= bytes::be32(e.sum(c)));
}

/// What is read as a log record is the bytes of that record.
pub proof fn law_log_record_read_was_written(s: Seq<u8>, at: int, c: Coverage)
    ensures
        LogEntry::parse(s, at, c) matches Ok((e, end)) ==> 0 <= at <= end <= s.len() && s.subrange(
            at,
            end,
        ) == e.bytes(c),
{
    broadcast use bytes::group_bytes;

    if let Ok((e, end)) = LogEntry::parse(s, at, c) {
        let mid = at + 17 + e.key.len();
        let tail = end - 4;
        record::law_type_codes(e.record_type, s[at]);
        bytes::lemma_number_at(s, at + 1);
        bytes::lemma_field_at(s, at + 9);
        bytes::lemma_field_at(s, mid);
        bytes::lemma_number_at(s, tail);
        assert(s.subrange(at, end) =~= seq![s[at]] + s.subrange(at + 1, at + 9) + s.subrange(
            at + 9,
            mid,
        ) + s.subrange(mid, tail) + s.subrange(tail, end));
    }
}

} // verus!
