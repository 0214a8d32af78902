//! The log of the plain store.
use vstd::prelude::*;
use crate::bytes;
use crate::error::{ErrorKind, IoError, IoFailure};
use crate::storage::constant::{WAL_HEADER_SIZE, WAL_MAGIC, WAL_VERSION};
use crate::storage::keyed;
use crate::storage::log_format;
use crate::storage::log_format::{decode_log, decode_log_record, encode_log_record, Coverage,
    LogEntry, LogRecord};
use crate::storage::log_header;
use crate::storage::log_header::{decode_log_header, encode_log_header, LogHeader};
use crate::storage::record::RecordType;

verus! {

/// The header of a log file.
#[derive(Debug)]
pub struct WALHeader {
    pub magic: [u8; 8],
    pub version: u64,
    pub last_checkpoint: u64,
    pub last_checkpoint_offset: u64,
}

impl View for WALHeader {
    type V = LogHeader;

    open spec fn view(&self) -> LogHeader {
        LogHeader {
            magic: self.magic@,
            version: self.version,
            last_checkpoint: self.last_checkpoint,
            last_checkpoint_offset: self.last_checkpoint_offset,
        }
    }
}

/// The header of a new log file.
pub open spec fn new_header() -> LogHeader {
    LogHeader {
        magic: log_header::magic_bytes(),
        version: WAL_VERSION,
        last_checkpoint: 0,
        last_checkpoint_offset: 0,
    }
}

impl WALHeader {
    /// The header of a new log file.
    pub fn new() -> (h: WALHeader)
        ensures
            h@ == new_header(),
    {
        WALHeader {
            magic: WAL_MAGIC,
            version: WAL_VERSION,
            last_checkpoint: 0,
            last_checkpoint_offset: 0,
        }
    }

    /// The bytes of the header.
    pub fn encode(&self) -> (out: Vec<u8>)
        ensures
            out@ == self@.bytes(),
    {
        encode_log_header(
            &self.magic,
            self.version,
            self.last_checkpoint,
            self.last_checkpoint_offset,
        )
    }

    /// The header at the start of the data. Its checksum is not looked at.
    pub fn decode(buf: &Vec<u8>) -> (r: Result<WALHeader, IoError>)
        ensures
            match r {
                Ok(h) => LogHeader::parse(buf@, false) == Ok::<_, IoFailure>(h@),
                Err(e) => LogHeader::parse(buf@, false) == Err::<LogHeader, _>(e@),
            },
    {
        match decode_log_header(buf.as_slice(), false) {
            Err(e) => Err(e),
            Ok((version, last_checkpoint, last_checkpoint_offset)) => Ok(
                WALHeader { magic: WAL_MAGIC, version, last_checkpoint, last_checkpoint_offset },
            ),
        }
    }
}

impl Default for WALHeader {
    fn default() -> (h: WALHeader)
        ensures
            h@ == new_header(),
    {
        WALHeader::new()
    }
}

/// A record of the log, or a counter of sequence numbers that records are written
/// with.
#[derive(Debug)]
pub struct WALRecord {
    /// The next sequence number of a counter.
    pub lsn: Option<u64>,
    /// The sequence number of a record.
    pub lsn_val: u64,
    pub record_type: RecordType,
    pub key: Vec<u8>,
    pub value: Vec<u8>,
}

/// What a record says. `counter` is the next sequence number; a record that was read
/// has none.
#[verifier::ext_equal]
pub struct WALRecordView {
    pub counter: Option<u64>,
    pub entry: LogEntry,
}

impl View for WALRecord {
    type V = WALRecordView;

    open spec fn view(&self) -> WALRecordView {
        WALRecordView {
            counter: self.lsn,
            entry: LogEntry {
                record_type: self.record_type,
                lsn: self.lsn_val,
                key: self.key@,
                value: self.value@,
            },
        }
    }
}

/// A counter, which has no record.
pub open spec fn counter_at(next: u64) -> WALRecordView {
    WALRecordView {
        counter: Some(next),
        entry: LogEntry { record_type: RecordType::Put, lsn: 0, key: seq![], value: seq![] },
    }
}

impl WALRecord {
    /// A counter that starts at 1.
    pub fn new() -> (r: WALRecord)
        ensures
            r@ == counter_at(1),
    {
        let r = WALRecord {
            lsn: Some(1),
            lsn_val: 0,
            record_type: RecordType::Put,
            key: Vec::new(),
            value: Vec::new(),
        };
        assert(r@.entry.key =~= seq![]);
        assert(r@.entry.value =~= seq![]);
        r
    }

    /// Appends a record with the next sequence number and counts it. Fails where there
    /// is no counter.
    pub fn encode(
        &mut self,
        writer: &mut Vec<u8>,
        record_type: RecordType,
        key: &[u8],
        value: &[u8],
    ) -> (r: Result<(), IoError>)
        ensures
            match old(self)@.counter {
                Some(lsn) => {
                    &&& r is Ok
                    &&& final(writer)@ == old(writer)@ + (LogEntry {
                        record_type,
                        lsn,
                        key: key@,
                        value: value@,
                    }).bytes(Coverage::Value)
                    &&& final(self)@ == (WALRecordView {
                        counter: Some(lsn.wrapping_add(1)),
                        ..old(self)@
                    })
                },
                None => {
                    &&& r matches Err(e)
                    &&& e@ == (IoFailure { kind: ErrorKind::Other, message: "LSN not initialized"@ })
                    &&& final(writer)@ == old(writer)@
                    &&& final(self)@ == old(self)@
                },
            },
    {
        let lsn: u64 = match self.lsn {
            None => {
                return Err(IoError::new(ErrorKind::Other, "LSN not initialized"));
            },
            Some(lsn) => lsn,
        };
        self.lsn = Some(lsn.wrapping_add(1));
        let encoded: Vec<u8> = encode_log_record(record_type, lsn, key, value, Coverage::Value);
        bytes::push_all(writer, encoded.as_slice());
        Ok(())
    }

    /// The record at the start of the data, and how many bytes it takes.
    pub fn decode(data: &[u8]) -> (r: Result<(WALRecord, usize), IoError>)
        ensures
            match r {
                Ok((record, n)) => record@.counter is None && LogEntry::parse(
                    data@,
                    0,
                    Coverage::Value,
                ) == Ok::<_, IoFailure>((record@.entry, n as int)),
                Err(e) => LogEntry::parse(data@, 0, Coverage::Value) == Err::<(LogEntry, int), _>(
                    e@,
                ),
            },
    {
        match decode_log_record(data, 0, Coverage::Value) {
            Err(e) => Err(e),
            Ok((record, n)) => Ok((WALRecord::of(&record), n)),
        }
    }

    /// The record that was read.
    fn of(record: &LogRecord) -> (r: WALRecord)
        ensures
            r@ == (WALRecordView { counter: None, entry: record@ }),
    {
        WALRecord {
            lsn: None,
            lsn_val: record.lsn,
            record_type: record.record_type,
            key: bytes::copy_bytes(record.key.as_slice()),
            value: bytes::copy_bytes(record.value.as_slice()),
        }
    }

    /// The next sequence number of a counter, the sequence number of a record.
    pub fn get_lsn(&self) -> (lsn: u64)
        ensures
            lsn == (match self@.counter {
                Some(next) => next,
                None => self@.entry.lsn,
            }),
    {
        match self.lsn {
            Some(next) => next,
            None => self.lsn_val,
        }
    }
}

/// The entries of records that were read.
pub open spec fn entries_of(records: Seq<WALRecord>) -> Seq<LogEntry> {
    Seq::new(records.len(), |i: int| records[i]@.entry)
}

/// None of the records is a counter.
pub open spec fn no_counters(records: Seq<WALRecord>) -> bool {
    forall|i: int| 0 <= i < records.len() ==> (#[trigger] records[i])@.counter is None
}

/// Where the records of a log start: at the offset of the last checkpoint or, without
/// one, behind the header.
pub open spec fn records_start(h: LogHeader) -> int {
    if h.last_checkpoint_offset == 0 {
        WAL_HEADER_SIZE as int
    } else {
        h.last_checkpoint_offset as int
    }
}

/// What recovery of the log `s` gives.
pub open spec fn recovered(s: Seq<u8>) -> Result<Seq<LogEntry>, IoFailure> {
    match LogHeader::parse(s, false) {
        Err(e) => Err(e),
        Ok(h) => log_format::parse_log(s, records_start(h), Coverage::Value),
    }
}

/// The records of the log.
fn convert_records(records: &Vec<LogRecord>) -> (out: Vec<WALRecord>)
    ensures
        entries_of(out@) == keyed::views(records@),
        no_counters(out@),
{
    let ghost all = keyed::views(records@);
    let mut out: Vec<WALRecord> = Vec::new();
    let mut i: usize = 0;
    while i < records.len()
        invariant
            i <= records@.len(),
            all == keyed::views(records@),
            out@.len() == i,
            entries_of(out@) == all.take(i as int),
            no_counters(out@),
        decreases records@.len() - i,
    {
        out.push(WALRecord::of(&records[i]));
        assert(entries_of(out@) =~= all.take(i + 1));
        i = i + 1;
    }
    assert(all.take(i as int) =~= all);
    out
}

/// The records of the log, from the last checkpoint on. A record that the data ends
/// in the middle of is left out; a damaged one makes recovery fail.
pub fn recover(data: &Vec<u8>) -> (r: Result<Vec<WALRecord>, IoError>)
    ensures
        match r {
            Ok(records) => recovered(data@) == Ok::<_, IoFailure>(entries_of(records@))
                && no_counters(records@),
            Err(e) => recovered(data@) == Err::<Seq<LogEntry>, _>(e@),
        },
{
    let header = match WALHeader::decode(data) {
        Err(e) => {
            return Err(e);
        },
        Ok(h) => h,
    };
    let start: u64 = if header.last_checkpoint_offset == 0 {
        WAL_HEADER_SIZE
    } else {
        header.last_checkpoint_offset
    };
    if start > data.len() as u64 {
        let none: Vec<WALRecord> = Vec::new();
        assert(entries_of(none@) =~= seq![]);
        return Ok(none);
    }
    match decode_log(data.as_slice(), start as usize, Coverage::Value) {
        Err(e) => Err(e),
        Ok(records) => Ok(convert_records(&records)),
    }
}

/// A log: its header and its records.
#[derive(Debug)]
pub struct WAL {
    pub header: WALHeader,
    pub records: Vec<WALRecord>,
}

/// What can be done with a log.
pub trait WALManager {
    /// Writes a record.
    fn store_log(
        &mut self,
        writer: &mut Vec<u8>,
        key: Vec<u8>,
        value: Vec<u8>,
        record_type: RecordType,
    ) -> Result<(u64, u64), IoError>;

    /// The records of a log.
    fn recover(&self, data: &Vec<u8>) -> Result<Vec<WALRecord>, IoError>;
}

impl WAL {
    /// A log without records.
    pub fn new() -> (w: WAL)
        ensures
            w.header@ == new_header(),
            w.records@.len() == 0,
    {
        WAL { header: WALHeader::new(), records: Vec::new() }
    }

    /// The log in the data: its header and all records behind it, up to a record that
    /// the data ends in the middle of.
    pub fn decode(data: &Vec<u8>) -> (r: Result<WAL, IoError>)
        ensures
            data@.len() < WAL_HEADER_SIZE ==> (r matches Err(e) && e@
                == crate::error::eof_failure()),
            data@.len() >= WAL_HEADER_SIZE ==> match LogHeader::parse(data@, false) {
                Err(failure) => r matches Err(e) && e@ == failure,
                Ok(h) => match log_format::parse_log(
                    data@,
                    WAL_HEADER_SIZE as int,
                    Coverage::Value,
                ) {
                    Err(failure) => r matches Err(e) && e@ == failure,
                    Ok(entries) => r matches Ok(w) && w.header@ == h && entries_of(w.records@)
                        == entries && no_counters(w.records@),
                },
            },
    {
        if (data.len() as u64) < WAL_HEADER_SIZE {
            return Err(IoError::eof());
        }
        let header = match WALHeader::decode(data) {
            Err(e) => {
                return Err(e);
            },
            Ok(h) => h,
        };
        match decode_log(data.as_slice(), WAL_HEADER_SIZE as usize, Coverage::Value) {
            Err(e) => Err(e),
            Ok(records) => Ok(WAL { header, records: convert_records(&records) }),
        }
    }
}

impl WALManager for WAL {
    /// Writes a record with the sequence number 1 and keeps its counter, which then
    /// stands at 2.
    fn store_log(
        &mut self,
        writer: &mut Vec<u8>,
        key: Vec<u8>,
        value: Vec<u8>,
        record_type: RecordType,
    ) -> (r: Result<(u64, u64), IoError>)
        ensures
            r matches Ok(p) && p == (2u64, 0u64),
            final(writer)@ == old(writer)@ + (LogEntry {
                record_type,
                lsn: 1,
                key: key@,
                value: value@,
            }).bytes(Coverage::Value),
            final(self).header == old(self).header,
            final(self).records@.len() == old(self).records@.len() + 1,
            final(self).records@.drop_last() == old(self).records@,
            final(self).records@.last()@ == counter_at(2),
    {
        let mut record = WALRecord::new();
        match record.encode(writer, record_type, key.as_slice(), value.as_slice()) {
            Err(e) => {
                return Err(e);
            },
            Ok(_) => {},
        }
        let lsn: u64 = record.get_lsn();
        self.records.push(record);
        assert(self.records@.drop_last() =~= old(self).records@);
        Ok((lsn, 0))
    }

    /// The records of a log.
    fn recover(&self, data: &Vec<u8>) -> (r: Result<Vec<WALRecord>, IoError>)
        ensures
            match r {
                Ok(records) => recovered(data@) == Ok::<_, IoFailure>(entries_of(records@))
                    && no_counters(records@),
                Err(e) => recovered(data@) == Err::<Seq<LogEntry>, _>(e@),
            },
    {
        recover(data)
    }
}

/// The header at the start of the data.
pub fn read_wal_header(data: &[u8]) -> (r: Result<WALHeader, IoError>)
    ensures
        data@.len() < WAL_HEADER_SIZE ==> (r matches Err(e) && e@ == crate::error::eof_failure()),
        data@.len() >= WAL_HEADER_SIZE ==> match LogHeader::parse(data@, false) {
            Ok(h) => r matches Ok(found) && found@ == h,
            Err(failure) => r matches Err(e) && e@ == failure,
        },
{
    if (data.len() as u64) < WAL_HEADER_SIZE {
        return Err(IoError::eof());
    }
    let buf: Vec<u8> = bytes::copy_bytes(data);
    WALHeader::decode(&buf)
}

/// What has to be appended to a log file of `file_len` bytes to store a record: the
/// header, where the file is empty, and the record. With it come the offset of the
/// record and its sequence number.
pub fn store_log(
    file_len: u64,
    key: &Vec<u8>,
    value: &Vec<u8>,
    record_type: RecordType,
    wal: &mut WALRecord,
) -> (r: Result<(Vec<u8>, u64, u64), IoError>)
    ensures
        match old(wal)@.counter {
            Some(lsn) => {
                &&& r matches Ok((out, offset, at))
                &&& at == lsn
                &&& offset == if file_len == 0 {
                    WAL_HEADER_SIZE
                } else {
                    file_len
                }
                &&& out@ == (if file_len == 0 {
                    new_header().bytes()
                } else {
                    seq![]
                }) + (LogEntry { record_type, lsn, key: key@, value: value@ }).bytes(Coverage::Value)
                &&& final(wal)@ == (WALRecordView {
                    counter: Some(lsn.wrapping_add(1)),
                    ..old(wal)@
                })
            },
            None => {
                &&& r matches Err(e)
                &&& e@ == (IoFailure { kind: ErrorKind::Other, message: "LSN not initialized"@ })
                &&& final(wal)@ == old(wal)@
            },
        },
{
    let mut out: Vec<u8> = if file_len == 0 {
        let header = WALHeader::new();
        header.encode()
    } else {
        Vec::new()
    };
    let ghost head = out@;
    assert(file_len != 0 ==> head =~= seq![]);
    let offset: u64 = if file_len == 0 {
        WAL_HEADER_SIZE
    } else {
        file_len
    };
    let lsn: u64 = wal.get_lsn();
    match wal.encode(&mut out, record_type, key.as_slice(), value.as_slice()) {
        Err(e) => Err(e),
        Ok(_) => Ok((out, offset, lsn)),
    }
}

/// Recovery of a log that was written from its start gives back all records that were
/// written in full, in order, even where the writing of one more was cut off.
pub proof fn law_recover_after_crash(entries: Seq<LogEntry>, torn: LogEntry, n: int)
    requires
        forall|i: int| 0 <= i < entries.len() ==> log_format::loggable(#[trigger] entries[i]),
        log_format::loggable(torn),
        0 <= n < torn.size(),
    ensures
        recovered(
            new_header().bytes() + log_format::log_bytes(entries, Coverage::Value) + torn.bytes(
                Coverage::Value,
            ).take(n),
        ) == Ok::<_, IoFailure>(entries),
{
    let head = new_header().bytes();
    let body = log_format::log_bytes(entries, Coverage::Value);
    let tail = torn.bytes(Coverage::Value).take(n);
    log_header::law_log_header_round_trip(new_header(), body + tail, false);
    assert(head + (body + tail) =~= head + body + tail);
    log_format::law_log_recovery(head, entries, torn, n, Coverage::Value);
}

/// A counter stands at the number that it was started with.
pub proof fn law_counter_stands(next: u64)
    ensures
        counter_at(next).counter == Some(next),
{
}

} // verus!
