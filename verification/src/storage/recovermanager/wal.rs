//! The write-ahead log: its segments, what is written to them, and recovery.
use vstd::prelude::*;
use vstd::string::*;
use crate::bytes;
use crate::error::{ErrorKind, IoError, IoFailure};
use crate::storage::constant::{WAL_HEADER_SIZE, WAL_MAGIC, WAL_VERSION};
use crate::storage::keyed;
use crate::storage::keyed::{sort_by_key, Keyed};
use crate::storage::log_format;
use crate::storage::log_format::{decode_log, encode_log_record, Coverage, LogEntry, LogRecord};
use crate::storage::log_header;
use crate::storage::log_header::{decode_log_header, encode_log_header, LogHeader};
use crate::storage::memtable::PlainMemtable;
use crate::storage::record;
use crate::storage::record::RecordType;
use crate::storage::recovermanager::log_store::{CommandView, LogCommand};
use crate::storage::recovermanager::segment;
use crate::storage::recovermanager::segment::{segment_number_of, SegmentId};
use crate::text;

verus! {

/// The header of a log segment.
#[derive(Debug)]
pub struct WALHeader {
    pub magic: [u8; 8],
    pub version: u64,
    pub last_checkpoint: u64,
    pub last_checkpoint_offset: u64,
}

impl View for WALHeader {
    type V = LogHeader;

    open spec fn view(&self) -> LogHeader {
        LogHeader {
            magic: self.magic@,
            version: self.version,
            last_checkpoint: self.last_checkpoint,
            last_checkpoint_offset: self.last_checkpoint_offset,
        }
    }
}

/// The header of a new log segment.
pub open spec fn default_header() -> LogHeader {
    LogHeader {
        magic: log_header::magic_bytes(),
        version: WAL_VERSION,
        last_checkpoint: 0,
        last_checkpoint_offset: 0,
    }
}

impl WALHeader {
    /// The bytes of the header.
    pub fn encode(&self) -> (out: Vec<u8>)
        ensures
            out@ == self@.bytes(),
    {
        encode_log_header(
            &self.magic,
            self.version,
            self.last_checkpoint,
            self.last_checkpoint_offset,
        )
    }

    /// The header at the start of the data; its checksum has to match.
    pub fn decode(buf: &Vec<u8>) -> (r: Result<WALHeader, IoError>)
        ensures
            match r {
                Ok(h) => LogHeader::parse(buf@, true) == Ok::<_, IoFailure>(h@),
                Err(e) => LogHeader::parse(buf@, true) == Err::<LogHeader, _>(e@),
            },
    {
        match decode_log_header(buf.as_slice(), true) {
            Err(e) => Err(e),
            Ok((version, last_checkpoint, last_checkpoint_offset)) => Ok(
                WALHeader { magic: WAL_MAGIC, version, last_checkpoint, last_checkpoint_offset },
            ),
        }
    }
}

impl Default for WALHeader {
    fn default() -> (h: WALHeader)
        ensures
            h@ == default_header(),
    {
        WALHeader {
            magic: WAL_MAGIC,
            version: WAL_VERSION,
            last_checkpoint: 0,
            last_checkpoint_offset: 0,
        }
    }
}

/// A record that was read from a segment.
#[derive(Debug)]
pub struct WALRecord {
    pub record_type: u8,
    pub lsn: u64,
    pub key: Vec<u8>,
    pub value: Vec<u8>,
    pub checksum: u32,
}

/// What a record that was read says.
#[verifier::ext_equal]
pub struct RawRecord {
    pub record_type: u8,
    pub lsn: u64,
    pub key: Seq<u8>,
    pub value: Seq<u8>,
    pub checksum: u32,
}

impl View for WALRecord {
    type V = RawRecord;

    open spec fn view(&self) -> RawRecord {
        RawRecord {
            record_type: self.record_type,
            lsn: self.lsn,
            key: self.key@,
            value: self.value@,
            checksum: self.checksum,
        }
    }
}

/// A log entry as it comes out of a segment.
pub open spec fn raw_of(e: LogEntry) -> RawRecord {
    RawRecord {
        record_type: e.record_type.code(),
        lsn: e.lsn,
        key: e.key,
        value: e.value,
        checksum: e.sum(Coverage::Body),
    }
}

/// Log entries as they come out of a segment.
pub open spec fn raws_of(entries: Seq<LogEntry>) -> Seq<RawRecord> {
    Seq::new(entries.len(), |i: int| raw_of(entries[i]))
}

/// What reading a segment gives: its header has to be sound, then come its records, up
/// to one that the data ends in the middle of.
pub open spec fn segment_entries(s: Seq<u8>) -> Result<Seq<LogEntry>, IoFailure> {
    if s.len() < WAL_HEADER_SIZE {
        Err(crate::error::eof_failure())
    } else {
        match LogHeader::parse(s, true) {
            Err(e) => Err(e),
            Ok(_) => log_format::parse_log(s, WAL_HEADER_SIZE as int, Coverage::Body),
        }
    }
}

/// Reading a segment gives back all records that were written in full, in order, even
/// where the writing of one more was cut off.
pub proof fn law_segment_recovery(entries: Seq<LogEntry>, torn: LogEntry, n: int)
    requires
        forall|i: int| 0 <= i < entries.len() ==> log_format::loggable(#[trigger] entries[i]),
        log_format::loggable(torn),
        0 <= n < torn.size(),
    ensures
        segment_entries(
            default_header().bytes() + log_format::log_bytes(entries, Coverage::Body) + torn.bytes(
                Coverage::Body,
            ).take(n),
        ) == Ok::<_, IoFailure>(entries),
{
    let head = default_header().bytes();
    let body = log_format::log_bytes(entries, Coverage::Body);
    let tail = torn.bytes(Coverage::Body).take(n);
    log_header::law_log_header_round_trip(default_header(), body + tail, true);
    assert(head + (body + tail) =~= head + body + tail);
    log_format::law_log_recovery(head, entries, torn, n, Coverage::Body);
}

/// Reading refuses a segment in which one byte of the key or the value of a record is
/// changed, whatever stands behind that record.
pub proof fn law_damaged_segment_refused(
    front: Seq<LogEntry>,
    e: LogEntry,
    i: int,
    b: u8,
    post: Seq<u8>,
)
    requires
        forall|j: int| 0 <= j < front.len() ==> log_format::loggable(#[trigger] front[j]),
        log_format::loggable(e),
        e.in_key(i) || e.in_value(i),
        b != e.bytes(Coverage::Body)[i],
    ensures
        segment_entries(
            default_header().bytes() + log_format::log_bytes(front, Coverage::Body) + (e.bytes(
                Coverage::Body,
            ).update(i, b) + post),
        ) matches Err(failure) && failure.kind == ErrorKind::InvalidData,
{
    let head = default_header().bytes();
    let body = log_format::log_bytes(front, Coverage::Body);
    let tail = e.bytes(Coverage::Body).update(i, b) + post;
    log_header::law_log_header_round_trip(default_header(), body + tail, true);
    assert(head + (body + tail) =~= head + body + tail);
    log_format::law_damaged_log_refused(head, front, e, i, b, post, Coverage::Body);
}

/// The records of the segment `data`.
pub fn read_log(data: &Vec<u8>) -> (r: Result<Vec<WALRecord>, IoError>)
    ensures
        match r {
            Ok(records) => segment_entries(data@) matches Ok(entries) && keyed::views(records@)
                == raws_of(entries),
            Err(e) => segment_entries(data@) == Err::<Seq<LogEntry>, _>(e@),
        },
{
    if (data.len() as u64) < WAL_HEADER_SIZE {
        return Err(IoError::eof());
    }
    match WALHeader::decode(data) {
        Err(e) => {
            return Err(e);
        },
        Ok(_) => {},
    }
    let entries: Vec<LogRecord> = match decode_log(
        data.as_slice(),
        WAL_HEADER_SIZE as usize,
        Coverage::Body,
    ) {
        Err(e) => {
            return Err(e);
        },
        Ok(entries) => entries,
    };
    let ghost all = keyed::views(entries@);
    let mut out: Vec<WALRecord> = Vec::new();
    let mut i: usize = 0;
    while i < entries.len()
        invariant
            i <= entries@.len(),
            all == keyed::views(entries@),
            segment_entries(data@) == Ok::<_, IoFailure>(all),
            forall|j: int|
                0 <= j < entries@.len() ==> (#[trigger] entries@[j]).checksum == entries@[j]@.sum(
                    Coverage::Body,
                ),
            keyed::views(out@) == raws_of(all).take(i as int),
        decreases entries@.len() - i,
    {
        let entry = &entries[i];
        let record = WALRecord {
            record_type: entry.record_type.to_u8(),
            lsn: entry.lsn,
            key: bytes::copy_bytes(entry.key.as_slice()),
            value: bytes::copy_bytes(entry.value.as_slice()),
            checksum: entry.checksum,
        };
        let ghost raw = record@;
        let ghost before = keyed::views(out@);
        assert(raw =~= raws_of(all)[i as int]);
        out.push(record);
        assert(keyed::views(out@) =~= before.push(raw));
        assert(raws_of(all).take(i + 1) =~= raws_of(all).take(i as int).push(raw));
        i = i + 1;
    }
    assert(raws_of(all).take(i as int) =~= raws_of(all));
    Ok(out)
}

/// What reading the first `n` of some segments gives.
pub open spec fn all_entries(files: Seq<Seq<u8>>, n: nat) -> Result<Seq<LogEntry>, IoFailure>
    decreases n,
{
    if n == 0 {
        Ok(seq![])
    } else {
        match all_entries(files, (n - 1) as nat) {
            Err(e) => Err(e),
            Ok(front) => match segment_entries(files[n - 1]) {
                Err(e) => Err(e),
                Ok(more) => Ok(front + more),
            },
        }
    }
}

/// The bytes of files.
pub open spec fn file_bytes(files: Seq<Vec<u8>>) -> Seq<Seq<u8>> {
    Seq::new(files.len(), |i: int| files[i]@)
}

proof fn lemma_all_entries_err(files: Seq<Seq<u8>>, i: nat, n: nat)
    requires
        i <= n,
        all_entries(files, i) is Err,
    ensures
        all_entries(files, n) == all_entries(files, i),
    decreases n,
{
    if i < n {
        lemma_all_entries_err(files, i, (n - 1) as nat);
    }
}

/// The first `n` of some runs of entries, one run after the other.
pub open spec fn joined(runs: Seq<Seq<LogEntry>>, n: nat) -> Seq<LogEntry>
    decreases n,
{
    if n == 0 {
        seq![]
    } else {
        joined(runs, (n - 1) as nat) + runs[n - 1]
    }
}

/// A segment with the entries of a run, behind which the first bytes of one more may
/// stand whose writing was cut off.
pub open spec fn is_segment(s: Seq<u8>, run: Seq<LogEntry>) -> bool {
    exists|torn: LogEntry, n: int|
        log_format::loggable(torn) && 0 <= n < torn.size() && s == default_header().bytes()
            + log_format::log_bytes(run, Coverage::Body) + #[trigger] torn.bytes(
            Coverage::Body,
        ).take(n)
}

/// Recovery gives back the entries of all segments that were written in full, in order.
pub proof fn law_recovery_across_segments(
    files: Seq<Seq<u8>>,
    runs: Seq<Seq<LogEntry>>,
    n: nat,
)
    requires
        n <= files.len(),
        files.len() == runs.len(),
        forall|i: int| 0 <= i < files.len() ==> is_segment(#[trigger] files[i], runs[i]),
        forall|i: int, j: int|
            0 <= i < runs.len() && 0 <= j < runs[i].len() ==> log_format::loggable(
                #[trigger] runs[i][j],
            ),
    ensures
        all_entries(files, n) == Ok::<_, IoFailure>(joined(runs, n)),
    decreases n,
{
    if n > 0 {
        law_recovery_across_segments(files, runs, (n - 1) as nat);
        let run = runs[n - 1];
        assert(is_segment(files[n - 1], run));
        let (torn, k) = choose|torn: LogEntry, k: int|
            log_format::loggable(torn) && 0 <= k < torn.size() && files[n - 1]
                == default_header().bytes() + log_format::log_bytes(run, Coverage::Body)
                + #[trigger] torn.bytes(Coverage::Body).take(k);
        law_segment_recovery(run, torn, k);
    }
}

/// The records of segments, one segment after the other.
pub fn recover_records(files: &Vec<Vec<u8>>) -> (r: Result<Vec<WALRecord>, IoError>)
    ensures
        match r {
            Ok(records) => all_entries(file_bytes(files@), files@.len()) matches Ok(entries)
                && keyed::views(records@) == raws_of(entries),
            Err(e) => all_entries(file_bytes(files@), files@.len()) == Err::<Seq<LogEntry>, _>(e@),
        },
{
    let ghost all = file_bytes(files@);
    let mut out: Vec<WALRecord> = Vec::new();
    let mut i: usize = 0;
    let ghost mut done: Seq<LogEntry> = seq![];
    assert(keyed::views(out@) =~= raws_of(done));
    while i < files.len()
        invariant
            i <= files@.len(),
            all == file_bytes(files@),
            all_entries(all, i as nat) == Ok::<_, IoFailure>(done),
            keyed::views(out@) == raws_of(done),
        decreases files@.len() - i,
    {
        match read_log(&files[i]) {
            Err(e) => {
                proof {
                    lemma_all_entries_err(all, (i + 1) as nat, files@.len());
                }
                return Err(e);
            },
            Ok(records) => {
                let mut records: Vec<WALRecord> = records;
                let ghost added = keyed::views(records@);
                let ghost before = keyed::views(out@);
                out.append(&mut records);
                proof {
                    let more = segment_entries(all[i as int])->Ok_0;
                    assert(keyed::views(out@) =~= before + added);
                    assert(raws_of(done) + raws_of(more) =~= raws_of(done + more));
                    done = done + more;
                }
            },
        }
        i = i + 1;
    }
    Ok(out)
}

/// The name of a file.
pub struct FileName {
    pub name: String,
}

impl View for FileName {
    type V = Seq<char>;

    open spec fn view(&self) -> Seq<char> {
        self.name@
    }
}

impl Keyed for FileName {
    open spec fn key_of(v: Seq<char>) -> Seq<u8> {
        vstd::utf8::encode_utf8(v)
    }

    fn key_bytes(&self) -> (k: &[u8]) {
        self.name.as_str().as_bytes()
    }
}

/// The names of log files among names of files, in the order of their bytes.
pub open spec fn sorted_log_names(names: Seq<Seq<char>>) -> Seq<Seq<char>> {
    keyed::stable_sort(
        names.filter(|n: Seq<char>| text::has_suffix(n, ".log"@)),
        |n: Seq<char>| vstd::utf8::encode_utf8(n),
    )
}

/// The names of texts.
pub open spec fn texts(names: Seq<String>) -> Seq<Seq<char>> {
    Seq::new(names.len(), |i: int| names[i]@)
}

/// The log files among the files of a directory, in the order in which they are
/// recovered.
pub fn log_file_names(names: &Vec<String>) -> (out: Vec<FileName>)
    ensures
        keyed::views(out@) == sorted_log_names(texts(names@)),
{
    let ghost all = texts(names@);
    let ghost pred = |n: Seq<char>| text::has_suffix(n, ".log"@);
    let tail: Vec<char> = text::chars_of(".log");
    let mut found: Vec<FileName> = Vec::new();
    let mut i: usize = 0;
    proof {
        reveal_with_fuel(Seq::filter, 1);
        assert(keyed::views(found@) =~= all.take(0).filter(pred));
    }
    while i < names.len()
        invariant
            i <= names@.len(),
            all == texts(names@),
            tail@ == ".log"@,
            pred == (|n: Seq<char>| text::has_suffix(n, ".log"@)),
            keyed::views(found@) == all.take(i as int).filter(pred),
        decreases names@.len() - i,
    {
        let chars: Vec<char> = text::chars_of(names[i].as_str());
        let ghost before = keyed::views(found@);
        proof {
            reveal_with_fuel(Seq::filter, 1);
            assert(all.take(i + 1).drop_last() =~= all.take(i as int));
            assert(all.take(i + 1).last() == names@[i as int]@);
        }
        if text::ends_with(chars.as_slice(), tail.as_slice()) {
            found.push(FileName { name: names[i].clone() });
            assert(keyed::views(found@) =~= before.push(names@[i as int]@));
        }
        i = i + 1;
    }
    proof {
        assert(all.take(i as int) =~= all);
        assert((|m: Seq<char>| FileName::key_of(m)) =~= (|n: Seq<char>|
            vstd::utf8::encode_utf8(n)));
    }
    sort_by_key(found)
}

/// The greatest number of a segment among names of files; 0 without any.
pub open spec fn max_segment(names: Seq<Seq<char>>) -> u64
    decreases names.len(),
{
    if names.len() == 0 {
        0
    } else {
        let front = max_segment(names.drop_last());
        match segment::segment_number(names.last()) {
            Some(id) => if id > front {
                id
            } else {
                front
            },
            None => front,
        }
    }
}

/// A segment that has to be opened for appending, and what is written to it first.
pub struct OpenSegment {
    pub filename: String,
    pub header: Option<Vec<u8>>,
}

/// A segment that has to be opened.
#[verifier::ext_equal]
pub struct OpenView {
    pub filename: Seq<char>,
    pub header: Option<Seq<u8>>,
}

impl View for OpenSegment {
    type V = OpenView;

    open spec fn view(&self) -> OpenView {
        OpenView {
            filename: self.filename@,
            header: match self.header {
                Some(h) => Some(h@),
                None => None,
            },
        }
    }
}

/// The segments of the log.
#[verifier::ext_equal]
pub struct WalView {
    /// The segment that is written to.
    pub active: u64,
    /// Segments that are no longer written to.
    pub sealed: Seq<u64>,
    /// Segments that can be used again.
    pub reserved: Seq<u64>,
    /// The size at which a segment is full.
    pub max_segment_size: u64,
}

/// The segments of the log.
pub struct WALManager {
    active_segment_id: SegmentId,
    sealed_wal: Vec<u64>,
    reserved_wal: Vec<u64>,
    max_segment_size: u64,
}

impl View for WALManager {
    type V = WalView;

    closed spec fn view(&self) -> WalView {
        WalView {
            active: self.active_segment_id.id,
            sealed: self.sealed_wal@,
            reserved: self.reserved_wal@,
            max_segment_size: self.max_segment_size,
        }
    }
}

/// A rotation of the log under way.
pub struct Rotation {
    /// The segment that was written to.
    pub previous: u64,
    /// Whether a reserved segment takes its place.
    pub reserved: bool,
    /// The name of the file of the previous segment, which goes.
    pub remove: String,
}

impl WalView {
    /// A record goes into a new segment where the active one has `segment_len` bytes.
    pub open spec fn full(self, segment_len: nat) -> bool {
        segment_len >= self.max_segment_size
    }

    /// The segments once the next one has become the active one.
    pub open spec fn next(self) -> WalView {
        WalView { active: self.active.wrapping_add(1), ..self }
    }

    /// The segments once the log has been rotated. Where segments are reserved, the first
    /// one is used up.
    pub open spec fn rotated(self) -> WalView {
        WalView {
            sealed: self.sealed.push(self.active),
            reserved: if self.reserved.len() > 0 {
                self.reserved.skip(1)
            } else {
                self.reserved
            },
            ..self.next()
        }
    }
}

/// A new segment.
pub open spec fn fresh_segment(id: u64) -> OpenView {
    OpenView { filename: segment::segment_name(id), header: Some(default_header().bytes()) }
}

/// A segment that is opened as it is.
pub open spec fn existing_segment(id: u64) -> OpenView {
    OpenView { filename: segment::segment_name(id), header: None }
}

impl WALManager {
    /// Finds the segment to go on with among the files of the log directory: the one
    /// with the greatest number. Without any above 0 it is segment 0, which is made
    /// where it does not exist.
    pub fn new(file_names: &Vec<String>, segment_zero_exists: bool, max_segment_size: u64) -> (r: (
        WALManager,
        OpenSegment,
    ))
        ensures
            r.0@ == (WalView {
                active: max_segment(texts(file_names@)),
                sealed: seq![],
                reserved: seq![],
                max_segment_size,
            }),
            r.1@ == (if max_segment(texts(file_names@)) == 0 && !segment_zero_exists {
                fresh_segment(0)
            } else {
                existing_segment(max_segment(texts(file_names@)))
            }),
    {
        let ghost all = texts(file_names@);
        let mut max_id: u64 = 0;
        let mut i: usize = 0;
        while i < file_names.len()
            invariant
                i <= file_names@.len(),
                all == texts(file_names@),
                max_id == max_segment(all.take(i as int)),
            decreases file_names@.len() - i,
        {
            proof {
                assert(all.take(i + 1).drop_last() =~= all.take(i as int));
                assert(all.take(i + 1).last() == file_names@[i as int]@);
            }
            match segment_number_of(file_names[i].as_str()) {
                Some(id) => {
                    if id > max_id {
                        max_id = id;
                    }
                },
                None => {},
            }
            i = i + 1;
        }
        assert(all.take(i as int) =~= all);
        let active = SegmentId { id: max_id };
        let header: Option<Vec<u8>> = if max_id == 0 && !segment_zero_exists {
            Some(WALHeader::default().encode())
        } else {
            None
        };
        let open = OpenSegment { filename: active.filename(), header };
        let manager = WALManager {
            active_segment_id: active,
            sealed_wal: Vec::new(),
            reserved_wal: Vec::new(),
            max_segment_size,
        };
        assert(manager@.sealed =~= seq![]);
        assert(manager@.reserved =~= seq![]);
        (manager, open)
    }

    /// The segment that is written to.
    pub fn active_segment(&self) -> (id: SegmentId)
        ensures
            id.id == self@.active,
    {
        self.active_segment_id
    }

    /// What has to be done to write a record to the active segment, which has
    /// `segment_len` bytes: where it is full a new segment is opened first. Then the
    /// bytes of the record are appended.
    pub fn write_log(
        &mut self,
        segment_len: u64,
        key: &Vec<u8>,
        value: &Vec<u8>,
        lsn: u64,
        record_type: RecordType,
    ) -> (r: (Option<OpenSegment>, Vec<u8>))
        ensures
            r.1@ == (LogEntry { record_type, lsn, key: key@, value: value@ }).bytes(Coverage::Body),
            !old(self)@.full(segment_len as nat) ==> r.0 is None && final(self)@ == old(self)@,
            old(self)@.full(segment_len as nat) ==> {
                &&& r.0 matches Some(open)
                &&& open@ == fresh_segment(final(self)@.active)
                &&& final(self)@ == old(self)@.next()
            },
    {
        let open: Option<OpenSegment> = if segment_len >= self.max_segment_size {
            Some(self.create_new_wal_file())
        } else {
            None
        };
        let record: Vec<u8> = encode_log_record(
            record_type,
            lsn,
            key.as_slice(),
            value.as_slice(),
            Coverage::Body,
        );
        (open, record)
    }

    /// Moves on to a new segment.
    pub fn create_new_wal_file(&mut self) -> (open: OpenSegment)
        ensures
            final(self)@ == old(self)@.next(),
            open@ == fresh_segment(final(self)@.active),
    {
        let id: u64 = self.active_segment_id.id;
        self.active_segment_id = SegmentId { id: id.wrapping_add(1) };
        OpenSegment {
            filename: self.active_segment_id.filename(),
            header: Some(WALHeader::default().encode()),
        }
    }

    /// Begins a rotation. Where a segment is reserved, the first one is used up, the
    /// active segment is sealed and the next one becomes active. The file of the segment
    /// that was active is to be removed.
    pub fn rotate_wal_file(&mut self) -> (r: Rotation)
        ensures
            r.previous == old(self)@.active,
            r.reserved == (old(self)@.reserved.len() > 0),
            r.remove@ == segment::segment_name(old(self)@.active),
            old(self)@.reserved.len() == 0 ==> final(self)@ == old(self)@,
            old(self)@.reserved.len() > 0 ==> final(self)@ == old(self)@.rotated(),
    {
        let previous: u64 = self.active_segment_id.id;
        let remove: String = self.active_segment_id.filename();
        if self.reserved_wal.len() > 0 {
            let _ = self.reserved_wal.remove(0);
            assert(self.reserved_wal@ =~= old(self)@.reserved.skip(1));
            self.sealed_wal.push(previous);
            self.active_segment_id = SegmentId { id: previous.wrapping_add(1) };
            Rotation { previous, reserved: true, remove }
        } else {
            Rotation { previous, reserved: false, remove }
        }
    }

    /// The segment to be opened once the file of the previous one has been removed: a new
    /// one, which starts with its header.
    pub fn rotation_target(&mut self, rotation: &Rotation) -> (open: OpenSegment)
        ensures
            final(self)@ == (if rotation.reserved {
                old(self)@
            } else {
                old(self)@.next()
            }),
            open@ == fresh_segment(final(self)@.active),
    {
        if rotation.reserved {
            OpenSegment {
                filename: self.active_segment_id.filename(),
                header: Some(WALHeader::default().encode()),
            }
        } else {
            self.create_new_wal_file()
        }
    }

    /// Ends a rotation once the segment is open. Without a reserved segment the
    /// previous one is sealed now. The number of the new segment comes back.
    pub fn finish_rotation(&mut self, rotation: Rotation) -> (id: u64)
        ensures
            final(self)@ == (if rotation.reserved {
                old(self)@
            } else {
                WalView { sealed: old(self)@.sealed.push(rotation.previous), ..old(self)@ }
            }),
            id == final(self)@.active,
    {
        if !rotation.reserved {
            self.sealed_wal.push(rotation.previous);
        }
        self.active_segment_id.id
    }

    /// Makes a sealed segment available again.
    pub fn change_to_reserve(&mut self, locked_wal: u64) -> (r: Result<SegmentId, IoError>)
        ensures
            old(self)@.sealed.contains(locked_wal) ==> {
                &&& r matches Ok(id)
                &&& id.id == locked_wal
                &&& final(self)@ == (WalView {
                    sealed: old(self)@.sealed.remove(old(self)@.sealed.index_of_first(locked_wal)->0),
                    reserved: old(self)@.reserved.push(locked_wal),
                    ..old(self)@
                })
            },
            !old(self)@.sealed.contains(locked_wal) ==> {
                &&& r matches Err(e)
                &&& e@ == (IoFailure {
                    kind: ErrorKind::NotFound,
                    message: "Locked WAL segment not found in sealed WAL list"@,
                })
                &&& final(self)@ == old(self)@
            },
    {
        let ghost sealed = self.sealed_wal@;
        let mut i: usize = 0;
        while i < self.sealed_wal.len()
            invariant
                i <= sealed.len(),
                sealed == self.sealed_wal@,
                self@ == old(self)@,
                forall|j: int| 0 <= j < i ==> #[trigger] sealed[j] != locked_wal,
            decreases sealed.len() - i,
        {
            if self.sealed_wal[i] == locked_wal {
                proof {
                    assert(sealed.contains(locked_wal));
                    sealed.index_of_first_ensures(locked_wal);
                    let first = sealed.index_of_first(locked_wal)->0;
                    assert(first == i) by {
                        if first < i {
                            assert(sealed[first] != locked_wal);
                        }
                    }
                }
                let id: u64 = self.sealed_wal.remove(i);
                self.reserved_wal.push(id);
                return Ok(SegmentId { id });
            }
            i = i + 1;
        }
        Err(IoError::new(ErrorKind::NotFound, "Locked WAL segment not found in sealed WAL list"))
    }
}

/// The changes that records make to a plain memtable: those of a known type set their
/// key, with its value or as deleted.
pub open spec fn recovered_plain(
    m: Map<Seq<u8>, (RecordType, Seq<u8>)>,
    records: Seq<RawRecord>,
) -> Map<Seq<u8>, (RecordType, Seq<u8>)>
    decreases records.len(),
{
    if records.len() == 0 {
        m
    } else {
        let front = recovered_plain(m, records.drop_last());
        let r = records.last();
        match RecordType::of_code(r.record_type) {
            Some(RecordType::Put) => front.insert(r.key, (RecordType::Put, r.value)),
            Some(RecordType::Delete) => front.insert(r.key, (RecordType::Delete, seq![])),
            None => front,
        }
    }
}

/// Puts recovered records into a plain memtable.
pub fn recover(records: &Vec<WALRecord>, memtable: &mut PlainMemtable)
    ensures
        final(memtable)@ == recovered_plain(old(memtable)@, keyed::views(records@)),
{
    let ghost all = keyed::views(records@);
    let mut i: usize = 0;
    assert(all.take(0) =~= seq![]);
    while i < records.len()
        invariant
            i <= records@.len(),
            all == keyed::views(records@),
            memtable@ == recovered_plain(old(memtable)@, all.take(i as int)),
        decreases records@.len() - i,
    {
        let record = &records[i];
        proof {
            assert(all.take(i + 1).drop_last() =~= all.take(i as int));
            assert(all.take(i + 1).last() == record@);
        }
        match RecordType::from_u8(record.record_type) {
            Some(RecordType::Put) => {
                memtable.insert(
                    bytes::copy_bytes(record.key.as_slice()),
                    RecordType::Put,
                    bytes::copy_bytes(record.value.as_slice()),
                );
            },
            Some(RecordType::Delete) => {
                let empty: Vec<u8> = Vec::new();
                assert(empty@ =~= seq![]);
                memtable.insert(
                    bytes::copy_bytes(record.key.as_slice()),
                    RecordType::Delete,
                    empty,
                );
            },
            None => {},
        }
        i = i + 1;
    }
    assert(all.take(i as int) =~= all);
}

/// The commands of records of a known type.
pub open spec fn commands_of(records: Seq<RawRecord>) -> Seq<CommandView>
    decreases records.len(),
{
    if records.len() == 0 {
        seq![]
    } else {
        let front = commands_of(records.drop_last());
        let r = records.last();
        match RecordType::of_code(r.record_type) {
            Some(record_type) => front.push(
                CommandView { record_type, key: r.key, value: r.value, lsn: r.lsn },
            ),
            None => front,
        }
    }
}

/// The commands of recovered records.
pub fn recover_commands(records: &Vec<WALRecord>) -> (out: Vec<LogCommand>)
    ensures
        keyed::views(out@) == commands_of(keyed::views(records@)),
{
    let ghost all = keyed::views(records@);
    let mut out: Vec<LogCommand> = Vec::new();
    let mut i: usize = 0;
    assert(keyed::views(out@) =~= commands_of(all.take(0)));
    while i < records.len()
        invariant
            i <= records@.len(),
            all == keyed::views(records@),
            keyed::views(out@) == commands_of(all.take(i as int)),
        decreases records@.len() - i,
    {
        let record = &records[i];
        let ghost before = keyed::views(out@);
        proof {
            assert(all.take(i + 1).drop_last() =~= all.take(i as int));
            assert(all.take(i + 1).last() == record@);
        }
        match RecordType::from_u8(record.record_type) {
            Some(record_type) => {
                let command = LogCommand {
                    record_type,
                    key: bytes::copy_bytes(record.key.as_slice()),
                    value: bytes::copy_bytes(record.value.as_slice()),
                    lsn: record.lsn,
                };
                let ghost c = command@;
                out.push(command);
                assert(keyed::views(out@) =~= before.push(c));
            },
            None => {},
        }
        i = i + 1;
    }
    assert(all.take(i as int) =~= all);
    out
}

/// The greatest number of the segments that were found: none has a greater one, and it is
/// that of one of them, or 0.
pub proof fn law_max_segment(names: Seq<Seq<char>>)
    ensures
        forall|i: int|
            0 <= i < names.len() ==> (segment::segment_number(#[trigger] names[i]) matches Some(id)
                ==> id <= max_segment(names)),
        max_segment(names) == 0 || exists|i: int|
            0 <= i < names.len() && segment::segment_number(#[trigger] names[i]) == Some(
                max_segment(names),
            ),
    decreases names.len(),
{
    if names.len() > 0 {
        let (front, n) = (names.drop_last(), names.len() - 1);
        law_max_segment(front);
        assert(names[n] == names.last());
        assert forall|i: int| 0 <= i < names.len() implies (segment::segment_number(
            #[trigger] names[i],
        ) matches Some(id) ==> id <= max_segment(names)) by {
            if i < n {
                assert(front[i] == names[i]);
            }
        }
        if max_segment(names) != 0 && max_segment(names) == max_segment(front) {
            let i = choose|i: int|
                0 <= i < front.len() && segment::segment_number(#[trigger] front[i]) == Some(
                    max_segment(front),
                );
            assert(names[i] == front[i]);
        }
    }
}

/// A log moves on to the next number, and a rotation notes the segment that was active
/// behind those that were noted before. A segment is full from its greatest size on.
pub proof fn law_log_moves_on(w: WalView, segment_len: nat)
    requires
        w.active < u64::MAX,
    ensures
        w.next().active == w.active + 1,
        w.next().sealed == w.sealed,
        w.next().max_segment_size == w.max_segment_size,
        w.rotated().active == w.active + 1,
        w.rotated().sealed == w.sealed.push(w.active),
        w.next().reserved == w.reserved,
        w.reserved.len() > 0 ==> w.reserved == seq![w.reserved[0]] + w.rotated().reserved,
        w.reserved.len() == 0 ==> w.rotated().reserved.len() == 0,
        w.rotated().max_segment_size == w.max_segment_size,
        segment_len < w.max_segment_size ==> !w.full(segment_len),
        segment_len >= w.max_segment_size ==> w.full(segment_len),
{
    if w.reserved.len() > 0 {
        assert(w.reserved =~= seq![w.reserved[0]] + w.rotated().reserved);
    }
}

/// A segment is opened under its name: a new one gets the header of a log without a
/// checkpoint, and to one that is there nothing is added.
pub proof fn law_segment_opened(id: u64)
    ensures
        fresh_segment(id).filename == segment::segment_name(id),
        existing_segment(id).filename == segment::segment_name(id),
        existing_segment(id).header is None,
        fresh_segment(id).header matches Some(header) && LogHeader::parse(header, true) == Ok::<
            _,
            IoFailure,
        >(
            LogHeader {
                magic: WAL_MAGIC@,
                version: WAL_VERSION,
                last_checkpoint: 0,
                last_checkpoint_offset: 0,
            },
        ),
{
    let h = default_header();
    let none = Seq::<u8>::empty();
    log_header::law_log_header_round_trip(h, none, true);
    assert(h.bytes() + none =~= h.bytes());
}

/// Of the files of a directory those with the tail of a log file are read, and no others.
pub proof fn law_only_logs_are_read(names: Seq<Seq<char>>, name: Seq<char>)
    ensures
        sorted_log_names(names).contains(name) <==> names.contains(name) && text::has_suffix(
            name,
            ".log"@,
        ),
{
    let p = |n: Seq<char>| text::has_suffix(n, ".log"@);
    let key = |n: Seq<char>| vstd::utf8::encode_utf8(n);
    let logs = names.filter(p);
    keyed::law_sort_keeps_all(logs, key);
    broadcast use vstd::seq_lib::group_to_multiset_ensures;

    assert(sorted_log_names(names) == keyed::stable_sort(logs, key));
    assert(sorted_log_names(names).contains(name) == logs.contains(name)) by {
        assert(sorted_log_names(names).to_multiset().count(name) == logs.to_multiset().count(name));
    }
    if logs.contains(name) {
        names.lemma_filter_contains_rev(p, name);
        let i = choose|i: int| 0 <= i < logs.len() && logs[i] == name;
        assert(p(logs[i])) by {
            names.lemma_filter_pred(p, i);
        }
    }
    if names.contains(name) && text::has_suffix(name, ".log"@) {
        let i = choose|i: int| 0 <= i < names.len() && names[i] == name;
        assert(p(names[i]));
        names.lemma_filter_contains(p, i);
    }
}

/// A plain memtable that log records are put into has of each key what its last record
/// says, and of a key that none names what it had before.
pub proof fn law_plain_recovered_last_wins(
    m: Map<Seq<u8>, (RecordType, Seq<u8>)>,
    entries: Seq<LogEntry>,
    key: Seq<u8>,
)
    ensures
        forall|i: int|
            0 <= i < entries.len() && (#[trigger] entries[i]).key == key && (forall|j: int|
                i < j < entries.len() ==> (#[trigger] entries[j]).key != key) ==> {
                let out = recovered_plain(m, raws_of(entries));
                out.dom().contains(key) && out[key] == (match entries[i].record_type {
                    RecordType::Put => (RecordType::Put, entries[i].value),
                    RecordType::Delete => (RecordType::Delete, Seq::<u8>::empty()),
                })
            },
        (forall|i: int| 0 <= i < entries.len() ==> (#[trigger] entries[i]).key != key) ==> {
            let out = recovered_plain(m, raws_of(entries));
            &&& out.dom().contains(key) == m.dom().contains(key)
            &&& m.dom().contains(key) ==> out[key] == m[key]
        },
    decreases entries.len(),
{
    if entries.len() > 0 {
        let (front, n) = (entries.drop_last(), entries.len() - 1);
        law_plain_recovered_last_wins(m, front, key);
        assert(raws_of(entries).drop_last() =~= raws_of(front));
        assert(raws_of(entries).last() == raw_of(entries[n]));
        record::law_type_codes(entries[n].record_type, 0);
        if forall|i: int| 0 <= i < entries.len() ==> (#[trigger] entries[i]).key != key {
            assert forall|i: int| 0 <= i < front.len() implies (#[trigger] front[i]).key != key by {
                assert(front[i] == entries[i]);
            }
            assert(entries[n].key != key);
        }
        assert forall|i: int|
            0 <= i < entries.len() && (#[trigger] entries[i]).key == key && (forall|j: int|
                i < j < entries.len() ==> (#[trigger] entries[j]).key != key) implies ({
            let out = recovered_plain(m, raws_of(entries));
            out.dom().contains(key) && out[key] == (match entries[i].record_type {
                RecordType::Put => (RecordType::Put, entries[i].value),
                RecordType::Delete => (RecordType::Delete, Seq::<u8>::empty()),
            })
        }) by {
            if i < n {
                assert(front[i] == entries[i]);
                assert forall|j: int| i < j < front.len() implies (#[trigger] front[j]).key
                    != key by {
                    assert(front[j] == entries[j]);
                }
                assert(entries[n].key != key);
            }
        }
    }
}

/// The commands of a log are those of its parts, one part behind the other. A record of an
/// unknown type is passed over and costs no other record its command.
pub proof fn law_commands_in_turn(a: Seq<RawRecord>, r: RawRecord, b: Seq<RawRecord>)
    ensures
        commands_of(a + b) == commands_of(a) + commands_of(b),
        RecordType::of_code(r.record_type) is None ==> commands_of(a + seq![r] + b) == commands_of(
            a,
        ) + commands_of(b),
        RecordType::of_code(r.record_type) matches Some(t) ==> commands_of(a + seq![r] + b)
            == commands_of(a) + seq![
            CommandView { record_type: t, key: r.key, value: r.value, lsn: r.lsn },
        ] + commands_of(b),
    decreases b.len(),
{
    if b.len() > 0 {
        law_commands_in_turn(a, r, b.drop_last());
        assert((a + b).drop_last() =~= a + b.drop_last());
        assert((a + seq![r] + b).drop_last() =~= a + seq![r] + b.drop_last());
        assert((a + b).last() == b.last() && (a + seq![r] + b).last() == b.last());
    } else {
        assert(a + b =~= a);
        assert((a + seq![r] + b).drop_last() =~= a);
        assert((a + seq![r] + b).last() == r);
    }
}

} // verus!
