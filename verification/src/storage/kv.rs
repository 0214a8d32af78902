//! The plain store: one value for each key, a log, and tables of timestamped records.
use vstd::prelude::*;
use vstd::string::*;
use crate::bytes;
use crate::error::{DBError, DBFailure};
use crate::storage::bloom;
use crate::storage::bloom::BloomFilterWrapper;
use crate::storage::constant::{MAXIMUM_LEVEL_FILES, MEMTABLE_SIZE_THRESHOLD};
use crate::storage::flush;
use crate::storage::flush::FlushedTable;
use crate::storage::footer;
use crate::storage::index;
use crate::storage::index::search_sstable_sparse;
use crate::storage::keyed;
use crate::storage::levelstore;
use crate::storage::log_format::{Coverage, LogEntry};
use crate::storage::memtable;
use crate::storage::memtable::PlainMemtable;
use crate::storage::record::{RecordType, TimedRecord};
use crate::storage::signal::{CompactionSignal, FlushSignal};
use crate::storage::sstable;
use crate::storage::sstable::SSTable;
use crate::storage::timed_table;
use crate::storage::wal;
use crate::storage::wal::{recover, store_log, WALRecord};
use crate::text;

verus! {

/// The contents of a plain memtable.
pub type Plain = Map<Seq<u8>, (RecordType, Seq<u8>)>;

/// The number of the log file with a name, if it is one.
pub open spec fn wal_number(name: Seq<char>) -> Option<u64> {
    if !text::has_prefix(name, "wal_"@) || !text::has_suffix(name, ".log"@) {
        None
    } else {
        text::u64_value(name.subrange(4, name.len() - 4))
    }
}

/// The name of a log file.
pub open spec fn wal_name(id: u64) -> Seq<char> {
    "wal_"@ + text::decimal(id as nat) + ".log"@
}

/// The name of a log file.
pub fn wal_filename(id: u64) -> (out: String)
    ensures
        out@ == wal_name(id),
{
    let mut out = "wal_".to_owned();
    text::push_decimal(&mut out, id);
    out.append(".log");
    out
}

/// The number of the log file with a name, if it is one.
pub fn parse_wal_filename(file_name: &str) -> (r: Option<u64>)
    ensures
        r == wal_number(file_name@),
{
    proof {
        reveal_strlit("wal_");
        reveal_strlit(".log");
    }
    let chars: Vec<char> = text::chars_of(file_name);
    let head: Vec<char> = text::chars_of("wal_");
    let tail: Vec<char> = text::chars_of(".log");
    if !text::starts_with(chars.as_slice(), head.as_slice()) || !text::ends_with(
        chars.as_slice(),
        tail.as_slice(),
    ) {
        return None;
    }
    let n: usize = chars.len();
    proof {
        let s = file_name@;
        assert(s.take(4)[3] == "wal_"@[3]);
        assert(s.skip(s.len() - 4)[0] == ".log"@[0]);
        if n < 8 {
            if n == 7 {
                assert(s[3] == s.skip(3)[0]);
            } else if n == 6 {
                assert(s.take(4)[2] == "wal_"@[2]);
                assert(s[2] == s.skip(2)[0]);
            } else if n == 5 {
                assert(s.take(4)[1] == "wal_"@[1]);
                assert(s[1] == s.skip(1)[0]);
            } else {
                assert(s.take(4)[0] == "wal_"@[0]);
                assert(s[0] == s.skip(0)[0]);
            }
        }
    }
    let mut part: Vec<char> = Vec::new();
    let mut i: usize = 4;
    assert(part@ =~= file_name@.subrange(4, 4));
    while i < n - 4
        invariant
            8 <= n,
            n == chars@.len(),
            chars@ == file_name@,
            4 <= i <= n - 4,
            part@ == file_name@.subrange(4, i as int),
        decreases n - i,
    {
        let ghost before = part@;
        part.push(chars[i]);
        assert(part@ =~= file_name@.subrange(4, i + 1));
        i = i + 1;
    }
    text::parse_u64(part.as_slice())
}

/// A log file that was found, with its number.
pub struct WalFile {
    pub id: u64,
    pub path: String,
}

/// What a log file that was found is.
#[verifier::ext_equal]
pub struct WalFileView {
    pub id: u64,
    pub path: Seq<char>,
}

impl View for WalFile {
    type V = WalFileView;

    open spec fn view(&self) -> WalFileView {
        WalFileView { id: self.id, path: self.path@ }
    }
}

/// A log file put among others in the order of the numbers, behind those with the same
/// number.
pub open spec fn inserted(files: Seq<WalFileView>, f: WalFileView) -> Seq<WalFileView>
    decreases files.len(),
{
    if files.len() == 0 || files.last().id <= f.id {
        files.push(f)
    } else {
        inserted(files.drop_last(), f).push(files.last())
    }
}

/// The log files among the files of a directory, given by name and path, in the order
/// of their numbers.
pub open spec fn wal_files(entries: Seq<(String, String)>) -> Seq<WalFileView>
    decreases entries.len(),
{
    if entries.len() == 0 {
        seq![]
    } else {
        let front = wal_files(entries.drop_last());
        let (name, path) = entries.last();
        match wal_number(name@) {
            Some(id) => inserted(front, WalFileView { id, path: path@ }),
            None => front,
        }
    }
}

/// Where a log file is put among others.
proof fn lemma_inserted(files: Seq<WalFileView>, f: WalFileView, at: int)
    requires
        0 <= at <= files.len(),
        at > 0 ==> files[at - 1].id <= f.id,
        forall|i: int| at <= i < files.len() ==> (#[trigger] files[i]).id > f.id,
    ensures
        inserted(files, f) == files.insert(at, f),
    decreases files.len(),
{
    if at == files.len() {
        assert(files.insert(at, f) =~= files.push(f));
    } else {
        let front = files.drop_last();
        assert(files.last() == files[files.len() - 1]);
        assert forall|i: int| at <= i < front.len() implies (#[trigger] front[i]).id > f.id by {
            assert(front[i] == files[i]);
        }
        lemma_inserted(front, f, at);
        assert(files.insert(at, f) =~= front.insert(at, f).push(files.last()));
    }
}

/// The log files among the files of a directory, in the order of their numbers.
pub fn discover_wal_files(entries: &Vec<(String, String)>) -> (out: Vec<WalFile>)
    ensures
        keyed::views(out@) == wal_files(entries@),
{
    let ghost all = entries@;
    let mut out: Vec<WalFile> = Vec::new();
    let mut i: usize = 0;
    assert(keyed::views(out@) =~= wal_files(all.take(0)));
    while i < entries.len()
        invariant
            i <= entries@.len(),
            all == entries@,
            keyed::views(out@) == wal_files(all.take(i as int)),
        decreases entries@.len() - i,
    {
        let ghost before = keyed::views(out@);
        proof {
            assert(all.take(i + 1).drop_last() =~= all.take(i as int));
            assert(all.take(i + 1).last() == entries@[i as int]);
        }
        match parse_wal_filename(entries[i].0.as_str()) {
            None => {},
            Some(id) => {
                let file = WalFile { id, path: entries[i].1.clone() };
                let ghost f = file@;
                let mut at: usize = out.len();
                while at > 0 && out[at - 1].id > id
                    invariant
                        at <= out@.len(),
                        before == keyed::views(out@),
                        forall|j: int| at <= j < before.len() ==> (#[trigger] before[j]).id > id,
                    decreases at,
                {
                    assert(before[at - 1] == out@[at - 1]@);
                    at = at - 1;
                }
                out.insert(at, file);
                proof {
                    assert(keyed::views(out@) =~= before.insert(at as int, f));
                    lemma_inserted(before, f, at as int);
                }
            },
        }
        i = i + 1;
    }
    assert(all.take(i as int) =~= all);
    out
}

/// A plain memtable with one more record of a log.
pub open spec fn with_entry(m: Plain, e: LogEntry) -> Plain {
    match e.record_type {
        RecordType::Put => m.insert(e.key, (RecordType::Put, e.value)),
        RecordType::Delete => m.insert(e.key, (RecordType::Delete, seq![])),
    }
}

/// The number of bytes that count for a record of a log.
pub open spec fn entry_size(e: LogEntry) -> nat {
    match e.record_type {
        RecordType::Put => e.key.len() + e.value.len(),
        RecordType::Delete => e.key.len(),
    }
}

/// What recovery has restored so far.
#[verifier::ext_equal]
pub struct RestoredView {
    pub table: Plain,
    /// How many records.
    pub entries: usize,
    /// How many bytes, at most as many as the number can say.
    pub size: u64,
}

impl RestoredView {
    /// Nothing restored yet.
    pub open spec fn none() -> RestoredView {
        RestoredView { table: memtable::no_entries(), entries: 0, size: 0 }
    }

    /// One more record.
    pub open spec fn with(self, e: LogEntry) -> RestoredView {
        RestoredView {
            table: with_entry(self.table, e),
            entries: self.entries.wrapping_add(1),
            size: if self.size + entry_size(e) <= u64::MAX {
                (self.size + entry_size(e)) as u64
            } else {
                u64::MAX
            },
        }
    }

    /// The records of a log.
    pub open spec fn with_all(self, es: Seq<LogEntry>) -> RestoredView
        decreases es.len(),
    {
        if es.len() == 0 {
            self
        } else {
            self.with_all(es.drop_last()).with(es.last())
        }
    }

    /// The records of a log file; a file that cannot be read or is damaged has none.
    pub open spec fn with_file(self, data: Option<Seq<u8>>) -> RestoredView {
        match data {
            None => self,
            Some(data) => match wal::recovered(data) {
                Err(_) => self,
                Ok(es) => self.with_all(es),
            },
        }
    }

    /// The records of log files, one file after the other.
    pub open spec fn with_files(self, files: Seq<Option<Vec<u8>>>) -> RestoredView
        decreases files.len(),
    {
        if files.len() == 0 {
            self
        } else {
            self.with_files(files.drop_last()).with_file(index::opt_bytes(files.last()))
        }
    }
}

/// Records that were logged in full are restored: of each key what its last record
/// says.
pub proof fn law_restored_last_wins(v: RestoredView, es: Seq<LogEntry>, i: int)
    requires
        0 <= i < es.len(),
        forall|j: int| i < j < es.len() ==> (#[trigger] es[j]).key != es[i].key,
    ensures
        v.with_all(es).table.dom().contains(es[i].key),
        v.with_all(es).table[es[i].key] == (match es[i].record_type {
            RecordType::Put => (RecordType::Put, es[i].value),
            RecordType::Delete => (RecordType::Delete, Seq::<u8>::empty()),
        }),
    decreases es.len(),
{
    let front = es.drop_last();
    if i < es.len() - 1 {
        assert forall|j: int| i < j < front.len() implies (#[trigger] front[j]).key
            != front[i].key by {
            assert(front[j] == es[j]);
        }
        law_restored_last_wins(v, front, i);
        assert(front[i] == es[i]);
        assert(es[es.len() - 1].key != es[i].key);
    }
}

/// What recovery has restored.
pub struct Restored {
    pub memtable: PlainMemtable,
    pub entries: usize,
    pub size: u64,
}

impl View for Restored {
    type V = RestoredView;

    open spec fn view(&self) -> RestoredView {
        RestoredView { table: self.memtable@, entries: self.entries, size: self.size }
    }
}

impl Restored {
    /// Takes in one record.
    fn absorb(&mut self, record: &WALRecord)
        ensures
            final(self)@ == old(self)@.with(record@.entry),
    {
        let key_len: u64 = record.key.len() as u64;
        self.entries = self.entries.wrapping_add(1);
        match record.record_type {
            RecordType::Put => {
                self.size = self.size.saturating_add(key_len).saturating_add(
                    record.value.len() as u64,
                );
                self.memtable.insert(
                    bytes::copy_bytes(record.key.as_slice()),
                    RecordType::Put,
                    bytes::copy_bytes(record.value.as_slice()),
                );
            },
            RecordType::Delete => {
                self.size = self.size.saturating_add(key_len);
                let empty: Vec<u8> = Vec::new();
                assert(empty@ =~= seq![]);
                self.memtable.insert(
                    bytes::copy_bytes(record.key.as_slice()),
                    RecordType::Delete,
                    empty,
                );
            },
        }
    }
}

/// Restores what log files have; a file that could not be read is `None`.
pub fn restore_from_existing_wals(files: &Vec<Option<Vec<u8>>>) -> (r: Restored)
    ensures
        r@ == RestoredView::none().with_files(files@),
{
    let mut out = Restored { memtable: PlainMemtable::new(), entries: 0, size: 0 };
    let ghost start = out@;
    let mut i: usize = 0;
    assert(files@.take(0) =~= seq![]);
    while i < files.len()
        invariant
            i <= files@.len(),
            start == RestoredView::none(),
            out@ == start.with_files(files@.take(i as int)),
        decreases files@.len() - i,
    {
        let ghost before = out@;
        proof {
            assert(files@.take(i + 1).drop_last() =~= files@.take(i as int));
            assert(files@.take(i + 1).last() == files@[i as int]);
        }
        match &files[i] {
            None => {},
            Some(data) => {
                match recover(data) {
                    Err(_) => {},
                    Ok(records) => {
                        let ghost es = wal::entries_of(records@);
                        let mut j: usize = 0;
                        assert(es.take(0) =~= seq![]);
                        while j < records.len()
                            invariant
                                j <= records@.len(),
                                es == wal::entries_of(records@),
                                out@ == before.with_all(es.take(j as int)),
                            decreases records@.len() - j,
                        {
                            proof {
                                assert(es.take(j + 1).drop_last() =~= es.take(j as int));
                                assert(es.take(j + 1).last() == records@[j as int]@.entry);
                            }
                            out.absorb(&records[j]);
                            j = j + 1;
                        }
                        assert(es.take(j as int) =~= es);
                    },
                }
            },
        }
        i = i + 1;
    }
    assert(files@.take(i as int) =~= files@);
    out
}

/// The greatest number of the log files that were found, which are in the order of
/// their numbers; 0 where there are none.
pub fn last_wal_id(files: &Vec<WalFile>) -> (id: u64)
    ensures
        id == (if files@.len() == 0 {
            0u64
        } else {
            files@.last().id
        }),
{
    if files.len() == 0 {
        0
    } else {
        files[files.len() - 1].id
    }
}

/// The state of the plain store.
#[verifier::ext_equal]
pub struct PlainStore {
    /// The memtable.
    pub table: Plain,
    /// The files of the tables, as bytes.
    pub files: Seq<Seq<u8>>,
    /// The number of bytes that were put into the memtable.
    pub size: u64,
    /// The next sequence number of the log.
    pub counter: Option<u64>,
    /// The log file.
    pub wal_path: Seq<char>,
    /// Its number.
    pub wal_id: u64,
}

/// The plain store.
pub struct PersistentKV {
    pub memtable: PlainMemtable,
    pub levelstore: Vec<Vec<u8>>,
    memtable_size: u64,
    wal: WALRecord,
    wal_path: String,
    wal_id: u64,
}

/// The bytes of names.
pub open spec fn byte_names(files: Seq<Vec<u8>>) -> Seq<Seq<u8>> {
    Seq::new(files.len(), |i: int| files[i]@)
}

/// The bytes of names.
pub open spec fn encoded_names(files: Seq<String>) -> Seq<Seq<u8>> {
    Seq::new(files.len(), |i: int| vstd::utf8::encode_utf8(files[i]@))
}

impl View for PersistentKV {
    type V = PlainStore;

    closed spec fn view(&self) -> PlainStore {
        PlainStore {
            table: self.memtable@,
            files: byte_names(self.levelstore@),
            size: self.memtable_size,
            counter: self.wal@.counter,
            wal_path: self.wal_path@,
            wal_id: self.wal_id,
        }
    }
}

/// The number of the first log file: the time, or behind the last one that was found.
pub open spec fn first_wal_id(now: u64, last: u64) -> u64 {
    let next = if last < u64::MAX {
        (last + 1) as u64
    } else {
        u64::MAX
    };
    if next > now {
        next
    } else {
        now
    }
}

impl PersistentKV {
    /// The store with what recovery has restored. `files` are the tables that it knows
    /// of, `now` is the time, `last_wal` the number of the last log file.
    pub fn new(files: &Vec<String>, restored: Restored, now: u64, last_wal: u64) -> (kv:
        PersistentKV)
        ensures
            kv@ == (PlainStore {
                table: restored@.table,
                files: encoded_names(files@),
                size: restored@.size,
                counter: Some(1),
                wal_path: wal_name(first_wal_id(now, last_wal)),
                wal_id: first_wal_id(now, last_wal),
            }),
    {
        let mut levelstore: Vec<Vec<u8>> = Vec::new();
        let mut i: usize = 0;
        while i < files.len()
            invariant
                i <= files@.len(),
                levelstore@.len() == i,
                forall|j: int|
                    0 <= j < i ==> (#[trigger] levelstore@[j])@ == vstd::utf8::encode_utf8(
                        files@[j]@,
                    ),
            decreases files@.len() - i,
        {
            levelstore.push(bytes::copy_bytes(files[i].as_str().as_bytes()));
            i = i + 1;
        }
        assert(byte_names(levelstore@) =~= encoded_names(files@));
        let next: u64 = last_wal.saturating_add(1);
        let wal_id: u64 = if next > now {
            next
        } else {
            now
        };
        PersistentKV {
            memtable: restored.memtable,
            levelstore,
            memtable_size: restored.size,
            wal: WALRecord::new(),
            wal_path: wal_filename(wal_id),
            wal_id,
        }
    }

    /// The number of bytes that were put into the memtable.
    pub fn memtable_size(&self) -> (n: u64)
        ensures
            n == self@.size,
    {
        self.memtable_size
    }

    /// The log file.
    pub fn wal_path(&self) -> (p: &String)
        ensures
            p@ == self@.wal_path,
    {
        &self.wal_path
    }

    /// What has to be appended to the log file, which has `file_len` bytes, before
    /// the key is changed.
    pub fn log_change(
        &mut self,
        file_len: u64,
        key: &Vec<u8>,
        value: &Vec<u8>,
        record_type: RecordType,
    ) -> (r: Result<Vec<u8>, DBError>)
        requires
            old(self)@.counter is Some,
        ensures
            ({
                let lsn = old(self)@.counter->0;
                &&& r matches Ok(out)
                &&& out@ == (if file_len == 0 {
                    wal::new_header().bytes()
                } else {
                    seq![]
                }) + (LogEntry { record_type, lsn, key: key@, value: value@ }).bytes(Coverage::Value)
                &&& final(self)@ == (PlainStore {
                    counter: Some(lsn.wrapping_add(1)),
                    ..old(self)@
                })
            }),
    {
        match store_log(file_len, key, value, record_type, &mut self.wal) {
            Err(e) => Err(DBError::Io(e)),
            Ok((out, _, _)) => Ok(out),
        }
    }

    /// Sets a key, once that has been logged. A memtable that has become too large is
    /// handed out, to be flushed, and an empty one takes its place.
    pub fn put(&mut self, key: Vec<u8>, value: Vec<u8>) -> (r: Option<FlushSignal>)
        requires
            old(self)@.size + key@.len() + value@.len() <= u64::MAX,
        ensures
            ({
                let table = old(self)@.table.insert(key@, (RecordType::Put, value@));
                let size = (old(self)@.size + key@.len() + value@.len()) as u64;
                match r {
                    None => size < MEMTABLE_SIZE_THRESHOLD && final(self)@ == (PlainStore {
                        table,
                        size,
                        ..old(self)@
                    }),
                    Some(signal) => {
                        &&& size >= MEMTABLE_SIZE_THRESHOLD
                        &&& signal.value@ == table
                        &&& signal.wal_path@ == old(self)@.wal_path
                        &&& signal.file_id == old(self)@.wal_id
                        &&& final(self)@ == (PlainStore {
                            table: memtable::no_entries(),
                            size: 0,
                            ..old(self)@
                        })
                    },
                }
            }),
    {
        let size: u64 = self.memtable_size + key.len() as u64 + value.len() as u64;
        self.memtable.insert(key, RecordType::Put, value);
        self.memtable_size = size;
        if size >= MEMTABLE_SIZE_THRESHOLD {
            let mut full = PlainMemtable::new();
            std::mem::swap(&mut full, &mut self.memtable);
            self.memtable_size = 0;
            Some(
                FlushSignal { value: full, wal_path: self.wal_path.clone(), file_id: self.wal_id },
            )
        } else {
            None
        }
    }

    /// Deletes a key, once that has been logged.
    pub fn delete(&mut self, key: Vec<u8>)
        ensures
            final(self)@ == (PlainStore {
                table: old(self)@.table.insert(key@, (RecordType::Delete, seq![])),
                ..old(self)@
            }),
    {
        let empty: Vec<u8> = Vec::new();
        assert(empty@ =~= seq![]);
        self.memtable.insert(key, RecordType::Delete, empty);
    }

    /// The signal to merge the tables, where there are enough of them.
    pub fn trigger_compaction_if_needed(&self, file_id: u64) -> (r: Option<CompactionSignal>)
        ensures
            match r {
                None => self@.files.len() < MAXIMUM_LEVEL_FILES,
                Some(signal) => {
                    &&& self@.files.len() >= MAXIMUM_LEVEL_FILES
                    &&& signal.compaction_level == 1
                    &&& signal.file_id == file_id
                    &&& levelstore::names(signal.files_to_compact@) == lossy_names(self@.files)
                },
            },
    {
        if self.levelstore.len() < MAXIMUM_LEVEL_FILES {
            return None;
        }
        let mut files_to_compact: Vec<String> = Vec::new();
        let mut i: usize = 0;
        while i < self.levelstore.len()
            invariant
                i <= self.levelstore@.len(),
                files_to_compact@.len() == i,
                forall|j: int|
                    0 <= j < i ==> (#[trigger] files_to_compact@[j])@ == text::utf8_lossy(
                        self.levelstore@[j]@,
                    ),
            decreases self.levelstore@.len() - i,
        {
            files_to_compact.push(text::from_utf8_lossy(self.levelstore[i].as_slice()));
            i = i + 1;
        }
        assert(levelstore::names(files_to_compact@) =~= lossy_names(self@.files));
        Some(CompactionSignal { files_to_compact, compaction_level: 1, file_id })
    }

    /// Moves on to a new log file, whose number is the time.
    pub fn rotate_wal(&mut self, now: u64)
        ensures
            final(self)@ == (PlainStore {
                wal_path: wal_name(now),
                wal_id: now,
                ..old(self)@
            }),
    {
        self.wal_id = now;
        self.wal_path = wal_filename(now);
    }

    /// Notes a table that a memtable was flushed into.
    pub fn add_table(&mut self, filename: &String)
        ensures
            final(self)@ == (PlainStore {
                files: old(self)@.files.push(vstd::utf8::encode_utf8(filename@)),
                ..old(self)@
            }),
    {
        let ghost before = self@.files;
        self.levelstore.push(bytes::copy_bytes(filename.as_str().as_bytes()));
        assert(self@.files =~= before.push(vstd::utf8::encode_utf8(filename@)));
    }

    /// Begins the lookup of a key: what the memtable has decides, else the tables are
    /// searched in their order.
    pub fn get(&self, key: &[u8]) -> (g: PlainGet)
        ensures
            g@ == start_get(self@.table, lossy_names(self@.files), key@),
    {
        let mut files: Vec<String> = Vec::new();
        let mut i: usize = 0;
        while i < self.levelstore.len()
            invariant
                i <= self.levelstore@.len(),
                files@.len() == i,
                forall|j: int|
                    0 <= j < i ==> (#[trigger] files@[j])@ == text::utf8_lossy(
                        self.levelstore@[j]@,
                    ),
            decreases self.levelstore@.len() - i,
        {
            files.push(text::from_utf8_lossy(self.levelstore[i].as_slice()));
            i = i + 1;
        }
        assert(levelstore::names(files@) =~= lossy_names(self@.files));
        let answer: Option<Option<Vec<u8>>> = match self.memtable.get(key) {
            Some((RecordType::Put, value)) => Some(Some(value)),
            Some((RecordType::Delete, _)) => Some(None),
            None => None,
        };
        PlainGet { key: bytes::copy_bytes(key), files, at: 0, answer }
    }
}

/// Names as text.
pub open spec fn lossy_names(files: Seq<Seq<u8>>) -> Seq<Seq<char>> {
    Seq::new(files.len(), |i: int| text::utf8_lossy(files[i]))
}

/// A lookup under way.
#[verifier::ext_equal]
pub struct GetView {
    pub key: Seq<u8>,
    /// The tables.
    pub files: Seq<Seq<char>>,
    /// How many of them have been searched.
    pub at: nat,
    /// The answer, once it is known.
    pub answer: Option<Option<Seq<u8>>>,
}

/// The lookup at its start.
pub open spec fn start_get(table: Plain, files: Seq<Seq<char>>, key: Seq<u8>) -> GetView {
    GetView {
        key,
        files,
        at: 0,
        answer: if !table.dom().contains(key) {
            None
        } else if table[key].0 == RecordType::Put {
            Some(Some(table[key].1))
        } else {
            Some(None)
        },
    }
}

/// What to do next in a lookup.
pub enum PlainStep {
    /// Load the table at this path.
    Load(String),
    /// The lookup is over.
    Done(Option<Vec<u8>>),
}

/// What to do next in a lookup.
pub enum PlainStepView {
    Load(Seq<char>),
    Done(Option<Seq<u8>>),
}

impl View for PlainStep {
    type V = PlainStepView;

    open spec fn view(&self) -> PlainStepView {
        match *self {
            PlainStep::Load(p) => PlainStepView::Load(p@),
            PlainStep::Done(v) => PlainStepView::Done(index::opt_bytes(v)),
        }
    }
}

impl GetView {
    /// What to do next.
    pub open spec fn step(self) -> PlainStepView {
        match self.answer {
            Some(answer) => PlainStepView::Done(answer),
            None => if self.at < self.files.len() {
                PlainStepView::Load(self.files[self.at as int])
            } else {
                PlainStepView::Done(None)
            },
        }
    }
}

/// The filter of the bytes reports `key`.
pub open spec fn filter_reports(filter: Seq<u8>, key: Seq<u8>) -> bool {
    exists|f: BloomFilterWrapper| #[trigger]
        footer::filter_in(filter, f) && f@.members.contains(key)
}

/// What a table says of a key.
pub open spec fn table_answer(data: Seq<u8>, key: Seq<u8>) -> Result<Option<Seq<u8>>, DBFailure> {
    match sstable::timed_sections(data) {
        Err(_) => Err(DBFailure::StorageError("Failed to decode SSTable"@)),
        Ok((_, index, filter)) => match sstable::timed_blocks_of(data, index, index.len()) {
            Err(_) => Err(DBFailure::StorageError("Failed to decode SSTable"@)),
            Ok(_) => if filter_reports(filter, key) {
                index::sparse_lookup(data, key, index)
            } else {
                Ok(None)
            },
        },
    }
}

/// The lookup of a key in the plain store.
pub struct PlainGet {
    key: Vec<u8>,
    files: Vec<String>,
    at: usize,
    answer: Option<Option<Vec<u8>>>,
}

impl View for PlainGet {
    type V = GetView;

    closed spec fn view(&self) -> GetView {
        GetView {
            key: self.key@,
            files: levelstore::names(self.files@),
            at: self.at as nat,
            answer: match self.answer {
                Some(v) => Some(index::opt_bytes(v)),
                None => None,
            },
        }
    }
}

/// Two filters of the same bytes report the same keys.
proof fn lemma_one_filter(filter: Seq<u8>, f: BloomFilterWrapper, g: BloomFilterWrapper)
    requires
        footer::filter_in(filter, f),
        footer::filter_in(filter, g),
    ensures
        f@ == g@,
{
    let a = choose|end: int| crate::storage::bloom::filter_read(filter, 0, f, end);
    let b = choose|end: int| crate::storage::bloom::filter_read(filter, 0, g, end);
    assert(crate::storage::bloom::filter_members(g) == crate::storage::bloom::filter_members(f));
}

impl PlainGet {
    /// What to do next.
    pub fn step(&self) -> (s: PlainStep)
        ensures
            s@ == self@.step(),
    {
        match &self.answer {
            Some(Some(v)) => PlainStep::Done(Some(bytes::copy_bytes(v.as_slice()))),
            Some(None) => PlainStep::Done(None),
            None => {
                if self.at < self.files.len() {
                    PlainStep::Load(self.files[self.at].clone())
                } else {
                    PlainStep::Done(None)
                }
            },
        }
    }

    /// The table that was asked for could not be opened: it is passed over.
    pub fn missing(&mut self)
        requires
            old(self)@.step() is Load,
        ensures
            final(self)@ == (GetView { at: old(self)@.at + 1, ..old(self)@ }),
    {
        assert(self.at < self.files.len());
        self.at = self.at + 1;
    }

    /// The table that was asked for has been loaded. A value in it is the answer.
    pub fn loaded(&mut self, data: &[u8]) -> (r: Result<(), DBError>)
        requires
            old(self)@.step() is Load,
            sstable::sections_usable(data@),
        ensures
            match table_answer(data@, old(self)@.key) {
                Err(failure) => (r matches Err(e) && e@ == failure) && final(self)@ == old(self)@,
                Ok(None) => r is Ok && final(self)@ == (GetView {
                    at: old(self)@.at + 1,
                    ..old(self)@
                }),
                Ok(Some(v)) => r is Ok && final(self)@ == (GetView {
                    answer: Some(Some(v)),
                    ..old(self)@
                }),
            },
    {
        assert(self.at < self.files.len());
        let table = match SSTable::decode(data) {
            Err(_) => {
                return Err(DBError::StorageError("Failed to decode SSTable".to_owned()));
            },
            Ok(table) => table,
        };
        let known = table.bloom.contains(self.key.as_slice());
        proof {
            let filter = sstable::timed_sections(data@)->Ok_0.2;
            assert(footer::filter_in(filter, table.bloom));
            if filter_reports(filter, self@.key) {
                let f = choose|f: BloomFilterWrapper| #[trigger]
                    footer::filter_in(filter, f) && f@.members.contains(self@.key);
                lemma_one_filter(filter, table.bloom, f);
            }
            assert(known == filter_reports(filter, self@.key));
        }
        if !known {
            self.at = self.at + 1;
            return Ok(());
        }
        match search_sstable_sparse(data, self.key.as_slice(), &table.index) {
            Err(e) => Err(e),
            Ok(None) => {
                self.at = self.at + 1;
                Ok(())
            },
            Ok(Some(v)) => {
                self.answer = Some(Some(v));
                Ok(())
            },
        }
    }
}

/// A lookup answers with what was last written to a key, as long as that is in the
/// memtable: its value, or nothing where it was deleted. Other keys are not affected.
pub proof fn law_plain_read_your_write(
    table: Plain,
    files: Seq<Seq<char>>,
    key: Seq<u8>,
    value: Seq<u8>,
    other: Seq<u8>,
)
    ensures
        start_get(table.insert(key, (RecordType::Put, value)), files, key).step()
            == PlainStepView::Done(Some(value)),
        start_get(table.insert(key, (RecordType::Delete, seq![])), files, key).step()
            == PlainStepView::Done(None::<Seq<u8>>),
        other != key ==> start_get(table.insert(key, (RecordType::Put, value)), files, other)
            == start_get(table, files, other),
{
}

/// The number of a log file is read off its name.
pub proof fn law_wal_name_reads_back(id: u64)
    ensures
        wal_number(wal_name(id)) == Some(id),
{
    reveal_strlit("wal_");
    reveal_strlit(".log");
    let (digits, name) = (text::decimal(id as nat), wal_name(id));
    text::law_decimal_reads_back(id as nat);
    text::law_prefix_and_suffix("wal_"@, digits + ".log"@, name);
    text::law_prefix_and_suffix("wal_"@ + digits, ".log"@, name);
    assert("wal_"@ + (digits + ".log"@) =~= name);
    assert(name.subrange(4, name.len() - 4) =~= digits);
}

/// A file with a number is one whose name is made of the head and the tail that all log
/// files have and, between them, a text that spells the number.
pub proof fn law_wal_number_is_spelled(name: Seq<char>, middle: Seq<char>)
    ensures
        wal_number("wal_"@ + middle + ".log"@) == text::u64_value(middle),
        wal_number(name) is Some ==> exists|m: Seq<char>|
            #![trigger text::u64_value(m)]
            name == "wal_"@ + m + ".log"@ && text::u64_value(m) == wal_number(name),
{
    reveal_strlit("wal_");
    reveal_strlit(".log");
    let whole = "wal_"@ + middle + ".log"@;
    text::law_prefix_and_suffix("wal_"@, middle + ".log"@, whole);
    text::law_prefix_and_suffix("wal_"@ + middle, ".log"@, whole);
    assert("wal_"@ + (middle + ".log"@) =~= whole);
    assert(whole.subrange(4, whole.len() - 4) =~= middle);
    if wal_number(name) is Some {
        let m = name.subrange(4, name.len() - 4);
        text::law_prefix_and_suffix("wal_"@, ".log"@, name);
        if name.len() < 8 {
            assert(name.take(4)[3] == "wal_"@[3]);
            assert(name.skip(name.len() - 4)[0] == ".log"@[0]);
            if name.len() == 7 {
                assert(name[3] == name.skip(3)[0]);
            } else if name.len() == 6 {
                assert(name.take(4)[2] == "wal_"@[2]);
                assert(name[2] == name.skip(2)[0]);
            } else if name.len() == 5 {
                assert(name.take(4)[1] == "wal_"@[1]);
                assert(name[1] == name.skip(1)[0]);
            } else {
                assert(name.take(4)[0] == "wal_"@[0]);
                assert(name[0] == name.skip(0)[0]);
            }
        }
        assert(name =~= "wal_"@ + m + ".log"@);
        assert(text::u64_value(m) == wal_number(name));
    }
}

proof fn lemma_inserted_multiset(files: Seq<WalFileView>, f: WalFileView)
    ensures
        inserted(files, f).len() == files.len() + 1,
        inserted(files, f).to_multiset() == files.to_multiset().insert(f),
    decreases files.len(),
{
    broadcast use vstd::seq_lib::group_to_multiset_ensures;

    if files.len() > 0 && files.last().id > f.id {
        let front = files.drop_last();
        lemma_inserted_multiset(front, f);
        assert(files =~= front.push(files.last()));
        assert(inserted(files, f).to_multiset() =~= files.to_multiset().insert(f));
    }
}

/// Each file of a directory whose name has a number is among the log files, as often as
/// it is there, with its number and its path; no other file is.
pub proof fn law_wal_files_found(entries: Seq<(String, String)>, e: (String, String))
    ensures
        wal_files(Seq::<(String, String)>::empty()).len() == 0,
        wal_files(entries.push(e)).to_multiset() == (match wal_number(e.0@) {
            Some(id) => wal_files(entries).to_multiset().insert(WalFileView { id, path: e.1@ }),
            None => wal_files(entries).to_multiset(),
        }),
{
    assert(entries.push(e).drop_last() =~= entries);
    assert(entries.push(e).last() == e);
    if let Some(id) = wal_number(e.0@) {
        lemma_inserted_multiset(wal_files(entries), WalFileView { id, path: e.1@ });
    }
}

proof fn lemma_inserted_sorted(files: Seq<WalFileView>, f: WalFileView, i: int, j: int)
    requires
        forall|a: int, b: int|
            0 <= a < b < files.len() ==> (#[trigger] files[a]).id <= (#[trigger] files[b]).id,
        0 <= i < j < inserted(files, f).len(),
    ensures
        inserted(files, f)[i].id <= inserted(files, f)[j].id,
        forall|k: int|
            0 <= k < inserted(files, f).len() ==> (#[trigger] inserted(files, f)[k]).id <= f.id
                || files.len() > 0 && inserted(files, f)[k].id <= files.last().id,
    decreases files.len(),
{
    if files.len() == 0 || files.last().id <= f.id {
        assert forall|k: int| 0 <= k < files.push(f).len() implies (#[trigger] files.push(f)[k]).id
            <= f.id by {
            if k < files.len() {
                assert(files[k].id <= files.last().id || k == files.len() - 1);
            }
        }
    } else {
        let (front, out) = (files.drop_last(), inserted(files.drop_last(), f));
        assert forall|a: int, b: int| 0 <= a < b < front.len() implies (#[trigger] front[a]).id
            <= (#[trigger] front[b]).id by {
            assert(front[a] == files[a] && front[b] == files[b]);
        }
        assert(inserted(files, f) == out.push(files.last()));
        if front.len() > 0 {
            assert(front.last() == files[files.len() - 2]);
            assert(files[files.len() - 2].id <= files[files.len() - 1].id);
            lemma_inserted_multiset(front, f);
            lemma_inserted_sorted(front, f, 0, 1);
        }
        if j < out.len() {
            lemma_inserted_sorted(front, f, i, j);
        }
        assert forall|k: int| 0 <= k < inserted(files, f).len() implies (#[trigger] inserted(
            files,
            f,
        )[k]).id <= files.last().id by {
            if k < out.len() {
                assert(out[k].id <= f.id || front.len() > 0 && out[k].id <= front.last().id);
            }
        }
    }
}

/// The log files are in the order of their numbers, so the last one has the greatest.
pub proof fn law_wal_files_sorted(entries: Seq<(String, String)>)
    ensures
        forall|i: int, j: int|
            0 <= i < j < wal_files(entries).len() ==> (#[trigger] wal_files(entries)[i]).id <= (
            #[trigger] wal_files(entries)[j]).id,
    decreases entries.len(),
{
    if entries.len() > 0 {
        let front = wal_files(entries.drop_last());
        law_wal_files_sorted(entries.drop_last());
        if let Some(id) = wal_number(entries.last().0@) {
            let f = WalFileView { id, path: entries.last().1@ };
            assert forall|i: int, j: int| 0 <= i < j < wal_files(entries).len() implies (
            #[trigger] wal_files(entries)[i]).id <= (#[trigger] wal_files(entries)[j]).id by {
                lemma_inserted_sorted(front, f, i, j);
            }
        }
    }
}

/// The first log file of a run has a number that none of those that were found has, as
/// long as there is such a number, and not one before the time.
pub proof fn law_first_wal_is_new(now: u64, last: u64)
    ensures
        first_wal_id(now, last) >= now,
        last < u64::MAX ==> first_wal_id(now, last) > last,
        first_wal_id(now, last) > now ==> first_wal_id(now, last) == last || first_wal_id(now, last)
            == last + 1,
{
}

/// A key that none of the records names keeps what was restored of it before.
pub proof fn law_unnamed_key_stays(v: RestoredView, es: Seq<LogEntry>, key: Seq<u8>)
    requires
        forall|i: int| 0 <= i < es.len() ==> (#[trigger] es[i]).key != key,
    ensures
        v.with_all(es).table.dom().contains(key) == v.table.dom().contains(key),
        v.table.dom().contains(key) ==> v.with_all(es).table[key] == v.table[key],
    decreases es.len(),
{
    if es.len() > 0 {
        let front = es.drop_last();
        assert forall|i: int| 0 <= i < front.len() implies (#[trigger] front[i]).key != key by {
            assert(front[i] == es[i]);
        }
        law_unnamed_key_stays(v, front, key);
        assert(es[es.len() - 1] == es.last());
    }
}

/// The number of bytes in the keys of records, and in the values that they set.
pub open spec fn bytes_of_entries(es: Seq<LogEntry>) -> nat
    decreases es.len(),
{
    if es.len() == 0 {
        0
    } else {
        bytes_of_entries(es.drop_last()) + es.last().key.len() + (if es.last().record_type
            == RecordType::Put {
            es.last().value.len()
        } else {
            0
        })
    }
}

/// Restoring counts the records, and the bytes of their keys and of the values that they
/// set, at most as many as the number can say.
pub proof fn law_restored_counts(v: RestoredView, es: Seq<LogEntry>)
    requires
        v.entries + es.len() <= usize::MAX,
    ensures
        v.with_all(es).entries == v.entries + es.len(),
        v.size + bytes_of_entries(es) <= u64::MAX ==> v.with_all(es).size == v.size
            + bytes_of_entries(es),
        v.size + bytes_of_entries(es) > u64::MAX ==> v.with_all(es).size == u64::MAX,
    decreases es.len(),
{
    if es.len() > 0 {
        law_restored_counts(v, es.drop_last());
    }
}

proof fn lemma_with_all_concat(v: RestoredView, a: Seq<LogEntry>, b: Seq<LogEntry>)
    ensures
        v.with_all(a + b) == v.with_all(a).with_all(b),
    decreases b.len(),
{
    if b.len() == 0 {
        assert(a + b =~= a);
    } else {
        lemma_with_all_concat(v, a, b.drop_last());
        assert((a + b).drop_last() =~= a + b.drop_last());
        assert((a + b).last() == b.last());
    }
}

/// `runs` are the records of log files, file by file: those of a file that cannot be read
/// or is damaged are none.
pub open spec fn runs_of_files(files: Seq<Option<Vec<u8>>>, runs: Seq<Seq<LogEntry>>) -> bool {
    &&& runs.len() == files.len()
    &&& forall|i: int|
        0 <= i < files.len() ==> match #[trigger] files[i] {
            None => runs[i].len() == 0,
            Some(data) => match wal::recovered(data@) {
                Ok(es) => runs[i] == es,
                Err(_) => runs[i].len() == 0,
            },
        }
}

proof fn lemma_files_are_runs(
    v: RestoredView,
    files: Seq<Option<Vec<u8>>>,
    runs: Seq<Seq<LogEntry>>,
)
    requires
        runs_of_files(files, runs),
    ensures
        v.with_files(files) == v.with_all(runs.flatten_alt()),
    decreases files.len(),
{
    reveal_with_fuel(Seq::flatten_alt, 2);
    if files.len() > 0 {
        let (f, r) = (files.drop_last(), runs.drop_last());
        assert forall|i: int| 0 <= i < f.len() implies match #[trigger] f[i] {
            None => r[i].len() == 0,
            Some(data) => match wal::recovered(data@) {
                Ok(es) => r[i] == es,
                Err(_) => r[i].len() == 0,
            },
        } by {
            assert(f[i] == files[i] && r[i] == runs[i]);
        }
        lemma_files_are_runs(v, f, r);
        let n = files.len() - 1;
        assert(files[n] == files.last() && runs[n] == runs.last());
        lemma_with_all_concat(v, r.flatten_alt(), runs.last());
        if runs.last().len() == 0 {
            assert(r.flatten_alt() + runs.last() =~= r.flatten_alt());
        }
    }
}

/// Recovery from log files gives of each key what its last record among all of them, one
/// file after the other, says, and nothing of a key that no record names. It counts all
/// records.
pub proof fn law_files_restored(files: Seq<Option<Vec<u8>>>, runs: Seq<Seq<LogEntry>>)
    requires
        runs_of_files(files, runs),
    ensures
        forall|i: int|
            0 <= i < runs.flatten_alt().len() && (forall|j: int|
                i < j < runs.flatten_alt().len() ==> (#[trigger] runs.flatten_alt()[j]).key
                    != runs.flatten_alt()[i].key) ==> {
                let e = #[trigger] runs.flatten_alt()[i];
                let table = RestoredView::none().with_files(files).table;
                table.dom().contains(e.key) && table[e.key] == (match e.record_type {
                    RecordType::Put => (RecordType::Put, e.value),
                    RecordType::Delete => (RecordType::Delete, Seq::<u8>::empty()),
                })
            },
        forall|key: Seq<u8>|
            (forall|i: int|
                0 <= i < runs.flatten_alt().len() ==> (#[trigger] runs.flatten_alt()[i]).key != key)
                ==> !#[trigger] RestoredView::none().with_files(files).table.dom().contains(key),
        runs.flatten_alt().len() <= usize::MAX ==> RestoredView::none().with_files(files).entries
            == runs.flatten_alt().len(),
{
    let all = runs.flatten_alt();
    let v = RestoredView::none();
    lemma_files_are_runs(v, files, runs);
    assert forall|i: int|
        0 <= i < all.len() && (forall|j: int|
            i < j < all.len() ==> (#[trigger] all[j]).key != all[i].key) implies ({
        let e = #[trigger] all[i];
        let table = v.with_files(files).table;
        table.dom().contains(e.key) && table[e.key] == (match e.record_type {
            RecordType::Put => (RecordType::Put, e.value),
            RecordType::Delete => (RecordType::Delete, Seq::<u8>::empty()),
        })
    }) by {
        law_restored_last_wins(v, all, i);
    }
    assert forall|key: Seq<u8>|
        (forall|i: int| 0 <= i < all.len() ==> (#[trigger] all[i]).key != key)
            implies !#[trigger] v.with_files(files).table.dom().contains(key) by {
        law_unnamed_key_stays(v, all, key);
    }
    if all.len() <= usize::MAX {
        law_restored_counts(v, all);
    }
}

/// A log file that cannot be read changes nothing of what was restored, and neither does
/// a damaged one; a file of records adds them behind those of the files before.
pub proof fn law_file_adds_its_records(
    v: RestoredView,
    before: Seq<LogEntry>,
    file: Option<Seq<u8>>,
)
    ensures
        match file {
            None => v.with_file(file) == v,
            Some(data) => match wal::recovered(data) {
                Err(_) => v.with_file(file) == v,
                Ok(es) => v.with_all(before).with_file(file) == v.with_all(before + es),
            },
        },
{
    if let Some(data) = file {
        if let Ok(es) = wal::recovered(data) {
            lemma_with_all_concat(v, before, es);
        }
    }
}

/// A lookup of a key that the memtable does not have asks for one table after the other,
/// each by its path, and answers with nothing once all have been passed over. A value
/// that a table has ends it.
pub proof fn law_plain_lookup_order(
    table: Plain,
    files: Seq<Seq<char>>,
    key: Seq<u8>,
    n: nat,
    value: Seq<u8>,
)
    requires
        !table.dom().contains(key),
    ensures
        start_get(table, files, key).key == key,
        start_get(table, files, key).at == 0,
        n < files.len() ==> (GetView { at: n, ..start_get(table, files, key) }).step()
            == PlainStepView::Load(files[n as int]),
        n >= files.len() ==> (GetView { at: n, ..start_get(table, files, key) }).step()
            == PlainStepView::Done(None::<Seq<u8>>),
        (GetView { at: n, answer: Some(Some(value)), ..start_get(table, files, key) }).step()
            == PlainStepView::Done(Some(value)),
{
}

/// The paths that a lookup asks for, and that a merge is given, are the names that the
/// tables were noted under.
pub proof fn law_names_read_back(files: Seq<String>, i: int)
    requires
        0 <= i < files.len(),
    ensures
        lossy_names(encoded_names(files)).len() == files.len(),
        lossy_names(encoded_names(files))[i] == files[i]@,
{
    vstd::utf8::encode_utf8_valid_utf8(files[i]@);
    vstd::utf8::encode_utf8_decode_utf8(files[i]@);
}

proof fn lemma_timed_blocks_read(rs: Seq<TimedRecord>, words: Seq<u64>, hashes: u32, n: nat)
    requires
        timed_table::all_fit(rs),
        timed_table::timed_table(timed_table::timed_blocks(rs), words, hashes).len() <= u64::MAX,
        n <= timed_table::timed_blocks(rs).len(),
    ensures
        sstable::timed_blocks_of(
            timed_table::timed_table(timed_table::timed_blocks(rs), words, hashes),
            timed_table::timed_index(timed_table::timed_blocks(rs)),
            n,
        ) is Ok,
    decreases n,
{
    if n > 0 {
        lemma_timed_blocks_read(rs, words, hashes, (n - 1) as nat);
        timed_table::lemma_timed_block_read(rs, words, hashes, n - 1);
    }
}

/// The table that a memtable was flushed into answers of each key what the memtable had:
/// its value, or nothing where the key was deleted or was not there.
pub proof fn law_flushed_table_answers(
    m: Plain,
    t: FlushedTable,
    rs: Seq<TimedRecord>,
    key: Seq<u8>,
)
    requires
        flush::flushed_records(m, t, rs),
        timed_table::all_fit(rs),
        bloom::sound(t.bloom),
        timed_table::timed_blocks(rs).len() <= u64::MAX,
        t.data@.len() <= u64::MAX,
    ensures
        table_answer(t.data@, key) == Ok::<_, DBFailure>(
            if m.dom().contains(key) && m[key].0 == RecordType::Put {
                Some(m[key].1)
            } else {
                None
            },
        ),
{
    let (words, hashes) = (t.bloom@.words, t.bloom@.hashes);
    let blocks = timed_table::timed_blocks(rs);
    let filter = bloom::bloom_bytes(words, hashes);
    let none = Seq::<u8>::empty();
    timed_table::law_timed_table_sections(rs, words, hashes);
    lemma_timed_blocks_read(rs, words, hashes, blocks.len());
    flush::law_flush_then_lookup(m, t, rs, key);
    bloom::law_bloom_round_trip(none, words, hashes, none);
    assert(none + filter + none =~= filter);
    bloom::law_filter_counts(hashes, 0);
    assert(bloom::filter_read(filter, 0, t.bloom, filter.len() as int));
    assert(footer::filter_in(filter, t.bloom));
    if filter_reports(filter, key) {
        let f = choose|f: BloomFilterWrapper| #[trigger]
            footer::filter_in(filter, f) && f@.members.contains(key);
        lemma_one_filter(filter, f, t.bloom);
    }
    assert(filter_reports(filter, key) == t.bloom@.members.contains(key));
}

/// A lookup in the plain store finds a key that was flushed: it asks for the tables in
/// their order, passes those over that say nothing of the key, and answers with the value
/// of the first one that has one.
pub proof fn law_plain_lookup_finds_first(
    g: GetView,
    answers: spec_fn(Seq<char>) -> Option<Seq<u8>>,
    n: nat,
)
    requires
        g.answer is None,
        g.at <= n <= g.files.len(),
        forall|i: int| g.at <= i < n ==> answers(#[trigger] g.files[i]) is None,
        n < g.files.len() ==> answers(g.files[n as int]) is Some,
    ensures
        looked_up(g, answers) == (if n < g.files.len() {
            answers(g.files[n as int])
        } else {
            None
        }),
    decreases g.files.len() - g.at,
{
    if g.at < n {
        assert(answers(g.files[g.at as int]) is None);
        let next = GetView { at: g.at + 1, ..g };
        law_plain_lookup_finds_first(next, answers, n);
    }
}

/// What a lookup ends with where each table that it asks for is loaded and answers as
/// `answers` says.
pub open spec fn looked_up(g: GetView, answers: spec_fn(Seq<char>) -> Option<Seq<u8>>) -> Option<
    Seq<u8>,
>
    decreases g.files.len() - g.at,
{
    match g.step() {
        PlainStepView::Done(r) => r,
        PlainStepView::Load(path) => if g.at < g.files.len() {
            match answers(path) {
                Some(v) => Some(v),
                None => looked_up(GetView { at: g.at + 1, ..g }, answers),
            }
        } else {
            None
        },
    }
}

/// A table with a damaged section or a damaged block answers no lookup, whatever the key.
pub proof fn law_damaged_table_refused(data: Seq<u8>, key: Seq<u8>)
    requires
        sstable::timed_sections(data) matches Ok((_, index, _)) ==> sstable::timed_blocks_of(
            data,
            index,
            index.len(),
        ) is Err,
    ensures
        table_answer(data, key) == Err::<Option<Seq<u8>>, _>(
            DBFailure::StorageError("Failed to decode SSTable"@),
        ),
{
}

} // verus!
