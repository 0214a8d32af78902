//! The write path: numbering of changes, the active memtable, and flushes.
use vstd::prelude::*;
use vstd::string::*;
use crate::bytes;
use crate::error::IoFailure;
use crate::order;
use crate::storage::bloom;
use crate::storage::bloom::BloomFilterWrapper;
use crate::storage::compactionmanager::merge;
use crate::storage::compactionmanager::path;
use crate::storage::compactionmanager::path::flush_path;
use crate::storage::keymap;
use crate::storage::manifest_codec::{MetaView, SSTableMeta};
use crate::storage::memtable;
use crate::storage::memtable::Memtable;
use crate::storage::readmanager::table;
use crate::storage::record::{MemtableRecord, RecordType, Version};
use crate::storage::recovermanager::log_store::{CommandView, LogCommand};
use crate::storage::sstable_codec;
use crate::storage::sstable_codec::{SSTableCodec, TableView};
use crate::storage::writemanager::block;
use crate::storage::writemanager::latest;
use crate::storage::writemanager::latest::latest_records;
use crate::storage::writemanager::pack;
use crate::storage::writemanager::pack::Packer;

verus! {

/// The record that a command leaves in the memtable.
pub open spec fn record_of(c: CommandView) -> Version {
    Version {
        key: Seq::empty(),
        value: match c.record_type {
            RecordType::Put => c.value,
            RecordType::Delete => Seq::empty(),
        },
        record_type: c.record_type,
        lsn: c.lsn,
    }
}

/// The state of the write path.
#[verifier::ext_equal]
pub struct WriteView {
    /// The active memtable.
    pub table: Map<(Seq<u8>, u64), Version>,
    /// The number of bytes that were put into it.
    pub size: usize,
    /// The last sequence number that was given out.
    pub sequence: u64,
    /// The directory of the tables.
    pub dir: Seq<char>,
}

impl WriteView {
    /// The state at the start.
    pub open spec fn fresh(dir: Seq<char>, sequence: u64) -> WriteView {
        WriteView { table: memtable::no_versions(), size: 0, sequence, dir }
    }

    /// The state once the next sequence number was given out.
    pub open spec fn numbered(self) -> WriteView {
        WriteView { sequence: (self.sequence + 1) as u64, ..self }
    }

    /// The state once a command went into the memtable.
    pub open spec fn applied(self, c: CommandView) -> WriteView {
        WriteView {
            table: self.table.insert((c.key, c.lsn), record_of(c)),
            size: self.size.wrapping_add(c.key.len() as usize).wrapping_add(
                record_of(c).value.len() as usize,
            ),
            ..self
        }
    }

    /// The state once a command went into the memtable that was numbered elsewhere:
    /// no sequence number up to its own is given out again.
    pub open spec fn replicated(self, c: CommandView) -> WriteView {
        WriteView {
            sequence: if c.lsn > self.sequence {
                c.lsn
            } else {
                self.sequence
            },
            ..self.applied(c)
        }
    }

    /// Each record stands under its own sequence number, and none is above the last
    /// one that was given out.
    pub open spec fn ok(self) -> bool {
        &&& latest::consistent(self.table)
        &&& forall|slot: (Seq<u8>, u64)| #[trigger]
            self.table.dom().contains(slot) ==> slot.1 <= self.sequence
    }

    /// The command for the next change of a key.
    pub open spec fn command(
        self,
        record_type: RecordType,
        key: Seq<u8>,
        value: Seq<u8>,
    ) -> CommandView {
        CommandView { record_type, key, value, lsn: (self.sequence + 1) as u64 }
    }

    /// The state after a change of a key.
    pub open spec fn changed(
        self,
        record_type: RecordType,
        key: Seq<u8>,
        value: Seq<u8>,
    ) -> WriteView {
        self.numbered().applied(self.command(record_type, key, value))
    }
}

/// After a change of a key, a read at the current sequence number finds in the memtable
/// what the change wrote, and of every other key what it found before.
pub proof fn law_read_your_write(
    w: WriteView,
    record_type: RecordType,
    key: Seq<u8>,
    value: Seq<u8>,
    other: Seq<u8>,
    v: Option<Version>,
)
    requires
        w.ok(),
        w.sequence < u64::MAX,
    ensures
        w.changed(record_type, key, value).ok(),
        w.changed(record_type, key, value).sequence == w.sequence + 1,
        memtable::newest_in(
            w.changed(record_type, key, value).table,
            key,
            w.changed(record_type, key, value).sequence,
            Some(record_of(w.command(record_type, key, value))),
        ),
        other != key ==> memtable::newest_in(
            w.changed(record_type, key, value).table,
            other,
            w.changed(record_type, key, value).sequence,
            v,
        ) == memtable::newest_in(w.table, other, w.sequence, v),
{
    let after = w.changed(record_type, key, value);
    let lsn = after.sequence;
    assert(after.table.dom().contains((key, lsn)));
    if other != key {
        let (m, n) = (w.table, after.table);
        assert forall|l: u64| #[trigger] n.dom().contains((other, l)) == m.dom().contains(
            (other, l),
        ) by {}
        match v {
            None => {
                if memtable::newest_in(m, other, w.sequence, v) {
                    assert forall|l: u64| l <= lsn implies !#[trigger] n.dom().contains(
                        (other, l),
                    ) by {
                        if m.dom().contains((other, l)) {
                            assert((other, l).1 <= w.sequence);
                        }
                    }
                }
                if memtable::newest_in(n, other, lsn, v) {
                    assert forall|l: u64| l <= w.sequence implies !#[trigger] m.dom().contains(
                        (other, l),
                    ) by {
                        assert(!n.dom().contains((other, l)));
                    }
                }
            },
            Some(found) => {
                if memtable::newest_in(m, other, w.sequence, v) {
                    let l = choose|l: u64|
                        {
                            &&& l <= w.sequence
                            &&& #[trigger] m.dom().contains((other, l))
                            &&& m[(other, l)] == found
                            &&& forall|o: u64|
                                l < o <= w.sequence ==> !#[trigger] m.dom().contains((other, o))
                        };
                    assert(n.dom().contains((other, l)));
                    assert forall|o: u64| l < o <= lsn implies !#[trigger] n.dom().contains(
                        (other, o),
                    ) by {
                        if m.dom().contains((other, o)) {
                            assert((other, o).1 <= w.sequence);
                        }
                    }
                }
                if memtable::newest_in(n, other, lsn, v) {
                    let l = choose|l: u64|
                        {
                            &&& l <= lsn
                            &&& #[trigger] n.dom().contains((other, l))
                            &&& n[(other, l)] == found
                            &&& forall|o: u64|
                                l < o <= lsn ==> !#[trigger] n.dom().contains((other, o))
                        };
                    assert(m.dom().contains((other, l)));
                    assert((other, l).1 <= w.sequence);
                    assert forall|o: u64| l < o <= w.sequence implies !#[trigger] m.dom().contains(
                        (other, o),
                    ) by {
                        assert(!n.dom().contains((other, o)));
                    }
                }
            },
        }
    }
}

/// The write path: numbers changes and keeps the active memtable.
pub struct WriteComponent {
    memtable: Memtable,
    memtable_size: usize,
    sequence_number: u64,
    sstable_dir: String,
}

impl View for WriteComponent {
    type V = WriteView;

    closed spec fn view(&self) -> WriteView {
        WriteView {
            table: self.memtable@,
            size: self.memtable_size,
            sequence: self.sequence_number,
            dir: self.sstable_dir@,
        }
    }
}

impl WriteComponent {
    /// A write path with an empty memtable that goes on behind `sequence_number`.
    pub fn new(sstable_dir: String, sequence_number: u64) -> (w: WriteComponent)
        ensures
            w@ == WriteView::fresh(sstable_dir@, sequence_number),
            w@.ok(),
    {
        WriteComponent { memtable: Memtable::new(), memtable_size: 0, sequence_number, sstable_dir }
    }

    /// A write path for the directory `data`.
    pub fn with_default_dir() -> (w: WriteComponent)
        ensures
            w@ == WriteView::fresh("data"@, 0),
            w@.ok(),
    {
        WriteComponent::new("data".to_owned(), 0)
    }

    /// Begins to set a key: gives out the next sequence number and returns what has to
    /// be logged. The memtable does not know of it before `apply`.
    pub fn put(&mut self, key: Vec<u8>, value: Vec<u8>) -> (c: LogCommand)
        requires
            old(self)@.sequence < u64::MAX,
        ensures
            c@ == old(self)@.command(RecordType::Put, key@, value@),
            final(self)@ == old(self)@.numbered(),
    {
        self.sequence_number = self.sequence_number + 1;
        LogCommand::new(RecordType::Put, key, value, self.sequence_number)
    }

    /// Begins to delete a key: gives out the next sequence number and returns what has
    /// to be logged. The memtable does not know of it before `apply`.
    pub fn delete(&mut self, key: Vec<u8>) -> (c: LogCommand)
        requires
            old(self)@.sequence < u64::MAX,
        ensures
            c@ == old(self)@.command(RecordType::Delete, key@, Seq::empty()),
            final(self)@ == old(self)@.numbered(),
    {
        self.sequence_number = self.sequence_number + 1;
        let empty: Vec<u8> = Vec::new();
        assert(empty@ =~= Seq::empty());
        LogCommand::new(RecordType::Delete, key, empty, self.sequence_number)
    }

    /// Puts a command into the memtable, once it has been logged.
    pub fn apply(&mut self, c: LogCommand)
        ensures
            final(self)@ == old(self)@.applied(c@),
    {
        let LogCommand { record_type, key, value, lsn } = c;
        let value: Vec<u8> = match record_type {
            RecordType::Put => value,
            RecordType::Delete => Vec::new(),
        };
        assert(value@ =~= record_of(c@).value);
        self.memtable_size = self.memtable_size.wrapping_add(key.len()).wrapping_add(value.len());
        let record = MemtableRecord::new(value, record_type, lsn);
        assert(record@ =~= record_of(c@));
        self.memtable.insert(key, lsn, record);
    }

    /// Puts a command into the memtable that was numbered and made durable elsewhere.
    pub fn apply_replicated_command(&mut self, c: LogCommand)
        ensures
            final(self)@ == old(self)@.replicated(c@),
            old(self)@.ok() ==> final(self)@.ok(),
    {
        if c.lsn > self.sequence_number {
            self.sequence_number = c.lsn;
        }
        self.apply(c);
    }

    /// Takes the memtable away, for a flush, and begins an empty one.
    pub fn lock_memtable(&mut self) -> (m: Memtable)
        ensures
            m@ == old(self)@.table,
            final(self)@ == (WriteView {
                table: memtable::no_versions(),
                size: 0,
                ..old(self)@
            }),
    {
        let mut m = Memtable::new();
        std::mem::swap(&mut m, &mut self.memtable);
        self.memtable_size = 0;
        m
    }

    /// The active memtable.
    pub fn active_memtable_handle(&self) -> (m: &Memtable)
        ensures
            m@ == self@.table,
    {
        &self.memtable
    }

    /// The last sequence number that was given out.
    pub fn current_sequence_number(&self) -> (n: u64)
        ensures
            n == self@.sequence,
    {
        self.sequence_number
    }

    /// The number of bytes that were put into the memtable.
    pub fn memtable_size_bytes(&self) -> (n: usize)
        ensures
            n == self@.size,
    {
        self.memtable_size
    }

    /// Sets the memtable, at recovery.
    pub fn restore_memtable(&mut self, recovered_memtable: Memtable, recovered_memtable_size: usize)
        ensures
            final(self)@ == (WriteView {
                table: recovered_memtable@,
                size: recovered_memtable_size,
                ..old(self)@
            }),
    {
        self.memtable = recovered_memtable;
        self.memtable_size = recovered_memtable_size;
    }

    /// Begins a flush of a memtable that was taken away.
    pub fn flush(&self, memtable: &Memtable) -> (run: FlushRun)
        ensures
            run@.stage == FlushStage::Filter,
            run@.dir == self@.dir,
            run@.sequence == self@.sequence,
            latest::lists_latest(run@.records, memtable@),
            run@.ok(),
    {
        let records = latest_records(memtable);
        assert(records@.len() == records.len());
        FlushRun {
            dir: self.sstable_dir.clone(),
            records,
            table: None,
            sequence: self.sequence_number,
            file_id: 0,
            segment: 0,
            stage: FlushStage::Filter,
        }
    }
}

/// Records under their keys.
pub open spec fn keyed_versions(s: Seq<(Seq<u8>, Version)>) -> Seq<Version> {
    Seq::new(s.len(), |i: int| s[i].1.under(s[i].0))
}

/// `t` has the records, packed into blocks, and its filter reports their keys.
pub open spec fn packs(s: Seq<(Seq<u8>, Version)>, t: TableView) -> bool {
    &&& t.blocks == pack::packed_blocks(keyed_versions(s))
    &&& merge::all_reported(keyed_versions(s), t.bloom.members)
}

/// The table of the records, deletions included. `bloom` is the filter that their keys
/// are noted in.
pub fn build_table(
    records: &Vec<(Vec<u8>, MemtableRecord)>,
    bloom: BloomFilterWrapper,
) -> (t: SSTableCodec)
    ensures
        packs(keymap::pairs(records@), t@),
        bloom@.members.subset_of(t@.bloom.members),
{
    let ghost all = keyed_versions(keymap::pairs(records@));
    let ghost start = bloom@.members;
    let mut packer = Packer::new(bloom);
    let mut i: usize = 0;
    assert(all.take(0) =~= seq![]);
    while i < records.len()
        invariant
            i <= records@.len(),
            all == keyed_versions(keymap::pairs(records@)),
            packer@.packed == pack::pack(all.take(i as int)),
            packer@.packed.builder.offset == 0,
            start.subset_of(packer@.members),
            merge::all_reported(all.take(i as int), packer@.members),
        decreases records@.len() - i,
    {
        let ghost before = packer@.members;
        proof {
            assert(all.take(i + 1).drop_last() =~= all.take(i as int));
            assert(all.take(i + 1).last() == all[i as int]);
        }
        packer.add_record(&records[i].0, &records[i].1);
        proof {
            let now = all.take(i + 1);
            assert forall|j: int| 0 <= j < now.len() implies packer@.members.contains(
                (#[trigger] now[j]).key,
            ) by {
                if j < i {
                    assert(now[j] == all.take(i as int)[j]);
                    assert(before.contains(all.take(i as int)[j].key));
                }
            }
        }
        i = i + 1;
    }
    assert(all.take(i as int) =~= all);
    packer.finish()
}

/// What a flush left behind.
#[derive(Debug)]
pub struct CheckpointResult {
    /// Where the table is.
    pub sstable_path: String,
    /// The number of records in it.
    pub record_count: usize,
    /// Its level.
    pub level: u32,
    /// Its number.
    pub file_id: u64,
    /// Its bytes.
    pub data: Vec<u8>,
}

/// What a flush left behind.
#[verifier::ext_equal]
pub struct CheckpointView {
    pub sstable_path: Seq<char>,
    pub record_count: usize,
    pub level: u32,
    pub file_id: u64,
    pub data: Seq<u8>,
}

impl View for CheckpointResult {
    type V = CheckpointView;

    open spec fn view(&self) -> CheckpointView {
        CheckpointView {
            sstable_path: self.sstable_path@,
            record_count: self.record_count,
            level: self.level,
            file_id: self.file_id,
            data: self.data@,
        }
    }
}

/// How far a flush has got.
#[derive(Clone, Copy, Debug, PartialEq, Eq, Structural)]
pub enum FlushStage {
    /// A filter is needed for the table.
    Filter,
    /// A number is needed for the table.
    FileId,
    /// The table is being written.
    Write,
    /// The table is being registered.
    Register,
    /// The log is being rotated.
    Rotate,
    /// The checkpoint is being marked.
    Checkpoint,
    /// The flush is over.
    Done,
}

/// What to do next in a flush.
pub enum FlushAction {
    /// Make a filter for this number of keys.
    MakeFilter(usize),
    /// Get a file number.
    AllocateFileId,
    /// Write these bytes to this path.
    Write(String, Vec<u8>),
    /// Register this table.
    Register(SSTableMeta),
    /// Rotate the log.
    RotateLog,
    /// Mark a checkpoint with this sequence number and active log segment.
    MarkCheckpoint(u64, u64),
    /// Nothing: the flush is over.
    Done(CheckpointResult),
}

/// What to do next in a flush.
pub enum FlushActionView {
    MakeFilter(usize),
    AllocateFileId,
    Write(Seq<char>, Seq<u8>),
    Register(MetaView),
    RotateLog,
    MarkCheckpoint(u64, u64),
    Done(CheckpointView),
}

impl View for FlushAction {
    type V = FlushActionView;

    open spec fn view(&self) -> FlushActionView {
        match *self {
            FlushAction::MakeFilter(n) => FlushActionView::MakeFilter(n),
            FlushAction::AllocateFileId => FlushActionView::AllocateFileId,
            FlushAction::Write(p, d) => FlushActionView::Write(p@, d@),
            FlushAction::Register(m) => FlushActionView::Register(m@),
            FlushAction::RotateLog => FlushActionView::RotateLog,
            FlushAction::MarkCheckpoint(l, s) => FlushActionView::MarkCheckpoint(l, s),
            FlushAction::Done(r) => FlushActionView::Done(r@),
        }
    }
}

/// A flush under way.
#[verifier::ext_equal]
pub struct FlushView {
    /// The directory of the tables.
    pub dir: Seq<char>,
    /// The last sequence number that had been given out when the flush began.
    pub sequence: u64,
    /// The records to be flushed, with their keys.
    pub records: Seq<(Seq<u8>, Version)>,
    /// The table of the records.
    pub table: Option<TableView>,
    /// Its number.
    pub file_id: u64,
    /// The log segment that the rotation gave.
    pub segment: u64,
    pub stage: FlushStage,
}

impl FlushView {
    /// What holds of every flush under way.
    pub open spec fn ok(self) -> bool {
        &&& self.records.len() <= usize::MAX
        &&& self.stage != FlushStage::Filter ==> (self.table matches Some(t) && packs(
            self.records,
            t,
        ))
    }

    /// The path of the table.
    pub open spec fn output(self) -> Seq<char> {
        path::flushed_path(self.dir, self.file_id)
    }

    /// The bytes of the table.
    pub open spec fn data(self) -> Seq<u8> {
        let t = self.table->0;
        sstable_codec::table_bytes(t.blocks, t.bloom.words, t.bloom.hashes)
    }

    /// What the manifest gets to know of the table.
    pub open spec fn meta(self) -> MetaView {
        MetaView {
            file_id: self.file_id,
            level: 0,
            path: self.output(),
            record_count: self.records.len() as usize,
            words: self.table->0.bloom.words,
            hashes: self.table->0.bloom.hashes,
            smallest_key: if self.records.len() == 0 {
                Seq::empty()
            } else {
                self.records[0].0
            },
            largest_key: if self.records.len() == 0 {
                Seq::empty()
            } else {
                self.records.last().0
            },
        }
    }

    /// What the flush leaves behind.
    pub open spec fn result(self) -> CheckpointView {
        CheckpointView {
            sstable_path: self.output(),
            record_count: self.records.len() as usize,
            level: 0,
            file_id: self.file_id,
            data: self.data(),
        }
    }

    /// What to do next.
    pub open spec fn action(self) -> FlushActionView {
        match self.stage {
            FlushStage::Filter => FlushActionView::MakeFilter(
                (self.records.len() as usize).wrapping_add(10),
            ),
            FlushStage::FileId => FlushActionView::AllocateFileId,
            FlushStage::Write => FlushActionView::Write(self.output(), self.data()),
            FlushStage::Register => FlushActionView::Register(self.meta()),
            FlushStage::Rotate => FlushActionView::RotateLog,
            FlushStage::Checkpoint => FlushActionView::MarkCheckpoint(self.sequence, self.segment),
            FlushStage::Done => FlushActionView::Done(self.result()),
        }
    }
}

/// A flush: the latest record of each key of a memtable goes into a table of level 0,
/// the table is registered, and only then the log is rotated and the checkpoint
/// marked.
pub struct FlushRun {
    dir: String,
    sequence: u64,
    records: Vec<(Vec<u8>, MemtableRecord)>,
    table: Option<SSTableCodec>,
    file_id: u64,
    segment: u64,
    stage: FlushStage,
}

impl View for FlushRun {
    type V = FlushView;

    closed spec fn view(&self) -> FlushView {
        FlushView {
            dir: self.dir@,
            sequence: self.sequence,
            records: keymap::pairs(self.records@),
            table: match self.table {
                Some(t) => Some(t@),
                None => None,
            },
            file_id: self.file_id,
            segment: self.segment,
            stage: self.stage,
        }
    }
}

impl FlushRun {
    /// What to do next.
    pub fn action(&self) -> (a: FlushAction)
        requires
            self@.ok(),
        ensures
            a@ == self@.action(),
    {
        match self.stage {
            FlushStage::Filter => FlushAction::MakeFilter(self.records.len().wrapping_add(10)),
            FlushStage::FileId => FlushAction::AllocateFileId,
            FlushStage::Write => FlushAction::Write(self.output_path(), self.encoded()),
            FlushStage::Register => match &self.table {
                None => FlushAction::RotateLog,
                Some(t) => {
                    let n: usize = self.records.len();
                    let (smallest_key, largest_key): (Vec<u8>, Vec<u8>) = if n == 0 {
                        (Vec::new(), Vec::new())
                    } else {
                        (
                            bytes::copy_bytes(self.records[0].0.as_slice()),
                            bytes::copy_bytes(self.records[n - 1].0.as_slice()),
                        )
                    };
                    let meta = SSTableMeta {
                        file_id: self.file_id,
                        level: 0,
                        path: self.output_path(),
                        record_count: n,
                        bloom_bitmap: t.bloom.clone(),
                        smallest_key,
                        largest_key,
                    };
                    assert(meta@ =~= self@.meta());
                    FlushAction::Register(meta)
                },
            },
            FlushStage::Rotate => FlushAction::RotateLog,
            FlushStage::Checkpoint => FlushAction::MarkCheckpoint(self.sequence, self.segment),
            FlushStage::Done => FlushAction::Done(
                CheckpointResult {
                    sstable_path: self.output_path(),
                    record_count: self.records.len(),
                    level: 0,
                    file_id: self.file_id,
                    data: self.encoded(),
                },
            ),
        }
    }

    /// The path of the table.
    fn output_path(&self) -> (p: String)
        ensures
            p@ == self@.output(),
    {
        flush_path(self.dir.as_str(), self.file_id)
    }

    /// The bytes of the table.
    fn encoded(&self) -> (d: Vec<u8>)
        requires
            self@.table is Some,
        ensures
            d@ == self@.data(),
    {
        match &self.table {
            None => Vec::new(),
            Some(t) => {
                let (data, _) = t.serialize();
                data
            },
        }
    }

    /// The filter has been made: the records are packed into a table.
    pub fn filter_made(&mut self, bloom: BloomFilterWrapper)
        requires
            old(self)@.ok(),
            old(self)@.action() is MakeFilter,
        ensures
            final(self)@.ok(),
            final(self)@.table matches Some(t) && packs(old(self)@.records, t)
                && bloom@.members.subset_of(t.bloom.members) && final(self)@ == (FlushView {
                table: Some(t),
                stage: FlushStage::FileId,
                ..old(self)@
            }),
    {
        let t = build_table(&self.records, bloom);
        self.table = Some(t);
        self.stage = FlushStage::FileId;
    }

    /// The table has got its number.
    pub fn file_id_allocated(&mut self, file_id: u64)
        requires
            old(self)@.ok(),
            old(self)@.action() is AllocateFileId,
        ensures
            final(self)@ == (FlushView { file_id, stage: FlushStage::Write, ..old(self)@ }),
            final(self)@.ok(),
    {
        self.file_id = file_id;
        self.stage = FlushStage::Write;
    }

    /// The table has been written.
    pub fn written(&mut self)
        requires
            old(self)@.ok(),
            old(self)@.action() is Write,
        ensures
            final(self)@ == (FlushView { stage: FlushStage::Register, ..old(self)@ }),
            final(self)@.ok(),
    {
        self.stage = FlushStage::Register;
    }

    /// The table has been registered.
    pub fn registered(&mut self)
        requires
            old(self)@.ok(),
            old(self)@.action() is Register,
        ensures
            final(self)@ == (FlushView { stage: FlushStage::Rotate, ..old(self)@ }),
            final(self)@.ok(),
    {
        self.stage = FlushStage::Rotate;
    }

    /// The log has been rotated, which gave `segment`.
    pub fn rotated(&mut self, segment: u64)
        requires
            old(self)@.ok(),
            old(self)@.action() is RotateLog,
        ensures
            final(self)@ == (FlushView { segment, stage: FlushStage::Checkpoint, ..old(self)@ }),
            final(self)@.ok(),
    {
        self.segment = segment;
        self.stage = FlushStage::Checkpoint;
    }

    /// The checkpoint has been marked.
    pub fn checkpoint_marked(&mut self)
        requires
            old(self)@.ok(),
            old(self)@.action() is MarkCheckpoint,
        ensures
            final(self)@ == (FlushView { stage: FlushStage::Done, ..old(self)@ }),
            final(self)@.ok(),
    {
        self.stage = FlushStage::Done;
    }
}

/// A lookup in the table of a flush finds, of each key of the memtable, its latest
/// record, deletions included, and nothing of any other key.
pub proof fn law_flushed_lookup(
    s: Seq<(Seq<u8>, Version)>,
    m: Map<(Seq<u8>, u64), Version>,
    f: BloomFilterWrapper,
    key: Seq<u8>,
    lsn: u64,
)
    requires
        latest::lists_latest(s, m),
        pack::all_fit(keyed_versions(s)),
        merge::all_reported(keyed_versions(s), f@.members),
        bloom::sound(f),
        pack::packed_blocks(keyed_versions(s)).len() <= u64::MAX,
        table::table_of(keyed_versions(s), f).len() <= u64::MAX,
    ensures
        latest::is_latest(m, key, lsn) ==> table::table_lookup(
            table::table_of(keyed_versions(s), f),
            key,
        ) == Ok::<_, IoFailure>(Some(m[(key, lsn)].under(key))),
        (forall|l: u64| !#[trigger] m.dom().contains((key, l))) ==> table::table_lookup(
            table::table_of(keyed_versions(s), f),
            key,
        ) == Ok::<_, IoFailure>(None::<Version>),
{
    let vs = keyed_versions(s);
    let k = block::version_key();
    assert forall|i: int, j: int| 0 <= i < j < vs.len() implies order::key_lt(
        k(#[trigger] vs[i]),
        k(#[trigger] vs[j]),
    ) by {
        assert(order::key_lt(s[i].0, s[j].0));
    }
    assert(table::tabular(vs, f));
    table::law_lookup_in_table(vs, f, key);
    table::lemma_first_of(vs, key);
    if latest::is_latest(m, key, lsn) {
        assert(m.dom().contains((key, lsn)));
        assert(keymap::has_key(s, (key, lsn).0));
        let i = keymap::place(s, key);
        assert(s[i].0 == key);
        assert(vs[i].key == key);
        assert(f@.members.contains(vs[i].key));
        let v = table::first_of(vs, key)->0;
        let j = choose|j: int| 0 <= j < vs.len() && vs[j] == v;
        order::lemma_key_irreflexive(key);
        if i < j {
            assert(order::key_lt(s[i].0, s[j].0));
        } else if j < i {
            assert(order::key_lt(s[j].0, s[i].0));
        }
        assert(latest::latest_pair(m, s[i]));
        let l = choose|l: u64| #[trigger] latest::is_latest(m, s[i].0, l) && m[(s[i].0, l)]
            == s[i].1;
        assert(m.dom().contains((key, l)));
        assert(l == lsn);
    }
    if forall|l: u64| !#[trigger] m.dom().contains((key, l)) {
        if let Some(v) = table::first_of(vs, key) {
            let j = choose|j: int| 0 <= j < vs.len() && vs[j] == v;
            assert(s[j].0 == key);
            assert(latest::latest_pair(m, s[j]));
            let l = choose|l: u64| #[trigger] latest::is_latest(m, s[j].0, l) && m[(s[j].0, l)]
                == s[j].1;
            assert(m.dom().contains((key, l)));
        }
    }
}

/// A command that goes into the memtable sets the record of its key under its own number
/// and leaves all others; the bytes of its key, and of the value that it sets, count for
/// the size. A command that was numbered elsewhere moves the numbering up to its number,
/// never back.
pub proof fn law_command_applied(w: WriteView, c: CommandView, slot: (Seq<u8>, u64))
    ensures
        w.replicated(c).table == w.applied(c).table,
        w.applied(c).table.dom().contains((c.key, c.lsn)),
        ({
            let v = w.applied(c).table[(c.key, c.lsn)];
            &&& v.lsn == c.lsn
            &&& v.record_type == c.record_type
            &&& v.value == (if c.record_type == RecordType::Put {
                c.value
            } else {
                Seq::<u8>::empty()
            })
        }),
        slot != (c.key, c.lsn) ==> w.applied(c).table.dom().contains(slot)
            == w.table.dom().contains(slot),
        slot != (c.key, c.lsn) && w.table.dom().contains(slot) ==> w.applied(c).table[slot]
            == w.table[slot],
        w.applied(c).sequence == w.sequence,
        w.applied(c).dir == w.dir,
        w.replicated(c).size == w.applied(c).size,
        w.replicated(c).dir == w.dir,
        w.replicated(c).sequence >= w.sequence,
        w.replicated(c).sequence >= c.lsn,
        w.replicated(c).sequence == w.sequence || w.replicated(c).sequence == c.lsn,
        c.record_type == RecordType::Put && w.size + c.key.len() + c.value.len() <= usize::MAX
            ==> w.applied(c).size == w.size + c.key.len() + c.value.len(),
        c.record_type == RecordType::Delete && w.size + c.key.len() <= usize::MAX ==> w.applied(
            c,
        ).size == w.size + c.key.len(),
{
}

/// A change gets the next number, and what is logged for it is the change under that
/// number. What was read at the number before is read so still.
pub proof fn law_change_is_numbered(
    w: WriteView,
    record_type: RecordType,
    key: Seq<u8>,
    value: Seq<u8>,
    any: Seq<u8>,
    v: Option<Version>,
)
    requires
        w.ok(),
        w.sequence < u64::MAX,
    ensures
        ({
            let c = w.command(record_type, key, value);
            &&& c.lsn == w.sequence + 1
            &&& c.record_type == record_type
            &&& c.key == key
            &&& c.value == value
            &&& w.numbered().sequence == w.sequence + 1
            &&& w.numbered().table == w.table
            &&& w.numbered().size == w.size
            &&& w.numbered().dir == w.dir
        }),
        memtable::newest_in(w.changed(record_type, key, value).table, any, w.sequence, v)
            == memtable::newest_in(w.table, any, w.sequence, v),
{
    let (m, n) = (w.table, w.changed(record_type, key, value).table);
    assert forall|l: u64| l <= w.sequence implies #[trigger] n.dom().contains((any, l))
        == m.dom().contains((any, l)) by {}
    assert forall|l: u64| l <= w.sequence && #[trigger] m.dom().contains((any, l)) implies n[(
        any,
        l,
    )] == m[(any, l)] by {}
    if memtable::newest_in(m, any, w.sequence, v) {
        lemma_same_newest(m, n, any, w.sequence, v);
    }
    if memtable::newest_in(n, any, w.sequence, v) {
        lemma_same_newest(n, m, any, w.sequence, v);
    }
}

/// Where two memtables have the same records of a key up to a number, what is the newest
/// one there in the first is so in the second.
proof fn lemma_same_newest(
    m: Map<(Seq<u8>, u64), Version>,
    n: Map<(Seq<u8>, u64), Version>,
    key: Seq<u8>,
    last: u64,
    v: Option<Version>,
)
    requires
        forall|l: u64|
            l <= last ==> (#[trigger] n.dom().contains((key, l)) <==> m.dom().contains((key, l))),
        forall|l: u64|
            l <= last ==> (#[trigger] m.dom().contains((key, l)) <==> n.dom().contains((key, l))),
        forall|l: u64|
            l <= last && #[trigger] m.dom().contains((key, l)) ==> n[(key, l)] == m[(key, l)],
        memtable::newest_in(m, key, last, v),
    ensures
        memtable::newest_in(n, key, last, v),
{
    if let Some(found) = v {
        let l = choose|l: u64|
            {
                &&& l <= last
                &&& #[trigger] m.dom().contains((key, l))
                &&& m[(key, l)] == found
                &&& forall|o: u64| l < o <= last ==> !#[trigger] m.dom().contains((key, o))
            };
        assert(n.dom().contains((key, l)));
    }
}

} // verus!
