//! The versioned store: its state, and what its operations ask of log and files.
use vstd::prelude::*;
use vstd::string::*;
use crate::bytes;
use crate::error::{DBError, DBFailure, IoFailure};
use crate::storage::bloom;
use crate::storage::bloom::BloomFilterWrapper;
use crate::storage::compactionmanager::merge;
use crate::storage::config::StorageConfig;
use crate::storage::keyed;
use crate::storage::log_format;
use crate::storage::log_format::LogEntry;
use crate::storage::memtable;
use crate::storage::memtable::Memtable;
use crate::storage::raft::state_machine;
use crate::storage::raft::state_machine::{EntryPayload, KVStateMachine};
use crate::storage::readmanager::range::KeyRange;
use crate::storage::readmanager::read;
use crate::storage::readmanager::read::{LevelFiles, LevelView, RangeScan, SearchView, StepView,
    TableSearch};
use crate::storage::readmanager::table;
use crate::storage::record::{MemtableRecord, RecordType, Version};
use crate::storage::recovermanager::log_store::{CommandView, LogCommand};
use crate::storage::recovermanager::wal;
use crate::storage::recovermanager::wal::{recover_commands, WALRecord};
use crate::storage::sstable_codec;
use crate::storage::sstable_codec::TableView;
use crate::storage::writemanager::latest;
use crate::storage::writemanager::pack;
use crate::storage::writemanager::write::{FlushRun, FlushStage, WriteComponent, WriteView};
use crate::text;

verus! {

/// What the background work is asked to do.
#[derive(Clone, Copy, Debug, PartialEq, Eq, Structural)]
pub enum CompactionTrigger {
    /// Merge the tables of this level.
    CompactLevel { level: u32 },
}

/// The write path once commands that were logged have been taken in.
pub open spec fn recovered_writes(w: WriteView, commands: Seq<CommandView>) -> WriteView
    decreases commands.len(),
{
    if commands.len() == 0 {
        w
    } else {
        recovered_writes(w, commands.drop_last()).replicated(commands.last())
    }
}

/// A change of a key.
pub struct KeyChange {
    pub record_type: RecordType,
    pub key: Seq<u8>,
    pub value: Seq<u8>,
}

/// The write path after changes.
pub open spec fn written(w: WriteView, changes: Seq<KeyChange>) -> WriteView
    decreases changes.len(),
{
    if changes.len() == 0 {
        w
    } else {
        let c = changes.last();
        written(w, changes.drop_last()).changed(c.record_type, c.key, c.value)
    }
}

/// The commands that are logged for changes.
pub open spec fn logged(w: WriteView, changes: Seq<KeyChange>) -> Seq<CommandView>
    decreases changes.len(),
{
    if changes.len() == 0 {
        seq![]
    } else {
        let c = changes.last();
        let front = changes.drop_last();
        logged(w, front).push(written(w, front).command(c.record_type, c.key, c.value))
    }
}

/// Each change is numbered behind the one before it.
pub proof fn lemma_written_sequence(w: WriteView, changes: Seq<KeyChange>)
    requires
        w.sequence + changes.len() <= u64::MAX,
    ensures
        written(w, changes).sequence == w.sequence + changes.len(),
    decreases changes.len(),
{
    if changes.len() > 0 {
        lemma_written_sequence(w, changes.drop_last());
    }
}

/// Taking in the commands that were logged for changes leads to where the changes led:
/// the same memtable, and the next change is numbered behind the last one.
pub proof fn law_recovery_restores_writes(w: WriteView, changes: Seq<KeyChange>)
    requires
        w.sequence + changes.len() <= u64::MAX,
    ensures
        recovered_writes(w, logged(w, changes)) == written(w, changes),
    decreases changes.len(),
{
    if changes.len() > 0 {
        let front = changes.drop_last();
        let c = changes.last();
        law_recovery_restores_writes(w, front);
        lemma_written_sequence(w, front);
        let before = written(w, front);
        let cmd = before.command(c.record_type, c.key, c.value);
        assert(logged(w, changes).drop_last() =~= logged(w, front));
        assert(before.replicated(cmd) =~= before.numbered().applied(cmd));
    }
}

/// A command is not in the tables yet: there was no checkpoint, or its number is behind
/// that of the last one.
pub open spec fn is_behind(c: CommandView, checkpoint_lsn: u64) -> bool {
    checkpoint_lsn == 0 || c.lsn > checkpoint_lsn
}

/// The commands that are not in the tables yet.
pub open spec fn behind(commands: Seq<CommandView>, checkpoint_lsn: u64) -> Seq<CommandView>
    decreases commands.len(),
{
    if commands.len() == 0 {
        seq![]
    } else if is_behind(commands.last(), checkpoint_lsn) {
        behind(commands.drop_last(), checkpoint_lsn).push(commands.last())
    } else {
        behind(commands.drop_last(), checkpoint_lsn)
    }
}

/// The write path that a store is opened with: what was logged and is not in the tables
/// yet, with numbering behind the greatest sequence number among it or, if that is
/// greater, that of the last checkpoint.
pub open spec fn reopened(
    dir: Seq<char>,
    checkpoint_lsn: u64,
    commands: Seq<CommandView>,
) -> WriteView {
    let w = recovered_writes(
        WriteView::fresh(Seq::empty(), 0),
        behind(commands, checkpoint_lsn),
    );
    WriteView {
        sequence: if checkpoint_lsn > w.sequence {
            checkpoint_lsn
        } else {
            w.sequence
        },
        dir,
        ..w
    }
}

/// Of commands up to a checkpoint and commands behind it, the latter are left.
proof fn lemma_behind(past: Seq<CommandView>, new: Seq<CommandView>, checkpoint_lsn: u64)
    requires
        forall|i: int| 0 <= i < past.len() ==> !is_behind(#[trigger] past[i], checkpoint_lsn),
        forall|i: int| 0 <= i < new.len() ==> is_behind(#[trigger] new[i], checkpoint_lsn),
    ensures
        behind(past + new, checkpoint_lsn) == new,
    decreases past.len() + new.len(),
{
    let all = past + new;
    if new.len() > 0 {
        let front = new.drop_last();
        assert forall|i: int| 0 <= i < front.len() implies is_behind(
            #[trigger] front[i],
            checkpoint_lsn,
        ) by {
            assert(front[i] == new[i]);
        }
        lemma_behind(past, front, checkpoint_lsn);
        assert(new[new.len() - 1] == new.last());
        assert(all.drop_last() =~= past + front);
        assert(front.push(new.last()) =~= new);
    } else if past.len() > 0 {
        let front = past.drop_last();
        assert forall|i: int| 0 <= i < front.len() implies !is_behind(
            #[trigger] front[i],
            checkpoint_lsn,
        ) by {
            assert(front[i] == past[i]);
        }
        lemma_behind(front, new, checkpoint_lsn);
        assert(past[past.len() - 1] == past.last());
        assert(all.drop_last() =~= front + new);
    } else {
        assert(all =~= seq![]);
        assert(new =~= seq![]);
    }
}

/// A command that is behind a checkpoint is among those that are.
proof fn lemma_among_behind(commands: Seq<CommandView>, checkpoint_lsn: u64, i: int)
    requires
        0 <= i < commands.len(),
        is_behind(commands[i], checkpoint_lsn),
    ensures
        behind(commands, checkpoint_lsn).contains(commands[i]),
    decreases commands.len(),
{
    let all = behind(commands, checkpoint_lsn);
    let front = behind(commands.drop_last(), checkpoint_lsn);
    if i == commands.len() - 1 {
        assert(all[all.len() - 1] == commands[i]);
    } else {
        lemma_among_behind(commands.drop_last(), checkpoint_lsn, i);
        let j = choose|j: int| 0 <= j < front.len() && front[j] == commands[i];
        assert(all[j] == commands[i]);
    }
}

/// The commands of changes are numbered behind the number that was given out before them.
pub proof fn lemma_logged_numbers(w: WriteView, changes: Seq<KeyChange>)
    requires
        w.sequence + changes.len() <= u64::MAX,
    ensures
        logged(w, changes).len() == changes.len(),
        forall|i: int|
            0 <= i < changes.len() ==> w.sequence < (#[trigger] logged(w, changes)[i]).lsn
                <= w.sequence + changes.len(),
    decreases changes.len(),
{
    if changes.len() > 0 {
        let front = changes.drop_last();
        lemma_logged_numbers(w, front);
        lemma_written_sequence(w, front);
        let all = logged(w, changes);
        assert forall|i: int| 0 <= i < changes.len() implies w.sequence < (#[trigger] all[i]).lsn
            <= w.sequence + changes.len() by {
            if i < front.len() {
                assert(all[i] == logged(w, front)[i]);
            }
        }
    }
}

/// What was logged since a checkpoint leads back to where the changes since then led,
/// whatever was logged before it.
proof fn lemma_reopened_past(
    dir: Seq<char>,
    checkpoint_lsn: u64,
    past: Seq<CommandView>,
    changes: Seq<KeyChange>,
)
    requires
        checkpoint_lsn + changes.len() <= u64::MAX,
        forall|i: int| 0 <= i < past.len() ==> !is_behind(#[trigger] past[i], checkpoint_lsn),
    ensures
        reopened(
            dir,
            checkpoint_lsn,
            past + logged(WriteView::fresh(dir, checkpoint_lsn), changes),
        ) == written(WriteView::fresh(dir, checkpoint_lsn), changes),
{
    let w = WriteView::fresh(dir, checkpoint_lsn);
    lemma_reopened(dir, checkpoint_lsn, changes);
    lemma_logged_numbers(w, changes);
    lemma_behind(past, logged(w, changes), checkpoint_lsn);
}

/// What was logged since a checkpoint leads back to where the changes since then led.
proof fn lemma_reopened(dir: Seq<char>, checkpoint_lsn: u64, changes: Seq<KeyChange>)
    requires
        checkpoint_lsn + changes.len() <= u64::MAX,
    ensures
        ({
            let base = WriteView::fresh(dir, checkpoint_lsn);
            let w = recovered_writes(WriteView::fresh(Seq::empty(), 0), logged(base, changes));
            &&& written(base, changes) == (WriteView {
                sequence: (checkpoint_lsn + changes.len()) as u64,
                dir,
                ..w
            })
            &&& changes.len() > 0 ==> w.sequence == checkpoint_lsn + changes.len()
            &&& changes.len() == 0 ==> w.sequence == 0
        }),
    decreases changes.len(),
{
    let base = WriteView::fresh(dir, checkpoint_lsn);
    if changes.len() > 0 {
        let front = changes.drop_last();
        let c = changes.last();
        lemma_reopened(dir, checkpoint_lsn, front);
        lemma_written_sequence(base, front);
        let before = written(base, front);
        let cmd = before.command(c.record_type, c.key, c.value);
        assert(logged(base, changes).drop_last() =~= logged(base, front));
        assert(written(base, changes) =~= before.numbered().applied(cmd));
    } else {
        assert(logged(base, changes) =~= seq![]);
    }
}

/// The log entry of a command.
pub open spec fn entry_of(c: CommandView) -> LogEntry {
    LogEntry { record_type: c.record_type, lsn: c.lsn, key: c.key, value: c.value }
}

/// The log entries of commands.
pub open spec fn entries_of(commands: Seq<CommandView>) -> Seq<LogEntry> {
    Seq::new(commands.len(), |i: int| entry_of(commands[i]))
}

/// Commands that were logged are read as they were.
proof fn lemma_commands_read(commands: Seq<CommandView>)
    ensures
        wal::commands_of(wal::raws_of(entries_of(commands))) == commands,
    decreases commands.len(),
{
    let raws = wal::raws_of(entries_of(commands));
    if commands.len() > 0 {
        let front = commands.drop_last();
        lemma_commands_read(front);
        assert(raws.drop_last() =~= wal::raws_of(entries_of(front)));
        assert(raws.last() == wal::raw_of(entry_of(commands.last())));
        assert(front.push(commands.last()) =~= commands);
    } else {
        assert(commands =~= seq![]);
    }
}

/// A restart restores every change since the last checkpoint whose log entry was written
/// in full, whether the log has one segment or several, whatever it still has from before
/// the checkpoint, and even where the last entry was cut off: the memtable is what it was,
/// and numbering goes on behind the last change.
pub proof fn law_restart_restores_writes(
    dir: Seq<char>,
    checkpoint_lsn: u64,
    past: Seq<CommandView>,
    changes: Seq<KeyChange>,
    files: Seq<Seq<u8>>,
    runs: Seq<Seq<LogEntry>>,
)
    requires
        checkpoint_lsn + changes.len() <= u64::MAX,
        forall|i: int| 0 <= i < past.len() ==> !is_behind(#[trigger] past[i], checkpoint_lsn),
        files.len() == runs.len(),
        forall|i: int| 0 <= i < files.len() ==> wal::is_segment(#[trigger] files[i], runs[i]),
        forall|i: int, j: int|
            0 <= i < runs.len() && 0 <= j < runs[i].len() ==> log_format::loggable(
                #[trigger] runs[i][j],
            ),
        wal::joined(runs, runs.len()) == entries_of(
            past + logged(WriteView::fresh(dir, checkpoint_lsn), changes),
        ),
    ensures
        wal::all_entries(files, files.len()) matches Ok(entries) && reopened(
            dir,
            checkpoint_lsn,
            wal::commands_of(wal::raws_of(entries)),
        ) == written(WriteView::fresh(dir, checkpoint_lsn), changes),
{
    wal::law_recovery_across_segments(files, runs, files.len());
    lemma_commands_read(past + logged(WriteView::fresh(dir, checkpoint_lsn), changes));
    lemma_reopened_past(dir, checkpoint_lsn, past, changes);
}

/// No command that was taken in has a greater number than the last one given out.
proof fn lemma_numbers_below(w: WriteView, commands: Seq<CommandView>, i: int)
    requires
        0 <= i < commands.len(),
    ensures
        commands[i].lsn <= recovered_writes(w, commands).sequence,
    decreases commands.len(),
{
    let front = commands.drop_last();
    if i < front.len() {
        lemma_numbers_below(w, front, i);
        assert(front[i] == commands[i]);
    }
}

/// Changes are numbered one after the other, also across a restart: the next change of a
/// store that was opened again has a greater number than the last checkpoint and than
/// every command that was recovered.
pub proof fn law_numbers_ascend(
    dir: Seq<char>,
    checkpoint_lsn: u64,
    commands: Seq<CommandView>,
    change: KeyChange,
)
    requires
        reopened(dir, checkpoint_lsn, commands).sequence < u64::MAX,
    ensures
        ({
            let next = reopened(dir, checkpoint_lsn, commands).command(
                change.record_type,
                change.key,
                change.value,
            );
            &&& checkpoint_lsn < next.lsn
            &&& forall|i: int| 0 <= i < commands.len() ==> (#[trigger] commands[i]).lsn < next.lsn
        }),
{
    let kept = behind(commands, checkpoint_lsn);
    assert forall|i: int| 0 <= i < commands.len() implies (#[trigger] commands[i]).lsn <= reopened(
        dir,
        checkpoint_lsn,
        commands,
    ).sequence by {
        if is_behind(commands[i], checkpoint_lsn) {
            lemma_among_behind(commands, checkpoint_lsn, i);
            let j = choose|j: int| 0 <= j < kept.len() && kept[j] == commands[i];
            lemma_numbers_below(WriteView::fresh(Seq::empty(), 0), kept, j);
        }
    }
}

/// The records that are not in the tables yet.
pub fn records_behind(records: &Vec<WALRecord>, checkpoint_lsn: u64) -> (out: Vec<WALRecord>)
    ensures
        wal::commands_of(keyed::views(out@)) == behind(
            wal::commands_of(keyed::views(records@)),
            checkpoint_lsn,
        ),
{
    let ghost all = keyed::views(records@);
    let mut out: Vec<WALRecord> = Vec::new();
    let mut i: usize = 0;
    assert(all.take(0) =~= seq![]);
    while i < records.len()
        invariant
            i <= records@.len(),
            all == keyed::views(records@),
            wal::commands_of(keyed::views(out@)) == behind(
                wal::commands_of(all.take(i as int)),
                checkpoint_lsn,
            ),
        decreases records@.len() - i,
    {
        let record = &records[i];
        let ghost before = keyed::views(out@);
        let ghost commands = wal::commands_of(all.take(i as int));
        proof {
            let now = all.take(i + 1);
            assert(now.drop_last() =~= all.take(i as int));
            assert(now.last() == record@);
            if wal::commands_of(now).len() > commands.len() {
                assert(wal::commands_of(now).drop_last() =~= commands);
            }
        }
        if checkpoint_lsn == 0 || record.lsn > checkpoint_lsn {
            out.push(
                WALRecord {
                    record_type: record.record_type,
                    lsn: record.lsn,
                    key: bytes::copy_bytes(record.key.as_slice()),
                    value: bytes::copy_bytes(record.value.as_slice()),
                    checksum: record.checksum,
                },
            );
            proof {
                let now = keyed::views(out@);
                assert(now.drop_last() =~= before);
                assert(now.last() =~= record@);
            }
        }
        i = i + 1;
    }
    assert(all.take(i as int) =~= all);
    out
}

/// Puts recovered records into a memtable, and finds the greatest sequence number among
/// them and how many bytes they take.
pub fn build_recovered_memtable(records: &Vec<WALRecord>) -> (r: (Memtable, u64, usize))
    ensures
        ({
            let w = recovered_writes(
                WriteView::fresh(Seq::empty(), 0),
                wal::commands_of(keyed::views(records@)),
            );
            &&& r.0@ == w.table
            &&& r.1 == w.sequence
            &&& r.2 == w.size
        }),
{
    let commands: Vec<LogCommand> = recover_commands(records);
    memtable_of_commands(&commands)
}

/// Puts commands into a memtable, and finds the greatest sequence number among them and
/// how many bytes they take.
pub fn memtable_of_commands(commands: &Vec<LogCommand>) -> (r: (Memtable, u64, usize))
    ensures
        ({
            let w = recovered_writes(
                WriteView::fresh(Seq::empty(), 0),
                keyed::views(commands@),
            );
            &&& r.0@ == w.table
            &&& r.1 == w.sequence
            &&& r.2 == w.size
        }),
{
    let ghost all = keyed::views(commands@);
    let dir = String::new();
    assert(dir@ =~= Seq::empty());
    let mut w = WriteComponent::new(dir, 0);
    let ghost start = w@;
    let mut i: usize = 0;
    assert(all.take(0) =~= seq![]);
    while i < commands.len()
        invariant
            i <= commands@.len(),
            all == keyed::views(commands@),
            w@ == recovered_writes(start, all.take(i as int)),
        decreases commands@.len() - i,
    {
        proof {
            assert(all.take(i + 1).drop_last() =~= all.take(i as int));
            assert(all.take(i + 1).last() == commands@[i as int]@);
        }
        w.apply_replicated_command(commands[i].clone());
        i = i + 1;
    }
    assert(all.take(i as int) =~= all);
    let size: usize = w.memtable_size_bytes();
    let sequence: u64 = w.current_sequence_number();
    (w.lock_memtable(), sequence, size)
}

/// The value that a record gives: a deletion gives none.
pub open spec fn visible_value(record: Option<Version>) -> Option<Seq<u8>> {
    match record {
        Some(v) => match v.record_type {
            RecordType::Put => Some(v.value),
            RecordType::Delete => None,
        },
        None => None,
    }
}

/// The value that the record which a lookup has found gives.
pub fn value_of_record(record: Option<MemtableRecord>) -> (r: Option<Vec<u8>>)
    ensures
        crate::storage::index::opt_bytes(r) == visible_value(memtable::opt_version(record)),
{
    match record {
        Some(record) => match record.record_type {
            RecordType::Put => Some(record.value),
            RecordType::Delete => None,
        },
        None => None,
    }
}

/// The state of the store.
pub struct KvView {
    /// The write path.
    pub write: WriteView,
    /// The memtable that is read while a flush is under way.
    pub flushing: Option<Map<(Seq<u8>, u64), Version>>,
    pub config: StorageConfig,
}

impl KvView {
    /// The memtable that is read.
    pub open spec fn readable(self) -> Map<(Seq<u8>, u64), Version> {
        match self.flushing {
            Some(m) => m,
            None => self.write.table,
        }
    }

    /// The memtable has become so large that it is flushed.
    pub open spec fn full(self) -> bool {
        self.write.size >= self.config.memtable_size_threshold as usize
    }
}

/// The versioned store.
pub struct KV2 {
    write_component: WriteComponent,
    flushing: Option<Memtable>,
    config: StorageConfig,
}

impl View for KV2 {
    type V = KvView;

    closed spec fn view(&self) -> KvView {
        KvView {
            write: self.write_component@,
            flushing: match self.flushing {
                Some(m) => Some(m@),
                None => None,
            },
            config: self.config,
        }
    }
}

impl KV2 {
    /// The store with what the log had: what is not in the tables yet goes into the
    /// memtable, and numbering goes on behind the greatest sequence number among it or, if
    /// that is greater, that of the last checkpoint.
    pub fn open(
        records: &Vec<WALRecord>,
        checkpoint_lsn: u64,
        sstable_dir: String,
        config: StorageConfig,
    ) -> (kv: KV2)
        ensures
            kv@.flushing is None,
            kv@.config == config,
            kv@.write == reopened(
                sstable_dir@,
                checkpoint_lsn,
                wal::commands_of(keyed::views(records@)),
            ),
    {
        let records = records_behind(records, checkpoint_lsn);
        let (recovered, logged, size) = build_recovered_memtable(&records);
        let sequence: u64 = if checkpoint_lsn > logged {
            checkpoint_lsn
        } else {
            logged
        };
        let mut write_component = WriteComponent::new(sstable_dir, sequence);
        write_component.restore_memtable(recovered, size);
        KV2 { write_component, flushing: None, config }
    }

    /// The settings.
    pub fn config(&self) -> (c: StorageConfig)
        ensures
            c == self@.config,
    {
        self.config
    }

    /// The write path.
    pub fn write_component(&self) -> (w: &WriteComponent)
        ensures
            w@ == self@.write,
    {
        &self.write_component
    }

    /// Begins to set a key: what has to be logged before `apply`.
    pub fn put(&mut self, key: Vec<u8>, value: Vec<u8>) -> (c: LogCommand)
        requires
            old(self)@.write.sequence < u64::MAX,
        ensures
            c@ == old(self)@.write.command(RecordType::Put, key@, value@),
            final(self)@ == (KvView { write: old(self)@.write.numbered(), ..old(self)@ }),
    {
        self.write_component.put(key, value)
    }

    /// Begins to delete a key: what has to be logged before `apply`.
    pub fn delete(&mut self, key: Vec<u8>) -> (c: LogCommand)
        requires
            old(self)@.write.sequence < u64::MAX,
        ensures
            c@ == old(self)@.write.command(RecordType::Delete, key@, Seq::empty()),
            final(self)@ == (KvView { write: old(self)@.write.numbered(), ..old(self)@ }),
    {
        self.write_component.delete(key)
    }

    /// Takes in a command that has been logged.
    pub fn apply(&mut self, c: LogCommand)
        ensures
            final(self)@ == (KvView { write: old(self)@.write.applied(c@), ..old(self)@ }),
    {
        self.write_component.apply(c);
    }

    /// Takes in a command that was numbered and made durable elsewhere.
    pub fn apply_replicated_command(&mut self, c: LogCommand)
        ensures
            final(self)@ == (KvView { write: old(self)@.write.replicated(c@), ..old(self)@ }),
    {
        self.write_component.apply_replicated_command(c);
    }

    /// Takes in a committed entry of the replicated log, at the place `log_id`.
    pub fn apply_entry<I: Copy, M>(
        &mut self,
        machine: &mut KVStateMachine<I, M>,
        log_id: I,
        payload: EntryPayload<M>,
    ) -> (r: Vec<u8>)
        ensures
            r@ == Seq::<u8>::empty(),
            final(machine).last_applied == Some(log_id),
            final(machine).membership == (match payload {
                EntryPayload::Membership(m) => Some((log_id, m)),
                _ => old(machine).membership,
            }),
            final(self)@ == (KvView {
                write: match payload {
                    EntryPayload::Normal(data) => state_machine::committed(
                        old(self)@.write,
                        data@,
                    ),
                    _ => old(self)@.write,
                },
                ..old(self)@
            }),
    {
        machine.apply(log_id, payload, &mut self.write_component)
    }

    /// Begins a flush, if the memtable has become large enough. An empty memtable takes
    /// its place; reads go on with the one that is flushed until the flush is done.
    pub fn maybe_flush_and_compact(&mut self) -> (r: Option<FlushRun>)
        ensures
            !old(self)@.full() ==> r is None && final(self)@ == old(self)@,
            old(self)@.full() ==> {
                &&& r matches Some(run)
                &&& run@.ok()
                &&& run@.stage == FlushStage::Filter
                &&& run@.dir == old(self)@.write.dir
                &&& run@.sequence == old(self)@.write.sequence
                &&& latest::lists_latest(run@.records, old(self)@.write.table)
                &&& final(self)@.write == (WriteView {
                    table: memtable::no_versions(),
                    size: 0,
                    ..old(self)@.write
                })
                &&& final(self)@.config == old(self)@.config
                &&& final(self)@.flushing == Some(old(self)@.readable())
            },
    {
        if self.write_component.memtable_size_bytes() < self.config.memtable_size_threshold as usize {
            return None;
        }
        let locked = self.write_component.lock_memtable();
        let run = self.write_component.flush(&locked);
        if self.flushing.is_none() {
            self.flushing = Some(locked);
        }
        Some(run)
    }

    /// A flush is done: reads go on with the active memtable. Where level 0 has enough
    /// tables, they are to be merged.
    pub fn flush_done(&mut self, level0_count: usize) -> (t: Option<CompactionTrigger>)
        ensures
            final(self)@ == (KvView { flushing: None, ..old(self)@ }),
            t == (if level0_count >= old(self)@.config.max_level0_files {
                Some(CompactionTrigger::CompactLevel { level: 0 })
            } else {
                None
            }),
    {
        self.flushing = None;
        if level0_count >= self.config.max_level0_files {
            Some(CompactionTrigger::CompactLevel { level: 0 })
        } else {
            None
        }
    }

    /// The memtable that is read.
    fn read_table(&self) -> (m: &Memtable)
        ensures
            m@ == self@.readable(),
    {
        match &self.flushing {
            Some(m) => m,
            None => self.write_component.active_memtable_handle(),
        }
    }

    /// Begins the lookup of a key in the tables of the levels.
    pub fn get(&self, key: &[u8], levels: Vec<LevelFiles>) -> (s: TableSearch)
        ensures
            exists|found: Option<Version>| #[trigger]
                memtable::newest_in(self@.readable(), key@, self@.write.sequence, found) && s@
                    == read::start_view(found, keyed::views(levels@)),
            s@.settled() == s@,
    {
        TableSearch::start(
            self.read_table(),
            key,
            self.write_component.current_sequence_number(),
            levels,
        )
    }

    /// Begins a scan of a range of keys.
    pub fn scan(&self, range: KeyRange) -> (s: RangeScan)
        ensures
            s@.range == range@,
            s@.sequence_number == self@.write.sequence,
            read::scan_starts(self@.readable(), range@, self@.write.sequence, s@.merged),
    {
        RangeScan::start(
            self.read_table(),
            range,
            self.write_component.current_sequence_number(),
        )
    }
}

/// There is only one record with the greatest sequence number.
proof fn lemma_newest_unique(
    m: Map<(Seq<u8>, u64), Version>,
    key: Seq<u8>,
    last: u64,
    a: Option<Version>,
    b: Option<Version>,
)
    requires
        memtable::newest_in(m, key, last, a),
        memtable::newest_in(m, key, last, b),
    ensures
        a == b,
{
    if let Some(va) = a {
        let la = choose|l: u64|
            {
                &&& l <= last
                &&& #[trigger] m.dom().contains((key, l))
                &&& m[(key, l)] == va
                &&& forall|o: u64| l < o <= last ==> !#[trigger] m.dom().contains((key, o))
            };
        if let Some(vb) = b {
            let lb = choose|l: u64|
                {
                    &&& l <= last
                    &&& #[trigger] m.dom().contains((key, l))
                    &&& m[(key, l)] == vb
                    &&& forall|o: u64| l < o <= last ==> !#[trigger] m.dom().contains((key, o))
                };
            assert(m.dom().contains((key, la)) && m.dom().contains((key, lb)));
            assert(la == lb);
        } else {
            assert(!m.dom().contains((key, la)));
        }
    } else if let Some(vb) = b {
        let lb = choose|l: u64|
            {
                &&& l <= last
                &&& #[trigger] m.dom().contains((key, l))
                &&& m[(key, l)] == vb
                &&& forall|o: u64| l < o <= last ==> !#[trigger] m.dom().contains((key, o))
            };
        assert(!m.dom().contains((key, lb)));
    }
}

/// A lookup right after a change of the key ends at once with what was written: a value
/// that was set is found, and a key that was deleted is not, whatever the tables have.
pub proof fn law_get_after_change(
    w: WriteView,
    record_type: RecordType,
    key: Seq<u8>,
    value: Seq<u8>,
    found: Option<Version>,
    levels: Seq<LevelView>,
)
    requires
        w.ok(),
        w.sequence < u64::MAX,
        memtable::newest_in(
            w.changed(record_type, key, value).table,
            key,
            w.changed(record_type, key, value).sequence,
            found,
        ),
    ensures
        read::start_view(found, levels).step() == StepView::Done(found),
        visible_value(found) == match record_type {
            RecordType::Put => Some(value),
            RecordType::Delete => None,
        },
{
    crate::storage::writemanager::write::law_read_your_write(w, record_type, key, value, key, found);
    let after = w.changed(record_type, key, value);
    lemma_newest_unique(
        after.table,
        key,
        after.sequence,
        found,
        Some(crate::storage::writemanager::write::record_of(w.command(record_type, key, value))),
    );
}

/// After a flush a lookup finds in the new table what it found in the memtable: the value
/// of the latest record of the key, or nothing where that deletes the key. The memtable
/// is empty then, and the tables that level 0 had before have only older records.
pub proof fn law_get_after_flush(
    s: Seq<(Seq<u8>, Version)>,
    m: Map<(Seq<u8>, u64), Version>,
    f: BloomFilterWrapper,
    key: Seq<u8>,
    lsn: u64,
    levels: Seq<LevelView>,
    i: int,
    ans: spec_fn(Seq<char>) -> Option<Version>,
)
    requires
        latest::lists_latest(s, m),
        latest::is_latest(m, key, lsn),
        pack::all_fit(flushed_versions(s)),
        merge::all_reported(flushed_versions(s), f@.members),
        bloom::sound(f),
        pack::packed_blocks(flushed_versions(s)).len() <= u64::MAX,
        table::table_of(flushed_versions(s), f).len() <= u64::MAX,
        levels.len() > 0,
        levels[0].level == 0,
        0 <= i < levels[0].paths.len(),
        table::table_lookup(table::table_of(flushed_versions(s), f), key) == Ok::<_, IoFailure>(
            ans(levels[0].paths[i]),
        ),
        forall|j: int|
            0 <= j < levels[0].paths.len() && j != i && ans(#[trigger] levels[0].paths[j]) is Some
                ==> ans(levels[0].paths[j])->0.lsn < m[(key, lsn)].lsn,
    ensures
        memtable::newest_in(memtable::no_versions(), key, lsn, None),
        visible_value(read::start_view(None, levels).outcome(ans)) == visible_value(
            Some(m[(key, lsn)]),
        ),
{
    crate::storage::writemanager::write::law_flushed_lookup(s, m, f, key, lsn);
    read::law_newest_of_level_zero_decides(levels, i, ans);
}

/// After a compaction a lookup of a key that the merged tables have gives the value of
/// the newest of their records, or nothing where that deletes the key, provided that no
/// other table has the key.
pub proof fn law_get_after_compaction(
    tables: Seq<TableView>,
    t: TableView,
    keep: bool,
    f: BloomFilterWrapper,
    key: Seq<u8>,
    levels: Seq<LevelView>,
    at: int,
    i: int,
    ans: spec_fn(Seq<char>) -> Option<Version>,
)
    requires
        merge::merges(tables, t, keep),
        t.bloom == f@,
        bloom::sound(f),
        pack::all_fit(merge::table_versions(tables)),
        t.blocks.len() <= u64::MAX,
        sstable_codec::table_bytes(t.blocks, f@.words, f@.hashes).len() <= u64::MAX,
        merge::merged(merge::table_versions(tables)).dom().contains(key),
        0 <= at < levels.len(),
        0 <= i < levels[at].paths.len(),
        table::table_lookup(
            sstable_codec::table_bytes(t.blocks, f@.words, f@.hashes),
            key,
        ) == Ok::<_, IoFailure>(ans(levels[at].paths[i])),
        forall|p: Seq<char>| p != levels[at].paths[i] ==> #[trigger] ans(p) is None,
    ensures
        visible_value(read::start_view(None, levels).outcome(ans)) == visible_value(
            Some(merge::merged(merge::table_versions(tables))[key]),
        ),
        forall|j: int|
            0 <= j < merge::table_versions(tables).len() && (#[trigger] merge::table_versions(
                tables,
            )[j]).key == key ==> merge::table_versions(tables)[j].lsn <= merge::merged(
                merge::table_versions(tables),
            )[key].lsn,
{
    let all = merge::table_versions(tables);
    merge::law_merge_latest_wins(all);
    merge::law_lookup_in_merged(tables, t, keep, f, key);
    read::law_only_record_decides(levels, 0, at, i, ans);
    let fresh = SearchView { levels, level_at: 0, file_at: 0, best: None, answer: None };
    read::lemma_settled_twice(fresh);
    read::law_read_precedence(None, levels, fresh.settled(), ans);
}

/// The records that a flush writes.
pub open spec fn flushed_versions(s: Seq<(Seq<u8>, Version)>) -> Seq<Version> {
    crate::storage::writemanager::write::keyed_versions(s)
}

/// The failure of a read on a node that is not the leader.
pub open spec fn read_refused() -> DBFailure {
    DBFailure::StorageError("not the leader; redirect reads to leader node"@)
}

/// A node as it is shown in messages.
pub open spec fn shown_node(leader: Option<u64>) -> Seq<char> {
    match leader {
        Some(id) => "Some("@ + text::decimal(id as nat) + ")"@,
        None => "None"@,
    }
}

/// The failure of a write on a node that is not the leader.
pub open spec fn write_refused(leader: Option<u64>) -> DBFailure {
    DBFailure::StorageError("not the leader; redirect to leader node "@ + shown_node(leader))
}

/// Accepts a read if the node is the leader.
pub fn check_read(is_leader: bool) -> (r: Result<(), DBError>)
    ensures
        is_leader ==> r is Ok,
        !is_leader ==> (r matches Err(e) && e@ == read_refused()),
{
    if is_leader {
        return Ok(());
    }
    Err(DBError::StorageError("not the leader; redirect reads to leader node".to_owned()))
}

/// Accepts a write if the node is the leader; else the error names the leader.
pub fn check_write(is_leader: bool, leader: Option<u64>) -> (r: Result<(), DBError>)
    ensures
        is_leader ==> r is Ok,
        !is_leader ==> (r matches Err(e) && e@ == write_refused(leader)),
{
    if is_leader {
        return Ok(());
    }
    let mut message = "not the leader; redirect to leader node ".to_owned();
    match leader {
        Some(id) => {
            message.append("Some(");
            text::push_decimal(&mut message, id);
            message.append(")");
        },
        None => {
            message.append("None");
        },
    }
    proof {
        let head = "not the leader; redirect to leader node "@;
        assert(message@ =~= head + shown_node(leader));
    }
    Err(DBError::StorageError(message))
}

/// The number of bytes in the keys of changes, and in the values that they set.
pub open spec fn bytes_of_changes(changes: Seq<KeyChange>) -> nat
    decreases changes.len(),
{
    if changes.len() == 0 {
        0
    } else {
        let c = changes.last();
        bytes_of_changes(changes.drop_last()) + c.key.len() + (if c.record_type == RecordType::Put {
            c.value.len()
        } else {
            0
        })
    }
}

/// The memtable counts the bytes of the keys, and of the values that are set; once they
/// are as many as the settings say, and no sooner, it is flushed.
pub proof fn law_flush_when_full(k: KvView, changes: Seq<KeyChange>)
    requires
        k.write.size + bytes_of_changes(changes) <= usize::MAX,
        k.config.memtable_size_threshold <= usize::MAX,
    ensures
        written(k.write, changes).size == k.write.size + bytes_of_changes(changes),
        (KvView { write: written(k.write, changes), ..k }).full() <==> k.write.size
            + bytes_of_changes(changes) >= k.config.memtable_size_threshold,
    decreases changes.len(),
{
    if changes.len() > 0 {
        law_flush_when_full(k, changes.drop_last());
        let before = written(k.write, changes.drop_last());
        let c = changes.last();
        crate::storage::writemanager::write::law_command_applied(
            before.numbered(),
            before.command(c.record_type, c.key, c.value),
            (c.key, 0),
        );
    }
}

/// While a flush is under way reads go on with the memtable that is flushed, and else with
/// the active one.
pub proof fn law_read_while_flushing(k: KvView, w: WriteView)
    ensures
        k.flushing is None ==> k.readable() == k.write.table,
        (KvView { write: w, flushing: Some(k.readable()), ..k }).readable() == k.readable(),
        (KvView { write: w, flushing: None, ..k }).readable() == w.table,
{
}

/// A refused write names the leader: the failures differ where the leaders do.
pub proof fn law_refusal_names_leader(a: u64, b: u64)
    ensures
        write_refused(Some(a)) == write_refused(Some(b)) ==> a == b,
        write_refused(Some(a)) != write_refused(None),
        text::has_suffix(
            write_refused(Some(a)).text(),
            "Some("@ + text::decimal(a as nat) + ")"@,
        ),
        text::has_suffix(write_refused(None).text(), "None"@),
        write_refused(None) != read_refused(),
{
    reveal_strlit("Some(");
    reveal_strlit("None");
    reveal_strlit(")");
    reveal_strlit("not the leader; redirect to leader node ");
    reveal_strlit("not the leader; redirect reads to leader node");
    let head = "not the leader; redirect to leader node "@;
    let (x, y) = (shown_node(Some(a)), shown_node(Some(b)));
    text::law_prefix_and_suffix(head, x, x);
    text::law_prefix_and_suffix(head, "None"@, x);
    if write_refused(Some(a)) == write_refused(Some(b)) {
        assert((head + x).skip(head.len() as int) =~= x);
        assert((head + y).skip(head.len() as int) =~= y);
        assert(x == y);
        assert(x.subrange(5, x.len() - 1) =~= text::decimal(a as nat));
        assert(y.subrange(5, y.len() - 1) =~= text::decimal(b as nat));
        text::law_decimal_distinct(a as nat, b as nat);
    }
    assert((head + x)[40] == 'S');
    assert((head + "None"@)[40] == 'N');
    assert((head + "None"@)[25] == 't');
    assert("not the leader; redirect reads to leader node"@[25] == 'r');
}

/// Without a checkpoint every command of the log is carried out again.
pub proof fn law_no_checkpoint_keeps_all(commands: Seq<CommandView>)
    ensures
        behind(commands, 0) == commands,
    decreases commands.len(),
{
    if commands.len() > 0 {
        law_no_checkpoint_keeps_all(commands.drop_last());
        assert(commands.drop_last().push(commands.last()) =~= commands);
    }
}

/// With a checkpoint the commands with a greater number are carried out again, and no
/// others.
pub proof fn law_checkpoint_skips_older(
    commands: Seq<CommandView>,
    checkpoint_lsn: u64,
    c: CommandView,
)
    requires
        checkpoint_lsn > 0,
    ensures
        behind(commands, checkpoint_lsn).contains(c) <==> commands.contains(c) && c.lsn
            > checkpoint_lsn,
    decreases commands.len(),
{
    if commands.len() > 0 {
        let front = commands.drop_last();
        law_checkpoint_skips_older(front, checkpoint_lsn, c);
        lemma_contains_last(front, commands.last(), c);
        lemma_contains_last(behind(front, checkpoint_lsn), commands.last(), c);
        assert(front.push(commands.last()) =~= commands);
    }
}

proof fn lemma_contains_last(s: Seq<CommandView>, last: CommandView, c: CommandView)
    ensures
        s.push(last).contains(c) <==> s.contains(c) || c == last,
{
    if s.contains(c) {
        let i = choose|i: int| 0 <= i < s.len() && s[i] == c;
        assert(s.push(last)[i] == c);
    }
    assert(s.push(last)[s.len() as int] == last);
    if s.push(last).contains(c) && c != last {
        let i = choose|i: int| 0 <= i < s.push(last).len() && s.push(last)[i] == c;
        assert(s[i] == c);
    }
}

/// Commands that are carried out again keep their order.
pub proof fn law_commands_keep_order(
    a: Seq<CommandView>,
    b: Seq<CommandView>,
    checkpoint_lsn: u64,
)
    ensures
        behind(a + b, checkpoint_lsn) == behind(a, checkpoint_lsn) + behind(b, checkpoint_lsn),
    decreases b.len(),
{
    if b.len() > 0 {
        law_commands_keep_order(a, b.drop_last(), checkpoint_lsn);
        assert((a + b).drop_last() =~= a + b.drop_last());
        assert((a + b).last() == b.last());
    } else {
        assert(a + b =~= a);
    }
}

} // verus!
