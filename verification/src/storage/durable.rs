//! What a store has on disk: from the tables, the log and the last checkpoint it can be
//! opened again as it was, at any time.
use vstd::prelude::*;
use crate::storage::history;
use crate::storage::history::{StoreStep, StoreView};
use crate::storage::kv2;
use crate::storage::kv2::KeyChange;
use crate::storage::log_format;
use crate::storage::log_format::{Coverage, LogEntry};
use crate::storage::recovermanager::log_dir;
use crate::storage::recovermanager::log_dir::LogDir;
use crate::storage::recovermanager::log_store::CommandView;
use crate::storage::recovermanager::wal;
use crate::storage::recovermanager::wal::WalView;
use crate::storage::writemanager::write::WriteView;

verus! {

/// A store and what it has on disk.
pub struct DiskView {
    /// The store.
    pub store: StoreView,
    /// The sequence number of the last checkpoint.
    pub checkpoint_lsn: u64,
    /// The log directory.
    pub log: LogDir,
    /// The numbers of its segments.
    pub ids: Seq<u64>,
    /// The entries of its segments.
    pub runs: Seq<Seq<LogEntry>>,
    /// What the log still has from before the last checkpoint.
    pub past: Seq<CommandView>,
    /// The changes since the last checkpoint.
    pub since: Seq<KeyChange>,
}

impl DiskView {
    /// A new store in an empty directory.
    pub open spec fn fresh(dir: Seq<char>, max_segment_size: u64) -> DiskView {
        DiskView {
            store: StoreView::fresh(dir),
            checkpoint_lsn: 0,
            log: LogDir::fresh(max_segment_size),
            ids: seq![0],
            runs: seq![seq![]],
            past: seq![],
            since: seq![],
        }
    }

    /// The write path right after the last checkpoint.
    pub open spec fn base(self) -> WriteView {
        WriteView::fresh(self.store.write.dir, self.checkpoint_lsn)
    }

    /// All commands that the log has.
    pub open spec fn commands(self) -> Seq<CommandView> {
        self.past + kv2::logged(self.base(), self.since)
    }

    /// What holds of a store and its disk: the changes since the last checkpoint led to
    /// where the write path is, and the log has all of these changes, behind others that
    /// are numbered up to the checkpoint.
    pub open spec fn ok(self) -> bool {
        &&& self.store.ok()
        &&& self.log.holds(self.ids, self.runs)
        &&& self.checkpoint_lsn + self.since.len() <= u64::MAX
        &&& self.store.write == kv2::written(self.base(), self.since)
        &&& wal::joined(self.runs, self.runs.len()) == kv2::entries_of(self.commands())
        &&& forall|i: int|
            0 <= i < self.past.len() ==> !kv2::is_behind(
                #[trigger] self.past[i],
                self.checkpoint_lsn,
            )
        &&& forall|i: int, j: int|
            0 <= i < self.runs.len() && 0 <= j < self.runs[i].len() ==> log_format::loggable(
                #[trigger] self.runs[i][j],
            )
    }

    /// The log entry for a change.
    pub open spec fn entry(self, c: KeyChange) -> LogEntry {
        kv2::entry_of(self.store.write.command(c.record_type, c.key, c.value))
    }

    /// The step can happen: the store allows it, and there is a number left for a segment
    /// where it may need one.
    pub open spec fn allows(self, step: StoreStep) -> bool {
        &&& self.store.allows(step)
        &&& match step {
            StoreStep::Change(c) => self.log.wal.active < u64::MAX && log_format::loggable(
                self.entry(c),
            ),
            StoreStep::Flush(_, _, _) => self.log.wal.active < u64::MAX,
            StoreStep::Compaction(_, _, _, _, _) => true,
        }
    }

    /// The store and its disk after a step. A change is logged; a flush rotates the log
    /// and marks a checkpoint with the last sequence number.
    pub open spec fn stepped(self, step: StoreStep) -> DiskView {
        match step {
            StoreStep::Change(c) => DiskView {
                store: self.store.stepped(step),
                log: self.log.appended(self.entry(c)),
                ids: log_dir::grown_ids(self.ids, self.log.full()),
                runs: log_dir::grown(self.runs, self.log.full(), self.entry(c)),
                since: self.since.push(c),
                ..self
            },
            StoreStep::Flush(_, _, _) => DiskView {
                store: self.store.stepped(step),
                checkpoint_lsn: self.store.write.sequence,
                log: self.log.rotated(),
                ids: log_dir::rotated_ids(self.ids),
                runs: log_dir::rotated_runs(self.runs),
                past: self.commands().take(
                    wal::joined(self.runs, (self.runs.len() - 1) as nat).len() as int,
                ),
                since: seq![],
            },
            StoreStep::Compaction(_, _, _, _, _) => DiskView {
                store: self.store.stepped(step),
                ..self
            },
        }
    }

    /// The store and its disk after steps.
    pub open spec fn run(self, steps: Seq<StoreStep>) -> DiskView
        decreases steps.len(),
    {
        if steps.len() == 0 {
            self
        } else {
            self.run(steps.drop_last()).stepped(steps.last())
        }
    }

    /// The steps can happen one after the other.
    pub open spec fn allows_all(self, steps: Seq<StoreStep>) -> bool
        decreases steps.len(),
    {
        steps.len() == 0 || (self.allows_all(steps.drop_last()) && self.run(
            steps.drop_last(),
        ).allows(steps.last()))
    }

    /// The files of the log, in the order in which they are recovered, where the writing
    /// of one more entry was cut off after `n` bytes.
    pub open spec fn cut_off(self, torn: LogEntry, n: int) -> Seq<Seq<u8>> {
        let files = log_dir::files_in_order(self.log, self.ids);
        files.update(files.len() - 1, files.last() + torn.bytes(Coverage::Body).take(n))
    }

    /// The store and its disk once it was opened again, where the log directory has the
    /// files of `listing`.
    pub open spec fn reopened(self, listing: Seq<Seq<char>>, max_segment_size: u64) -> DiskView {
        let wal = WalView {
            active: wal::max_segment(listing),
            sealed: seq![],
            reserved: seq![],
            max_segment_size,
        };
        DiskView { log: LogDir { wal, ..self.log }, ..self }
    }
}

/// A change is in the log before the store shows it, and what was logged stays there.
proof fn lemma_change_logged(d: DiskView, c: KeyChange)
    requires
        d.ok(),
        d.allows(StoreStep::Change(c)),
    ensures
        d.stepped(StoreStep::Change(c)).ok(),
{
    let after = d.stepped(StoreStep::Change(c));
    let e = d.entry(c);
    history::law_change_sets_key(d.store, c.record_type, c.key, c.value);
    log_dir::law_logged_entry_is_kept(d.log, d.ids, d.runs, e);
    kv2::lemma_written_sequence(d.base(), d.since);
    assert(after.since.drop_last() =~= d.since);
    assert(after.base() == d.base());
    let (old, new) = (kv2::logged(d.base(), d.since), kv2::logged(d.base(), after.since));
    assert(new =~= old.push(d.store.write.command(c.record_type, c.key, c.value)));
    assert(kv2::entries_of(after.commands()) =~= kv2::entries_of(d.commands()).push(e));
    assert forall|i: int, j: int|
        0 <= i < after.runs.len() && 0 <= j < after.runs[i].len() implies log_format::loggable(
        #[trigger] after.runs[i][j],
    ) by {
        if i < d.runs.len() && j < d.runs[i].len() {
            assert(after.runs[i][j] == d.runs[i][j]);
        } else {
            assert(after.runs[i][j] == e);
        }
    }
}

/// What the log has without its last segment is the beginning of what it has.
proof fn lemma_joined_prefix(runs: Seq<Seq<LogEntry>>)
    requires
        runs.len() > 0,
    ensures
        ({
            let front = wal::joined(runs, (runs.len() - 1) as nat);
            &&& front.len() <= wal::joined(runs, runs.len()).len()
            &&& wal::joined(runs, runs.len()).take(front.len() as int) == front
        }),
{
    let front = wal::joined(runs, (runs.len() - 1) as nat);
    assert(wal::joined(runs, runs.len()) == front + runs[runs.len() - 1]);
    assert((front + runs[runs.len() - 1]).take(front.len() as int) =~= front);
}

/// After a flush all that the log has is numbered up to the checkpoint, and there is
/// nothing since.
proof fn lemma_flush_checkpoints(d: DiskView, step: StoreStep)
    requires
        d.ok(),
        d.allows(step),
        step is Flush,
    ensures
        d.stepped(step).ok(),
{
    let after = d.stepped(step);
    if let StoreStep::Flush(l, t, id) = step {
        history::law_flush_keeps_contents(d.store, l, t, id);
    }
    log_dir::law_rotation_empties_segment(d.log, d.ids, d.runs);
    lemma_joined_prefix(d.runs);
    let all = d.commands();
    let n = wal::joined(d.runs, (d.runs.len() - 1) as nat).len() as int;
    assert(kv2::entries_of(all).len() == all.len());
    assert(kv2::entries_of(after.past) =~= kv2::entries_of(all).take(n));
    assert(kv2::logged(after.base(), after.since) =~= seq![]);
    assert(after.commands() =~= after.past);
    kv2::lemma_written_sequence(d.base(), d.since);
    kv2::lemma_logged_numbers(d.base(), d.since);
    assert forall|i: int| 0 <= i < after.past.len() implies !kv2::is_behind(
        #[trigger] after.past[i],
        after.checkpoint_lsn,
    ) by {
        assert(after.past[i] == all[i]);
        if i < d.past.len() {
            assert(all[i] == d.past[i]);
        } else {
            assert(all[i] == kv2::logged(d.base(), d.since)[i - d.past.len()]);
        }
    }
    assert(after.store.write =~= after.base());
    assert forall|i: int, j: int|
        0 <= i < after.runs.len() && 0 <= j < after.runs[i].len() implies log_format::loggable(
        #[trigger] after.runs[i][j],
    ) by {
        assert(after.runs[i][j] == d.runs[i][j]);
    }
}

/// Whatever changes, flushes and compactions a store went through, the log has all changes
/// since the last checkpoint, and what else it has is numbered up to the checkpoint.
pub proof fn law_log_has_changes_since_flush(
    dir: Seq<char>,
    max_segment_size: u64,
    steps: Seq<StoreStep>,
)
    requires
        DiskView::fresh(dir, max_segment_size).allows_all(steps),
    ensures
        DiskView::fresh(dir, max_segment_size).run(steps).ok(),
    decreases steps.len(),
{
    let start = DiskView::fresh(dir, max_segment_size);
    if steps.len() == 0 {
        history::law_fresh_store(dir);
        log_dir::law_fresh_log(max_segment_size);
        let none = start.runs;
        assert(wal::joined(none, 0) =~= seq![]);
        assert(wal::joined(none, 1) =~= seq![]);
        assert(kv2::entries_of(start.commands()) =~= seq![]);
    } else {
        let front = steps.drop_last();
        law_log_has_changes_since_flush(dir, max_segment_size, front);
        let d = start.run(front);
        match steps.last() {
            StoreStep::Change(c) => lemma_change_logged(d, c),
            StoreStep::Flush(_, _, _) => lemma_flush_checkpoints(d, steps.last()),
            StoreStep::Compaction(level, slots, tables, t, id) => {
                history::law_compaction_keeps_contents(d.store, level, slots, tables, t, id);
            },
        }
    }
}

/// A store can be opened again at any time as it was: the listing of the log directory is
/// sorted into the order in which its segments were written, and reading them leads back
/// to the write path, even where the writing of one more entry was cut off. The tables are
/// still there.
pub proof fn law_restart_restores_store(
    d: DiskView,
    listing: Seq<Seq<char>>,
    torn: LogEntry,
    n: int,
)
    requires
        d.ok(),
        listing.no_duplicates(),
        listing.to_set() == d.log.files.dom(),
        log_format::loggable(torn),
        0 <= n < torn.size(),
    ensures
        wal::sorted_log_names(listing) == log_dir::names_of(d.ids),
        wal::all_entries(d.cut_off(torn, n), d.runs.len()) matches Ok(entries) && kv2::reopened(
            d.store.write.dir,
            d.checkpoint_lsn,
            wal::commands_of(wal::raws_of(entries)),
        ) == d.store.write,
{
    log_dir::lemma_files_named(d.log, d.ids, d.runs);
    log_dir::law_segments_sorted(d.ids, listing);
    let files = d.cut_off(torn, n);
    let last = d.runs.len() - 1;
    assert forall|i: int| 0 <= i < files.len() implies wal::is_segment(
        #[trigger] files[i],
        d.runs[i],
    ) by {
        assert(d.log.has_run(d.ids[i], d.runs[i]));
        if i < last {
            log_dir::lemma_whole_segment(d.runs[i]);
        } else {
            assert(files[i] == log_dir::segment_bytes(d.runs[i]) + torn.bytes(
                Coverage::Body,
            ).take(n));
        }
    }
    kv2::law_restart_restores_writes(
        d.store.write.dir,
        d.checkpoint_lsn,
        d.past,
        d.since,
        files,
        d.runs,
    );
    assert(kv2::written(d.base(), d.since).dir == d.store.write.dir);
}

/// A store that was opened again goes on as before, so that it can be opened again as
/// often as one likes.
pub proof fn law_reopened_store_goes_on(
    d: DiskView,
    listing: Seq<Seq<char>>,
    max_segment_size: u64,
)
    requires
        d.ok(),
        listing.to_set() == d.log.files.dom(),
    ensures
        d.reopened(listing, max_segment_size).ok(),
{
    let after = d.reopened(listing, max_segment_size);
    log_dir::law_log_reopened(d.log, d.ids, d.runs, listing);
    assert forall|i: int| 0 <= i < d.runs.len() implies after.log.has_run(
        d.ids[i],
        #[trigger] d.runs[i],
    ) by {
        assert(d.log.has_run(d.ids[i], d.runs[i]));
    }
}

} // verus!
