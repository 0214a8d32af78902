//! The run of a compaction: what to do next, and what follows from its outcome.
use vstd::prelude::*;
use vstd::string::*;
use crate::error::{DBError, DBFailure};
use crate::order;
use crate::storage::bloom;
use crate::storage::bloom::BloomFilterWrapper;
use crate::storage::compactionmanager::merge;
use crate::storage::compactionmanager::merge::merge_level;
use crate::storage::compactionmanager::path;
use crate::storage::compactionmanager::path::build_compaction_output_path;
use crate::storage::compactionmanager::span;
use crate::storage::compactionmanager::span::{compute_meta_range, range_from_blocks,
    ranges_overlap, widen};
use crate::storage::keyed;
use crate::storage::manifest_codec::{MetaView, SSTableMeta};
use crate::storage::manifest_state;
use crate::storage::manifest_state::{copy_metas, LevelMetas, ManifestSnapshot};
use crate::storage::record::Version;
use crate::storage::sstable_codec;
use crate::storage::sstable_codec::{SSTableCodec, TableView};
use crate::storage::writemanager::block;
use crate::storage::writemanager::block::{Block, BlockView};
use crate::storage::writemanager::pack;
use crate::text;

verus! {

/// How far a compaction has got.
#[derive(Clone, Copy, Debug, PartialEq, Eq, Structural)]
pub enum Stage {
    /// The span of the level's keys is being found.
    Ranges,
    /// The tables of the next level that overlap it are being found.
    Overlaps,
    /// The tables are being loaded.
    Tables,
    /// A filter is needed for the merged table.
    Filter,
    /// A number is needed for the merged table.
    FileId,
    /// The merged table is being written.
    Write,
    /// The merged table is being registered.
    Register,
    /// The tables that were merged are being removed.
    Remove,
    /// The compaction is over.
    Done,
    /// The compaction has failed.
    Failed,
}

/// What to do next in a compaction.
pub enum CompactionAction {
    /// Find the span of the keys of the table at this path, from its index.
    ReadRange(String),
    /// Load the table at this path.
    ReadTable(String),
    /// Make a filter for the merged table.
    MakeFilter,
    /// Get a file number.
    AllocateFileId,
    /// Write these bytes to this path.
    Write(String, Vec<u8>),
    /// Register this table.
    Register(SSTableMeta),
    /// Remove the table with this level and number, and the file at this path.
    Remove(u32, u64, String),
    /// Nothing: the compaction is over.
    Done,
    /// Nothing: the compaction has failed.
    Fail(DBError),
}

/// What to do next in a compaction.
pub enum ActionView {
    ReadRange(Seq<char>),
    ReadTable(Seq<char>),
    MakeFilter,
    AllocateFileId,
    Write(Seq<char>, Seq<u8>),
    Register(MetaView),
    Remove(u32, u64, Seq<char>),
    Done,
    Fail(DBFailure),
}

impl View for CompactionAction {
    type V = ActionView;

    open spec fn view(&self) -> ActionView {
        match *self {
            CompactionAction::ReadRange(p) => ActionView::ReadRange(p@),
            CompactionAction::ReadTable(p) => ActionView::ReadTable(p@),
            CompactionAction::MakeFilter => ActionView::MakeFilter,
            CompactionAction::AllocateFileId => ActionView::AllocateFileId,
            CompactionAction::Write(p, d) => ActionView::Write(p@, d@),
            CompactionAction::Register(m) => ActionView::Register(m@),
            CompactionAction::Remove(l, i, p) => ActionView::Remove(l, i, p@),
            CompactionAction::Done => ActionView::Done,
            CompactionAction::Fail(e) => ActionView::Fail(e@),
        }
    }
}

/// A compaction under way.
#[verifier::ext_equal]
pub struct RunView {
    /// The level that is compacted.
    pub level: u32,
    /// Its tables.
    pub current: Seq<MetaView>,
    /// The tables of the next level.
    pub next: Seq<MetaView>,
    /// A level further down has tables.
    pub deeper: bool,
    /// Those of them whose span overlaps that of the level.
    pub overlapping: Seq<MetaView>,
    /// The span of the level's keys, as far as it is known.
    pub range: Option<(Seq<u8>, Seq<u8>)>,
    /// How many tables the stage is done with.
    pub at: nat,
    pub stage: Stage,
    /// The tables that have been loaded.
    pub tables: Seq<TableView>,
    /// The merged table.
    pub merged: Option<TableView>,
    /// Its number.
    pub file_id: u64,
}

/// The number of records that blocks say they have.
pub open spec fn record_total(blocks: Seq<BlockView>) -> usize
    decreases blocks.len(),
{
    if blocks.len() == 0 {
        0
    } else {
        record_total(blocks.drop_last()).wrapping_add(blocks.last().record_count as usize)
    }
}

impl RunView {
    /// The compaction at its start.
    pub open spec fn start(
        level: u32,
        current: Seq<MetaView>,
        next: Seq<MetaView>,
        deeper: bool,
    ) -> RunView {
        (RunView {
            level,
            current,
            next,
            deeper,
            overlapping: seq![],
            range: None,
            at: 0,
            stage: Stage::Ranges,
            tables: seq![],
            merged: None,
            file_id: 0,
        }).settled()
    }

    /// The compaction once the span of the next table is known.
    pub open spec fn with_span(self, s: Option<(Seq<u8>, Seq<u8>)>) -> RunView {
        match self.stage {
            Stage::Ranges => RunView {
                range: span::widened(self.range, s),
                at: self.at + 1,
                ..self
            },
            Stage::Overlaps => RunView {
                overlapping: match (s, self.range) {
                    (Some(s), Some(r)) => if span::spans_overlap(r, s) {
                        self.overlapping.push(self.next[self.at as int])
                    } else {
                        self.overlapping
                    },
                    _ => self.overlapping,
                },
                at: self.at + 1,
                ..self
            },
            _ => self,
        }
    }

    /// The compaction with the spans taken in that the manifest knows.
    pub open spec fn settled(self) -> RunView
        decreases
            (if self.stage == Stage::Ranges {
                2int
            } else if self.stage == Stage::Overlaps {
                1
            } else {
                0
            }),
            self.current.len() + self.next.len() - self.at,
    {
        match self.stage {
            Stage::Ranges => if self.at >= self.current.len() {
                if self.range is None {
                    RunView { stage: Stage::Failed, ..self }
                } else {
                    (RunView { stage: Stage::Overlaps, at: 0, ..self }).settled()
                }
            } else {
                match span::known_span(self.current[self.at as int]) {
                    Some(s) => self.with_span(Some(s)).settled(),
                    None => self,
                }
            },
            Stage::Overlaps => if self.at >= self.next.len() {
                RunView { stage: Stage::Tables, at: 0, ..self }
            } else {
                match span::known_span(self.next[self.at as int]) {
                    Some(s) => self.with_span(Some(s)).settled(),
                    None => self,
                }
            },
            _ => self,
        }
    }

    /// The tables that are merged: all of the level and those of the next level that
    /// overlap it.
    pub open spec fn inputs(self) -> Seq<MetaView> {
        self.current + self.overlapping
    }

    /// The level of an input.
    pub open spec fn input_level(self, i: int) -> u32 {
        if i < self.current.len() {
            self.level
        } else {
            (self.level + 1) as u32
        }
    }

    /// The path of the merged table.
    pub open spec fn output(self) -> Seq<char> {
        path::output_path(self.current[0].path, (self.level + 1) as u32, self.file_id)
    }

    /// What the manifest gets to know of the merged table.
    pub open spec fn output_meta(self) -> MetaView {
        let t = self.merged->0;
        MetaView {
            file_id: self.file_id,
            level: (self.level + 1) as u32,
            path: self.output(),
            record_count: record_total(t.blocks),
            words: t.bloom.words,
            hashes: t.bloom.hashes,
            smallest_key: t.blocks[0].first_key,
            largest_key: t.blocks.last().last_key,
        }
    }

    /// What to do next.
    pub open spec fn action(self) -> ActionView {
        match self.stage {
            Stage::Ranges => ActionView::ReadRange(self.current[self.at as int].path),
            Stage::Overlaps => ActionView::ReadRange(self.next[self.at as int].path),
            Stage::Tables => ActionView::ReadTable(self.inputs()[self.at as int].path),
            Stage::Filter => ActionView::MakeFilter,
            Stage::FileId => ActionView::AllocateFileId,
            Stage::Write => ActionView::Write(
                self.output(),
                sstable_codec::table_bytes(
                    self.merged->0.blocks,
                    self.merged->0.bloom.words,
                    self.merged->0.bloom.hashes,
                ),
            ),
            Stage::Register => ActionView::Register(self.output_meta()),
            Stage::Remove => {
                let m = self.inputs()[self.at as int];
                let level = self.input_level(self.at as int);
                ActionView::Remove(level, m.file_id, path::output_path(m.path, level, m.file_id))
            },
            Stage::Done => ActionView::Done,
            Stage::Failed => ActionView::Fail(
                DBFailure::Corrupted(
                    "Level "@ + text::decimal(self.level as nat) + " has no valid key range"@,
                ),
            ),
        }
    }

    /// The compaction can still be cancelled: up to where the merged table has been
    /// registered or, where nothing is left to register, up to the first removal.
    pub open spec fn may_stop(self) -> bool {
        match self.stage {
            Stage::Remove => self.at == 0 && self.merged->0.blocks.len() == 0,
            Stage::Done | Stage::Failed => false,
            _ => true,
        }
    }

    /// What holds of every compaction under way.
    pub open spec fn ok(self) -> bool {
        &&& self.level < u32::MAX
        &&& self.current.len() > 1
        &&& self.current.len() + self.next.len() <= usize::MAX
        &&& self.overlapping.len() <= self.next.len()
        &&& match self.stage {
            Stage::Ranges => self.at < self.current.len() && self.overlapping.len() == 0
                && self.tables.len() == 0,
            Stage::Overlaps => self.at < self.next.len() && self.range is Some
                && self.overlapping.len() <= self.at && self.tables.len() == 0,
            Stage::Tables => self.at < self.inputs().len() && self.tables.len() == self.at,
            Stage::Filter => self.tables.len() == self.inputs().len(),
            Stage::FileId | Stage::Write | Stage::Register => self.merged matches Some(t)
                && t.blocks.len() > 0,
            Stage::Remove => self.at < self.inputs().len() && self.merged is Some,
            Stage::Done => self.merged is Some,
            Stage::Failed => true,
        }
    }

    /// What holds before the spans that the manifest knows are taken in.
    pub open spec fn loose(self) -> bool {
        &&& self.level < u32::MAX
        &&& self.current.len() > 1
        &&& self.current.len() + self.next.len() <= usize::MAX
        &&& self.tables.len() == 0
        &&& match self.stage {
            Stage::Ranges => self.at <= self.current.len() && self.overlapping.len() == 0,
            Stage::Overlaps => self.at <= self.next.len() && self.range is Some
                && self.overlapping.len() <= self.at,
            _ => false,
        }
    }
}

/// Taking in the spans that the manifest knows keeps what holds of a compaction.
proof fn lemma_settled_ok(v: RunView)
    requires
        v.loose(),
    ensures
        v.settled().ok(),
        v.settled().current == v.current,
        v.settled().next == v.next,
        v.settled().level == v.level,
    decreases
        (if v.stage == Stage::Ranges {
            2int
        } else if v.stage == Stage::Overlaps {
            1
        } else {
            0
        }),
        v.current.len() + v.next.len() - v.at,
{
    match v.stage {
        Stage::Ranges => {
            if v.at >= v.current.len() {
                if v.range is Some {
                    lemma_settled_ok(RunView { stage: Stage::Overlaps, at: 0, ..v });
                }
            } else {
                match span::known_span(v.current[v.at as int]) {
                    Some(s) => lemma_settled_ok(v.with_span(Some(s))),
                    None => {},
                }
            }
        },
        Stage::Overlaps => {
            if v.at < v.next.len() {
                match span::known_span(v.next[v.at as int]) {
                    Some(s) => lemma_settled_ok(v.with_span(Some(s))),
                    None => {},
                }
            }
        },
        _ => {},
    }
}

/// What holds of every compaction under way holds at its start.
pub proof fn lemma_start_ok(
    level: u32,
    current: Seq<MetaView>,
    next: Seq<MetaView>,
    deeper: bool,
)
    requires
        level < u32::MAX,
        current.len() > 1,
        current.len() + next.len() <= usize::MAX,
    ensures
        RunView::start(level, current, next, deeper).ok(),
{
    lemma_settled_ok(
        RunView {
            level,
            current,
            next,
            deeper,
            overlapping: seq![],
            range: None,
            at: 0,
            stage: Stage::Ranges,
            tables: seq![],
            merged: None,
            file_id: 0,
        },
    );
}

/// The spans that the manifest knows of tables.
pub open spec fn known_spans(metas: Seq<MetaView>) -> Seq<Option<(Seq<u8>, Seq<u8>)>> {
    Seq::new(metas.len(), |i: int| span::known_span(metas[i]))
}

/// The tables whose span overlaps `range`.
pub open spec fn overlapping_of(metas: Seq<MetaView>, range: (Seq<u8>, Seq<u8>)) -> Seq<MetaView> {
    metas.filter(
        |m: MetaView|
            span::known_span(m) matches Some(s) && span::spans_overlap(range, s),
    )
}

proof fn lemma_ranges_known(v: RunView)
    requires
        v.stage == Stage::Ranges,
        v.at <= v.current.len(),
        forall|i: int| 0 <= i < v.current.len() ==> span::known_span(#[trigger] v.current[i]) is Some,
        v.range == span::span_of_all(known_spans(v.current).take(v.at as int)),
        v.at > 0 ==> v.range is Some,
        v.current.len() > 0,
    ensures
        v.settled() == (RunView {
            range: span::span_of_all(known_spans(v.current)),
            stage: Stage::Overlaps,
            at: 0,
            ..v
        }).settled(),
        span::span_of_all(known_spans(v.current)) is Some,
    decreases v.current.len() - v.at,
{
    let spans = known_spans(v.current);
    if v.at >= v.current.len() {
        assert(spans.take(v.at as int) =~= spans);
    } else {
        let s = span::known_span(v.current[v.at as int]);
        assert(spans.take(v.at as int + 1).drop_last() =~= spans.take(v.at as int));
        assert(spans.take(v.at as int + 1).last() == s);
        lemma_ranges_known(v.with_span(s));
    }
}

proof fn lemma_overlaps_known(v: RunView)
    requires
        v.stage == Stage::Overlaps,
        v.at <= v.next.len(),
        v.range is Some,
        forall|i: int| 0 <= i < v.next.len() ==> span::known_span(#[trigger] v.next[i]) is Some,
        v.overlapping == overlapping_of(v.next.take(v.at as int), v.range->0),
    ensures
        v.settled() == (RunView {
            overlapping: overlapping_of(v.next, v.range->0),
            stage: Stage::Tables,
            at: 0,
            ..v
        }),
    decreases v.next.len() - v.at,
{
    if v.at >= v.next.len() {
        assert(v.next.take(v.at as int) =~= v.next);
    } else {
        let s = span::known_span(v.next[v.at as int]);
        let t = v.next.take(v.at as int + 1);
        assert(t.drop_last() =~= v.next.take(v.at as int));
        assert(t.last() == v.next[v.at as int]);
        reveal_with_fuel(Seq::filter, 1);
        lemma_overlaps_known(v.with_span(s));
    }
}

/// Where the manifest knows the spans of all tables, a compaction loads all tables of
/// the level and, of the next level, those whose span overlaps that of the level, in
/// their order.
pub proof fn law_compaction_inputs(
    level: u32,
    current: Seq<MetaView>,
    next: Seq<MetaView>,
    deeper: bool,
)
    requires
        current.len() > 0,
        forall|i: int| 0 <= i < current.len() ==> span::known_span(#[trigger] current[i]) is Some,
        forall|i: int| 0 <= i < next.len() ==> span::known_span(#[trigger] next[i]) is Some,
    ensures
        span::span_of_all(known_spans(current)) is Some,
        RunView::start(level, current, next, deeper).stage == Stage::Tables,
        RunView::start(level, current, next, deeper).level == level,
        RunView::start(level, current, next, deeper).current == current,
        RunView::start(level, current, next, deeper).next == next,
        RunView::start(level, current, next, deeper).deeper == deeper,
        RunView::start(level, current, next, deeper).at == 0,
        RunView::start(level, current, next, deeper).tables.len() == 0,
        RunView::start(level, current, next, deeper).overlapping == overlapping_of(
            next,
            span::span_of_all(known_spans(current))->0,
        ),
        RunView::start(level, current, next, deeper).inputs() == current + overlapping_of(
            next,
            span::span_of_all(known_spans(current))->0,
        ),
{
    let v = RunView {
        level,
        current,
        next,
        deeper,
        overlapping: seq![],
        range: None,
        at: 0,
        stage: Stage::Ranges,
        tables: seq![],
        merged: None,
        file_id: 0,
    };
    assert(known_spans(current).take(0) =~= seq![]);
    lemma_ranges_known(v);
    let w = RunView {
        range: span::span_of_all(known_spans(current)),
        stage: Stage::Overlaps,
        at: 0,
        ..v
    };
    reveal_with_fuel(Seq::filter, 1);
    assert(overlapping_of(next.take(0), w.range->0) =~= seq![]);
    lemma_overlaps_known(w);
}

/// A table of the next level that has a key in common with the level is an input of
/// the compaction.
pub proof fn law_no_overlap_missed(
    level: u32,
    current: Seq<MetaView>,
    next: Seq<MetaView>,
    deeper: bool,
    i: int,
    j: int,
    key: Seq<u8>,
)
    requires
        forall|i: int| 0 <= i < current.len() ==> span::known_span(#[trigger] current[i]) is Some,
        forall|i: int| 0 <= i < next.len() ==> span::known_span(#[trigger] next[i]) is Some,
        0 <= i < current.len(),
        0 <= j < next.len(),
        span::in_span(span::known_span(current[i])->0, key),
        span::in_span(span::known_span(next[j])->0, key),
    ensures
        RunView::start(level, current, next, deeper).overlapping.contains(next[j]),
        RunView::start(level, current, next, deeper).inputs().contains(next[j]),
{
    law_compaction_inputs(level, current, next, deeper);
    let spans = known_spans(current);
    assert(spans[i] == span::known_span(current[i]));
    span::law_level_span_has_all(spans, i, key);
    let range = span::span_of_all(spans)->0;
    span::law_common_key_overlaps(range, span::known_span(next[j])->0, key);
    let pred = |m: MetaView|
        span::known_span(m) matches Some(s) && span::spans_overlap(range, s);
    let chosen = overlapping_of(next, range);
    assert(chosen == next.filter(pred));
    next.lemma_filter_contains(pred, j);
    assert(pred(next[j]));
    assert(chosen.contains(next[j]));
    let k = choose|k: int| 0 <= k < chosen.len() && chosen[k] == next[j];
    assert((current + chosen)[current.len() + k] == next[j]);
}

/// The error of a compaction that was cancelled.
pub fn cancelled() -> (e: DBError)
    ensures
        e@ == DBFailure::StorageError("compaction cancelled"@),
{
    DBError::StorageError("compaction cancelled".to_owned())
}

/// The failure for a level that the manifest does not have.
pub open spec fn level_missing(level: u32) -> DBFailure {
    DBFailure::StorageError("Level "@ + text::decimal(level as nat) + " not found in manifest"@)
}

/// The failure for a level that has too few tables.
pub open spec fn level_not_full(level: u32) -> DBFailure {
    DBFailure::StorageError(
        "Level "@ + text::decimal(level as nat) + " is not full, no need to compact"@,
    )
}

/// A compaction: of all tables of a level with the tables of the next level that
/// overlap them.
pub struct CompactionRun {
    level: u32,
    current: Vec<SSTableMeta>,
    next: Vec<SSTableMeta>,
    deeper: bool,
    overlapping: Vec<SSTableMeta>,
    range: Option<(Vec<u8>, Vec<u8>)>,
    at: usize,
    stage: Stage,
    tables: Vec<SSTableCodec>,
    merged: Option<SSTableCodec>,
    file_id: u64,
}

impl View for CompactionRun {
    type V = RunView;

    closed spec fn view(&self) -> RunView {
        RunView {
            level: self.level,
            current: keyed::views(self.current@),
            next: keyed::views(self.next@),
            deeper: self.deeper,
            overlapping: keyed::views(self.overlapping@),
            range: span::opt_span(self.range),
            at: self.at as nat,
            stage: self.stage,
            tables: keyed::views(self.tables@),
            merged: match self.merged {
                Some(t) => Some(t@),
                None => None,
            },
            file_id: self.file_id,
        }
    }
}

impl CompactionRun {
    /// Starts the compaction of a level: fails where the level is not there or has
    /// no more than one table.
    pub fn start(snapshot: &ManifestSnapshot, level: u32) -> (r: Result<CompactionRun, DBError>)
        requires
            level < u32::MAX,
            snapshot_fits(snapshot, level),
        ensures
            match manifest_state::files_at(snapshot.levels@, level) {
                None => r matches Err(e) && e@ == level_missing(level),
                Some(current) => if current.len() <= 1 {
                    r matches Err(e) && e@ == level_not_full(level)
                } else {
                    r matches Ok(run) && run@.ok() && run@ == RunView::start(
                        level,
                        current,
                        or_empty(manifest_state::files_at(snapshot.levels@, (level + 1) as u32)),
                        has_level_behind(snapshot.levels@, (level + 1) as u32),
                    )
                },
            },
    {
        let current: Vec<SSTableMeta> = match snapshot.files(level) {
            None => {
                let mut message = "Level ".to_owned();
                text::push_decimal(&mut message, level as u64);
                message.append(" not found in manifest");
                return Err(DBError::StorageError(message));
            },
            Some(files) => copy_metas(files),
        };
        if current.len() <= 1 {
            let mut message = "Level ".to_owned();
            text::push_decimal(&mut message, level as u64);
            message.append(" is not full, no need to compact");
            return Err(DBError::StorageError(message));
        }
        let next: Vec<SSTableMeta> = match snapshot.files(level + 1) {
            None => Vec::new(),
            Some(files) => copy_metas(files),
        };
        let mut run = CompactionRun {
            level,
            current,
            next,
            deeper: any_level_behind(snapshot, level + 1),
            overlapping: Vec::new(),
            range: None,
            at: 0,
            stage: Stage::Ranges,
            tables: Vec::new(),
            merged: None,
            file_id: 0,
        };
        proof {
            assert(run@.overlapping =~= seq![]);
            assert(run@.tables =~= seq![]);
            if manifest_state::files_at(snapshot.levels@, (level + 1) as u32) is None {
                assert(run@.next =~= seq![]);
            }
            lemma_settled_ok(run@);
        }
        run.settle();
        Ok(run)
    }

    /// Takes in the spans that the manifest knows.
    fn settle(&mut self)
        requires
            old(self)@.loose(),
        ensures
            final(self)@ == old(self)@.settled(),
            final(self)@.ok(),
    {
        let ghost target = self@.settled();
        proof {
            lemma_settled_ok(self@);
        }
        loop
            invariant_except_break
                self@.settled() == target,
                self@.loose(),
            invariant
                target.ok(),
            ensures
                self@ == target,
            decreases
                (if self.stage == Stage::Ranges {
                    2int
                } else if self.stage == Stage::Overlaps {
                    1
                } else {
                    0
                }),
                self@.current.len() + self@.next.len() - self@.at,
        {
            let known: Option<(Vec<u8>, Vec<u8>)> = match self.stage {
                Stage::Ranges => {
                    if self.at >= self.current.len() {
                        if self.range.is_none() {
                            self.stage = Stage::Failed;
                            break;
                        }
                        self.stage = Stage::Overlaps;
                        self.at = 0;
                        continue;
                    }
                    compute_meta_range(&self.current[self.at])
                },
                _ => {
                    if self.at >= self.next.len() {
                        self.stage = Stage::Tables;
                        self.at = 0;
                        break;
                    }
                    compute_meta_range(&self.next[self.at])
                },
            };
            if known.is_none() {
                break;
            }
            self.take_span(known);
        }
    }

    /// Takes in the span of the next table.
    fn take_span(&mut self, s: Option<(Vec<u8>, Vec<u8>)>)
        requires
            old(self)@.stage == Stage::Ranges || old(self)@.stage == Stage::Overlaps,
            old(self)@.stage == Stage::Ranges ==> old(self)@.at < old(self)@.current.len(),
            old(self)@.stage == Stage::Overlaps ==> old(self)@.at < old(self)@.next.len()
                && old(self)@.range is Some,
            old(self)@.current.len() + old(self)@.next.len() <= usize::MAX,
        ensures
            final(self)@ == old(self)@.with_span(span::opt_span(s)),
    {
        let ghost before = self@;
        if self.stage == Stage::Ranges {
            let range = self.range.take();
            self.range = widen(range, s);
        } else {
            let overlaps = match (&self.range, &s) {
                (Some(range), Some(found)) => ranges_overlap(range, found),
                _ => false,
            };
            if overlaps {
                let meta: SSTableMeta = self.next[self.at].clone();
                let ghost m = meta@;
                self.overlapping.push(meta);
                assert(keyed::views(self.overlapping@) =~= before.overlapping.push(m));
            }
        }
        assert(before.at < before.current.len() + before.next.len());
        self.at = self.at + 1;
        assert(self@ =~= before.with_span(span::opt_span(s)));
    }

    /// What to do next.
    pub fn action(&self) -> (a: CompactionAction)
        requires
            self@.ok(),
        ensures
            a@ == self@.action(),
    {
        match self.stage {
            Stage::Ranges => CompactionAction::ReadRange(self.current[self.at].path.clone()),
            Stage::Overlaps => CompactionAction::ReadRange(self.next[self.at].path.clone()),
            Stage::Tables => {
                let (_, meta) = self.input(self.at);
                CompactionAction::ReadTable(meta.path.clone())
            },
            Stage::Filter => CompactionAction::MakeFilter,
            Stage::FileId => CompactionAction::AllocateFileId,
            Stage::Write => {
                match &self.merged {
                    None => CompactionAction::Done,
                    Some(t) => {
                        let (data, _) = t.serialize();
                        CompactionAction::Write(self.output_path(), data)
                    },
                }
            },
            Stage::Register => {
                match &self.merged {
                    None => CompactionAction::Done,
                    Some(t) => {
                        assert(self@.merged->0 == t@);
                        match range_from_blocks(&t.blocks) {
                            None => CompactionAction::Done,
                            Some((smallest_key, largest_key)) => CompactionAction::Register(
                                SSTableMeta {
                                    file_id: self.file_id,
                                    level: self.level + 1,
                                    path: self.output_path(),
                                    record_count: count_records(&t.blocks),
                                    bloom_bitmap: t.bloom.clone(),
                                    smallest_key,
                                    largest_key,
                                },
                            ),
                        }
                    },
                }
            },
            Stage::Remove => {
                let (level, meta) = self.input(self.at);
                CompactionAction::Remove(
                    level,
                    meta.file_id,
                    build_compaction_output_path(meta.path.as_str(), level, meta.file_id),
                )
            },
            Stage::Done => CompactionAction::Done,
            Stage::Failed => {
                let mut message = "Level ".to_owned();
                text::push_decimal(&mut message, self.level as u64);
                message.append(" has no valid key range");
                CompactionAction::Fail(DBError::Corrupted(message))
            },
        }
    }

    /// Whether the compaction can still be cancelled.
    pub fn may_stop(&self) -> (r: bool)
        requires
            self@.ok(),
        ensures
            r == self@.may_stop(),
    {
        match self.stage {
            Stage::Remove => match &self.merged {
                None => false,
                Some(t) => {
                    assert(self@.merged->0 == t@);
                    self.at == 0 && t.blocks.len() == 0
                },
            },
            Stage::Done => false,
            Stage::Failed => false,
            _ => true,
        }
    }

    /// An input with its level.
    fn input(&self, i: usize) -> (r: (u32, &SSTableMeta))
        requires
            self@.ok(),
            i < self@.inputs().len(),
        ensures
            r.0 == self@.input_level(i as int),
            r.1@ == self@.inputs()[i as int],
    {
        if i < self.current.len() {
            (self.level, &self.current[i])
        } else {
            (self.level + 1, &self.overlapping[i - self.current.len()])
        }
    }

    /// The path of the merged table.
    fn output_path(&self) -> (p: String)
        requires
            self@.ok(),
        ensures
            p@ == self@.output(),
    {
        build_compaction_output_path(self.current[0].path.as_str(), self.level + 1, self.file_id)
    }

    /// The span of the keys of the table that was asked for is known; a table without
    /// blocks has none.
    pub fn range_found(&mut self, s: Option<(Vec<u8>, Vec<u8>)>)
        requires
            old(self)@.ok(),
            old(self)@.action() is ReadRange,
        ensures
            final(self)@ == old(self)@.with_span(span::opt_span(s)).settled(),
            final(self)@.ok(),
    {
        self.take_span(s);
        self.settle();
    }

    /// The table that was asked for has been loaded.
    pub fn table_loaded(&mut self, table: SSTableCodec)
        requires
            old(self)@.ok(),
            old(self)@.action() is ReadTable,
        ensures
            final(self)@ == (RunView {
                tables: old(self)@.tables.push(table@),
                at: old(self)@.at + 1,
                stage: if old(self)@.at + 1 == old(self)@.inputs().len() {
                    Stage::Filter
                } else {
                    Stage::Tables
                },
                ..old(self)@
            }),
            final(self)@.ok(),
    {
        let ghost before = self@;
        let ghost t = table@;
        self.tables.push(table);
        assert(keyed::views(self.tables@) =~= before.tables.push(t));
        assert(before.at < before.current.len() + before.next.len());
        self.at = self.at + 1;
        if self.at >= self.current.len() && self.at - self.current.len()
            == self.overlapping.len() {
            self.stage = Stage::Filter;
        }
    }

    /// The filter for the merged table has been made: merges the tables. Deletions are
    /// kept where a level further down has tables. Where nothing is left, the inputs are
    /// removed; else the merged table needs a number.
    pub fn filter_made(&mut self, bloom: BloomFilterWrapper)
        requires
            old(self)@.ok(),
            old(self)@.action() is MakeFilter,
        ensures
            final(self)@.ok(),
            final(self)@.merged matches Some(t) && merge::merges(
                old(self)@.tables,
                t,
                old(self)@.deeper,
            )
                && bloom@.members.subset_of(t.bloom.members) && final(self)@ == (RunView {
                merged: Some(t),
                at: 0,
                stage: if t.blocks.len() == 0 {
                    Stage::Remove
                } else {
                    Stage::FileId
                },
                ..old(self)@
            }),
    {
        let t = merge_level(&self.tables, bloom, self.deeper);
        let empty: bool = t.blocks.len() == 0;
        self.merged = Some(t);
        self.at = 0;
        self.stage = if empty {
            Stage::Remove
        } else {
            Stage::FileId
        };
    }

    /// The merged table has got its number.
    pub fn file_id_allocated(&mut self, file_id: u64)
        requires
            old(self)@.ok(),
            old(self)@.action() is AllocateFileId,
        ensures
            final(self)@ == (RunView { file_id, stage: Stage::Write, ..old(self)@ }),
            final(self)@.ok(),
    {
        self.file_id = file_id;
        self.stage = Stage::Write;
    }

    /// The merged table has been written.
    pub fn written(&mut self)
        requires
            old(self)@.ok(),
            old(self)@.action() is Write,
        ensures
            final(self)@ == (RunView { stage: Stage::Register, ..old(self)@ }),
            final(self)@.ok(),
    {
        self.stage = Stage::Register;
    }

    /// The merged table has been registered: its inputs can go.
    pub fn registered(&mut self)
        requires
            old(self)@.ok(),
            old(self)@.action() is Register,
        ensures
            final(self)@ == (RunView { stage: Stage::Remove, at: 0, ..old(self)@ }),
            final(self)@.ok(),
    {
        self.stage = Stage::Remove;
        self.at = 0;
    }

    /// An input has been removed, or could not be.
    pub fn removed(&mut self)
        requires
            old(self)@.ok(),
            old(self)@.action() is Remove,
        ensures
            final(self)@ == (RunView {
                at: old(self)@.at + 1,
                stage: if old(self)@.at + 1 == old(self)@.inputs().len() {
                    Stage::Done
                } else {
                    Stage::Remove
                },
                ..old(self)@
            }),
            final(self)@.ok(),
    {
        assert(self@.at < self@.current.len() + self@.next.len());
        self.at = self.at + 1;
        if self.at >= self.current.len() && self.at - self.current.len()
            == self.overlapping.len() {
            self.stage = Stage::Done;
        }
    }

    /// The merged table, once the compaction is over.
    pub fn finish(self) -> (t: Option<SSTableCodec>)
        ensures
            match t {
                Some(t) => self@.merged == Some(t@),
                None => self@.merged is None,
            },
    {
        self.merged
    }
}

/// A level behind `level` has tables.
pub open spec fn has_level_behind(levels: Seq<LevelMetas>, level: u32) -> bool {
    exists|i: int| 0 <= i < levels.len() && (#[trigger] levels[i]).level > level
}

/// Whether a level behind `level` has tables.
fn any_level_behind(snapshot: &ManifestSnapshot, level: u32) -> (r: bool)
    ensures
        r == has_level_behind(snapshot.levels@, level),
{
    let mut i: usize = 0;
    while i < snapshot.levels.len()
        invariant
            i <= snapshot.levels@.len(),
            forall|j: int| 0 <= j < i ==> (#[trigger] snapshot.levels@[j]).level <= level,
        decreases snapshot.levels@.len() - i,
    {
        if snapshot.levels[i].level > level {
            return true;
        }
        i = i + 1;
    }
    false
}

/// The tables of a level, none where the level is not there.
pub open spec fn or_empty(files: Option<Seq<MetaView>>) -> Seq<MetaView> {
    match files {
        Some(files) => files,
        None => seq![],
    }
}

/// The tables of a level and of the next one can be counted.
pub open spec fn snapshot_fits(snapshot: &ManifestSnapshot, level: u32) -> bool {
    or_empty(manifest_state::files_at(snapshot.levels@, level)).len() + or_empty(
        manifest_state::files_at(snapshot.levels@, (level + 1) as u32),
    ).len() <= usize::MAX
}

/// The number of records that blocks say they have.
fn count_records(blocks: &Vec<Block>) -> (n: usize)
    ensures
        n == record_total(keyed::views(blocks@)),
{
    let ghost all = keyed::views(blocks@);
    let mut n: usize = 0;
    let mut i: usize = 0;
    while i < blocks.len()
        invariant
            i <= blocks@.len(),
            all == keyed::views(blocks@),
            n == record_total(all.take(i as int)),
        decreases blocks@.len() - i,
    {
        proof {
            assert(all.take(i + 1).drop_last() =~= all.take(i as int));
            assert(all.take(i + 1).last() == all[i as int]);
        }
        n = n.wrapping_add(blocks[i].record_count as usize);
        i = i + 1;
    }
    assert(all.take(i as int) =~= all);
    n
}

/// A table as the manifest knows it is asked for by its path, when its turn comes: first
/// those of the level, then those of the next level that overlap it, each of them once.
pub proof fn law_tables_asked_in_turn(run: RunView)
    requires
        run.ok(),
        run.stage == Stage::Tables,
    ensures
        run.tables.len() < run.current.len() + run.overlapping.len(),
        run.tables.len() < run.current.len() ==> run.action() == ActionView::ReadTable(
            run.current[run.tables.len() as int].path,
        ),
        run.tables.len() >= run.current.len() ==> run.action() == ActionView::ReadTable(
            run.overlapping[run.tables.len() - run.current.len()].path,
        ),
{
}

/// The span of a table's keys is asked for by the path of the table whose turn it is, and
/// only where the manifest does not know it.
pub proof fn law_spans_asked_in_turn(run: RunView)
    ensures
        run.settled().stage == Stage::Ranges ==> run.settled().action() == ActionView::ReadRange(
            run.settled().current[run.settled().at as int].path,
        ) && (run.settled().current[run.settled().at as int].smallest_key.len() == 0
            || run.settled().current[run.settled().at as int].largest_key.len() == 0),
        run.settled().stage == Stage::Overlaps ==> run.settled().action() == ActionView::ReadRange(
            run.settled().next[run.settled().at as int].path,
        ) && (run.settled().next[run.settled().at as int].smallest_key.len() == 0
            || run.settled().next[run.settled().at as int].largest_key.len() == 0),
    decreases
        (if run.stage == Stage::Ranges {
            2int
        } else if run.stage == Stage::Overlaps {
            1
        } else {
            0
        }),
        run.current.len() + run.next.len() - run.at,
{
    match run.stage {
        Stage::Ranges => {
            if run.at >= run.current.len() {
                if run.range is Some {
                    law_spans_asked_in_turn(RunView { stage: Stage::Overlaps, at: 0, ..run });
                }
            } else if let Some(s) = span::known_span(run.current[run.at as int]) {
                law_spans_asked_in_turn(run.with_span(Some(s)));
            }
        },
        Stage::Overlaps => {
            if run.at < run.next.len() {
                if let Some(s) = span::known_span(run.next[run.at as int]) {
                    law_spans_asked_in_turn(run.with_span(Some(s)));
                }
            }
        },
        _ => {},
    }
}

/// The span that a table's index gives is taken in as that of the table whose turn it
/// was: the level's span gets wider by it, and a table of the next level becomes an input
/// just where its span and that of the level have a key in common or, at least, neither
/// begins behind the end of the other.
pub proof fn law_found_span_counts(run: RunView, s: (Seq<u8>, Seq<u8>), key: Seq<u8>)
    ensures
        run.stage == Stage::Ranges ==> {
            let after = run.with_span(Some(s));
            &&& after.at == run.at + 1
            &&& after.overlapping == run.overlapping
            &&& span::in_span(s, key) ==> (after.range matches Some(r) && span::in_span(r, key))
            &&& (run.range matches Some(r) && span::in_span(r, key)) ==> (after.range matches Some(
                r,
            ) && span::in_span(r, key))
        },
        run.stage == Stage::Overlaps && run.range is Some ==> {
            let after = run.with_span(Some(s));
            let r = run.range->0;
            &&& after.at == run.at + 1
            &&& after.range == run.range
            &&& order::key_lt(r.1, s.0) || order::key_lt(s.1, r.0) ==> after.overlapping
                == run.overlapping
            &&& !order::key_lt(r.1, s.0) && !order::key_lt(s.1, r.0) ==> after.overlapping
                == run.overlapping.push(run.next[run.at as int])
        },
        run.stage == Stage::Ranges || run.stage == Stage::Overlaps ==> run.with_span(None) == (
        RunView { at: run.at + 1, ..run }),
{
    if run.stage == Stage::Ranges {
        if let Some(r) = run.range {
            if span::in_span(s, key) || span::in_span(r, key) {
                span::law_widened_has_both(r, s, key);
            }
        }
    } else if run.stage == Stage::Overlaps && run.range is Some {
        let r = run.range->0;
        order::lemma_key_total(r.0, s.1);
        order::lemma_key_total(s.0, r.1);
        order::lemma_key_irreflexive(r.0);
        order::lemma_key_irreflexive(s.0);
        if order::key_lt(r.0, s.1) {
            order::lemma_key_asymmetric(r.0, s.1);
        }
        if order::key_lt(s.0, r.1) {
            order::lemma_key_asymmetric(s.0, r.1);
        }
    }
}

impl RunView {
    /// The compaction once a table that was asked for has been loaded.
    pub open spec fn with_table(self, t: TableView) -> RunView {
        RunView {
            tables: self.tables.push(t),
            at: self.at + 1,
            stage: if self.at + 1 == self.inputs().len() {
                Stage::Filter
            } else {
                Stage::Tables
            },
            ..self
        }
    }

    /// The compaction once all tables have been loaded that it asks for, where `found`
    /// says what the file at a path has.
    pub open spec fn loaded_from(self, found: spec_fn(Seq<char>) -> TableView) -> RunView
        decreases self.inputs().len() - self.at,
    {
        if self.at < self.inputs().len() {
            match self.action() {
                ActionView::ReadTable(path) => self.with_table(found(path)).loaded_from(found),
                _ => self,
            }
        } else {
            self
        }
    }
}

proof fn lemma_loaded_from(run: RunView, found: spec_fn(Seq<char>) -> TableView)
    requires
        run.ok(),
        run.stage == Stage::Tables,
        forall|i: int|
            0 <= i < run.tables.len() ==> #[trigger] run.tables[i] == found((run.current
                + run.overlapping)[i].path),
    ensures
        ({
            let all = run.current + run.overlapping;
            let after = run.loaded_from(found);
            &&& after == (RunView {
                tables: after.tables,
                at: all.len(),
                stage: Stage::Filter,
                ..run
            })
            &&& after.tables.len() == all.len()
            &&& forall|i: int|
                0 <= i < all.len() ==> #[trigger] after.tables[i] == found(all[i].path)
        }),
    decreases run.current.len() + run.overlapping.len() - run.at,
{
    let all = run.current + run.overlapping;
    law_tables_asked_in_turn(run);
    let next = run.with_table(found(all[run.at as int].path));
    assert(run.action() == ActionView::ReadTable(all[run.at as int].path));
    assert(run.loaded_from(found) == next.loaded_from(found));
    assert forall|i: int| 0 <= i < next.tables.len() implies #[trigger] next.tables[i] == found(
        all[i].path,
    ) by {
        if i < run.tables.len() {
            assert(next.tables[i] == run.tables[i]);
        }
    }
    if next.at < all.len() {
        lemma_loaded_from(next, found);
    } else {
        assert(next.loaded_from(found) == next);
    }
}

/// If each table that is asked for is answered with what the file at its path has, the
/// tables that are merged are what the files of the inputs have: of each input once, those
/// of the level first.
pub proof fn law_inputs_loaded(run: RunView, found: spec_fn(Seq<char>) -> TableView)
    requires
        run.ok(),
        run.stage == Stage::Tables,
        run.at == 0,
    ensures
        ({
            let after = run.loaded_from(found);
            &&& after == (RunView {
                tables: after.tables,
                at: run.current.len() + run.overlapping.len(),
                stage: Stage::Filter,
                ..run
            })
            &&& after.tables.len() == run.current.len() + run.overlapping.len()
            &&& forall|i: int|
                0 <= i < run.current.len() ==> #[trigger] after.tables[i] == found(
                    run.current[i].path,
                )
            &&& forall|i: int|
                run.current.len() <= i < run.current.len() + run.overlapping.len()
                    ==> #[trigger] after.tables[i] == found(
                    run.overlapping[i - run.current.len()].path,
                )
        }),
{
    lemma_loaded_from(run, found);
}

/// The inputs are removed one after the other, each from its own level under its own
/// number.
pub proof fn law_inputs_removed_in_turn(run: RunView)
    requires
        run.ok(),
        run.stage == Stage::Remove,
    ensures
        run.action() is Remove,
        run.at < run.current.len() ==> run.action()->Remove_0 == run.level
            && run.action()->Remove_1 == run.current[run.at as int].file_id,
        run.at >= run.current.len() ==> run.action()->Remove_0 == run.level + 1
            && run.action()->Remove_1 == run.overlapping[run.at - run.current.len()].file_id,
{
}

proof fn lemma_record_total(blocks: Seq<BlockView>)
    requires
        forall|i: int| 0 <= i < blocks.len() ==> pack::faithful(#[trigger] blocks[i]),
        pack::records_of(blocks).len() <= usize::MAX,
    ensures
        record_total(blocks) == pack::records_of(blocks).len(),
    decreases blocks.len(),
{
    if blocks.len() > 0 {
        let front = blocks.drop_last();
        assert(blocks[blocks.len() - 1] == blocks.last());
        assert forall|i: int| 0 <= i < front.len() implies pack::faithful(#[trigger] front[i]) by {
            assert(front[i] == blocks[i]);
        }
        lemma_record_total(front);
    }
}

/// The merged table is registered in the next level, under the number that it was given
/// and at the path that it was written to, with the number of its records, its filter and
/// a span that has every key of it: both ends are keys of the table.
pub proof fn law_merged_table_registered(run: RunView, vs: Seq<Version>)
    requires
        run.ok(),
        run.stage == Stage::Register,
        pack::all_fit(vs),
        keyed::strictly_sorted(vs, block::version_key()),
        run.merged->0.blocks == pack::packed_blocks(vs),
    ensures
        run.action() is Register,
        ({
            let m = run.action()->Register_0;
            &&& m.level == run.level + 1
            &&& m.file_id == run.file_id
            &&& (RunView { stage: Stage::Write, ..run }).action() == ActionView::Write(
                m.path,
                sstable_codec::table_bytes(
                    run.merged->0.blocks,
                    run.merged->0.bloom.words,
                    run.merged->0.bloom.hashes,
                ),
            )
            &&& m.words == run.merged->0.bloom.words && m.hashes == run.merged->0.bloom.hashes
            &&& vs.len() <= usize::MAX ==> m.record_count == vs.len()
            &&& forall|i: int|
                0 <= i < vs.len() ==> order::key_le(m.smallest_key, (#[trigger] vs[i]).key)
                    && order::key_le(vs[i].key, m.largest_key)
            &&& vs.len() > 0
            &&& m.smallest_key == vs[0].key
            &&& m.largest_key == vs.last().key
        }),
{
    let m = run.action()->Register_0;
    pack::law_packed_ends(vs);
    pack::law_pack_keeps_records(vs);
    if vs.len() <= usize::MAX {
        lemma_record_total(run.merged->0.blocks);
    }
    let k = block::version_key();
    assert forall|i: int| 0 <= i < vs.len() implies order::key_le(
        m.smallest_key,
        (#[trigger] vs[i]).key,
    ) && order::key_le(vs[i].key, m.largest_key) by {
        if i > 0 {
            assert(order::key_lt(k(vs[0]), k(vs[i])));
        }
        if i < vs.len() - 1 {
            assert(order::key_lt(k(vs[i]), k(vs[vs.len() - 1])));
        }
    }
}

/// Once an input may be gone a compaction cannot be cancelled any more, nor once the
/// merged table is registered; before that it always can.
pub proof fn law_no_stop_once_registered(run: RunView)
    requires
        run.ok(),
    ensures
        run.action() is Remove && run.at > 0 ==> !run.may_stop(),
        run.action() is Remove && run.merged->0.blocks.len() > 0 ==> !run.may_stop(),
        run.action() is Done || run.action() is Fail ==> !run.may_stop(),
        !(run.action() is Remove || run.action() is Done || run.action() is Fail)
            ==> run.may_stop(),
        run.action() is Remove && run.at == 0 && run.merged->0.blocks.len() == 0 ==> run.may_stop(),
{
}

/// A failure names the level that it is about.
pub proof fn law_failure_names_level(run: RunView, level: u32)
    ensures
        text::has_prefix(
            level_missing(level).text(),
            "Level "@ + text::decimal(level as nat) + " not found"@,
        ),
        text::has_prefix(
            level_not_full(level).text(),
            "Level "@ + text::decimal(level as nat) + " is not full"@,
        ),
        run.stage == Stage::Failed ==> (run.action() matches ActionView::Fail(e) && e is Corrupted
            && text::has_prefix(e.text(), "Level "@ + text::decimal(run.level as nat) + " has no"@)),
{
    reveal_strlit(" not found");
    reveal_strlit(" not found in manifest");
    reveal_strlit(" is not full");
    reveal_strlit(" is not full, no need to compact");
    reveal_strlit(" has no");
    reveal_strlit(" has no valid key range");
    let head = "Level "@ + text::decimal(level as nat);
    let own = "Level "@ + text::decimal(run.level as nat);
    let (a, b) = (head + " not found"@, head + " is not full"@);
    assert(level_missing(level).text().take(a.len() as int) =~= a);
    assert(level_not_full(level).text().take(b.len() as int) =~= b);
    let c = own + " has no"@;
    assert((own + " has no valid key range"@).take(c.len() as int) =~= c);
}

} // verus!
