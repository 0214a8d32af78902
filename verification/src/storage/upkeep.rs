//! Flushes and compactions as they are carried out, action by action: the store keeps
//! what it has, and the manifest keeps knowing its tables.
use vstd::prelude::*;
use crate::error::IoFailure;
use crate::order;
use crate::storage::bloom;
use crate::storage::bloom::BloomFilterWrapper;
use crate::storage::compactionmanager::compaction;
use crate::storage::compactionmanager::compaction::{RunView, Stage};
use crate::storage::compactionmanager::merge;
use crate::storage::compactionmanager::path;
use crate::storage::compactionmanager::span;
use crate::storage::history;
use crate::storage::history::StoreView;
use crate::storage::keyed;
use crate::storage::keymap;
use crate::storage::kv2;
use crate::storage::manifest_codec::MetaView;
use crate::storage::manifest_state;
use crate::storage::manifest_state::LevelMetas;
use crate::storage::memtable;
use crate::storage::readmanager::read;
use crate::storage::readmanager::read::LevelView;
use crate::storage::readmanager::table;
use crate::storage::record::Version;
use crate::storage::sstable_codec::TableView;
use crate::storage::writemanager::block;
use crate::storage::writemanager::latest;
use crate::storage::writemanager::pack;
use crate::storage::writemanager::write::{FlushActionView, FlushStage, FlushView};

verus! {

/// What the manifest says of a table with the records `vs` holds: the span from its
/// smallest to its largest key has the key of each record, and both are keys of records.
pub open spec fn spans_records(m: MetaView, vs: Seq<Version>) -> bool {
    &&& forall|i: int|
        0 <= i < vs.len() ==> order::key_le(m.smallest_key, (#[trigger] vs[i]).key)
            && order::key_le(vs[i].key, m.largest_key)
    &&& exists|i: int| 0 <= i < vs.len() && (#[trigger] vs[i]).key == m.smallest_key
    &&& exists|i: int| 0 <= i < vs.len() && (#[trigger] vs[i]).key == m.largest_key
}

/// The manifest knows the table of the slot: its level and number, where it is, and a
/// span of its keys.
pub open spec fn known_table(s: StoreView, slot: (u32, u64), m: MetaView) -> bool {
    &&& m.level == slot.0
    &&& m.file_id == slot.1
    &&& m.path == path::table_path(s.write.dir, slot.0, slot.1)
    &&& spans_records(m, s.tables[slot])
}

/// The manifest knows the tables of the store, and no others.
pub open spec fn known(s: StoreView, files: Map<(u32, u64), MetaView>) -> bool {
    &&& files.dom() == s.tables.dom()
    &&& forall|slot: (u32, u64)| #[trigger]
        files.dom().contains(slot) ==> known_table(s, slot, files[slot])
}

/// No table has the empty key.
pub open spec fn no_empty_keys(s: StoreView) -> bool {
    forall|slot: (u32, u64), key: Seq<u8>| #[trigger]
        s.table_record(slot, key) is Some ==> key.len() > 0
}

/// A record that a table has is in the span that the manifest knows.
proof fn lemma_record_in_span(s: StoreView, slot: (u32, u64), m: MetaView, key: Seq<u8>)
    requires
        known_table(s, slot, m),
        s.table_record(slot, key) is Some,
    ensures
        order::key_le(m.smallest_key, key),
        order::key_le(key, m.largest_key),
{
    let vs = s.tables[slot];
    table::lemma_first_of(vs, key);
    let v = table::first_of(vs, key)->0;
    let i = choose|i: int| 0 <= i < vs.len() && vs[i] == v;
    assert(vs[i].key == key);
}

/// Where no key is empty, the manifest knows the span of each table.
proof fn lemma_span_known(s: StoreView, slot: (u32, u64), m: MetaView)
    requires
        s.tables.dom().contains(slot),
        known_table(s, slot, m),
        no_empty_keys(s),
    ensures
        span::known_span(m) == Some((m.smallest_key, m.largest_key)),
{
    let vs = s.tables[slot];
    let a = choose|i: int| 0 <= i < vs.len() && (#[trigger] vs[i]).key == m.smallest_key;
    let z = choose|i: int| 0 <= i < vs.len() && (#[trigger] vs[i]).key == m.largest_key;
    table::lemma_first_of(vs, vs[a].key);
    table::lemma_first_of(vs, vs[z].key);
    assert(s.table_record(slot, vs[a].key) is Some);
    assert(s.table_record(slot, vs[z].key) is Some);
}

/// Where the manifest knows the tables of a store, what a snapshot of it lists is what
/// lookups, scans and compactions need to find: all tables, the levels that have any and,
/// of each level, its tables with spans that have their keys.
pub proof fn law_snapshot_lists_store(
    s: StoreView,
    files: Map<(u32, u64), MetaView>,
    levels: Seq<LevelMetas>,
    level: u32,
)
    requires
        known(s, files),
        manifest_state::lists_files(levels, files),
    ensures
        history::lists_metas(s, manifest_state::all_files(levels)),
        history::lists_levels(s, levels),
        no_empty_keys(s) ==> history::lists_level(
            s,
            level,
            compaction::or_empty(manifest_state::files_at(levels, level)),
        ),
{
    let all = manifest_state::all_files(levels);
    manifest_state::lemma_all_files(levels);
    assert forall|i: int| 0 <= i < all.len() implies files.dom().contains(
        manifest_state::slot_of(#[trigger] all[i]),
    ) && files[manifest_state::slot_of(all[i])] == all[i] by {
        manifest_state::lemma_by_slot(all, i);
    }
    assert forall|i: int, key: Seq<u8>|
        #![trigger s.table_record(manifest_state::slot_of(all[i]), key)]
        0 <= i < all.len() && s.table_record(manifest_state::slot_of(all[i]), key) is Some
            && span::known_span(all[i]) is Some implies span::in_span(
        span::known_span(all[i])->0,
        key,
    ) by {
        let slot = manifest_state::slot_of(all[i]);
        assert(files.dom().contains(slot) && files[slot] == all[i]);
        lemma_record_in_span(s, slot, all[i], key);
    }
    assert(history::lists_metas(s, all));
    assert forall|i: int| 0 <= i < levels.len() implies exists|slot: (u32, u64)| #[trigger]
        s.tables.dom().contains(slot) && slot.0 == (#[trigger] levels[i]).level by {
        assert(manifest_state::level_ok(levels[i]));
        let f = levels[i].files@[0];
        assert(f.level == levels[i].level);
        assert(all.contains(levels[i].files@[0]@));
        let k = choose|k: int| 0 <= k < all.len() && all[k] == f@;
        assert(s.tables.dom().contains(manifest_state::slot_of(all[k])));
    }
    assert forall|slot: (u32, u64)| #[trigger]
        s.tables.dom().contains(slot) implies exists|i: int|
        0 <= i < levels.len() && (#[trigger] levels[i]).level == slot.0 by {
        assert(files.dom().contains(slot));
        assert(manifest_state::has_slot(all, slot));
        let k = manifest_state::slot_place(all, slot);
        assert(manifest_state::slot_of(all[k]) == slot);
        assert(manifest_state::in_levels(levels, all[k]));
        let (i, j) = choose|i: int, j: int|
            #![trigger levels[i].files@[j]]
            0 <= i < levels.len() && 0 <= j < levels[i].files@.len() && levels[i].files@[j]@
                == all[k];
        assert(manifest_state::level_ok(levels[i]));
        assert(levels[i].files@[j].level == levels[i].level);
    }
    if no_empty_keys(s) {
        lemma_lists_level(s, files, levels, level);
    }
}

proof fn lemma_lists_level(
    s: StoreView,
    files: Map<(u32, u64), MetaView>,
    levels: Seq<LevelMetas>,
    level: u32,
)
    requires
        known(s, files),
        manifest_state::lists_files(levels, files),
        no_empty_keys(s),
    ensures
        history::lists_level(
            s,
            level,
            compaction::or_empty(manifest_state::files_at(levels, level)),
        ),
{
    let fs = compaction::or_empty(manifest_state::files_at(levels, level));
    manifest_state::law_snapshot_has_level(levels, files, level);
    assert forall|i: int| 0 <= i < fs.len() implies s.tables.dom().contains(
        (level, (#[trigger] fs[i]).file_id),
    ) && span::known_span(fs[i]) is Some && known_table(s, (level, fs[i].file_id), fs[i]) by {
        let slot = (level, fs[i].file_id);
        assert(files.dom().contains(slot) && files[slot] == fs[i]);
        lemma_span_known(s, slot, fs[i]);
    }
    assert forall|i: int, key: Seq<u8>|
        #![trigger s.table_record((level, fs[i].file_id), key)]
        0 <= i < fs.len() && s.table_record((level, fs[i].file_id), key) is Some
            implies span::in_span(span::known_span(fs[i])->0, key) by {
        assert(known_table(s, (level, fs[i].file_id), fs[i]));
        lemma_span_known(s, (level, fs[i].file_id), fs[i]);
        lemma_record_in_span(s, (level, fs[i].file_id), fs[i], key);
    }
    assert forall|slot: (u32, u64)| #[trigger]
        s.tables.dom().contains(slot) && slot.0 == level implies exists|i: int|
        0 <= i < fs.len() && (#[trigger] fs[i]).file_id == slot.1 by {
        assert(slot == (level, slot.1));
        assert(files.dom().contains((level, slot.1)));
    }
}

/// The table that a flush registers is of level 0, has the number that it was given, is at
/// the path that it was written to, has as many records as were flushed, and has a span
/// with every key of the flushed records in it; both ends are such keys.
pub proof fn law_flush_registers_span(run: FlushView)
    requires
        run.ok(),
        run.stage == FlushStage::Register,
        run.records.len() > 0,
        keymap::ascending(run.records),
    ensures
        run.action() is Register,
        ({
            let m = run.action()->Register_0;
            &&& m.level == 0
            &&& m.file_id == run.file_id
            &&& m.record_count == run.records.len()
            &&& m.words == run.table->0.bloom.words && m.hashes == run.table->0.bloom.hashes
            &&& (FlushView { stage: FlushStage::Write, ..run }).action() is Write
            &&& (FlushView { stage: FlushStage::Write, ..run }).action()->Write_0 == m.path
            &&& forall|i: int|
                0 <= i < run.records.len() ==> order::key_le(
                    m.smallest_key,
                    (#[trigger] run.records[i]).0,
                ) && order::key_le(run.records[i].0, m.largest_key)
            &&& exists|i: int|
                0 <= i < run.records.len() && (#[trigger] run.records[i]).0 == m.smallest_key
            &&& exists|i: int|
                0 <= i < run.records.len() && (#[trigger] run.records[i]).0 == m.largest_key
        }),
{
    let m = run.action()->Register_0;
    let (l, n) = (run.records, run.records.len() - 1);
    assert(l[n] == l.last());
    assert(l[0].0 == m.smallest_key && l[n].0 == m.largest_key);
    assert forall|i: int| 0 <= i < l.len() implies order::key_le(m.smallest_key, (#[trigger] l[i]).0)
        && order::key_le(l[i].0, m.largest_key) by {
        if i > 0 {
            assert(order::key_lt(l[0].0, l[i].0));
        }
        if i < n {
            assert(order::key_lt(l[i].0, l[n].0));
        }
    }
}

/// A flush that is carried out keeps what the store has, and the manifest, once it has got
/// the table that is registered, knows the tables of the store.
pub proof fn law_flush_carried_out(
    s: StoreView,
    files: Map<(u32, u64), MetaView>,
    run: FlushView,
)
    requires
        s.ok(),
        path::plain_dir(s.write.dir),
        known(s, files),
        run.ok(),
        run.stage == FlushStage::Register,
        run.dir == s.write.dir,
        latest::lists_latest(run.records, s.write.table),
        run.records.len() > 0,
        pack::all_fit(kv2::flushed_versions(run.records)),
        !s.tables.dom().contains((0, run.file_id)),
    ensures
        run.action() is Register,
        ({
            let m = run.action()->Register_0;
            let after = s.flushed(run.file_id, pack::records_of(run.table->0.blocks));
            &&& after.ok()
            &&& after.contents() == s.contents()
            &&& known(after, files.insert((m.level, m.file_id), m))
        }),
{
    let m = run.action()->Register_0;
    let t = run.table->0;
    let vs = kv2::flushed_versions(run.records);
    let after = s.flushed(run.file_id, pack::records_of(t.blocks));
    law_flush_registers_span(run);
    path::law_flushed_into_level_zero(s.write.dir, run.file_id);
    assert(crate::storage::writemanager::write::keyed_versions(run.records) =~= vs);
    pack::law_pack_keeps_records(vs);
    history::law_flush_keeps_contents(s, run.records, t, run.file_id);
    let new: (u32, u64) = (0, run.file_id);
    let known_then = files.insert(new, m);
    assert(known_then.dom() =~= after.tables.dom());
    assert(spans_records(m, vs)) by {
        assert forall|i: int| 0 <= i < vs.len() implies order::key_le(
            m.smallest_key,
            (#[trigger] vs[i]).key,
        ) && order::key_le(vs[i].key, m.largest_key) by {
            assert(vs[i].key == run.records[i].0);
        }
        let a = choose|i: int|
            0 <= i < run.records.len() && (#[trigger] run.records[i]).0 == m.smallest_key;
        let z = choose|i: int|
            0 <= i < run.records.len() && (#[trigger] run.records[i]).0 == m.largest_key;
        assert(vs[a].key == m.smallest_key && vs[z].key == m.largest_key);
    }
    assert forall|slot: (u32, u64)| #[trigger] known_then.dom().contains(slot) implies known_table(
        after,
        slot,
        known_then[slot],
    ) by {
        if slot != new {
            assert(files.dom().contains(slot));
            assert(known_table(s, slot, files[slot]));
        }
    }
}

/// The checkpoint that a flush marks is the last number that had been given out when it
/// began, with the segment that the rotation of the log gave.
pub proof fn law_flush_marks_checkpoint(run: FlushView)
    requires
        run.stage == FlushStage::Checkpoint,
    ensures
        run.action() == FlushActionView::MarkCheckpoint(run.sequence, run.segment),
{
}

/// The slots of the tables that a compaction removes, one after the other.
pub open spec fn removed_slots(run: RunView) -> Seq<(u32, u64)> {
    Seq::new(
        run.current.len() + run.overlapping.len(),
        |i: int|
            {
                let a = (RunView { stage: Stage::Remove, at: i as nat, ..run }).action();
                (a->Remove_0, a->Remove_1)
            },
    )
}

/// The table that a compaction registers; it registers none where nothing is left.
pub open spec fn registered(run: RunView) -> Option<MetaView> {
    if run.merged->0.blocks.len() == 0 {
        None
    } else {
        Some((RunView { stage: Stage::Register, ..run }).action()->Register_0)
    }
}

/// The store once a compaction was carried out: the merged table is there, and the tables
/// that were removed are not.
pub open spec fn carried_out(s: StoreView, run: RunView) -> StoreView {
    StoreView {
        tables: (match registered(run) {
            Some(m) => s.tables.insert(
                (m.level, m.file_id),
                pack::records_of(run.merged->0.blocks),
            ),
            None => s.tables,
        }).remove_keys(removed_slots(run).to_set()),
        ..s
    }
}

/// The manifest once a compaction was carried out.
pub open spec fn manifest_after(
    files: Map<(u32, u64), MetaView>,
    run: RunView,
) -> Map<(u32, u64), MetaView> {
    (match registered(run) {
        Some(m) => files.insert((m.level, m.file_id), m),
        None => files,
    }).remove_keys(removed_slots(run).to_set())
}

/// The file at the path of each table that the manifest knows has the records of the
/// table.
pub open spec fn files_hold(
    s: StoreView,
    files: Map<(u32, u64), MetaView>,
    found: spec_fn(Seq<char>) -> TableView,
) -> bool {
    forall|slot: (u32, u64)| #[trigger]
        files.dom().contains(slot) ==> pack::records_of(found(files[slot].path).blocks)
            == s.tables[slot]
}

/// What holds where the compaction of a level is carried out: it starts from a snapshot of
/// the manifest, each table that it asks for is answered with what the file has, `t` is
/// what the tables are merged into, and the number of the new table is a new one.
pub open spec fn compaction_runs(
    s: StoreView,
    files: Map<(u32, u64), MetaView>,
    levels: Seq<LevelMetas>,
    level: u32,
    found: spec_fn(Seq<char>) -> TableView,
    t: TableView,
    id: u64,
) -> bool {
    let run = loaded_run(levels, level, found);
    let current = compaction::or_empty(manifest_state::files_at(levels, level));
    let next = compaction::or_empty(manifest_state::files_at(levels, (level + 1) as u32));
    &&& s.ok()
    &&& path::plain_dir(s.write.dir)
    &&& known(s, files)
    &&& no_empty_keys(s)
    &&& manifest_state::lists_files(levels, files)
    &&& files_hold(s, files, found)
    &&& level < u32::MAX
    &&& current.len() > 1
    &&& current.len() + next.len() <= usize::MAX
    &&& merge::merges(run.tables, t, run.deeper)
    &&& pack::all_fit(merge::table_versions(run.tables))
    &&& !s.tables.dom().contains(((level + 1) as u32, id))
}

/// The compaction of a level once its tables have been loaded.
pub open spec fn loaded_run(
    levels: Seq<LevelMetas>,
    level: u32,
    found: spec_fn(Seq<char>) -> TableView,
) -> RunView {
    RunView::start(
        level,
        compaction::or_empty(manifest_state::files_at(levels, level)),
        compaction::or_empty(manifest_state::files_at(levels, (level + 1) as u32)),
        compaction::has_level_behind(levels, (level + 1) as u32),
    ).loaded_from(found)
}

/// The compaction once its tables have been merged.
pub open spec fn merged_run(
    levels: Seq<LevelMetas>,
    level: u32,
    found: spec_fn(Seq<char>) -> TableView,
    t: TableView,
    id: u64,
) -> RunView {
    RunView { merged: Some(t), file_id: id, at: 0, ..loaded_run(levels, level, found) }
}

/// The inputs of a compaction, with what the manifest knows of them.
proof fn lemma_inputs(
    s: StoreView,
    files: Map<(u32, u64), MetaView>,
    levels: Seq<LevelMetas>,
    level: u32,
    found: spec_fn(Seq<char>) -> TableView,
    t: TableView,
    id: u64,
)
    requires
        compaction_runs(s, files, levels, level, found, t, id),
    ensures
        ({
            let run = merged_run(levels, level, found, t, id);
            let slots = removed_slots(run);
            &&& run.level == level
            &&& run.current == manifest_state::files_at(levels, level)->0
            &&& run.level < u32::MAX
            &&& run.current.len() > 1
            &&& run.current.len() + run.next.len() <= usize::MAX
            &&& run.overlapping.len() <= run.next.len()
            &&& run.deeper == s.behind(level)
            &&& slots.len() == run.tables.len()
            &&& slots.len() == run.inputs().len()
            &&& s.inputs_of(level, slots)
            &&& history::loaded(s, slots, run.tables)
            &&& forall|i: int|
                0 <= i < slots.len() ==> files.dom().contains(#[trigger] slots[i])
                    && files[slots[i]] == run.inputs()[i] && slots[i].0 == run.input_level(i)
        }),
{
    let below = (level + 1) as u32;
    let current = compaction::or_empty(manifest_state::files_at(levels, level));
    let next = compaction::or_empty(manifest_state::files_at(levels, below));
    let deeper = compaction::has_level_behind(levels, below);
    let start = RunView::start(level, current, next, deeper);
    let run = merged_run(levels, level, found, t, id);
    let slots = removed_slots(run);
    lemma_level_spans_known(s, files, levels, level);
    lemma_level_spans_known(s, files, levels, below);
    lemma_loaded_run(levels, level, found, t, id);
    lemma_chosen(s, files, levels, level);
    lemma_removed_slots(run);
    assert(history::input_slots(run) =~= history::input_slots(start));
    let range = span::span_of_all(compaction::known_spans(current))->0;
    lemma_inputs_listed(files, levels, level, run, range);
    lemma_inputs_loaded(s, files, found, run);
}

/// The manifest knows the inputs of a compaction.
proof fn lemma_inputs_listed(
    files: Map<(u32, u64), MetaView>,
    levels: Seq<LevelMetas>,
    level: u32,
    run: RunView,
    range: (Seq<u8>, Seq<u8>),
)
    requires
        manifest_state::lists_files(levels, files),
        level < u32::MAX,
        run.level == level,
        run.current == compaction::or_empty(manifest_state::files_at(levels, level)),
        run.overlapping == compaction::overlapping_of(
            compaction::or_empty(manifest_state::files_at(levels, (level + 1) as u32)),
            range,
        ),
    ensures
        forall|i: int|
            0 <= i < history::input_slots(run).len() ==> files.dom().contains(
                #[trigger] history::input_slots(run)[i],
            ) && files[history::input_slots(run)[i]] == run.inputs()[i],
{
    let slots = history::input_slots(run);
    assert forall|i: int| 0 <= i < slots.len() implies files.dom().contains(#[trigger] slots[i])
        && files[slots[i]] == run.inputs()[i] by {
        let m = run.inputs()[i];
        if i < run.current.len() {
            assert(run.current[i] == m);
            lemma_input_known(files, levels, level, range, m, true);
        } else {
            assert(run.overlapping[i - run.current.len()] == m);
            lemma_input_known(files, levels, (level + 1) as u32, range, m, false);
        }
    }
}

/// The tables that were loaded have the records of the inputs.
proof fn lemma_inputs_loaded(
    s: StoreView,
    files: Map<(u32, u64), MetaView>,
    found: spec_fn(Seq<char>) -> TableView,
    run: RunView,
)
    requires
        files_hold(s, files, found),
        run.tables.len() == run.inputs().len(),
        forall|i: int|
            0 <= i < run.tables.len() ==> #[trigger] run.tables[i] == found(run.inputs()[i].path),
        forall|i: int|
            0 <= i < history::input_slots(run).len() ==> files.dom().contains(
                #[trigger] history::input_slots(run)[i],
            ) && files[history::input_slots(run)[i]] == run.inputs()[i],
    ensures
        history::loaded(s, history::input_slots(run), run.tables),
{
    let slots = history::input_slots(run);
    assert forall|i: int| 0 <= i < slots.len() implies pack::records_of(
        (#[trigger] run.tables[i]).blocks,
    ) == s.tables[slots[i]] by {
        assert(files.dom().contains(slots[i]));
    }
}

/// A compaction chooses its inputs, and whether to keep deletions, as it has to.
proof fn lemma_chosen(
    s: StoreView,
    files: Map<(u32, u64), MetaView>,
    levels: Seq<LevelMetas>,
    level: u32,
)
    requires
        known(s, files),
        no_empty_keys(s),
        manifest_state::lists_files(levels, files),
        level < u32::MAX,
        compaction::or_empty(manifest_state::files_at(levels, level)).len() > 1,
    ensures
        compaction::has_level_behind(levels, (level + 1) as u32) == s.behind(level),
        s.inputs_of(
            level,
            history::input_slots(
                RunView::start(
                    level,
                    compaction::or_empty(manifest_state::files_at(levels, level)),
                    compaction::or_empty(manifest_state::files_at(levels, (level + 1) as u32)),
                    compaction::has_level_behind(levels, (level + 1) as u32),
                ),
            ),
        ),
{
    let below = (level + 1) as u32;
    let current = compaction::or_empty(manifest_state::files_at(levels, level));
    let next = compaction::or_empty(manifest_state::files_at(levels, below));
    law_snapshot_lists_store(s, files, levels, level);
    law_snapshot_lists_store(s, files, levels, below);
    history::law_compaction_chooses_inputs(
        s,
        level,
        current,
        next,
        compaction::has_level_behind(levels, below),
    );
    history::law_compaction_keeps_deletions(s, levels, level);
}

/// The manifest knows the spans of the tables.
pub open spec fn spans_known(metas: Seq<MetaView>) -> bool {
    forall|i: int| 0 <= i < metas.len() ==> span::known_span(#[trigger] metas[i]) is Some
}

proof fn lemma_level_spans_known(
    s: StoreView,
    files: Map<(u32, u64), MetaView>,
    levels: Seq<LevelMetas>,
    level: u32,
)
    requires
        known(s, files),
        no_empty_keys(s),
        manifest_state::lists_files(levels, files),
    ensures
        spans_known(compaction::or_empty(manifest_state::files_at(levels, level))),
{
    lemma_lists_level(s, files, levels, level);
}

/// What a compaction is once its tables have been loaded.
proof fn lemma_loaded_run(
    levels: Seq<LevelMetas>,
    level: u32,
    found: spec_fn(Seq<char>) -> TableView,
    t: TableView,
    id: u64,
)
    requires
        level < u32::MAX,
        spans_known(compaction::or_empty(manifest_state::files_at(levels, level))),
        spans_known(compaction::or_empty(manifest_state::files_at(levels, (level + 1) as u32))),
        compaction::or_empty(manifest_state::files_at(levels, level)).len() > 1,
        compaction::or_empty(manifest_state::files_at(levels, level)).len() + compaction::or_empty(
            manifest_state::files_at(levels, (level + 1) as u32),
        ).len() <= usize::MAX,
    ensures
        ({
            let below = (level + 1) as u32;
            let current = compaction::or_empty(manifest_state::files_at(levels, level));
            let next = compaction::or_empty(manifest_state::files_at(levels, below));
            let deeper = compaction::has_level_behind(levels, below);
            let start = RunView::start(level, current, next, deeper);
            let run = merged_run(levels, level, found, t, id);
            &&& start.level == level && start.current == current && start.next == next
            &&& start.deeper == deeper
            &&& start.overlapping.len() <= next.len()
            &&& start.overlapping == compaction::overlapping_of(
                next,
                span::span_of_all(compaction::known_spans(current))->0,
            )
            &&& run == (RunView {
                tables: run.tables,
                stage: Stage::Filter,
                merged: Some(t),
                file_id: id,
                at: 0,
                ..start
            })
            &&& run.tables.len() == current.len() + start.overlapping.len()
            &&& forall|i: int|
                0 <= i < run.tables.len() ==> #[trigger] run.tables[i] == found(
                    start.inputs()[i].path,
                )
        }),
{
    let below = (level + 1) as u32;
    let current = compaction::or_empty(manifest_state::files_at(levels, level));
    let next = compaction::or_empty(manifest_state::files_at(levels, below));
    let deeper = compaction::has_level_behind(levels, below);
    let start = RunView::start(level, current, next, deeper);
    let run = merged_run(levels, level, found, t, id);
    compaction::law_compaction_inputs(level, current, next, deeper);
    compaction::lemma_start_ok(level, current, next, deeper);
    compaction::law_inputs_loaded(start, found);
    assert forall|i: int| 0 <= i < run.tables.len() implies #[trigger] run.tables[i] == found(
        start.inputs()[i].path,
    ) by {
        if i < current.len() {
            assert(run.tables[i] == found(start.current[i].path));
        } else {
            assert(run.tables[i] == found(start.overlapping[i - current.len()].path));
        }
    }
}

/// The manifest knows each input.
proof fn lemma_input_known(
    files: Map<(u32, u64), MetaView>,
    levels: Seq<LevelMetas>,
    level: u32,
    range: (Seq<u8>, Seq<u8>),
    m: MetaView,
    own: bool,
)
    requires
        manifest_state::lists_files(levels, files),
        own ==> compaction::or_empty(manifest_state::files_at(levels, level)).contains(m),
        !own ==> compaction::overlapping_of(
            compaction::or_empty(manifest_state::files_at(levels, level)),
            range,
        ).contains(m),
    ensures
        files.dom().contains((level, m.file_id)),
        files[(level, m.file_id)] == m,
{
    let fs = compaction::or_empty(manifest_state::files_at(levels, level));
    manifest_state::law_snapshot_has_level(levels, files, level);
    if !own {
        let pred = |m: MetaView|
            span::known_span(m) matches Some(x) && span::spans_overlap(range, x);
        assert(compaction::overlapping_of(fs, range) == fs.filter(pred));
        fs.lemma_filter_contains_rev(pred, m);
    }
    let j = choose|j: int| 0 <= j < fs.len() && fs[j] == m;
    assert(files[(level, fs[j].file_id)] == fs[j]);
}

/// A compaction removes its inputs.
proof fn lemma_removed_slots(run: RunView)
    requires
        run.level < u32::MAX,
        run.current.len() > 1,
        run.current.len() + run.next.len() <= usize::MAX,
        run.overlapping.len() <= run.next.len(),
        run.merged is Some,
    ensures
        removed_slots(run) == history::input_slots(run),
{
    let slots = removed_slots(run);
    assert forall|i: int| 0 <= i < slots.len() implies #[trigger] slots[i] == history::input_slots(
        run,
    )[i] by {
        compaction::law_inputs_removed_in_turn(
            RunView { stage: Stage::Remove, at: i as nat, ..run },
        );
    }
    assert(slots =~= history::input_slots(run));
}

/// A compaction that is carried out keeps what the store has: every key that a table had
/// which is removed has its value in the table that is registered or in another one, or
/// was deleted. No table of the level is left, the levels behind the next one stay as they
/// were, each file that is removed is that of an input, and the manifest knows the tables
/// that are left.
pub proof fn law_compaction_carried_out(
    s: StoreView,
    files: Map<(u32, u64), MetaView>,
    levels: Seq<LevelMetas>,
    level: u32,
    found: spec_fn(Seq<char>) -> TableView,
    t: TableView,
    id: u64,
)
    requires
        compaction_runs(s, files, levels, level, found, t, id),
    ensures
        ({
            let run = merged_run(levels, level, found, t, id);
            let after = carried_out(s, run);
            &&& after.ok()
            &&& after.contents() == s.contents()
            &&& known(after, manifest_after(files, run))
            &&& forall|slot: (u32, u64)| #[trigger]
                after.tables.dom().contains(slot) ==> slot.0 != level
            &&& forall|slot: (u32, u64)| #[trigger]
                s.tables.dom().contains(slot) && slot.0 != level && slot.0 != level + 1
                    ==> after.tables.dom().contains(slot) && after.tables[slot] == s.tables[slot]
            &&& forall|i: int|
                0 <= i < removed_slots(run).len() ==> (RunView {
                    stage: Stage::Remove,
                    at: i as nat,
                    ..run
                }).action()->Remove_2 == files[#[trigger] removed_slots(run)[i]].path
        }),
{
    let below = (level + 1) as u32;
    let run = merged_run(levels, level, found, t, id);
    let slots = removed_slots(run);
    let gone = slots.to_set();
    let new = (below, id);
    lemma_inputs(s, files, levels, level, found, t, id);
    let vs = merge::lemma_merged_records(run.tables, t, run.deeper);
    pack::law_pack_keeps_records(vs);
    pack::law_packed_ends(vs);
    history::law_compaction_keeps_contents(s, level, slots, run.tables, t, id);
    let root = s.write.dir;
    assert forall|slot: (u32, u64)| gone.contains(slot) <==> slots.contains(slot) by {}
    assert(!gone.contains(new)) by {
        if slots.contains(new) {
            let i = choose|i: int| 0 <= i < slots.len() && slots[i] == new;
            assert(s.tables.dom().contains(slots[i]));
        }
    }
    assert(files.dom().contains(slots[0]) && files[slots[0]] == run.inputs()[0]);
    assert(known_table(s, slots[0], files[slots[0]]));
    assert(run.inputs()[0] == run.current[0]);
    let first = run.current[0];
    path::law_output_beside_inputs(root, first.level, first.file_id, below, id);
    let registering = RunView { stage: Stage::Register, ..run };
    if vs.len() > 0 {
        compaction::law_merged_table_registered(registering, vs);
        let m = registering.action()->Register_0;
        assert(m.path == path::table_path(root, below, id));
        assert(spans_records(m, vs)) by {
            assert(vs[0].key == m.smallest_key);
            assert(vs[vs.len() - 1].key == m.largest_key);
        }
    }
    let after = carried_out(s, run);
    let expected = s.compacted(slots, below, id, vs);
    assert(after.tables =~= expected.tables);
    assert(after =~= expected);
    let kept = manifest_after(files, run);
    assert(kept.dom() =~= after.tables.dom());
    assert forall|slot: (u32, u64)| #[trigger] kept.dom().contains(slot) implies known_table(
        after,
        slot,
        kept[slot],
    ) by {
        if slot != new {
            assert(files.dom().contains(slot));
            assert(known_table(s, slot, files[slot]));
        }
    }
    assert forall|slot: (u32, u64)| #[trigger]
        after.tables.dom().contains(slot) implies slot.0 != level by {
        if slot.0 == level {
            assert(s.tables.dom().contains(slot));
            assert(slots.contains(slot));
        }
    }
    assert forall|slot: (u32, u64)| #[trigger]
        s.tables.dom().contains(slot) && slot.0 != level && slot.0 != level
            + 1 implies after.tables.dom().contains(slot) && after.tables[slot]
        == s.tables[slot] by {
        if slots.contains(slot) {
            let i = choose|i: int| 0 <= i < slots.len() && slots[i] == slot;
            assert(slots[i].0 == level || slots[i].0 == level + 1);
        }
    }
    assert forall|i: int| 0 <= i < slots.len() implies (RunView {
        stage: Stage::Remove,
        at: i as nat,
        ..run
    }).action()->Remove_2 == files[#[trigger] slots[i]].path by {
        assert(files.dom().contains(slots[i]));
        let m = files[slots[i]];
        assert(known_table(s, slots[i], m));
        path::law_output_beside_inputs(root, m.level, m.file_id, m.level, m.file_id);
    }
}

/// The levels that a lookup goes through, by what a snapshot of the manifest has.
pub open spec fn searched_levels(levels: Seq<LevelMetas>) -> Seq<LevelView> {
    Seq::new(levels.len(), |i: int| read::level_view(levels[i]))
}

/// The table that a path of a store leads to.
pub open spec fn slot_at(s: StoreView) -> spec_fn(Seq<char>) -> (u32, u64) {
    |p: Seq<char>|
        choose|slot: (u32, u64)|
            s.tables.dom().contains(slot) && #[trigger] path::table_path(
                s.write.dir,
                slot.0,
                slot.1,
            ) == p
}

proof fn lemma_slot_at(s: StoreView, slot: (u32, u64))
    requires
        path::plain_dir(s.write.dir),
        s.tables.dom().contains(slot),
    ensures
        slot_at(s)(path::table_path(s.write.dir, slot.0, slot.1)) == slot,
{
    let p = path::table_path(s.write.dir, slot.0, slot.1);
    let found = slot_at(s)(p);
    assert(s.tables.dom().contains(slot) && path::table_path(s.write.dir, slot.0, slot.1) == p);
    path::law_tables_have_own_paths(s.write.dir, slot.0, slot.1, found.0, found.1);
}

/// A lookup goes through all tables that the manifest knows, level by level, each once.
pub proof fn law_lookup_searches_all(
    s: StoreView,
    files: Map<(u32, u64), MetaView>,
    levels: Seq<LevelMetas>,
)
    requires
        path::plain_dir(s.write.dir),
        known(s, files),
        manifest_state::lists_files(levels, files),
    ensures
        history::lists_tables(s, searched_levels(levels), slot_at(s)),
{
    let views = searched_levels(levels);
    let at = slot_at(s);
    assert forall|i: int, j: int|
        #![trigger views[i].paths[j]]
        0 <= i < views.len() && 0 <= j < views[i].paths.len() implies s.tables.dom().contains(
        at(views[i].paths[j]),
    ) && at(views[i].paths[j]) == (levels[i].level, levels[i].files@[j]@.file_id) by {
        lemma_listed_file(s, files, levels, i, j);
    }
    assert forall|i: int, j: int, k: int|
        #![trigger views[i].paths[j], views[i].paths[k]]
        0 <= i < views.len() && 0 <= j < k < views[i].paths.len() implies at(views[i].paths[j])
        != at(views[i].paths[k]) by {
        manifest_state::lemma_level_in_order(levels, i);
        assert(levels[i].files@[j].file_id < levels[i].files@[k].file_id);
    }
    assert forall|slot: (u32, u64)| #[trigger]
        s.tables.dom().contains(slot) implies exists|i: int, j: int|
        #![trigger views[i].paths[j]]
        0 <= i < views.len() && 0 <= j < views[i].paths.len() && at(views[i].paths[j]) == slot by {
        let all = manifest_state::all_files(levels);
        manifest_state::lemma_all_files(levels);
        assert(files.dom().contains(slot));
        assert(manifest_state::has_slot(all, slot));
        let k = manifest_state::slot_place(all, slot);
        assert(manifest_state::slot_of(all[k]) == slot);
        assert(manifest_state::in_levels(levels, all[k]));
        let (i, j) = choose|i: int, j: int|
            #![trigger levels[i].files@[j]]
            0 <= i < levels.len() && 0 <= j < levels[i].files@.len() && levels[i].files@[j]@
                == all[k];
        lemma_listed_file(s, files, levels, i, j);
        assert(at(views[i].paths[j]) == slot);
    }
}

/// A table that a snapshot lists is found at its path.
proof fn lemma_listed_file(
    s: StoreView,
    files: Map<(u32, u64), MetaView>,
    levels: Seq<LevelMetas>,
    i: int,
    j: int,
)
    requires
        path::plain_dir(s.write.dir),
        known(s, files),
        manifest_state::lists_files(levels, files),
        0 <= i < levels.len(),
        0 <= j < levels[i].files@.len(),
    ensures
        ({
            let slot = (levels[i].level, levels[i].files@[j]@.file_id);
            let p = searched_levels(levels)[i].paths[j];
            &&& searched_levels(levels)[i].level == levels[i].level
            &&& searched_levels(levels)[i].paths.len() == levels[i].files@.len()
            &&& s.tables.dom().contains(slot)
            &&& files[slot].path == p
            &&& slot_at(s)(p) == slot
            &&& levels[i].files@[j].level == levels[i].level
        }),
{
    let all = manifest_state::all_files(levels);
    let f = levels[i].files@[j];
    manifest_state::lemma_all_files(levels);
    assert(manifest_state::level_ok(levels[i]));
    assert(f.level == levels[i].level);
    assert(all.contains(levels[i].files@[j]@));
    let k = choose|k: int| 0 <= k < all.len() && all[k] == f@;
    manifest_state::lemma_by_slot(all, k);
    let slot = (levels[i].level, f@.file_id);
    assert(files.dom().contains(slot) && files[slot] == f@);
    assert(known_table(s, slot, files[slot]));
    lemma_slot_at(s, slot);
}

/// A lookup that goes by the manifest, and to which each file answers with the record
/// that its table has of the key, gives the value of the key.
pub proof fn law_lookup_by_manifest(
    s: StoreView,
    files: Map<(u32, u64), MetaView>,
    levels: Seq<LevelMetas>,
    key: Seq<u8>,
    found: Option<Version>,
    ans: spec_fn(Seq<char>) -> Option<Version>,
)
    requires
        s.ok(),
        path::plain_dir(s.write.dir),
        known(s, files),
        manifest_state::lists_files(levels, files),
        memtable::newest_in(s.write.table, key, s.write.sequence, found),
        forall|slot: (u32, u64)| #[trigger]
            files.dom().contains(slot) ==> ans(files[slot].path) == s.table_record(slot, key),
    ensures
        kv2::visible_value(read::start_view(found, searched_levels(levels)).outcome(ans))
            == s.value(key),
{
    let views = searched_levels(levels);
    let at = slot_at(s);
    law_lookup_searches_all(s, files, levels);
    assert forall|i: int, j: int|
        #![trigger views[i].paths[j]]
        0 <= i < views.len() && 0 <= j < views[i].paths.len() implies ans(views[i].paths[j])
        == s.table_record(at(views[i].paths[j]), key) by {
        lemma_listed_file(s, files, levels, i, j);
        let slot = (levels[i].level, levels[i].files@[j]@.file_id);
        assert(files.dom().contains(slot));
    }
    history::law_lookup_gives_value(s, key, found, views, at, ans);
}

/// What a flush leaves behind is the table as it was written and registered.
pub proof fn law_flush_leaves_table(run: FlushView)
    requires
        run.ok(),
        run.stage == FlushStage::Done,
    ensures
        run.action() is Done,
        ({
            let left = run.action()->Done_0;
            &&& (FlushView { stage: FlushStage::Write, ..run }).action() == FlushActionView::Write(
                left.sstable_path,
                left.data,
            )
            &&& left.record_count == run.records.len()
            &&& left.level == 0
            &&& left.file_id == run.file_id
        }),
{
}

/// The bytes that a flush writes are a table in which each key of the memtable is found
/// with its latest record, and no other key is found.
pub proof fn law_flush_writes_table(
    run: FlushView,
    m: Map<(Seq<u8>, u64), Version>,
    f: BloomFilterWrapper,
    key: Seq<u8>,
    lsn: u64,
)
    requires
        run.ok(),
        run.stage == FlushStage::Write,
        latest::lists_latest(run.records, m),
        pack::all_fit(kv2::flushed_versions(run.records)),
        run.table->0.bloom == f@,
        bloom::sound(f),
        run.table->0.blocks.len() <= u64::MAX,
        run.action()->Write_1.len() <= u64::MAX,
    ensures
        run.action() is Write,
        latest::is_latest(m, key, lsn) ==> table::table_lookup(run.action()->Write_1, key) == Ok::<
            _,
            IoFailure,
        >(Some(m[(key, lsn)].under(key))),
        (forall|l: u64| !#[trigger] m.dom().contains((key, l))) ==> table::table_lookup(
            run.action()->Write_1,
            key,
        ) == Ok::<_, IoFailure>(None::<Version>),
{
    let vs = crate::storage::writemanager::write::keyed_versions(run.records);
    assert(kv2::flushed_versions(run.records) =~= vs);
    assert(run.action()->Write_1 == table::table_of(vs, f));
    crate::storage::writemanager::write::law_flushed_lookup(run.records, m, f, key, lsn);
}

/// The filter of a flush is asked for with room for every key that is flushed, and for ten
/// more.
pub proof fn law_flush_asks_for_filter(run: FlushView)
    requires
        run.stage == FlushStage::Filter,
        run.records.len() + 10 <= usize::MAX,
    ensures
        run.action() is MakeFilter,
        run.action()->MakeFilter_0 == run.records.len() + 10,
{
}

} // verus!
