//! Background work of the plain store: merging tables.
use vstd::prelude::*;
use crate::error::{DBError, DBFailure};
use crate::storage::block::Block;
use crate::storage::bloom;
use crate::storage::bloom::BloomFilterWrapper;
use crate::storage::compaction;
use crate::storage::compaction::merge_tables;
use crate::storage::flush;
use crate::storage::flush::sstable_path;
use crate::storage::index;
use crate::storage::keyed;
use crate::storage::record::{Record, TimedRecord};
use crate::storage::signal::CompactionSignal;
use crate::storage::timed_table;
use crate::storage::timed_table::encode_timed_table;

verus! {

/// A table that records were merged into.
pub struct CompactedTable {
    /// Where it goes.
    pub path: String,
    /// Its bytes.
    pub data: Vec<u8>,
    /// Its filter.
    pub bloom: BloomFilterWrapper,
}

/// The records of the tables that a signal names, merged; the tables come in the order
/// of the signal's files.
pub fn process_compaction_signal(tables: Vec<Vec<Block>>) -> (r: Result<Vec<Record>, DBError>)
    ensures
        r matches Ok(out) && keyed::views(out@) == compaction::merged_records(
            compaction::table_queues(tables@),
        ),
{
    merge_tables(tables)
}

/// The level that the merged table goes to.
pub fn compaction_target(signal: &CompactionSignal) -> (level: u32)
    requires
        signal.compaction_level < u32::MAX,
    ensures
        level == signal.compaction_level + 1,
{
    signal.compaction_level + 1
}

/// The table of merged records. `bloom` is the filter that their keys are noted in.
pub fn write_compacted_sstable_from_records(
    records: &Vec<Record>,
    level: u32,
    file_id: u64,
    bloom: BloomFilterWrapper,
) -> (t: CompactedTable)
    ensures
        t.path@ == flush::timed_table_path(level, file_id),
        t.data@ == timed_table::timed_table(
            timed_table::timed_blocks(keyed::views(records@)),
            t.bloom@.words,
            t.bloom@.hashes,
        ),
        timed_table::timed_reported(keyed::views(records@), t.bloom@.members),
        bloom@.members.subset_of(t.bloom@.members),
        bloom::sound(t.bloom),
{
    let (data, filter) = encode_timed_table(records, bloom);
    CompactedTable { path: sstable_path(level, file_id), data, bloom: filter }
}

/// A lookup in the table of the merged records of sorted tables finds of each key the
/// value that its newest record has, and nothing where that record deletes the key.
pub proof fn law_compacted_lookup(
    queues: Seq<Seq<TimedRecord>>,
    words: Seq<u64>,
    hashes: u32,
    key: Seq<u8>,
)
    requires
        compaction::queues_sorted(queues),
        timed_table::all_fit(compaction::merged_records(queues)),
        timed_table::timed_table(
            timed_table::timed_blocks(compaction::merged_records(queues)),
            words,
            hashes,
        ).len() <= u64::MAX,
    ensures
        index::sparse_lookup(
            timed_table::timed_table(
                timed_table::timed_blocks(compaction::merged_records(queues)),
                words,
                hashes,
            ),
            key,
            timed_table::timed_index(
                timed_table::timed_blocks(compaction::merged_records(queues)),
            ),
        ) == Ok::<_, DBFailure>(index::value_in(compaction::merged_records(queues), key)),
        forall|r: TimedRecord| #[trigger]
            compaction::queued(queues, r) ==> compaction::has_newer(
                compaction::merged_records(queues),
                r,
            ),
{
    compaction::law_merge_keeps_newest(queues);
    timed_table::law_timed_table_lookup(compaction::merged_records(queues), words, hashes, key);
}

} // verus!
