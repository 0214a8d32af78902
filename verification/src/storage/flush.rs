//! Flushing a plain memtable into a table of timestamped records.
use vstd::prelude::*;
use vstd::string::*;
use crate::bytes;
use crate::error::DBFailure;
use crate::order;
use crate::storage::block;
use crate::storage::bloom;
use crate::storage::bloom::BloomFilterWrapper;
use crate::storage::clock::current_timestamp_millis;
use crate::storage::compactionmanager::path;
use crate::storage::compactionmanager::path::{file_name_of, join_path, level_dir_name};
use crate::storage::index;
use crate::storage::keyed;
use crate::storage::keymap;
use crate::storage::memtable;
use crate::storage::memtable::PlainMemtable;
use crate::storage::record::{Record, RecordType, TimedRecord};
use crate::storage::timed_table;
use crate::storage::timed_table::encode_timed_table;
use crate::text;

verus! {

/// The directory of a level's tables.
pub open spec fn level_path(level: u32) -> Seq<char> {
    path::join("data"@, path::level_name(level))
}

/// The path of a table.
pub open spec fn timed_table_path(level: u32, file_id: u64) -> Seq<char> {
    path::join(level_path(level), text::decimal(file_id as nat) + ".db"@)
}

/// Where a log file goes once it is not needed any more.
pub open spec fn archive_path(file_path: Seq<char>) -> Seq<char> {
    path::join(
        "archive"@,
        match path::file_name(file_path) {
            Some(name) => name,
            None => seq![],
        },
    )
}

/// The directory of a level's tables.
pub fn level_dir(level: u32) -> (out: String)
    ensures
        out@ == level_path(level),
{
    let name = level_dir_name(level);
    join_path("data", name.as_str())
}

/// The path of a table.
pub fn sstable_path(level: u32, file_id: u64) -> (out: String)
    ensures
        out@ == timed_table_path(level, file_id),
{
    let dir = level_dir(level);
    let mut name = String::new();
    text::push_decimal(&mut name, file_id);
    name.append(".db");
    assert(name@ =~= text::decimal(file_id as nat) + ".db"@);
    join_path(dir.as_str(), name.as_str())
}

/// Where a log file goes once it is not needed any more.
pub fn archive_wal_path(file_path: &str) -> (out: String)
    ensures
        out@ == archive_path(file_path@),
{
    let name: String = match file_name_of(file_path) {
        Some(name) => name,
        None => String::new(),
    };
    assert(path::file_name(file_path@) is None ==> name@ =~= seq![]);
    join_path("archive", name.as_str())
}

/// Records as entries of a plain memtable, without their timestamps.
pub open spec fn unstamped(rs: Seq<TimedRecord>) -> Seq<(Seq<u8>, (RecordType, Seq<u8>))> {
    Seq::new(rs.len(), |i: int| (rs[i].key, (rs[i].record_type, rs[i].value)))
}

/// The records of a plain memtable in ascending order of their keys, each with the time
/// at which it was taken. What the times are is not stated.
pub fn memtable_records(memtable: &PlainMemtable) -> (out: Vec<Record>)
    ensures
        keymap::lists(unstamped(keyed::views(out@)), memtable@),
{
    let entries = memtable.entries();
    let ghost all = memtable::plain_pairs(entries@);
    let mut out: Vec<Record> = Vec::new();
    let mut i: usize = 0;
    assert(unstamped(keyed::views(out@)) =~= all.take(0));
    while i < entries.len()
        invariant
            i <= entries@.len(),
            all == memtable::plain_pairs(entries@),
            unstamped(keyed::views(out@)) == all.take(i as int),
        decreases entries@.len() - i,
    {
        let entry = &entries[i];
        let ghost before = unstamped(keyed::views(out@));
        let record = Record::new(
            bytes::copy_bytes(entry.key.as_slice()),
            bytes::copy_bytes(entry.value.as_slice()),
            entry.record_type,
            current_timestamp_millis(),
        );
        out.push(record);
        assert(unstamped(keyed::views(out@)) =~= before.push(all[i as int]));
        assert(all.take(i + 1) =~= all.take(i as int).push(all[i as int]));
        i = i + 1;
    }
    assert(all.take(i as int) =~= all);
    out
}

/// A table that a memtable was flushed into.
pub struct FlushedTable {
    /// Where it goes.
    pub path: String,
    /// Its bytes.
    pub data: Vec<u8>,
    /// Its filter.
    pub bloom: BloomFilterWrapper,
    /// Where the log file goes that the memtable was logged in.
    pub archive: String,
}

/// `t` has the records of `m`, with some timestamps, and its filter reports their keys.
pub open spec fn flushes(m: Map<Seq<u8>, (RecordType, Seq<u8>)>, t: FlushedTable) -> bool {
    exists|rs: Seq<TimedRecord>| #[trigger] flushed_records(m, t, rs)
}

/// `t` has the records `rs`, which are those of `m`, and its filter reports their keys.
pub open spec fn flushed_records(
    m: Map<Seq<u8>, (RecordType, Seq<u8>)>,
    t: FlushedTable,
    rs: Seq<TimedRecord>,
) -> bool {
    &&& keymap::lists(unstamped(rs), m)
    &&& t.data@ == timed_table::timed_table(
        timed_table::timed_blocks(rs),
        t.bloom@.words,
        t.bloom@.hashes,
    )
    &&& timed_table::timed_reported(rs, t.bloom@.members)
}

/// Makes the table of a plain memtable. `bloom` is the filter that its keys are noted
/// in, `file_path` is the file that it was logged in.
pub fn flush_memtable(
    memtable: &PlainMemtable,
    level: u32,
    file_id: u64,
    file_path: &str,
    bloom: BloomFilterWrapper,
) -> (t: FlushedTable)
    ensures
        t.path@ == timed_table_path(level, file_id),
        t.archive@ == archive_path(file_path@),
        flushes(memtable@, t),
        bloom@.members.subset_of(t.bloom@.members),
        bloom::sound(t.bloom),
{
    let records = memtable_records(memtable);
    let ghost rs = keyed::views(records@);
    let (data, filter) = encode_timed_table(&records, bloom);
    let t = FlushedTable {
        path: sstable_path(level, file_id),
        data,
        bloom: filter,
        archive: archive_wal_path(file_path),
    };
    assert(flushed_records(memtable@, t, rs));
    t
}

/// A lookup in the table of a plain memtable finds the value that the memtable has, and
/// nothing where it has none or has the key as deleted.
pub proof fn law_flush_then_lookup(
    m: Map<Seq<u8>, (RecordType, Seq<u8>)>,
    t: FlushedTable,
    rs: Seq<TimedRecord>,
    key: Seq<u8>,
)
    requires
        flushed_records(m, t, rs),
        timed_table::all_fit(rs),
        t.data@.len() <= u64::MAX,
    ensures
        index::sparse_lookup(
            t.data@,
            key,
            timed_table::timed_index(timed_table::timed_blocks(rs)),
        ) == Ok::<_, DBFailure>(
            if m.dom().contains(key) && m[key].0 == RecordType::Put {
                Some(m[key].1)
            } else {
                None
            },
        ),
        m.dom().contains(key) ==> t.bloom@.members.contains(key),
{
    let all = unstamped(rs);
    let k = block::record_key();
    assert forall|i: int, j: int| 0 <= i < j < rs.len() implies order::key_lt(
        k(#[trigger] rs[i]),
        k(#[trigger] rs[j]),
    ) by {
        assert(order::key_lt(all[i].0, all[j].0));
    }
    timed_table::law_timed_table_lookup(rs, t.bloom@.words, t.bloom@.hashes, key);
    if m.dom().contains(key) {
        assert(keymap::has_key(all, key));
        let i = keymap::place(all, key);
        assert(all[i].0 == key);
        assert(rs[i].key == key);
        keymap::lemma_listed(all, i);
        timed_table::lemma_value_in(rs, i);
        assert(t.bloom@.members.contains(rs[i].key));
    } else {
        assert forall|i: int| 0 <= i < rs.len() implies (#[trigger] rs[i]).key != key by {
            keymap::lemma_listed(all, i);
            assert(all[i].0 == rs[i].key);
        }
        timed_table::lemma_value_missing(rs, key);
    }
}

/// A table of a memtable goes into the directory of its level and is named after its
/// number; a file that is put away keeps its name.
pub proof fn law_flushed_file_paths(level: u32, file_id: u64, dir: Seq<char>, name: Seq<char>)
    requires
        path::plain_dir(dir),
        path::plain_name(name),
    ensures
        path::file_name(timed_table_path(level, file_id)) == Some(
            text::decimal(file_id as nat) + ".db"@,
        ),
        path::parent(timed_table_path(level, file_id)) == Some(level_path(level)),
        path::file_name(level_path(level)) == Some(path::level_name(level)),
        path::parent(level_path(level)) == Some("data"@),
        path::file_name(archive_path(path::join(dir, name))) == Some(name),
        path::parent(archive_path(path::join(dir, name))) == Some("archive"@),
{
    reveal_strlit("data");
    reveal_strlit("archive");
    reveal_strlit(".db");
    reveal_strlit("level-");
    text::law_decimal_reads_back(file_id as nat);
    text::law_decimal_reads_back(level as nat);
    let digits = text::decimal(file_id as nat);
    let file = digits + ".db"@;
    let l = path::level_name(level);
    let d = text::decimal(level as nat);
    assert forall|i: int| 0 <= i < file.len() implies #[trigger] file[i] != '/' by {
        if i < digits.len() {
            assert(file[i] == digits[i]);
        } else {
            assert(file[i] == ".db"@[i - digits.len()]);
        }
    }
    assert forall|i: int| 0 <= i < l.len() implies #[trigger] l[i] != '/' by {
        if i < 6 {
            assert(l[i] == "level-"@[i]);
        } else {
            assert(l[i] == d[i - 6]);
        }
    }
    assert(l.last() == d[d.len() - 1]);
    path::law_joined_path("data"@, l);
    assert(level_path(level).last() == l.last());
    path::law_joined_path(level_path(level), file);
    path::law_joined_path(dir, name);
    path::law_joined_path("archive"@, name);
}

/// A path without a file name is put away under the directory itself.
pub proof fn law_nameless_put_away(file_path: Seq<char>)
    requires
        path::file_name(file_path) is None,
    ensures
        archive_path(file_path) == "archive/"@,
{
    reveal_strlit("archive");
    reveal_strlit("archive/");
    assert(archive_path(file_path) =~= "archive/"@);
}

} // verus!
