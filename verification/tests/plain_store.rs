//! The store with one value per key: its logs, its tables and their merging.
use ceredb::error::DBError;
use ceredb::storage::bloom::BloomFilterWrapper;
use ceredb::storage::compaction::{merge_record_sources, merge_tables, SSTableSource};
use ceredb::storage::constant::{MEMTABLE_SIZE_THRESHOLD, SSTABLE_BLOCK_SIZE};
use ceredb::storage::flush::{
    archive_wal_path, flush_memtable, level_dir, memtable_records, sstable_path,
    FlushedTable,
};
use ceredb::storage::index::{search_sstable_sparse, SparseIndexEntry};
use ceredb::storage::kv::{
    discover_wal_files, last_wal_id, parse_wal_filename, restore_from_existing_wals, wal_filename,
    PersistentKV, PlainStep,
};
use ceredb::storage::memtable::PlainMemtable;
use ceredb::storage::record::{Record, RecordType};
use ceredb::storage::signal::CompactionSignal;
use ceredb::storage::sstable::SSTable;
use ceredb::storage::wal::{recover, store_log, WALRecord};
use ceredb::storage::watcher::{
    compaction_target, process_compaction_signal, write_compacted_sstable_from_records,
};
use std::collections::{HashMap, HashSet};

/// The filter for a number of keys and a rate of false positives.
fn with_rate(expected_items: usize, rate: f64) -> BloomFilterWrapper {
    let shape = fastbloom::BloomFilter::with_false_pos(rate).expected_items(expected_items);
    BloomFilterWrapper::with_shape(shape.as_slice().len(), shape.num_hashes())
}

fn memtable(items: &[(&[u8], &[u8])]) -> PlainMemtable {
    let mut m = PlainMemtable::new();
    for (key, value) in items {
        m.insert(key.to_vec(), RecordType::Put, value.to_vec());
    }
    m
}

fn flushed(items: &[(&[u8], &[u8])], level: u32, file_id: u64) -> FlushedTable {
    let m = memtable(items);
    flush_memtable(&m, level, file_id, &format!("wal_{file_id}.log"), with_rate(items.len(), 0.01))
}

fn table_records(data: &[u8]) -> Vec<Record> {
    assert!(SSTable::readable(data));
    let table = SSTable::decode(data).unwrap();
    table.block.into_iter().flat_map(|b| b.data.unwrap_or_default()).collect()
}

/// Appends a record to a log file.
fn append(file: &mut Vec<u8>, key: &[u8], value: &[u8], record_type: RecordType, wal: &mut WALRecord) {
    let (bytes, _, _) =
        store_log(file.len() as u64, &key.to_vec(), &value.to_vec(), record_type, wal).unwrap();
    file.extend_from_slice(&bytes);
}

/// Goes through the tables that a lookup asks for.
fn get(kv: &PersistentKV, tables: &HashMap<String, Vec<u8>>, key: &[u8]) -> Result<Option<Vec<u8>>, DBError> {
    let mut lookup = kv.get(key);
    loop {
        match lookup.step() {
            PlainStep::Load(path) => match tables.get(&path) {
                Some(data) => {
                    assert!(SSTable::readable(data));
                    lookup.loaded(data)?;
                }
                None => lookup.missing(),
            },
            PlainStep::Done(value) => return Ok(value),
        }
    }
}

fn empty_store(files: &[String]) -> PersistentKV {
    PersistentKV::new(&files.to_vec(), restore_from_existing_wals(&Vec::new()), 1000, 0)
}

#[test]
fn test_flush_memtable_writes_level0_path() {
    let table = flushed(&[(b"key", b"value")], 0, 42);
    assert_eq!(table.path, "data/level-0/42.db");
    assert_eq!(table_records(&table.data).len(), 1);
}

#[test]
fn test_flush_archives_wal_with_matching_id() {
    let table = flushed(&[(b"key", b"value")], 0, 9001);
    assert_eq!(table.path, "data/level-0/9001.db");
    assert_eq!(table.archive, "archive/wal_9001.log");
}

#[test]
fn names_of_files() {
    assert_eq!(level_dir(3), "data/level-3");
    assert_eq!(sstable_path(1, 7), "data/level-1/7.db");
    assert_eq!(archive_wal_path("logs/wal_1.log"), "archive/wal_1.log");
    assert_eq!(wal_filename(17), "wal_17.log");
    assert_eq!(parse_wal_filename("wal_17.log"), Some(17));
    assert_eq!(parse_wal_filename("wal_.log"), None);
    assert_eq!(parse_wal_filename("wal_x.log"), None);
    assert_eq!(parse_wal_filename("wal_17.txt"), None);
    assert_eq!(parse_wal_filename("17.log"), None);
}

#[test]
fn logs_are_found_in_the_order_of_their_numbers() {
    let entries: Vec<(String, String)> = vec![
        ("wal_20.log".into(), "./wal_20.log".into()),
        ("notes".into(), "./notes".into()),
        ("wal_3.log".into(), "./wal_3.log".into()),
    ];
    let files = discover_wal_files(&entries);
    let ids: Vec<u64> = files.iter().map(|f| f.id).collect();
    assert_eq!(ids, vec![3, 20]);
    assert_eq!(files[0].path, "./wal_3.log");
    assert_eq!(last_wal_id(&files), 20);
    assert_eq!(last_wal_id(&Vec::new()), 0);
}

#[test]
fn flushed_keys_are_found_through_the_index() {
    let m: Vec<(Vec<u8>, Vec<u8>)> = (0..500u32)
        .map(|i| (format!("k{i:04}").into_bytes(), format!("value {i}").into_bytes()))
        .collect();
    let mut memtable = PlainMemtable::new();
    for (k, v) in &m {
        memtable.insert(k.clone(), RecordType::Put, v.clone());
    }
    memtable.insert(b"k0007".to_vec(), RecordType::Delete, Vec::new());
    let table = flush_memtable(&memtable, 0, 1, "wal_1.log", with_rate(500, 0.01));
    let decoded = SSTable::decode(&table.data).unwrap();
    assert!(decoded.index.len() > 1);
    for (k, v) in &m {
        assert!(decoded.bloom.contains(k));
        let found = search_sstable_sparse(&table.data, k, &decoded.index).unwrap();
        if k == b"k0007" {
            assert_eq!(found, None);
        } else {
            assert_eq!(found.as_ref(), Some(v));
        }
    }
    assert_eq!(search_sstable_sparse(&table.data, b"k9999", &decoded.index).unwrap(), None);
}

#[test]
fn an_index_that_points_nowhere_is_reported() {
    let index = vec![SparseIndexEntry {
        first_key: b"a".to_vec(),
        block_offset: 3,
        last_key: b"z".to_vec(),
        record_count: 1,
    }];
    assert!(search_sstable_sparse(&[0u8; 5], b"b", &index).is_err());
    assert!(search_sstable_sparse(&[0u8; 5], b"zz", &index).unwrap().is_none());
}

#[test]
fn a_record_above_the_block_size_has_a_block_of_its_own() {
    let long = vec![7u8; 3 * SSTABLE_BLOCK_SIZE];
    let exact = vec![8u8; SSTABLE_BLOCK_SIZE];
    let table = flushed(&[(b"a", b"1"), (b"b", &long), (b"c", &exact), (b"d", b"4")], 0, 7);
    let blocks = SSTable::decode(&table.data).unwrap().block;
    let counts: Vec<u32> = blocks.iter().map(|b| b.record_count).collect();
    assert_eq!(counts, vec![1, 1, 1, 1]);
    let records = table_records(&table.data);
    let values: Vec<Vec<u8>> = records.iter().map(|r| r.value.clone()).collect();
    assert_eq!(values, vec![b"1".to_vec(), long, exact, b"4".to_vec()]);
    for r in &records {
        assert!(table.bloom.contains(&r.key));
    }
    let out = write_compacted_sstable_from_records(&records, 1, 8, with_rate(4, 0.01));
    assert_eq!(table_records(&out.data).len(), 4);
}

#[test]
fn records_of_a_memtable_are_stamped_and_in_order() {
    let records = memtable_records(&memtable(&[(b"b", b"2"), (b"a", b"1")]));
    assert_eq!(records.len(), 2);
    assert_eq!(records[0].key, b"a");
    assert_eq!(records[1].key, b"b");
    // The clock stands after the beginning of 2001.
    assert!(records[0].timestamp > 978_307_200_000);
}

#[test]
fn test_in_memory_kv() {
    let mut kv = empty_store(&[]);
    assert!(kv.put(b"key1".to_vec(), b"value1".to_vec()).is_none());
    let none = HashMap::new();
    assert_eq!(get(&kv, &none, b"key1").unwrap(), Some(b"value1".to_vec()));

    kv.delete(b"key1".to_vec());
    assert_eq!(get(&kv, &none, b"key1").unwrap(), None);
}

#[test]
fn test_wal_recovery_rebuilds_memtable_with_tombstones() {
    let mut file = Vec::new();
    let mut wal = WALRecord::new();
    append(&mut file, b"alpha", b"value-alpha", RecordType::Put, &mut wal);
    append(&mut file, b"beta", b"", RecordType::Delete, &mut wal);
    append(&mut file, b"gamma", b"value-gamma", RecordType::Put, &mut wal);

    let mut memtable = PlainMemtable::new();
    for record in recover(&file).unwrap() {
        memtable.insert(record.key, record.record_type, record.value);
    }
    assert_eq!(memtable.get(b"alpha"), Some((RecordType::Put, b"value-alpha".to_vec())));
    assert_eq!(memtable.get(b"beta"), Some((RecordType::Delete, Vec::new())));
    assert_eq!(memtable.get(b"gamma"), Some((RecordType::Put, b"value-gamma".to_vec())));
}

#[test]
fn test_wal_recovery_fails_on_corrupt_data() {
    let mut file = Vec::new();
    let mut wal = WALRecord::new();
    append(&mut file, b"alpha", b"value-alpha", RecordType::Put, &mut wal);
    let last = file.len() - 1;
    file[last] ^= 0xFF;
    assert!(recover(&file).is_err());
}

#[test]
fn test_startup_restores_from_wal_files() {
    let mut file = Vec::new();
    let mut wal = WALRecord::new();
    append(&mut file, b"alpha", b"value-a", RecordType::Put, &mut wal);
    append(&mut file, b"beta", b"", RecordType::Delete, &mut wal);

    let restored = restore_from_existing_wals(&vec![Some(file)]);
    assert_eq!(restored.entries, 2);
    assert_eq!(restored.size, 5 + 7 + 4);
    let kv = PersistentKV::new(&Vec::new(), restored, 5, 9999);
    assert_eq!(kv.wal_path(), "wal_10000.log");
    let none = HashMap::new();
    assert_eq!(get(&kv, &none, b"alpha").unwrap(), Some(b"value-a".to_vec()));
    assert_eq!(get(&kv, &none, b"beta").unwrap(), None);
}

#[test]
fn the_last_log_wins_and_damaged_ones_are_passed_over() {
    let mut first = Vec::new();
    let mut wal = WALRecord::new();
    append(&mut first, b"k", b"old", RecordType::Put, &mut wal);
    let mut damaged = first.clone();
    damaged[0] = b'X';
    let mut second = Vec::new();
    append(&mut second, b"k", b"new", RecordType::Put, &mut wal);

    let restored = restore_from_existing_wals(&vec![Some(first), Some(second), None, Some(damaged)]);
    assert_eq!(restored.entries, 2);
    assert_eq!(restored.memtable.get(b"k"), Some((RecordType::Put, b"new".to_vec())));
}

#[test]
fn test_get_across_scattered_levels() {
    let tables = [
        flushed(&[(b"key-l0", b"value-l0")], 0, 100),
        flushed(&[(b"key-l1", b"value-l1")], 1, 200),
        flushed(&[(b"key-l2", b"value-l2")], 2, 300),
    ];
    let mut kv = empty_store(&[]);
    let mut disk = HashMap::new();
    for t in &tables {
        kv.add_table(&t.path);
        disk.insert(t.path.clone(), t.data.clone());
    }
    assert_eq!(get(&kv, &disk, b"key-l0").unwrap(), Some(b"value-l0".to_vec()));
    assert_eq!(get(&kv, &disk, b"key-l1").unwrap(), Some(b"value-l1".to_vec()));
    assert_eq!(get(&kv, &disk, b"key-l2").unwrap(), Some(b"value-l2".to_vec()));
    assert_eq!(get(&kv, &disk, b"key-missing").unwrap(), None);
}

#[test]
fn a_table_that_cannot_be_opened_is_skipped_and_a_damaged_one_is_not() {
    let t = flushed(&[(b"k", b"v")], 0, 1);
    let kv = empty_store(&["gone.db".to_string(), t.path.clone()]);
    let mut disk = HashMap::new();
    disk.insert(t.path.clone(), t.data.clone());
    assert_eq!(get(&kv, &disk, b"k").unwrap(), Some(b"v".to_vec()));

    let last = t.data.len() - 1;
    let mut damaged = t.data;
    damaged[last] ^= 0xFF;
    disk.insert("gone.db".to_string(), damaged);
    let e = get(&kv, &disk, b"k").unwrap_err();
    assert!(e.describe().contains("Failed to decode SSTable"));
}

#[test]
fn a_full_memtable_is_handed_over() {
    let mut kv = empty_store(&["a.db".to_string()]);
    let half = vec![1u8; MEMTABLE_SIZE_THRESHOLD as usize / 2];
    assert!(kv.put(b"a".to_vec(), half.clone()).is_none());
    let signal = kv.put(b"b".to_vec(), half).unwrap();
    assert_eq!(signal.file_id, 1000);
    assert_eq!(signal.wal_path, "wal_1000.log");
    assert_eq!(signal.value.entries().len(), 2);
    assert_eq!(kv.memtable_size(), 0);
    assert!(kv.memtable.entries().is_empty());

    assert!(kv.trigger_compaction_if_needed(signal.file_id).is_none());
    kv.add_table(&"b.db".to_string());
    let merge = kv.trigger_compaction_if_needed(signal.file_id).unwrap();
    assert_eq!(merge.files_to_compact, vec!["a.db", "b.db"]);
    assert_eq!(merge.compaction_level, 1);
    assert_eq!(merge.file_id, 1000);

    kv.rotate_wal(2000);
    assert_eq!(kv.wal_path(), "wal_2000.log");
}

#[test]
fn changes_are_numbered_in_the_log() {
    let mut kv = empty_store(&[]);
    let mut file = Vec::new();
    for key in [b"a", b"b"] {
        let bytes = kv
            .log_change(file.len() as u64, &key.to_vec(), &b"v".to_vec(), RecordType::Put)
            .unwrap();
        file.extend_from_slice(&bytes);
    }
    let numbers: Vec<u64> = recover(&file).unwrap().iter().map(|r| r.lsn_val).collect();
    assert_eq!(numbers, vec![1, 2]);
}

#[test]
fn test_compaction_creates_next_level_and_removes_sources() {
    let mut disk: HashMap<String, Vec<u8>> = HashMap::new();
    let (src1, src2) = (flushed(&[(b"k-a", b"v-a")], 0, 100), flushed(&[(b"k-b", b"v-b")], 0, 101));
    disk.insert(src1.path.clone(), src1.data);
    disk.insert(src2.path.clone(), src2.data);
    let signal = CompactionSignal {
        files_to_compact: vec![src1.path.clone(), src2.path.clone()],
        compaction_level: 1,
        file_id: 202,
    };
    let blocks =
        signal.files_to_compact.iter().map(|p| SSTable::decode(&disk[p]).unwrap().block).collect();
    let records = process_compaction_signal(blocks).unwrap();
    let level = compaction_target(&signal);
    let table = write_compacted_sstable_from_records(
        &records,
        level,
        signal.file_id,
        with_rate(records.len(), 0.01),
    );
    assert_eq!(table.path, "data/level-2/202.db");
    disk.insert(table.path, table.data);
    for path in &signal.files_to_compact {
        disk.remove(path);
    }
    assert!(disk.contains_key("data/level-2/202.db"));
    assert!(!disk.contains_key(&src1.path));
    assert!(!disk.contains_key(&src2.path));
    assert_eq!(table_records(&disk["data/level-2/202.db"]).len(), 2);
}

#[test]
fn test_compaction_merges_all_input_records_into_output() {
    let tables = [
        flushed(&[(b"alpha", b"value-alpha"), (b"beta", b"value-beta")], 0, 110),
        flushed(&[(b"gamma", b"value-gamma"), (b"delta", b"value-delta")], 0, 111),
    ];
    let blocks = tables.iter().map(|t| SSTable::decode(&t.data).unwrap().block).collect();
    let records = process_compaction_signal(blocks).unwrap();
    let table = write_compacted_sstable_from_records(&records, 2, 303, with_rate(4, 0.01));

    let records = table_records(&table.data);
    assert_eq!(records.len(), 4);
    let keys: HashSet<Vec<u8>> = records.into_iter().map(|r| r.key).collect();
    assert!(keys.contains(b"alpha" as &[u8]));
    assert!(keys.contains(b"beta" as &[u8]));
    assert!(keys.contains(b"gamma" as &[u8]));
    assert!(keys.contains(b"delta" as &[u8]));
}

#[test]
fn test_compaction_overlapping_keys_selects_latest_record() {
    let old = Record::new(b"same-key".to_vec(), b"old-value".to_vec(), RecordType::Put, 1);
    let new = Record::new(b"same-key".to_vec(), b"new-value".to_vec(), RecordType::Put, 2);
    let merged = vec![old, new];
    let out = write_compacted_sstable_from_records(&merged, 2, 404, with_rate(2, 0.01));

    let table = SSTable::decode(&out.data).unwrap();
    let deduped = merge_record_sources(vec![SSTableSource::new(table.block)]).unwrap();
    assert_eq!(deduped.len(), 1);
    assert_eq!(deduped[0].key.as_slice(), b"same-key");
    assert_eq!(deduped[0].value.as_slice(), b"new-value");
    assert_eq!(deduped[0].timestamp, 2);
}

#[test]
fn merged_tables_keep_the_newest_record_of_each_key() {
    let record = |key: &[u8], value: &[u8], t| {
        Record::new(key.to_vec(), value.to_vec(), RecordType::Put, t)
    };
    let table = |records: &Vec<Record>| {
        let out = write_compacted_sstable_from_records(records, 1, 1, with_rate(2, 0.01));
        SSTable::decode(&out.data).unwrap().block
    };
    let a = table(&vec![record(b"a", b"1", 10), record(b"c", b"3", 10)]);
    let b = table(&vec![record(b"b", b"2", 5), record(b"c", b"old", 5)]);
    let merged = merge_tables(vec![a, b]).unwrap();
    let values: Vec<Vec<u8>> = merged.into_iter().map(|r| r.value).collect();
    assert_eq!(values, vec![b"1".to_vec(), b"2".to_vec(), b"3".to_vec()]);
}
