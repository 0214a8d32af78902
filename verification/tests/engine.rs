//! The whole store, with its files kept in memory.
use ceredb::error::DBError;
use ceredb::storage::bloom::BloomFilterWrapper;
use ceredb::storage::compactionmanager::compaction::{CompactionAction, CompactionRun};
use ceredb::storage::config::StorageConfig;
use ceredb::storage::constant::MAXIMUM_LEVEL_FILES;
use ceredb::storage::kv2::{check_read, check_write, value_of_record, CompactionTrigger, KV2};
use ceredb::storage::manifest_state::{manifest_readable, replay_manifest, ManifestManager};
use ceredb::storage::memtable::Memtable;
use ceredb::storage::readmanager::range::{KeyBound, KeyRange};
use ceredb::storage::readmanager::read::{
    level_files, GetStep, LevelFiles, RangeScan, TableSearch,
};
use ceredb::storage::readmanager::table::get_from_single_sstable;
use ceredb::storage::record::{MemtableRecord, RecordType};
use ceredb::storage::recovermanager::log_store::LogCommand;
use ceredb::storage::recovermanager::wal::{log_file_names, recover_records, OpenSegment, WALManager};
use ceredb::storage::sstable_codec::SSTableCodec;
use ceredb::storage::writemanager::write::{CheckpointResult, FlushAction, FlushRun, WriteComponent};
use std::collections::{BTreeMap, HashMap};

const DIR: &str = "db/sstable";
const SEGMENT_ZERO: &str = "00000000000000000000.log";

/// The filter for a number of keys and a rate of false positives.
fn with_rate(expected_items: usize, rate: f64) -> BloomFilterWrapper {
    let shape = fastbloom::BloomFilter::with_false_pos(rate).expected_items(expected_items);
    BloomFilterWrapper::with_shape(shape.as_slice().len(), shape.num_hashes())
}

/// The files of a store: the tables, the segments of the log and the manifest.
struct Disk {
    tables: HashMap<String, Vec<u8>>,
    segments: HashMap<String, Vec<u8>>,
    manifest: Vec<u8>,
}

impl Disk {
    fn new() -> Disk {
        Disk { tables: HashMap::new(), segments: HashMap::new(), manifest: Vec::new() }
    }

    fn open_segment(&mut self, open: OpenSegment) {
        let file = self.segments.entry(open.filename).or_default();
        if let Some(header) = open.header {
            file.extend_from_slice(&header);
        }
    }

    fn segment_names(&self) -> Vec<String> {
        self.segments.keys().cloned().collect()
    }
}

/// A store with its files.
struct Store {
    disk: Disk,
    kv: KV2,
    wal: WALManager,
    manifest: ManifestManager,
    /// Before each step of the last compaction: whether it could still be cancelled.
    stops: Vec<bool>,
}

impl Store {
    fn open(mut disk: Disk, config: StorageConfig) -> Store {
        let names = disk.segment_names();
        let (wal, open) =
            WALManager::new(&names, disk.segments.contains_key(SEGMENT_ZERO), config.wal_segment_size);
        disk.open_segment(open);
        let files: Vec<Vec<u8>> = log_file_names(&disk.segment_names())
            .iter()
            .map(|f| disk.segments[&f.name].clone())
            .collect();
        let records = recover_records(&files).unwrap();
        assert!(manifest_readable(&disk.manifest));
        let manifest = replay_manifest(&disk.manifest).unwrap();
        let kv = KV2::open(&records, manifest.checkpoint_lsn(), DIR.to_string(), config);
        Store { disk, kv, wal, manifest, stops: Vec::new() }
    }

    fn new() -> Store {
        Store::open(Disk::new(), StorageConfig::default())
    }

    fn reopen(self) -> Store {
        let config = self.kv.config();
        Store::open(self.disk, config)
    }

    fn log_and_apply(&mut self, command: LogCommand) {
        let name = self.wal.active_segment().filename();
        let len = self.disk.segments[&name].len() as u64;
        let (open, bytes) =
            self.wal.write_log(len, &command.key, &command.value, command.lsn, command.record_type);
        if let Some(open) = open {
            self.disk.open_segment(open);
        }
        let name = self.wal.active_segment().filename();
        self.disk.segments.get_mut(&name).unwrap().extend_from_slice(&bytes);
        self.kv.apply(command);
        if let Some(run) = self.kv.maybe_flush_and_compact() {
            self.flush(run);
            let snapshot = self.manifest.snapshot();
            let count = snapshot.files(0).map_or(0, |f| f.len());
            if let Some(CompactionTrigger::CompactLevel { level }) = self.kv.flush_done(count) {
                self.compact(level).unwrap();
            }
        }
    }

    fn put(&mut self, key: &[u8], value: &[u8]) {
        let command = self.kv.put(key.to_vec(), value.to_vec());
        self.log_and_apply(command);
    }

    fn delete(&mut self, key: &[u8]) {
        let command = self.kv.delete(key.to_vec());
        self.log_and_apply(command);
    }

    fn rotate(&mut self) -> u64 {
        let rotation = self.wal.rotate_wal_file();
        self.disk.segments.remove(&rotation.remove);
        let open = self.wal.rotation_target(&rotation);
        self.disk.open_segment(open);
        self.wal.finish_rotation(rotation)
    }

    fn flush(&mut self, mut run: FlushRun) -> CheckpointResult {
        loop {
            match run.action() {
                FlushAction::MakeFilter(n) => run.filter_made(with_rate(n.max(1), 0.01)),
                FlushAction::AllocateFileId => {
                    let id = self.manifest.allocate_file_id().unwrap();
                    run.file_id_allocated(id);
                }
                FlushAction::Write(path, data) => {
                    self.disk.tables.insert(path, data);
                    run.written();
                }
                FlushAction::Register(meta) => {
                    let entry = ManifestManager::register_entry(&meta).unwrap();
                    self.disk.manifest.extend_from_slice(&entry);
                    self.manifest.register_sstable(meta).unwrap();
                    run.registered();
                }
                FlushAction::RotateLog => {
                    let id = self.rotate();
                    run.rotated(id);
                }
                FlushAction::MarkCheckpoint(lsn, segment) => {
                    let entry = ManifestManager::checkpoint_entry(lsn, segment).unwrap();
                    self.disk.manifest.extend_from_slice(&entry);
                    self.manifest.mark_checkpoint(lsn, segment);
                    run.checkpoint_marked();
                }
                FlushAction::Done(result) => return result,
            }
        }
    }

    fn compact(&mut self, level: u32) -> Result<(), DBError> {
        let mut run = CompactionRun::start(&self.manifest.snapshot(), level)?;
        self.stops.clear();
        loop {
            self.stops.push(run.may_stop());
            match run.action() {
                CompactionAction::ReadRange(path) => {
                    let data = &self.disk.tables[&path];
                    let (_, index, _) = SSTableCodec::deserialize_sections(data).unwrap();
                    run.range_found(SSTableCodec::range_from_index(&index));
                }
                CompactionAction::ReadTable(path) => {
                    let data = &self.disk.tables[&path];
                    assert!(SSTableCodec::readable(data));
                    let (_, index, bloom) = SSTableCodec::deserialize_sections(data).unwrap();
                    let blocks = SSTableCodec::get_all_blocks(data, &index).unwrap();
                    run.table_loaded(SSTableCodec::new(blocks, index, bloom));
                }
                CompactionAction::MakeFilter => run.filter_made(with_rate(1000, 0.01)),
                CompactionAction::AllocateFileId => {
                    let id = self.manifest.allocate_file_id().unwrap();
                    run.file_id_allocated(id);
                }
                CompactionAction::Write(path, data) => {
                    self.disk.tables.insert(path, data);
                    run.written();
                }
                CompactionAction::Register(meta) => {
                    let entry = ManifestManager::register_entry(&meta).unwrap();
                    self.disk.manifest.extend_from_slice(&entry);
                    self.manifest.register_sstable(meta).unwrap();
                    run.registered();
                }
                CompactionAction::Remove(level, file_id, path) => {
                    let entry = ManifestManager::remove_entry(level, file_id).unwrap();
                    self.disk.manifest.extend_from_slice(&entry);
                    self.manifest.remove_sstable(level, file_id);
                    self.disk.tables.remove(&path);
                    run.removed();
                }
                CompactionAction::Done => return Ok(()),
                CompactionAction::Fail(e) => return Err(e),
            }
        }
    }

    fn levels(&self) -> Vec<LevelFiles> {
        level_files(&self.manifest.snapshot())
    }

    /// How many tables of a level are on disk.
    fn tables_on_disk(&self, level: u32) -> usize {
        let dir = format!("{DIR}/level-{level}/");
        self.disk.tables.keys().filter(|path| path.starts_with(&dir)).count()
    }

    /// How many tables of a level the manifest lists.
    fn tables_listed(&self, level: u32) -> usize {
        self.manifest.snapshot().files(level).map_or(0, |files| files.len())
    }

    fn search(&self, mut search: TableSearch, key: &[u8]) -> Option<MemtableRecord> {
        loop {
            match search.step() {
                GetStep::Probe(path) => {
                    let data = &self.disk.tables[&path];
                    assert!(SSTableCodec::readable(data));
                    let found = get_from_single_sstable(data, key).unwrap();
                    search.tell(found);
                }
                GetStep::Done(r) => return r,
            }
        }
    }

    fn get(&self, key: &[u8]) -> Option<Vec<u8>> {
        value_of_record(self.search(self.kv.get(key, self.levels()), key))
    }

    fn get_at(&self, memtable: &Memtable, key: &[u8], lsn: u64) -> Option<MemtableRecord> {
        self.search(TableSearch::start(memtable, key, lsn, self.levels()), key)
    }

    fn finish_scan(&self, mut scan: RangeScan) -> Vec<(Vec<u8>, Vec<u8>)> {
        for path in scan.tables(&self.manifest.snapshot()) {
            let data = &self.disk.tables[&path];
            assert!(SSTableCodec::readable(data));
            scan.absorb_table(data).unwrap();
        }
        scan.finish()
    }

    fn scan(&self, range: KeyRange) -> Vec<(Vec<u8>, Vec<u8>)> {
        self.finish_scan(self.kv.scan(range))
    }
}

fn all() -> KeyRange {
    KeyRange { start: KeyBound::Unbounded, end: KeyBound::Unbounded }
}

fn inclusive(from: &[u8], to: &[u8]) -> KeyRange {
    KeyRange { start: KeyBound::Included(from.to_vec()), end: KeyBound::Included(to.to_vec()) }
}

fn half_open(from: &[u8], to: &[u8]) -> KeyRange {
    KeyRange { start: KeyBound::Included(from.to_vec()), end: KeyBound::Excluded(to.to_vec()) }
}

fn versions(items: &[(&[u8], &[u8], RecordType, u64)]) -> Memtable {
    let mut memtable = Memtable::new();
    for (key, value, record_type, lsn) in items {
        memtable.insert(
            key.to_vec(),
            *lsn,
            MemtableRecord::new(value.to_vec(), *record_type, *lsn),
        );
    }
    memtable
}

/// Flushes a memtable of its own into the store.
fn flush_table(store: &mut Store, memtable: &Memtable) -> CheckpointResult {
    let run = WriteComponent::new(DIR.to_string(), 0).flush(memtable);
    store.flush(run)
}

#[test]
fn kvengine_put_get_delete_roundtrip() {
    let mut store = Store::new();
    store.put(b"k1", b"v1");
    assert_eq!(store.get(b"k1"), Some(b"v1".to_vec()));

    store.delete(b"k1");
    assert_eq!(store.get(b"k1"), None);
}

#[test]
fn open_recovers_written_value_from_wal_after_restart() {
    let mut store = Store::new();
    store.put(b"recovery-key", b"recovery-value");

    let reopened = store.reopen();
    assert_eq!(reopened.get(b"recovery-key"), Some(b"recovery-value".to_vec()));
}

#[test]
fn numbering_goes_on_after_a_restart() {
    let mut store = Store::new();
    store.put(b"a", b"1");
    store.put(b"a", b"2");
    let mut reopened = store.reopen();
    assert_eq!(reopened.kv.write_component().current_sequence_number(), 2);
    reopened.put(b"a", b"3");
    assert_eq!(reopened.get(b"a"), Some(b"3".to_vec()));
}

#[test]
fn open_with_custom_config() {
    let custom = StorageConfig::builder()
        .memtable_size_threshold(8 * 1024 * 1024)
        .max_level0_files(4)
        .build()
        .unwrap();
    let store = Store::open(Disk::new(), custom);

    let config = store.kv.config();
    assert_eq!(config.memtable_size_threshold, 8 * 1024 * 1024);
    assert_eq!(config.max_level0_files, 4);
    assert_eq!(config.sstable_block_size, 4096);
}

#[test]
fn scan_returns_all_keys_in_range() {
    let mut store = Store::new();
    store.put(b"alpha", b"value_a");
    store.put(b"beta", b"value_b");
    store.put(b"gamma", b"value_c");

    let results = store.scan(all());
    assert_eq!(results.len(), 3);
    assert_eq!(results[0].0, b"alpha");
    assert_eq!(results[1].0, b"beta");
    assert_eq!(results[2].0, b"gamma");

    let results = store.scan(inclusive(b"beta", b"gamma"));
    assert_eq!(results.len(), 2);
    assert_eq!(results[0].0, b"beta");
    assert_eq!(results[1].0, b"gamma");

    let results = store.scan(half_open(b"x", b"z"));
    assert!(results.is_empty());
}

#[test]
fn kv2_scan_filters_tombstones() {
    let mut store = Store::new();
    store.put(b"keep", b"value");
    store.put(b"remove", b"temp");
    store.delete(b"remove");

    let results = store.scan(all());
    assert_eq!(results.len(), 1);
    assert_eq!(results[0].0, b"keep");
}

#[test]
fn scan_returns_newest_version_of_overwritten_keys() {
    let mut store = Store::new();
    store.put(b"key", b"old_value");
    store.put(b"key", b"new_value");

    let results = store.scan(all());
    assert_eq!(results.len(), 1);
    assert_eq!(results[0].1, b"new_value");
}

/// A store whose data stays in the memtable.
fn large_memtable() -> Store {
    let config =
        StorageConfig::builder().memtable_size_threshold(64 * 1024 * 1024).build().unwrap();
    Store::open(Disk::new(), config)
}

#[test]
fn scan_returns_all_keys_sorted() {
    let mut store = large_memtable();
    store.put(b"delta", b"val_d");
    store.put(b"alpha", b"val_a");
    store.put(b"charlie", b"val_c");
    store.put(b"beta", b"val_b");

    let results = store.scan(all());
    assert_eq!(results.len(), 4);
    assert_eq!(results[0].0, b"alpha");
    assert_eq!(results[1].0, b"beta");
    assert_eq!(results[2].0, b"charlie");
    assert_eq!(results[3].0, b"delta");
    assert_eq!(results[0].1, b"val_a");
    assert_eq!(results[3].1, b"val_d");
}

#[test]
fn scan_sub_range() {
    let mut store = large_memtable();
    store.put(b"apple", b"v1");
    store.put(b"banana", b"v2");
    store.put(b"cherry", b"v3");
    store.put(b"date", b"v4");

    let results = store.scan(inclusive(b"banana", b"cherry"));
    assert_eq!(results.len(), 2);
    assert_eq!(results[0].0, b"banana");
    assert_eq!(results[1].0, b"cherry");

    let from = KeyRange { start: KeyBound::Included(b"cherry".to_vec()), end: KeyBound::Unbounded };
    assert_eq!(store.scan(from).len(), 2);

    let to = KeyRange { start: KeyBound::Unbounded, end: KeyBound::Excluded(b"cherry".to_vec()) };
    let results = store.scan(to);
    assert_eq!(results.len(), 2);
    assert_eq!(results[0].0, b"apple");

    assert!(store.scan(inclusive(b"x", b"z")).is_empty());
}

#[test]
fn scan_scan_filters_tombstones() {
    let mut store = large_memtable();
    store.put(b"keep", b"value");
    store.put(b"remove", b"temp");
    store.delete(b"remove");

    let results = store.scan(all());
    assert_eq!(results.len(), 1);
    assert_eq!(results[0].0, b"keep");
}

#[test]
fn scan_overwritten_key_returns_latest() {
    let mut store = large_memtable();
    store.put(b"key", b"old");
    store.put(b"key", b"new");

    let results = store.scan(all());
    assert_eq!(results.len(), 1);
    assert_eq!(results[0].1, b"new");
}

#[test]
fn a_deletion_hides_what_the_tables_have() {
    let mut store = Store::new();
    flush_table(&mut store, &versions(&[(b"gone", b"old", RecordType::Put, 1)]));
    let mut memtable = Memtable::new();
    memtable.insert(
        b"gone".to_vec(),
        2,
        MemtableRecord::new(Vec::new(), RecordType::Delete, 2),
    );
    assert_eq!(value_of_record(store.get_at(&memtable, b"gone", 2)), None);
    let scan = RangeScan::start(&memtable, all(), 2);
    assert!(store.finish_scan(scan).is_empty());
    let earlier = RangeScan::start(&memtable, all(), 1);
    assert_eq!(store.finish_scan(earlier), vec![(b"gone".to_vec(), b"old".to_vec())]);
}

#[test]
fn flush_persists_memtable_and_updates_manifest() {
    let mut store = Store::new();
    let memtable = versions(&[
        (b"key1", b"value1", RecordType::Put, 1),
        (b"key2", b"", RecordType::Delete, 2),
    ]);
    let result = flush_table(&mut store, &memtable);

    assert_eq!(result.record_count, 2);
    assert_eq!(result.level, 0);
    assert!(!result.data.is_empty());

    let snapshot = store.manifest.snapshot();
    let files = snapshot.files(0).unwrap();
    assert_eq!(files.len(), 1);
    assert_eq!(files[0].record_count, 2);
    assert!(files[0].bloom_bitmap.contains(b"key1"));
    assert!(snapshot.active_wal_segment > 0);
}

#[test]
fn flush_persists_bloom_filter_metadata_for_memtable_keys() {
    let mut store = Store::new();
    let memtable = versions(&[
        (b"key-z", b"value-z", RecordType::Put, 1),
        (b"key-a", b"value-a", RecordType::Put, 2),
        (b"key-m", b"value-m", RecordType::Put, 3),
    ]);
    flush_table(&mut store, &memtable);

    let snapshot = store.manifest.snapshot();
    let files = snapshot.files(0).unwrap();
    assert_eq!(files.len(), 1);
    let bloom = &files[0].bloom_bitmap;
    assert!(bloom.contains(b"key-a"));
    assert!(bloom.contains(b"key-m"));
    assert!(bloom.contains(b"key-z"));
}

#[test]
fn flush_twice_registers_two_sstables_with_incrementing_ids() {
    let mut store = Store::new();
    let first = versions(&[(b"first-key", b"first-value", RecordType::Put, 1)]);
    let second = versions(&[(b"second-key", b"second-value", RecordType::Put, 2)]);
    flush_table(&mut store, &first);
    flush_table(&mut store, &second);

    let snapshot = store.manifest.snapshot();
    let files = snapshot.files(0).unwrap();
    assert_eq!(files.len(), 2);
    assert_eq!(files[0].file_id, 1);
    assert_eq!(files[1].file_id, 2);
    assert_eq!(snapshot.next_file_id, 3);
}

#[test]
fn flush_rotates_wal_on_each_successful_flush() {
    let mut store = Store::new();
    flush_table(&mut store, &versions(&[(b"wal-key", b"wal-value", RecordType::Put, 1)]));
    let first_segment = store.manifest.snapshot().active_wal_segment;
    assert!(first_segment > 0);

    flush_table(&mut store, &versions(&[(b"wal-key-2", b"wal-value-2", RecordType::Put, 2)]));
    assert!(store.manifest.snapshot().active_wal_segment > first_segment);
}

#[test]
fn put_appends_put_record_to_memtable_and_updates_size() {
    let mut writes = WriteComponent::new(DIR.to_string(), 0);
    let key = b"put-key".to_vec();
    let value = b"put-value".to_vec();
    let command = writes.put(key.clone(), value.clone());
    writes.apply(command);

    let slots = writes.active_memtable_handle().entries();
    assert_eq!(slots.len(), 1);
    assert_eq!(slots[0].key, key);
    assert_eq!(slots[0].lsn, 1);
    assert_eq!(slots[0].record.record_type, RecordType::Put);
    assert_eq!(slots[0].record.value, value);
    assert_eq!(slots[0].record.lsn, 1);
    assert_eq!(writes.memtable_size_bytes(), key.len() + b"put-value".len());
}

#[test]
fn delete_appends_tombstone_record_to_memtable_and_updates_size() {
    let mut writes = WriteComponent::new(DIR.to_string(), 0);
    let key = b"delete-key".to_vec();
    let command = writes.delete(key.clone());
    writes.apply(command);

    let slots = writes.active_memtable_handle().entries();
    assert_eq!(slots.len(), 1);
    assert_eq!(slots[0].key, key);
    assert_eq!(slots[0].lsn, 1);
    assert_eq!(slots[0].record.record_type, RecordType::Delete);
    assert!(slots[0].record.value.is_empty());
    assert_eq!(slots[0].record.lsn, 1);
    assert_eq!(writes.memtable_size_bytes(), key.len());
}

#[test]
fn get_returns_latest_visible_version_for_snapshot_sequence_number() {
    let store = Store::new();
    let memtable = versions(&[
        (b"mvcc-key", b"value-v1", RecordType::Put, 1),
        (b"mvcc-key", b"value-v3", RecordType::Put, 3),
        (b"mvcc-key", b"value-v5", RecordType::Put, 5),
    ]);
    let record = store.get_at(&memtable, b"mvcc-key", 4).unwrap();
    assert_eq!(record.value, b"value-v3".to_vec());
    assert_eq!(record.lsn, 3);
}

#[test]
fn get_reads_from_sstable_when_memtable_misses() {
    let mut store = Store::new();
    flush_table(&mut store, &versions(&[(b"sstable-key", b"sstable-value", RecordType::Put, 7)]));

    let record = store.get_at(&Memtable::new(), b"sstable-key", 7).unwrap();
    assert_eq!(record.value, b"sstable-value".to_vec());
    assert_eq!(record.record_type, RecordType::Put);
    assert_eq!(record.lsn, 7);
}

#[test]
fn l0_overlap_returns_highest_lsn() {
    let mut store = Store::new();
    flush_table(&mut store, &versions(&[(b"overlap-key", b"old-value", RecordType::Put, 5)]));
    flush_table(&mut store, &versions(&[(b"overlap-key", b"new-value", RecordType::Put, 10)]));

    let record = store.get_at(&Memtable::new(), b"overlap-key", 10).unwrap();
    assert_eq!(record.value, b"new-value");
    assert_eq!(record.lsn, 10);
}

#[test]
fn deserialize_reads_sstable_written_by_flush_serialize_path() {
    let mut store = Store::new();
    let mut memtable = Memtable::new();
    for i in 0..1000u64 {
        memtable.insert(
            format!("flush-key-{i}").into_bytes(),
            i,
            MemtableRecord::new(b"flush-val-a".to_vec(), RecordType::Put, i),
        );
    }
    let raw = flush_table(&mut store, &memtable).data;

    let (footer, index, bloom) = SSTableCodec::deserialize_sections(&raw).unwrap();
    assert!(!index.is_empty());
    assert!(bloom.contains(b"flush-key-1"));
    assert!(bloom.contains(b"flush-key-3"));
    let index_part = &raw[footer.index_block_start as usize..footer.index_block_end as usize];
    let bloom_part = &raw[footer.bloom_block_start as usize..footer.bloom_block_end as usize];
    assert_eq!(crc32fast::hash(index_part), footer.index_checksum);
    assert_eq!(crc32fast::hash(bloom_part), footer.bloom_checksum);

    let block = SSTableCodec::get_block(&raw, &footer, &index, b"flush-key-3").unwrap();
    let records = block.data.unwrap();
    assert_ne!(records.len(), 0);
    assert!(records.iter().any(|r| r.key == b"flush-key-3"));
}

#[test]
fn every_flushed_key_is_found_again() {
    let mut store = Store::new();
    let mut memtable = Memtable::new();
    for i in 0..1000u64 {
        memtable.insert(
            format!("key-{i}").into_bytes(),
            i,
            MemtableRecord::new(format!("value-{i}").into_bytes(), RecordType::Put, i),
        );
    }
    flush_table(&mut store, &memtable);
    let none = Memtable::new();
    for i in 0..1000u64 {
        let record = store.get_at(&none, format!("key-{i}").as_bytes(), 1000).unwrap();
        assert_eq!(record.value, format!("value-{i}").into_bytes());
        assert_eq!(record.lsn, i);
    }
    assert!(store.get_at(&none, b"absent", 1000).is_none());
    assert_eq!(store.finish_scan(RangeScan::start(&none, all(), 1000)).len(), 1000);
    let range = RangeScan::start(&none, half_open(b"key-10", b"key-11"), 1000);
    assert_eq!(store.finish_scan(range).len(), 11);
}

#[test]
fn compaction_keeps_the_newest_and_drops_deleted_keys() {
    let mut store = Store::new();
    flush_table(
        &mut store,
        &versions(&[
            (b"a", b"old", RecordType::Put, 1),
            (b"b", b"kept", RecordType::Put, 2),
            (b"c", b"gone", RecordType::Put, 3),
        ]),
    );
    flush_table(
        &mut store,
        &versions(&[(b"a", b"new", RecordType::Put, 4), (b"c", b"", RecordType::Delete, 5)]),
    );
    store.compact(0).unwrap();

    let snapshot = store.manifest.snapshot();
    assert!(snapshot.files(0).is_none());
    let files = snapshot.files(1).unwrap();
    assert_eq!(files.len(), 1);
    assert_eq!(files[0].record_count, 2);
    assert_eq!(files[0].path, "db/sstable/level-1/sstable-3.dat");
    assert_eq!(files[0].smallest_key, b"a");
    assert_eq!(files[0].largest_key, b"b");
    assert_eq!(store.disk.tables.len(), 1);

    let none = Memtable::new();
    assert_eq!(value_of_record(store.get_at(&none, b"a", 9)), Some(b"new".to_vec()));
    assert_eq!(value_of_record(store.get_at(&none, b"b", 9)), Some(b"kept".to_vec()));
    assert_eq!(value_of_record(store.get_at(&none, b"c", 9)), None);
}

#[test]
fn compaction_takes_in_the_overlapping_tables_of_the_next_level() {
    let mut store = Store::new();
    flush_table(&mut store, &versions(&[(b"k", b"1", RecordType::Put, 1)]));
    flush_table(&mut store, &versions(&[(b"l", b"2", RecordType::Put, 2)]));
    store.compact(0).unwrap();
    flush_table(&mut store, &versions(&[(b"x", b"3", RecordType::Put, 3)]));
    flush_table(&mut store, &versions(&[(b"y", b"4", RecordType::Put, 4)]));
    store.compact(0).unwrap();
    assert_eq!(store.manifest.snapshot().files(1).unwrap().len(), 2);

    flush_table(&mut store, &versions(&[(b"k", b"5", RecordType::Put, 5)]));
    flush_table(&mut store, &versions(&[(b"k", b"6", RecordType::Put, 6)]));
    store.compact(0).unwrap();
    let snapshot = store.manifest.snapshot();
    let files = snapshot.files(1).unwrap();
    assert_eq!(files.len(), 2);
    let none = Memtable::new();
    assert_eq!(value_of_record(store.get_at(&none, b"k", 9)), Some(b"6".to_vec()));
    assert_eq!(value_of_record(store.get_at(&none, b"l", 9)), Some(b"2".to_vec()));
    assert_eq!(value_of_record(store.get_at(&none, b"x", 9)), Some(b"3".to_vec()));
}

#[test]
fn compaction_of_deletions_alone_leaves_no_table() {
    let mut store = Store::new();
    flush_table(&mut store, &versions(&[(b"k", b"", RecordType::Delete, 1)]));
    flush_table(&mut store, &versions(&[(b"l", b"", RecordType::Delete, 2)]));
    store.compact(0).unwrap();
    assert!(store.manifest.snapshot().levels.is_empty());
    assert!(store.disk.tables.is_empty());
    assert_eq!(store.stops, vec![true, true, true, true, false, false]);
}

#[test]
fn a_compaction_can_be_cancelled_until_its_table_is_registered() {
    let mut store = Store::new();
    flush_table(&mut store, &versions(&[(b"k", b"1", RecordType::Put, 1)]));
    flush_table(&mut store, &versions(&[(b"l", b"2", RecordType::Put, 2)]));
    store.compact(0).unwrap();
    assert_eq!(store.stops, vec![true, true, true, true, true, true, false, false, false]);
}

#[test]
fn a_level_with_room_is_not_compacted() {
    let mut store = Store::new();
    flush_table(&mut store, &versions(&[(b"k", b"1", RecordType::Put, 1)]));
    let e = store.compact(0).unwrap_err();
    assert!(e.describe().contains("Level 0 is not full, no need to compact"));
}

#[test]
fn compaction_disk_usage_stable_across_repeated_cycles() {
    let mut store = Store::new();
    for cycle in 1..=3 {
        loop {
            let id = store.manifest.snapshot().next_file_id;
            flush_table(
                &mut store,
                &versions(&[
                    (b"a", b"val-a", RecordType::Put, id),
                    (b"z", b"val-b", RecordType::Put, id + 1),
                ]),
            );
            if store.tables_on_disk(0) >= MAXIMUM_LEVEL_FILES {
                break;
            }
        }
        let before = store.tables_on_disk(0);
        assert!(before >= MAXIMUM_LEVEL_FILES, "cycle {cycle}: {before} files in level 0");

        store.compact(0).unwrap();

        assert_eq!(store.tables_on_disk(0), 0, "cycle {cycle}");
        assert_eq!(store.tables_on_disk(1), 1, "cycle {cycle}");
        assert_eq!(store.disk.tables.len(), 1, "cycle {cycle}");
        assert_eq!(store.tables_on_disk(0), store.tables_listed(0), "cycle {cycle}");
        assert_eq!(store.tables_on_disk(1), store.tables_listed(1), "cycle {cycle}");
    }
    let none = Memtable::new();
    let last = store.manifest.snapshot().next_file_id;
    let found = store.get_at(&none, b"z", last).unwrap();
    assert_eq!((found.value, found.lsn), (b"val-b".to_vec(), last - 1));
}

#[test]
fn repeated_flushes_and_compactions_do_not_pile_tables_up() {
    let config = StorageConfig::builder()
        .memtable_size_threshold(1024 * 1024)
        .max_level0_files(2)
        .build()
        .unwrap();
    let mut store = Store::open(Disk::new(), config);
    let value = vec![7u8; 2000];
    let mut sizes = Vec::new();
    for cycle in 0..3u32 {
        for i in 0..1200u32 {
            let mut v = value.clone();
            v[0] = cycle as u8;
            store.put(format!("key-{i:05}").as_bytes(), &v);
        }
        sizes.push(store.disk.tables.len());
        let mut expected = value.clone();
        expected[0] = cycle as u8;
        assert_eq!(store.get(b"key-00007"), Some(expected));
    }
    assert!(sizes.iter().all(|n| *n <= 4), "files per cycle: {:?}", sizes);

    let reopened = store.reopen();
    let mut expected = value;
    expected[0] = 2;
    assert_eq!(reopened.get(b"key-01199"), Some(expected.clone()));
    assert_eq!(reopened.get(b"key-00000"), Some(expected));
    assert_eq!(reopened.scan(all()).len(), 1200);
}

#[test]
fn manager_replays_entries() {
    let mut store = Store::new();
    flush_table(&mut store, &versions(&[(b"k1", b"1", RecordType::Put, 1)]));
    flush_table(&mut store, &versions(&[(b"aa", b"2", RecordType::Put, 2)]));
    store.manifest.remove_sstable(0, 1);
    let removed = ManifestManager::remove_entry(0, 1).unwrap();
    store.disk.manifest.extend_from_slice(&removed);
    store.manifest.mark_checkpoint(77, 3);
    let marked = ManifestManager::checkpoint_entry(77, 3).unwrap();
    store.disk.manifest.extend_from_slice(&marked);

    let reopened = replay_manifest(&store.disk.manifest).unwrap();
    let snapshot = reopened.snapshot();
    assert_eq!(snapshot.active_wal_segment, 3);
    assert_eq!(reopened.checkpoint_lsn(), 77);
    assert_eq!(snapshot.files(0).unwrap().len(), 1);
    assert_eq!(snapshot.files(0).unwrap()[0].file_id, 2);
    assert!(snapshot.files(1).is_none());
    assert_eq!(snapshot.next_file_id, 3);
}

#[test]
fn followers_refuse() {
    assert!(check_read(true).is_ok());
    assert!(check_write(true, None).is_ok());
    let e = check_read(false).unwrap_err();
    assert!(e.describe().contains("not the leader; redirect reads to leader node"));
    let e = check_write(false, Some(3)).unwrap_err();
    assert!(e.describe().contains("not the leader; redirect to leader node Some(3)"));
    let e = check_write(false, None).unwrap_err();
    assert!(e.describe().contains("not the leader; redirect to leader node None"));
}

/// The next of a series of numbers that look random.
fn next_number(n: &mut u64) -> u64 {
    *n = n.wrapping_mul(6364136223846793005).wrapping_add(1442695040888963407);
    *n >> 33
}

#[test]
fn a_store_has_the_last_value_of_each_key() {
    let config = StorageConfig::builder()
        .memtable_size_threshold(1024 * 1024)
        .max_level0_files(2)
        .build()
        .unwrap();
    let mut store = Store::open(Disk::new(), config);
    let mut expected: BTreeMap<Vec<u8>, Vec<u8>> = BTreeMap::new();
    let mut n = 42u64;
    let mut flushes = 0;
    for round in 0..5000u32 {
        let key = format!("key-{:03}", next_number(&mut n) % 200).into_bytes();
        let tables: Vec<String> = store.disk.tables.keys().cloned().collect();
        if next_number(&mut n) % 4 == 0 {
            store.delete(&key);
            expected.remove(&key);
        } else {
            let mut value = format!("{round}-").into_bytes();
            value.resize(1500, b'x');
            store.put(&key, &value);
            expected.insert(key, value);
        }
        if tables.len() != store.disk.tables.len()
            || tables.iter().any(|p| !store.disk.tables.contains_key(p))
        {
            flushes += 1;
            assert_eq!(store.scan(all()), expected.clone().into_iter().collect::<Vec<_>>());
        }
    }
    assert!(flushes > 2);
    assert!(store.manifest.snapshot().files(1).is_some());
    for i in 0..200u32 {
        let key = format!("key-{i:03}").into_bytes();
        assert_eq!(store.get(&key), expected.get(&key).cloned());
    }
    let part = store.scan(half_open(b"key-050", b"key-100"));
    let range = expected.range(b"key-050".to_vec()..b"key-100".to_vec());
    assert_eq!(part, range.map(|(k, v)| (k.clone(), v.clone())).collect::<Vec<_>>());

    let reopened = store.reopen();
    for i in 0..200u32 {
        let key = format!("key-{i:03}").into_bytes();
        assert_eq!(reopened.get(&key), expected.get(&key).cloned());
    }
    assert_eq!(reopened.scan(all()), expected.into_iter().collect::<Vec<_>>());
}

#[test]
fn a_restart_after_a_flush_goes_on_with_the_numbers() {
    let config =
        StorageConfig::builder().memtable_size_threshold(1024 * 1024).build().unwrap();
    let mut store = Store::open(Disk::new(), config);
    let mut written = 0u64;
    while store.disk.tables.is_empty() {
        store.put(b"key", &vec![b'x'; 2000]);
        written += 1;
    }
    assert_eq!(store.manifest.checkpoint_lsn(), written);

    let mut reopened = store.reopen();
    assert_eq!(reopened.manifest.checkpoint_lsn(), written);
    assert_eq!(reopened.kv.write_component().current_sequence_number(), written);
    assert_eq!(reopened.get(b"key"), Some(vec![b'x'; 2000]));
    reopened.put(b"key", b"new");
    assert_eq!(reopened.get(b"key"), Some(b"new".to_vec()));
    let again = reopened.reopen();
    assert_eq!(again.get(b"key"), Some(b"new".to_vec()));
    assert_eq!(again.kv.write_component().current_sequence_number(), written + 1);
}

#[test]
fn what_the_tables_have_is_not_recovered_from_older_segments() {
    let config = StorageConfig::builder()
        .memtable_size_threshold(4 * 1024 * 1024)
        .wal_segment_size(1024 * 1024)
        .build()
        .unwrap();
    let mut store = Store::open(Disk::new(), config);
    let mut most = 0;
    let mut i = 0u32;
    store.put(b"key-00001", b"first");
    while store.disk.tables.is_empty() {
        store.put(format!("key-{i:05}").as_bytes(), &vec![b'x'; 2000]);
        most = most.max(store.disk.segments.len());
        i += 1;
    }
    assert!(most > 2);
    assert_eq!(store.disk.segments.len(), most);
    let written = u64::from(i) + 1;
    assert_eq!(store.manifest.checkpoint_lsn(), written);
    store.delete(b"key-00000");

    let reopened = store.reopen();
    assert_eq!(reopened.kv.write_component().active_memtable_handle().entries().len(), 1);
    assert_eq!(reopened.kv.write_component().current_sequence_number(), written + 1);
    assert_eq!(reopened.get(b"key-00000"), None);
    assert_eq!(reopened.get(b"key-00001"), Some(vec![b'x'; 2000]));
    assert_eq!(reopened.scan(all()).len(), i as usize - 1);
    let again = reopened.reopen();
    assert_eq!(again.get(b"key-00000"), None);
    assert_eq!(again.scan(all()).len(), i as usize - 1);
}

#[test]
fn records_longer_than_a_block_are_kept() {
    let mut store = Store::new();
    let long = vec![b'v'; 3 * 4096];
    flush_table(
        &mut store,
        &versions(&[
            (b"a", b"1", RecordType::Put, 1),
            (b"b", &long, RecordType::Put, 2),
            (b"c", b"3", RecordType::Put, 3),
        ]),
    );
    flush_table(&mut store, &versions(&[(b"d", &long, RecordType::Put, 4)]));
    let none = Memtable::new();
    for compacted in [false, true] {
        if compacted {
            store.compact(0).unwrap();
            assert_eq!(store.tables_listed(1), 1);
        }
        assert_eq!(value_of_record(store.get_at(&none, b"a", 9)), Some(b"1".to_vec()));
        assert_eq!(value_of_record(store.get_at(&none, b"b", 9)), Some(long.clone()));
        assert_eq!(value_of_record(store.get_at(&none, b"c", 9)), Some(b"3".to_vec()));
        assert_eq!(value_of_record(store.get_at(&none, b"d", 9)), Some(long.clone()));
        assert_eq!(store.finish_scan(RangeScan::start(&none, all(), 9)).len(), 4);
    }
}

#[test]
fn a_deletion_is_kept_while_a_level_further_down_has_tables() {
    let mut store = Store::new();
    flush_table(&mut store, &versions(&[(b"k", b"old", RecordType::Put, 1)]));
    flush_table(&mut store, &versions(&[(b"l", b"1", RecordType::Put, 2)]));
    store.compact(0).unwrap();
    flush_table(&mut store, &versions(&[(b"x", b"2", RecordType::Put, 3)]));
    flush_table(&mut store, &versions(&[(b"y", b"3", RecordType::Put, 4)]));
    store.compact(0).unwrap();
    store.compact(1).unwrap();
    assert_eq!((store.tables_listed(1), store.tables_listed(2)), (0, 1));

    flush_table(&mut store, &versions(&[(b"k", b"", RecordType::Delete, 5)]));
    flush_table(&mut store, &versions(&[(b"m", b"4", RecordType::Put, 6)]));
    store.compact(0).unwrap();
    assert_eq!((store.tables_listed(1), store.tables_listed(2)), (1, 1));
    assert_eq!(store.manifest.snapshot().files(1).unwrap()[0].record_count, 2);

    let none = Memtable::new();
    assert_eq!(value_of_record(store.get_at(&none, b"k", 9)), None);
    let found = store.finish_scan(RangeScan::start(&none, all(), 9));
    let keys: Vec<Vec<u8>> = found.into_iter().map(|p| p.0).collect();
    assert_eq!(keys, vec![b"l".to_vec(), b"m".to_vec(), b"x".to_vec(), b"y".to_vec()]);
}

#[test]
fn a_scan_reads_the_tables_that_its_range_touches() {
    let mut store = Store::new();
    flush_table(&mut store, &versions(&[(b"a", b"1", RecordType::Put, 1)]));
    flush_table(&mut store, &versions(&[(b"m", b"2", RecordType::Put, 2)]));
    let snapshot = store.manifest.snapshot();
    let none = Memtable::new();
    let paths = |range| RangeScan::start(&none, range, 9).tables(&snapshot);
    let (first, second) = (format!("{DIR}/level-0/sstable-1.dat"), format!("{DIR}/level-0/sstable-2.dat"));
    assert_eq!(paths(all()), vec![first.clone(), second.clone()]);
    assert_eq!(paths(inclusive(b"a", b"l")), vec![first]);
    assert_eq!(paths(inclusive(b"b", b"m")), vec![second]);
    assert!(paths(inclusive(b"b", b"l")).is_empty());
}

#[test]
fn get_returns_none_for_missing_key() {
    let store = Store::new();
    assert_eq!(store.get(b"missing"), None);
}

#[test]
fn scan_returns_empty_for_empty_store() {
    let store = Store::new();
    assert!(store.scan(all()).is_empty());
}
