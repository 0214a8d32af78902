//! Merging tables, and the ranges that a compaction goes by.
use ceredb::storage::bloom::BloomFilterWrapper;
use ceredb::storage::compactionmanager::merge::merge_files;
use ceredb::storage::compactionmanager::span::{compute_meta_range, ranges_overlap, widen};
use ceredb::storage::manifest_codec::SSTableMeta;
use ceredb::storage::record::{MemtableRecord, RecordType};
use ceredb::storage::sstable_codec::SSTableCodec;
use ceredb::storage::writemanager::block::Block;

/// The filter for a number of keys and a rate of false positives.
fn with_rate(expected_items: usize, rate: f64) -> BloomFilterWrapper {
    let shape = fastbloom::BloomFilter::with_false_pos(rate).expected_items(expected_items);
    BloomFilterWrapper::with_shape(shape.as_slice().len(), shape.num_hashes())
}

/// Helper: Create a MemtableRecord with key, value, record_type, and lsn
fn make_record(key: &[u8], value: &[u8], record_type: RecordType, lsn: u64) -> MemtableRecord {
    MemtableRecord::new(value.to_vec(), record_type, lsn).with_key(key.to_vec())
}

/// Helper: Create a Block with given records
fn make_block(records: Vec<MemtableRecord>, offset: u64) -> Block {
    let first_key = records.first().map(|r| r.key.clone()).unwrap_or_default();
    let last_key = records.last().map(|r| r.key.clone()).unwrap_or_default();
    let data_size = records
        .iter()
        .map(|r| r.record_length(&r.key))
        .sum::<usize>() as u32;

    Block {
        offset,
        first_key,
        last_key,
        record_count: records.len() as u32,
        data_size,
        data: Some(records),
    }
}

/// Helper: Create an SSTableCodec with given blocks
fn make_sstable(blocks: Vec<Block>) -> SSTableCodec {
    SSTableCodec::new(blocks, vec![], with_rate(1000, 0.01))
}

#[test]
fn merge_single_sstable_single_block() {
    let records = vec![
        make_record(b"key1", b"val1", RecordType::Put, 100),
        make_record(b"key2", b"val2", RecordType::Put, 200),
        make_record(b"key3", b"val3", RecordType::Put, 300),
    ];
    let block = make_block(records, 0);
    let sstables = vec![make_sstable(vec![block])];
    let result = merge_files(&sstables, with_rate(1000, 0.01));

    assert_eq!(result.blocks.len(), 1);
    let block_data = result.blocks[0].data.as_ref().unwrap();
    assert_eq!(block_data.len(), 3);
    assert_eq!(block_data[0].key, b"key1");
    assert_eq!(block_data[1].key, b"key2");
    assert_eq!(block_data[2].key, b"key3");
}

#[test]
fn merge_multiple_sstables_non_overlapping() {
    let sst1_records = vec![
        make_record(b"key1", b"val1", RecordType::Put, 100),
        make_record(b"key2", b"val2", RecordType::Put, 200),
    ];
    let sst2_records = vec![
        make_record(b"key3", b"val3", RecordType::Put, 300),
        make_record(b"key4", b"val4", RecordType::Put, 400),
    ];

    let sstables = vec![
        make_sstable(vec![make_block(sst1_records, 0)]),
        make_sstable(vec![make_block(sst2_records, 0)]),
    ];
    let result = merge_files(&sstables, with_rate(1000, 0.01));

    assert_eq!(result.blocks.len(), 1);
    let block_data = result.blocks[0].data.as_ref().unwrap();
    assert_eq!(block_data.len(), 4);
    assert_eq!(block_data[0].key, b"key1");
    assert_eq!(block_data[1].key, b"key2");
    assert_eq!(block_data[2].key, b"key3");
    assert_eq!(block_data[3].key, b"key4");
}

#[test]
fn merge_duplicate_keys_timestamps() {
    let sst1_records = vec![make_record(b"key1", b"old_value", RecordType::Put, 100)];
    let sst2_records = vec![make_record(b"key1", b"new_value", RecordType::Put, 200)];

    let sstables = vec![
        make_sstable(vec![make_block(sst1_records, 0)]),
        make_sstable(vec![make_block(sst2_records, 0)]),
    ];
    let result = merge_files(&sstables, with_rate(1000, 0.01));

    let block_data = result.blocks[0].data.as_ref().unwrap();
    assert_eq!(block_data.len(), 1);
    assert_eq!(block_data[0].lsn, 200);
    assert_eq!(block_data[0].value, b"new_value");
}

#[test]
fn merge_empty_blocks() {
    let empty_block = Block {
        offset: 0,
        first_key: vec![],
        last_key: vec![],
        record_count: 0,
        data_size: 0,
        data: None,
    };
    let records = vec![make_record(b"key1", b"val1", RecordType::Put, 100)];
    let normal_block = make_block(records, 0);

    let sstables = vec![
        make_sstable(vec![empty_block]),
        make_sstable(vec![normal_block]),
    ];
    let result = merge_files(&sstables, with_rate(1000, 0.01));

    let block_data = result.blocks[0].data.as_ref().unwrap();
    assert_eq!(block_data.len(), 1);
    assert_eq!(block_data[0].key, b"key1");
}

#[test]
fn merge_single_record_sstables() {
    let sst1_records = vec![make_record(b"aaa", b"val1", RecordType::Put, 100)];
    let sst2_records = vec![make_record(b"bbb", b"val2", RecordType::Put, 200)];
    let sst3_records = vec![make_record(b"ccc", b"val3", RecordType::Put, 300)];

    let sstables = vec![
        make_sstable(vec![make_block(sst1_records, 0)]),
        make_sstable(vec![make_block(sst2_records, 0)]),
        make_sstable(vec![make_block(sst3_records, 0)]),
    ];
    let result = merge_files(&sstables, with_rate(1000, 0.01));

    let block_data = result.blocks[0].data.as_ref().unwrap();
    assert_eq!(block_data.len(), 3);
    assert_eq!(block_data[0].key, b"aaa");
    assert_eq!(block_data[1].key, b"bbb");
    assert_eq!(block_data[2].key, b"ccc");
}

#[test]
fn merge_block_full_triggers_new_block() {

    let small_value = b"x".to_vec();
    let mut sst_records = Vec::new();
    for i in 0..500u32 {
        let key = format!("key{:03}", i);
        sst_records.push(make_record(
            key.as_bytes(),
            &small_value,
            RecordType::Put,
            i as u64,
        ));
    }

    let sstables = vec![make_sstable(vec![make_block(sst_records, 0)])];
    let result = merge_files(&sstables, with_rate(1000, 0.01));

    assert!(
        result.blocks.len() > 1,
        "Expected multiple blocks, got {}",
        result.blocks.len()
    );

    let total_records: usize = result
        .blocks
        .iter()
        .map(|b| b.data.as_ref().map(|d| d.len()).unwrap_or(0))
        .sum();

    assert_eq!(total_records, 500);
}

#[test]
fn merge_bloom_filter_contains_all_keys() {
    let sst1_records = vec![
        make_record(b"key1", b"val1", RecordType::Put, 100),
        make_record(b"key2", b"val2", RecordType::Put, 200),
    ];
    let sst2_records = vec![
        make_record(b"key3", b"val3", RecordType::Put, 300),
        make_record(b"key4", b"val4", RecordType::Put, 400),
    ];

    let sstables = vec![
        make_sstable(vec![make_block(sst1_records, 0)]),
        make_sstable(vec![make_block(sst2_records, 0)]),
    ];
    let result = merge_files(&sstables, with_rate(1000, 0.01));

    assert!(result.bloom.contains(b"key1"));
    assert!(result.bloom.contains(b"key2"));
    assert!(result.bloom.contains(b"key3"));
    assert!(result.bloom.contains(b"key4"));
}

#[test]
fn compaction_with_delete_tombstones() {
    let records = vec![
        make_record(b"key1", b"val1", RecordType::Put, 100),
        make_record(b"key2", b"", RecordType::Delete, 200),
        make_record(b"key3", b"val3", RecordType::Put, 300),
    ];
    let block = make_block(records, 0);
    let sstables = vec![make_sstable(vec![block])];
    let result = merge_files(&sstables, with_rate(1000, 0.01));

    let block_data = result.blocks[0].data.as_ref().unwrap();
    assert_eq!(block_data.len(), 2);
    assert_eq!(block_data[0].key, b"key1");
    assert_eq!(block_data[1].key, b"key3");
}

#[test]
fn merge_duplicate_keys_equal_lsn_delete_wins() {
    let sst1_records = vec![make_record(b"key1", b"alive", RecordType::Put, 200)];
    let sst2_records = vec![make_record(b"key1", b"", RecordType::Delete, 200)];

    let sstables = vec![
        make_sstable(vec![make_block(sst1_records, 0)]),
        make_sstable(vec![make_block(sst2_records, 0)]),
    ];
    let result = merge_files(&sstables, with_rate(1000, 0.01));

    let total_records: usize = result
        .blocks
        .iter()
        .map(|b| b.data.as_ref().map(|d| d.len()).unwrap_or(0))
        .sum();

    assert_eq!(total_records, 0);
    assert!(!result.bloom.contains(b"key1"));
}

#[test]
fn merge_duplicate_keys_newest_delete_dropped() {
    let sst1_records = vec![make_record(b"key1", b"older", RecordType::Put, 100)];
    let sst2_records = vec![make_record(b"key1", b"", RecordType::Delete, 300)];

    let sstables = vec![
        make_sstable(vec![make_block(sst1_records, 0)]),
        make_sstable(vec![make_block(sst2_records, 0)]),
    ];
    let result = merge_files(&sstables, with_rate(1000, 0.01));

    let total_records: usize = result
        .blocks
        .iter()
        .map(|b| b.data.as_ref().map(|d| d.len()).unwrap_or(0))
        .sum();

    assert_eq!(total_records, 0);
    assert!(!result.bloom.contains(b"key1"));
}

#[test]
fn merge_duplicate_keys_older_delete_newer_put_survives() {
    let sst1_records = vec![make_record(b"key1", b"", RecordType::Delete, 100)];
    let sst2_records = vec![make_record(b"key1", b"restored", RecordType::Put, 300)];

    let sstables = vec![
        make_sstable(vec![make_block(sst1_records, 0)]),
        make_sstable(vec![make_block(sst2_records, 0)]),
    ];
    let result = merge_files(&sstables, with_rate(1000, 0.01));

    let total_records: usize = result
        .blocks
        .iter()
        .map(|b| b.data.as_ref().map(|d| d.len()).unwrap_or(0))
        .sum();

    assert_eq!(total_records, 1);
    let block_data = result.blocks[0].data.as_ref().unwrap();
    assert_eq!(block_data[0].key, b"key1");
    assert_eq!(block_data[0].value, b"restored");
    assert_eq!(block_data[0].record_type, RecordType::Put);
}

#[test]
fn merge_duplicate_key_appears_once_after_compaction() {
    let sst1_records = vec![make_record(b"key1", b"v1", RecordType::Put, 100)];
    let sst2_records = vec![make_record(b"key1", b"v2", RecordType::Put, 200)];
    let sst3_records = vec![make_record(b"key1", b"v3", RecordType::Put, 300)];

    let sstables = vec![
        make_sstable(vec![make_block(sst1_records, 0)]),
        make_sstable(vec![make_block(sst2_records, 0)]),
        make_sstable(vec![make_block(sst3_records, 0)]),
    ];
    let result = merge_files(&sstables, with_rate(1000, 0.01));

    let total_records: usize = result
        .blocks
        .iter()
        .map(|b| b.data.as_ref().map(|d| d.len()).unwrap_or(0))
        .sum();

    assert_eq!(total_records, 1);
    let block_data = result.blocks[0].data.as_ref().unwrap();
    assert_eq!(block_data[0].key, b"key1");
    assert_eq!(block_data[0].value, b"v3");
    assert_eq!(block_data[0].lsn, 300);
}

#[test]
fn merge_duplicate_keys_non_contiguous_input_order() {
    let sst1_records = vec![
        make_record(b"key2", b"v2", RecordType::Put, 100),
        make_record(b"key1", b"old", RecordType::Put, 100),
    ];
    let sst2_records = vec![
        make_record(b"key3", b"v3", RecordType::Put, 100),
        make_record(b"key1", b"", RecordType::Delete, 200),
    ];

    let sstables = vec![
        make_sstable(vec![make_block(sst1_records, 0)]),
        make_sstable(vec![make_block(sst2_records, 0)]),
    ];
    let result = merge_files(&sstables, with_rate(1000, 0.01));

    let block_data = result.blocks[0].data.as_ref().unwrap();
    assert_eq!(block_data.len(), 2);
    assert_eq!(block_data[0].key, b"key2");
    assert_eq!(block_data[1].key, b"key3");
    assert!(!result.bloom.contains(b"key1"));
    assert!(result.bloom.contains(b"key2"));
    assert!(result.bloom.contains(b"key3"));
}

#[test]
fn compaction_merge_reverse_order() {
    let sst1_records = vec![
        make_record(b"y_key", b"val2", RecordType::Put, 200),
        make_record(b"z_key", b"val1", RecordType::Put, 100),
    ];
    let sst2_records = vec![
        make_record(b"a_key", b"val3", RecordType::Put, 300),
        make_record(b"b_key", b"val4", RecordType::Put, 400),
    ];

    let sstables = vec![
        make_sstable(vec![make_block(sst1_records, 0)]),
        make_sstable(vec![make_block(sst2_records, 0)]),
    ];
    let result = merge_files(&sstables, with_rate(1000, 0.01));

    let block_data = result.blocks[0].data.as_ref().unwrap();
    assert_eq!(block_data.len(), 4);
    assert_eq!(block_data[0].key, b"a_key");
    assert_eq!(block_data[1].key, b"b_key");
    assert_eq!(block_data[2].key, b"y_key");
    assert_eq!(block_data[3].key, b"z_key");
}

#[test]
fn ranges_overlap_when_boundaries_touch() {
    let left = (b"a".to_vec(), b"m".to_vec());
    let right = (b"m".to_vec(), b"z".to_vec());
    assert!(ranges_overlap(&left, &right));
}

#[test]
fn ranges_do_not_overlap_when_disjoint() {
    let left = (b"a".to_vec(), b"f".to_vec());
    let right = (b"g".to_vec(), b"z".to_vec());
    assert!(!ranges_overlap(&left, &right));
}

#[test]
fn compute_level_range_uses_manifest_range_when_present() {
    let metas = vec![
        SSTableMeta {
            file_id: 1,
            level: 0,
            path: "unused-a".to_string(),
            record_count: 10,
            bloom_bitmap: with_rate(16, 0.01),
            smallest_key: b"b".to_vec(),
            largest_key: b"d".to_vec(),
        },
        SSTableMeta {
            file_id: 2,
            level: 0,
            path: "unused-b".to_string(),
            record_count: 10,
            bloom_bitmap: with_rate(16, 0.01),
            smallest_key: b"a".to_vec(),
            largest_key: b"z".to_vec(),
        },
    ];
    let mut range = None;
    for meta in &metas {
        range = widen(range, compute_meta_range(meta));
    }
    let range = range.unwrap();
    assert_eq!(range.0, b"a");
    assert_eq!(range.1, b"z");
}
