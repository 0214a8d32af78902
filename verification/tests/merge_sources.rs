//! Merging a memtable with blocks of timestamped records.
use ceredb::storage::block::Block;
use ceredb::storage::compaction::merge_sstables;
use ceredb::storage::memtable::PlainMemtable;
use ceredb::storage::record::{Record, RecordType};

#[test]
fn test_merge_sstables_empty() {
    let memtable = PlainMemtable::new();
    let sstables: Vec<Block> = vec![];

    let result = merge_sstables(&memtable, &sstables).unwrap();

    assert_eq!(
        result.len(),
        0,
        "Merging empty inputs should return empty result"
    );
}

#[test]
fn test_merge_sstables_memtable_only() {
    let mut memtable = PlainMemtable::new();
    memtable.insert(b"dog".to_vec(), RecordType::Put, b"woof".to_vec());
    memtable.insert(b"cat".to_vec(), RecordType::Put, b"meow".to_vec());
    memtable.insert(b"bird".to_vec(), RecordType::Put, b"tweet".to_vec());

    let sstables: Vec<Block> = vec![];

    let result = merge_sstables(&memtable, &sstables).unwrap();

    assert_eq!(result.len(), 3, "Should have 3 records from memtable");

    assert_eq!(result[0].key, b"bird", "First record should be 'bird'");
    assert_eq!(result[0].value, b"tweet");
    assert_eq!(result[0].record_type, RecordType::Put);

    assert_eq!(result[1].key, b"cat", "Second record should be 'cat'");
    assert_eq!(result[1].value, b"meow");

    assert_eq!(result[2].key, b"dog", "Third record should be 'dog'");
    assert_eq!(result[2].value, b"woof");
}

#[test]
fn test_merge_sstables_sstable_only() {
    let memtable = PlainMemtable::new();

    let block_data = vec![
        Record::new(b"apple".to_vec(), b"red".to_vec(), RecordType::Put, 1000),
        Record::new(
            b"banana".to_vec(),
            b"yellow".to_vec(),
            RecordType::Put,
            1000,
        ),
    ];

    let block = Block {
        offset: 0,
        first_key: b"apple".to_vec(),
        last_key: b"banana".to_vec(),
        record_count: 2,
        data_size: 100,
        data: Some(block_data),
    };

    let sstables = vec![block];

    let result = merge_sstables(&memtable, &sstables).unwrap();

    assert_eq!(result.len(), 2, "Should have 2 records from SSTable");

    assert_eq!(result[0].key, b"apple", "First record should be 'apple'");
    assert_eq!(result[0].value, b"red");
    assert_eq!(result[0].record_type, RecordType::Put);

    assert_eq!(result[1].key, b"banana", "Second record should be 'banana'");
    assert_eq!(result[1].value, b"yellow");
}

#[test]
fn test_merge_sstables_memtable_and_sstable() {
    let mut memtable = PlainMemtable::new();
    memtable.insert(b"dog".to_vec(), RecordType::Put, b"woof".to_vec());
    memtable.insert(b"cat".to_vec(), RecordType::Put, b"meow".to_vec());

    let block_data = vec![
        Record::new(b"apple".to_vec(), b"red".to_vec(), RecordType::Put, 1000),
        Record::new(
            b"banana".to_vec(),
            b"yellow".to_vec(),
            RecordType::Put,
            1000,
        ),
    ];

    let block = Block {
        offset: 0,
        first_key: b"apple".to_vec(),
        last_key: b"banana".to_vec(),
        record_count: 2,
        data_size: 100,
        data: Some(block_data),
    };

    let sstables = vec![block];

    let result = merge_sstables(&memtable, &sstables).unwrap();

    assert_eq!(result.len(), 4, "Should have 4 merged records");

    assert_eq!(result[0].key, b"apple");
    assert_eq!(result[1].key, b"banana");
    assert_eq!(result[2].key, b"cat");
    assert_eq!(result[3].key, b"dog");
}

#[test]
fn test_merge_sstables_duplicate_keys_memtable_wins() {
    let mut memtable = PlainMemtable::new();
    memtable.insert(b"key1".to_vec(), RecordType::Put, b"new_value".to_vec());

    let block_data = vec![Record::new(
        b"key1".to_vec(),
        b"old_value".to_vec(),
        RecordType::Put,
        1000,
    )];

    let block = Block {
        offset: 0,
        first_key: b"key1".to_vec(),
        last_key: b"key1".to_vec(),
        record_count: 1,
        data_size: 50,
        data: Some(block_data),
    };

    let sstables = vec![block];

    let result = merge_sstables(&memtable, &sstables).unwrap();

    assert_eq!(result.len(), 1, "Should have 1 records");

    assert_eq!(result[0].key, b"key1");

    assert_eq!(
        result[0].value, b"new_value",
        "First should be memtable record"
    );

    assert!(
        result[0].timestamp != 0,
        "First should have memtable timestamp (0)"
    );
}

#[test]
fn test_merge_sstables_duplicate_keys_sstable_wins() {
    let memtable = PlainMemtable::new();

    let block_data1 = vec![Record::new(
        b"key1".to_vec(),
        b"old_value".to_vec(),
        RecordType::Put,
        1000,
    )];

    let block1 = Block {
        offset: 0,
        first_key: b"key1".to_vec(),
        last_key: b"key1".to_vec(),
        record_count: 1,
        data_size: 50,
        data: Some(block_data1),
    };

    let block_data2 = vec![Record::new(
        b"key1".to_vec(),
        b"new_value".to_vec(),
        RecordType::Put,
        2000,
    )];

    let block2 = Block {
        offset: 100,
        first_key: b"key1".to_vec(),
        last_key: b"key1".to_vec(),
        record_count: 1,
        data_size: 50,
        data: Some(block_data2),
    };

    let sstables = vec![block1, block2];

    let result = merge_sstables(&memtable, &sstables).unwrap();

    assert_eq!(
        result.len(),
        1,
        "Should have 1 records"
    );

    assert_eq!(result[0].key, b"key1");

    assert_eq!(
        result[0].timestamp, 2000,
        "First should have newer timestamp"
    );
    assert_eq!(
        result[0].value, b"new_value",
        "First should be newer record"
    );
}

#[test]
fn test_merge_sstables_multiple_sstables() {
    let mut memtable = PlainMemtable::new();
    memtable.insert(b"zebra".to_vec(), RecordType::Put, b"stripes".to_vec());

    let block_data1 = vec![Record::new(
        b"apple".to_vec(),
        b"red".to_vec(),
        RecordType::Put,
        1000,
    )];

    let block1 = Block {
        offset: 0,
        first_key: b"apple".to_vec(),
        last_key: b"apple".to_vec(),
        record_count: 1,
        data_size: 50,
        data: Some(block_data1),
    };

    let block_data2 = vec![Record::new(
        b"mango".to_vec(),
        b"orange".to_vec(),
        RecordType::Put,
        1000,
    )];

    let block2 = Block {
        offset: 100,
        first_key: b"mango".to_vec(),
        last_key: b"mango".to_vec(),
        record_count: 1,
        data_size: 50,
        data: Some(block_data2),
    };

    let sstables = vec![block1, block2];

    let result = merge_sstables(&memtable, &sstables).unwrap();

    assert_eq!(result.len(), 3, "Should have 3 records from all sources");

    assert_eq!(result[0].key, b"apple");
    assert_eq!(result[1].key, b"mango");
    assert_eq!(result[2].key, b"zebra");
}

#[test]
fn test_merge_sstables_preserves_record_types() {
    let mut memtable = PlainMemtable::new();
    memtable.insert(b"deleted_key".to_vec(), RecordType::Delete, b"".to_vec());
    memtable.insert(b"active_key".to_vec(), RecordType::Put, b"value".to_vec());

    let block_data = vec![
        Record::new(
            b"another_active".to_vec(),
            b"data".to_vec(),
            RecordType::Put,
            1000,
        ),
        Record::new(
            b"another_deleted".to_vec(),
            b"".to_vec(),
            RecordType::Delete,
            1000,
        ),
    ];

    let block = Block {
        offset: 0,
        first_key: b"another_active".to_vec(),
        last_key: b"another_deleted".to_vec(),
        record_count: 2,
        data_size: 100,
        data: Some(block_data),
    };

    let sstables = vec![block];

    let result = merge_sstables(&memtable, &sstables).unwrap();

    assert_eq!(result.len(), 4, "Should have 4 records");

    assert_eq!(result[0].key, b"active_key");
    assert_eq!(result[0].record_type, RecordType::Put);

    assert_eq!(result[1].key, b"another_active");
    assert_eq!(result[1].record_type, RecordType::Put);

    assert_eq!(result[2].key, b"another_deleted");
    assert_eq!(result[2].record_type, RecordType::Delete);

    assert_eq!(result[3].key, b"deleted_key");
    assert_eq!(result[3].record_type, RecordType::Delete);
}

#[test]
fn test_merge_sstables_sorted_output() {
    let mut memtable = PlainMemtable::new();
    memtable.insert(b"z_last".to_vec(), RecordType::Put, b"zzz".to_vec());
    memtable.insert(b"a_first".to_vec(), RecordType::Put, b"aaa".to_vec());
    memtable.insert(b"m_middle".to_vec(), RecordType::Put, b"mmm".to_vec());

    let block_data = vec![
        Record::new(b"b_two".to_vec(), b"bbb".to_vec(), RecordType::Put, 1000),
        Record::new(b"d_four".to_vec(), b"ddd".to_vec(), RecordType::Put, 1000),
    ];

    let block = Block {
        offset: 0,
        first_key: b"b_two".to_vec(),
        last_key: b"d_four".to_vec(),
        record_count: 2,
        data_size: 100,
        data: Some(block_data),
    };

    let sstables = vec![block];

    let result = merge_sstables(&memtable, &sstables).unwrap();

    assert_eq!(result.len(), 5, "Should have 5 records");

    assert_eq!(result[0].key, b"a_first");
    assert_eq!(result[1].key, b"b_two");
    assert_eq!(result[2].key, b"d_four");
    assert_eq!(result[3].key, b"m_middle");
    assert_eq!(result[4].key, b"z_last");

    for i in 1..result.len() {
        assert!(
            result[i].key > result[i - 1].key,
            "Records should be in ascending order by key"
        );
    }
}

#[test]
fn test_merge_sstables_empty_block_data() {
    let mut memtable = PlainMemtable::new();
    memtable.insert(b"key1".to_vec(), RecordType::Put, b"value1".to_vec());

    let block = Block {
        offset: 0,
        first_key: b"key2".to_vec(),
        last_key: b"key2".to_vec(),
        record_count: 0,
        data_size: 0,
        data: None, // No data
    };

    let sstables = vec![block];

    let result = merge_sstables(&memtable, &sstables).unwrap();

    assert_eq!(result.len(), 1, "Should have 1 record from memtable");
    assert_eq!(result[0].key, b"key1");
}
