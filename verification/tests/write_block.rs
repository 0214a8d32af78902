//! Blocks of numbered versions.
use ceredb::storage::constant::SSTABLE_BLOCK_SIZE;
use ceredb::storage::record::{MemtableRecord, RecordType};
use ceredb::storage::writemanager::block::{Block, BlockBuilder, BlockBuilderState};

#[test]
fn test_block_builder_initial_state() {
    let builder = BlockBuilder::new(0);

    assert!(builder.is_empty());
    assert_eq!(builder.size(), 0);
}

#[test]
fn test_block_builder_add_record() {
    let mut builder = BlockBuilder::new(0);

    let key1 = b"key1";
    let memtable_record = MemtableRecord::new(b"value1".to_vec(), RecordType::Put, 1000);

    let result = builder.add_record(&key1.to_vec(), &memtable_record);
    assert!(matches!(result, BlockBuilderState::EnoughSpace));

    assert!(!builder.is_empty());
    assert_eq!(
        builder.size(),
        memtable_record.record_length(&key1.to_vec())
    );
}

#[test]
fn test_block_builder_add_multiple_records() {
    let mut builder = BlockBuilder::new(0);

    let key1 = b"key1";
    let record1 = MemtableRecord::new(b"value1".to_vec(), RecordType::Put, 1000);
    let result = builder.add_record(&key1.to_vec(), &record1);
    assert!(matches!(result, BlockBuilderState::EnoughSpace));

    let key2 = b"key2";
    let record2 = MemtableRecord::new(b"value2".to_vec(), RecordType::Put, 2000);
    let result = builder.add_record(&key2.to_vec(), &record2);
    assert!(matches!(result, BlockBuilderState::EnoughSpace));

    assert_eq!(
        builder.size(),
        record1.record_length(&key1.to_vec()) + record2.record_length(&key2.to_vec())
    );
}

#[test]
fn test_block_builder_block_full() {
    let mut builder = BlockBuilder::new(0);

    let key1 = b"key1";
    let memtable_record = MemtableRecord::new(b"value1".to_vec(), RecordType::Put, 1000);
    assert!(matches!(
        builder.add_record(&key1.to_vec(), &memtable_record),
        BlockBuilderState::EnoughSpace
    ));

    let key2 = b"key2";
    let large_value = vec![0u8; SSTABLE_BLOCK_SIZE];
    let large_record = MemtableRecord::new(large_value, RecordType::Put, 2000);

    let result = builder.add_record(&key2.to_vec(), &large_record);
    assert!(matches!(result, BlockBuilderState::Full(_, _)));

    if let BlockBuilderState::Full(block, next_offset) = result {
        assert_eq!(block.offset, 0);
        assert_eq!(block.first_key, key1.to_vec());
        assert_eq!(block.last_key, key1.to_vec());
        assert_eq!(block.record_count, 1);
        assert_eq!(next_offset, block.offset + block.data_size as u64);
    }
}

#[test]
fn test_block_builder_build() {
    let mut builder = BlockBuilder::new(0);

    let key1 = b"key1";
    let memtable_record = MemtableRecord::new(b"value1".to_vec(), RecordType::Put, 1000);
    assert!(matches!(
        builder.add_record(&key1.to_vec(), &memtable_record),
        BlockBuilderState::EnoughSpace
    ));

    let result = builder.build();
    assert!(result.is_some());

    let (block, data) = result.unwrap();

    assert_eq!(block.offset, 0);
    assert_eq!(block.first_key, key1.to_vec());
    assert_eq!(block.last_key, key1.to_vec());
    assert_eq!(block.record_count, 1);
    assert!(!data.is_empty());
}

#[test]
fn test_block_builder_build_empty() {
    let builder = BlockBuilder::new(0);

    let result = builder.build();
    assert!(result.is_none());
}

#[test]
fn test_block_builder_with_non_zero_offset() {
    let test_offset = 8192u64;
    let builder = BlockBuilder::new(test_offset);

    assert!(builder.is_empty());
    assert_eq!(builder.size(), 0);
}

#[test]
fn test_block_builder_first_last_key_tracking() {
    let mut builder = BlockBuilder::new(0);

    let key1 = b"aaa";
    let record1 = MemtableRecord::new(b"value1".to_vec(), RecordType::Put, 1000);
    assert!(matches!(
        builder.add_record(&key1.to_vec(), &record1),
        BlockBuilderState::EnoughSpace
    ));

    let key2 = b"mmm";
    let record2 = MemtableRecord::new(b"value2".to_vec(), RecordType::Put, 2000);
    assert!(matches!(
        builder.add_record(&key2.to_vec(), &record2),
        BlockBuilderState::EnoughSpace
    ));

    let key3 = b"zzz";
    let record3 = MemtableRecord::new(b"value3".to_vec(), RecordType::Put, 3000);
    assert!(matches!(
        builder.add_record(&key3.to_vec(), &record3),
        BlockBuilderState::EnoughSpace
    ));

    let (block, _) = builder.build().unwrap();

    assert_eq!(block.first_key, b"aaa".to_vec());
    assert_eq!(block.last_key, b"zzz".to_vec());
    assert_eq!(block.record_count, 3);
}

#[test]
fn test_block_builder_with_delete_records() {
    let mut builder = BlockBuilder::new(0);

    let key1 = b"key1";
    let put_record = MemtableRecord::new(b"value1".to_vec(), RecordType::Put, 1000);
    assert!(matches!(
        builder.add_record(&key1.to_vec(), &put_record),
        BlockBuilderState::EnoughSpace
    ));

    let key2 = b"key2";
    let delete_record = MemtableRecord::new(Vec::new(), RecordType::Delete, 2000);
    assert!(matches!(
        builder.add_record(&key2.to_vec(), &delete_record),
        BlockBuilderState::EnoughSpace
    ));

    let (block, _) = builder.build().unwrap();

    assert_eq!(block.record_count, 2);
}

#[test]
fn test_block_builder_size_calculation() {
    let mut builder = BlockBuilder::new(0);

    let key = b"test_key";
    let value = b"test_value";
    let record = MemtableRecord::new(value.to_vec(), RecordType::Put, 1000);

    let record_len = record.record_length(&key.to_vec());
    assert!(matches!(
        builder.add_record(&key.to_vec(), &record),
        BlockBuilderState::EnoughSpace
    ));

    assert_eq!(builder.size(), record_len);
}

#[test]
fn test_block_encode_header() {
    let block = Block {
        offset: 0,
        first_key: b"first".to_vec(),
        last_key: b"last".to_vec(),
        record_count: 5,
        data_size: 100,
        data: None,
    };

    let encoded = block.encode();

    assert_eq!(encoded.len(), 4 + 5 + 4 + 4 + 4 + 4); // 25 bytes

    let first_key_len =
        u32::from_be_bytes([encoded[0], encoded[1], encoded[2], encoded[3]]) as usize;
    assert_eq!(first_key_len, 5);

    let last_key_len =
        u32::from_be_bytes([encoded[9], encoded[10], encoded[11], encoded[12]]) as usize;
    assert_eq!(last_key_len, 4);

    let record_count = u32::from_be_bytes([encoded[17], encoded[18], encoded[19], encoded[20]]);
    assert_eq!(record_count, 5);

    let data_size = u32::from_be_bytes([encoded[21], encoded[22], encoded[23], encoded[24]]);
    assert_eq!(data_size, 100);
}

#[test]
fn test_block_with_various_key_lengths() {
    let test_cases = vec![
        (b"k".to_vec(), b"key".to_vec(), 1),
        (b"short".to_vec(), b"key".to_vec(), 5),
        (vec![b'x'; 100], b"key".to_vec(), 100),
    ];

    for (first_key, last_key, key_len) in test_cases {
        let block = Block {
            offset: 0,
            first_key: first_key.clone(),
            last_key: last_key.clone(),
            record_count: 1,
            data_size: 50,
            data: None,
        };

        let encoded = block.encode();
        assert!(!encoded.is_empty());

        let encoded_first_key_len =
            u32::from_be_bytes([encoded[0], encoded[1], encoded[2], encoded[3]]) as usize;
        assert_eq!(encoded_first_key_len, key_len);
    }
}
