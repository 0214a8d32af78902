//! Blocks of records that carry timestamps.
use ceredb::cursor::Cursor;
use ceredb::error::DBError;
use ceredb::storage::block::{Block, BlockBuilder};
use ceredb::storage::checksum::calculate_crc32;
use ceredb::storage::constant::SSTABLE_BLOCK_SIZE;
use ceredb::storage::record::{Record, RecordType};

fn find_record<'a>(records: &'a [Record], key: &[u8]) -> &'a Record {
    records
        .iter()
        .find(|record| record.key.as_slice() == key)
        .unwrap_or_else(|| panic!("Key {:?} should exist", key))
}

#[test]
fn test_block_builder() {
    let mut builder = BlockBuilder::new(0);

    assert!(builder.is_empty());
    assert_eq!(builder.size(), 0);

    let key1 = b"key1";
    let record = Record::new(key1.to_vec(), b"value1".to_vec(), RecordType::Put, 1000);
    let record_bytes = record.encode();

    let result = builder.add_record(&record);
    assert!(result.is_ok());
    assert!(!builder.is_empty());
    assert_eq!(builder.size(), record_bytes.len());

    let key2 = b"key2";
    let large_value = vec![0u8; SSTABLE_BLOCK_SIZE];
    let large_record = Record::new(key2.to_vec(), large_value, RecordType::Put, 2000);
    let _large_record_bytes = large_record.encode();

    let result = builder.add_record(&large_record);
    assert!(result.is_err()); // Should fail - block full

    let result = builder.build();
    assert!(result.is_some());

    let (parent_block, data) = result.unwrap();

    let mut cursor = Cursor::new(data.clone());
    let block = Block::decode(&mut cursor, 0).unwrap();

    assert_eq!(block.record_count, 1);
    assert_eq!(block.first_key, parent_block.first_key);
    assert_eq!(block.last_key, parent_block.last_key);

    assert!(block.data.is_some(), "block.data should be populated");
    let records = block.data.as_ref().unwrap();
    assert_eq!(records.len(), 1, "block should contain 1 record");

    let decoded_record = find_record(records, b"key1");
    assert_eq!(decoded_record.key, b"key1");
    assert_eq!(decoded_record.value, b"value1");
    assert_eq!(decoded_record.record_type, RecordType::Put);
}

#[test]
fn test_block_decode_single_record() {
    let mut builder = BlockBuilder::new(0);
    let key = b"test_key";
    let value = b"test_value";
    let record = Record::new(key.to_vec(), value.to_vec(), RecordType::Put, 1000);
    builder.add_record(&record).unwrap();
    let (_, data) = builder.build().unwrap();

    let mut cursor = Cursor::new(data.clone());
    let block = Block::decode(&mut cursor, 0).unwrap();

    assert!(block.data.is_some(), "block.data should be Some");
    let records = block.data.as_ref().unwrap();
    assert_eq!(records.len(), 1, "block should contain exactly 1 record");

    let decoded_record = find_record(records, b"test_key");

    assert_eq!(decoded_record.key, b"test_key");
    assert_eq!(decoded_record.value, b"test_value");
    assert_eq!(decoded_record.record_type, RecordType::Put);
}

#[test]
fn test_block_decode_multiple_records() {
    let mut builder = BlockBuilder::new(0);
    let records_data = vec![
        (b"key1" as &[u8], b"value1" as &[u8]),
        (b"key2", b"value2"),
        (b"key3", b"value3"),
        (b"key4", b"value4"),
    ];

    for (key, value) in &records_data {
        let record = Record::new(key.to_vec(), value.to_vec(), RecordType::Put, 1000);
        builder.add_record(&record).unwrap();
    }
    let (_, data) = builder.build().unwrap();

    let mut cursor = Cursor::new(data.clone());
    let block = Block::decode(&mut cursor, 0).unwrap();

    assert!(block.data.is_some(), "block.data should be Some");
    let decoded_records = block.data.as_ref().unwrap();
    assert_eq!(
        decoded_records.len(),
        4,
        "block should contain exactly 4 records"
    );

    for (expected_key, expected_value) in records_data.iter() {
        let record = find_record(decoded_records, *expected_key);
        assert_eq!(
            record.key, *expected_key,
            "Key mismatch for {:?}",
            expected_key
        );
        assert_eq!(
            record.value, *expected_value,
            "Value mismatch for key {:?}",
            expected_key
        );
        assert_eq!(
            record.record_type,
            RecordType::Put,
            "Record type mismatch for key {:?}",
            expected_key
        );
    }
}

#[test]
fn test_block_decode_preserves_record_types() {
    let mut builder = BlockBuilder::new(0);

    let record1 = Record::new(b"key1".to_vec(), b"value1".to_vec(), RecordType::Put, 1000);
    builder.add_record(&record1).unwrap();

    let record2 = Record::new(b"key2".to_vec(), b"value2".to_vec(), RecordType::Put, 2000);
    builder.add_record(&record2).unwrap();

    let record3 = Record::tombstone(b"key3".to_vec(), 3000);
    builder.add_record(&record3).unwrap();

    let record4 = Record::tombstone(b"key4".to_vec(), 4000);
    builder.add_record(&record4).unwrap();

    let (_, data) = builder.build().unwrap();

    let mut cursor = Cursor::new(data.clone());
    let block = Block::decode(&mut cursor, 0).unwrap();

    assert!(block.data.is_some(), "block.data should be Some");
    let decoded_records = block.data.as_ref().unwrap();
    assert_eq!(
        decoded_records.len(),
        4,
        "block should contain exactly 4 records"
    );

    let record0 = find_record(decoded_records, b"key1");
    assert_eq!(
        record0.record_type,
        RecordType::Put,
        "Record 0 should be Put"
    );
    assert_eq!(record0.key, b"key1");

    let record1 = find_record(decoded_records, b"key2");
    assert_eq!(
        record1.record_type,
        RecordType::Put,
        "Record 1 should be Put"
    );
    assert_eq!(record1.key, b"key2");

    let record2 = find_record(decoded_records, b"key3");
    assert_eq!(
        record2.record_type,
        RecordType::Delete,
        "Record 2 should be Delete"
    );
    assert_eq!(record2.key, b"key3");
    assert_eq!(record2.value, b"", "Delete records should have empty value");

    let record3 = find_record(decoded_records, b"key4");
    assert_eq!(
        record3.record_type,
        RecordType::Delete,
        "Record 3 should be Delete"
    );
    assert_eq!(record3.key, b"key4");
    assert_eq!(record3.value, b"", "Delete records should have empty value");
}

#[test]
fn test_block_decode_with_varying_key_sizes() {
    let mut builder = BlockBuilder::new(0);

    let short_key = b"key1";
    let record1 = Record::new(
        short_key.to_vec(),
        b"value1".to_vec(),
        RecordType::Put,
        1000,
    );
    builder.add_record(&record1).unwrap();

    let medium_key = b"medium_key_with_exactly_50_bytes_in_total_here!!!!";
    assert_eq!(medium_key.len(), 50, "Medium key should be 50 bytes");
    let record2 = Record::new(
        medium_key.to_vec(),
        b"value2".to_vec(),
        RecordType::Put,
        2000,
    );
    builder.add_record(&record2).unwrap();

    let long_key = vec![b'x'; 200];
    let record3 = Record::new(long_key.clone(), b"value3".to_vec(), RecordType::Put, 3000);
    builder.add_record(&record3).unwrap();

    let (_, data) = builder.build().unwrap();

    let mut cursor = Cursor::new(data.clone());
    let block = Block::decode(&mut cursor, 0).unwrap();

    assert!(block.data.is_some(), "block.data should be Some");
    let decoded_records = block.data.as_ref().unwrap();
    assert_eq!(
        decoded_records.len(),
        3,
        "block should contain exactly 3 records"
    );

    let record0 = find_record(decoded_records, short_key);
    assert_eq!(record0.key, short_key, "Short key mismatch");
    assert_eq!(record0.key.len(), 4, "Short key should be 4 bytes");

    let record1 = find_record(decoded_records, medium_key);
    assert_eq!(record1.key, medium_key, "Medium key mismatch");
    assert_eq!(record1.key.len(), 50, "Medium key should be 50 bytes");

    let record2 = find_record(decoded_records, long_key.as_slice());
    assert_eq!(record2.key, long_key.as_slice(), "Long key mismatch");
    assert_eq!(record2.key.len(), 200, "Long key should be 200 bytes");
}

#[test]
fn test_block_decode_cursor_position_advances() {
    let mut builder = BlockBuilder::new(0);
    let record1 = Record::new(b"key1".to_vec(), b"value1".to_vec(), RecordType::Put, 1000);
    let record2 = Record::new(b"key2".to_vec(), b"value2".to_vec(), RecordType::Put, 2000);
    builder.add_record(&record1).unwrap();
    builder.add_record(&record2).unwrap();

    let (block_metadata, data) = builder.build().unwrap();

    let mut cursor = Cursor::new(data.clone());
    let initial_pos = cursor.position();
    let block = Block::decode(&mut cursor, 0).unwrap();
    let final_pos = cursor.position();

    assert_eq!(initial_pos, 0, "Initial cursor position should be 0");

    let expected_pos = block_metadata.encode().len() + block_metadata.data_size as usize + 4;
    assert_eq!(
        final_pos as usize, expected_pos,
        "Cursor should advance to header_size + data_size + checksum"
    );

    assert!(block.data.is_some(), "block.data should be populated");
    assert_eq!(
        block.data.as_ref().unwrap().len(),
        2,
        "block should contain 2 records"
    );
}

#[test]
fn test_block_decode_corrupted_record_data() {
    let mut builder = BlockBuilder::new(0);
    let record = Record::new(b"key1".to_vec(), b"value1".to_vec(), RecordType::Put, 1000);
    builder.add_record(&record).unwrap();
    let (block_metadata, mut data) = builder.build().unwrap();

    let header_size = block_metadata.encode().len();

    let corruption_offset = header_size + 1 + 8 + 8 + 8 + 4; // After metadata and key
    if corruption_offset < data.len() {
        data[corruption_offset] ^= 0xFF; // Flip all bits
    }

    let mut cursor = Cursor::new(data);
    let result = Block::decode(&mut cursor, 0);

    assert!(result.is_err(), "Decode should fail with corrupted data");
}

#[test]
fn test_block_decode_invalid_record_count() {
    let mut builder = BlockBuilder::new(0);
    let record = Record::new(b"key1".to_vec(), b"value1".to_vec(), RecordType::Put, 1000);
    builder.add_record(&record).unwrap();
    let (mut block_metadata, data) = builder.build().unwrap();

    block_metadata.record_count = 10; // We only have 1 record

    let mut corrupted_data = Vec::new();
    corrupted_data.extend_from_slice(&block_metadata.encode());
    let header_size = Block {
        offset: 0,
        first_key: b"key1".to_vec(),
        last_key: b"key1".to_vec(),
        record_count: 1,
        data_size: block_metadata.data_size,
        data: None,
    }
    .encode()
    .len();
    corrupted_data.extend_from_slice(&data[header_size..]);

    let mut cursor = Cursor::new(corrupted_data);
    let result = Block::decode(&mut cursor, 0);

    assert!(
        result.is_err(),
        "Decode should fail when record_count exceeds actual records"
    );
}

#[test]
fn test_block_builder_appends_checksum() {
    let mut builder = BlockBuilder::new(0);
    let record = Record::new(
        b"test_key".to_vec(),
        b"test_value".to_vec(),
        RecordType::Put,
        1000,
    );
    builder.add_record(&record).unwrap();

    let (_, block_data) = builder.build().unwrap();

    assert!(
        block_data.len() >= 8,
        "Block data should include header and checksum"
    );

    let checksum_bytes = &block_data[block_data.len() - 4..];
    let stored_checksum = u32::from_be_bytes([
        checksum_bytes[0],
        checksum_bytes[1],
        checksum_bytes[2],
        checksum_bytes[3],
    ]);

    assert_ne!(
        stored_checksum, 0,
        "Checksum should be non-zero for block data"
    );

    let data_without_checksum = &block_data[..block_data.len() - 4];
    let calculated_checksum = calculate_crc32(data_without_checksum);

    assert_eq!(
        stored_checksum, calculated_checksum,
        "Stored checksum should match calculated CRC32 of block data"
    );
}

#[test]
fn test_block_checksum_covers_entire_block() {
    let mut builder = BlockBuilder::new(0);
    let record1 = Record::new(b"key1".to_vec(), b"value1".to_vec(), RecordType::Put, 1000);
    let record2 = Record::new(b"key2".to_vec(), b"value2".to_vec(), RecordType::Put, 1001);
    builder.add_record(&record1).unwrap();
    builder.add_record(&record2).unwrap();

    let (_, block_data) = builder.build().unwrap();

    let checksum_bytes = &block_data[block_data.len() - 4..];
    let stored_checksum = u32::from_be_bytes([
        checksum_bytes[0],
        checksum_bytes[1],
        checksum_bytes[2],
        checksum_bytes[3],
    ]);

    let data_without_checksum = &block_data[..block_data.len() - 4];
    let calculated_checksum = calculate_crc32(data_without_checksum);

    assert_eq!(stored_checksum, calculated_checksum);

    let mut modified_data = block_data.clone();
    if modified_data.len() > 4 {
        modified_data[5] ^= 0x01;
    }

    let modified_data_without_checksum = &modified_data[..modified_data.len() - 4];
    let recalculated_checksum = calculate_crc32(modified_data_without_checksum);

    assert_ne!(recalculated_checksum, stored_checksum);
}

#[test]
fn test_block_decode_verifies_checksum() {
    let mut builder = BlockBuilder::new(0);
    let record = Record::new(
        b"test_key".to_vec(),
        b"test_value".to_vec(),
        RecordType::Put,
        1000,
    );
    builder.add_record(&record).unwrap();
    let (_, valid_block_data) = builder.build().unwrap();

    let mut cursor = Cursor::new(valid_block_data.clone());
    let result = Block::decode(&mut cursor, 0);

    assert!(result.is_ok(), "Valid block should decode successfully");
    let decoded_block = result.unwrap();
    assert_eq!(decoded_block.record_count, 1);
    assert!(decoded_block.data.is_some());
}

#[test]
fn test_block_decode_detects_corruption() {
    let mut builder = BlockBuilder::new(0);
    let record = Record::new(
        b"test_key".to_vec(),
        b"test_value".to_vec(),
        RecordType::Put,
        1000,
    );
    builder.add_record(&record).unwrap();
    let (_, mut corrupted_data) = builder.build().unwrap();

    if corrupted_data.len() > 8 {
        corrupted_data[10] ^= 0xFF; // Flip all bits in byte at offset 10
    }

    let mut cursor = Cursor::new(corrupted_data);
    let result = Block::decode(&mut cursor, 0);

    assert!(result.is_err(), "Corrupted block should fail to decode");

    if let Err(DBError::Corrupted(msg)) = result {
        assert!(
            msg.contains("CRC32 mismatch"),
            "Error message should indicate CRC32 mismatch: {}",
            msg
        );
    } else {
        panic!("Expected DBError::Corrupted, got: {:?}", result);
    }
}

#[test]
fn test_block_decode_detects_checksum_corruption() {
    let mut builder = BlockBuilder::new(0);
    let record = Record::new(b"key".to_vec(), b"value".to_vec(), RecordType::Put, 1000);
    builder.add_record(&record).unwrap();
    let (_, mut block_data) = builder.build().unwrap();

    if block_data.len() >= 4 {
        let last_index = block_data.len() - 4;
        block_data[last_index] ^= 0xFF;
    }

    let mut cursor = Cursor::new(block_data);
    let result = Block::decode(&mut cursor, 0);

    assert!(
        result.is_err(),
        "Block with corrupted checksum should fail to decode"
    );
}

#[test]
fn test_block_encode_decode_roundtrip_with_checksum() {
    let mut builder = BlockBuilder::new(0);
    let records_input = vec![
        Record::new(b"apple".to_vec(), b"fruit1".to_vec(), RecordType::Put, 1000),
        Record::new(
            b"banana".to_vec(),
            b"fruit2".to_vec(),
            RecordType::Put,
            1001,
        ),
        Record::new(
            b"cherry".to_vec(),
            b"fruit3".to_vec(),
            RecordType::Put,
            1002,
        ),
    ];

    for record in &records_input {
        builder.add_record(record).unwrap();
    }
    let (_, block_data) = builder.build().unwrap();

    let mut cursor = Cursor::new(block_data);
    let decoded_block =
        Block::decode(&mut cursor, 0).expect("Block should decode successfully");

    assert_eq!(decoded_block.record_count as usize, records_input.len());
    let records = decoded_block.data.unwrap();
    assert_eq!(records.len(), records_input.len());

    assert_eq!(records[0].key, b"apple");
    assert_eq!(records[0].value, b"fruit1");
    assert_eq!(records[1].key, b"banana");
    assert_eq!(records[1].value, b"fruit2");
    assert_eq!(records[2].key, b"cherry");
    assert_eq!(records[2].value, b"fruit3");
}

#[test]
fn a_record_that_does_not_fit_is_handed_back() {
    let mut builder = BlockBuilder::new(0);
    let whole = Record::new(b"k".to_vec(), vec![7u8; 4096], RecordType::Put, 1);
    assert_eq!(builder.add_record(&whole).unwrap_err(), whole.encode());
    assert!(builder.is_empty());

    let small = Record::new(b"a".to_vec(), b"1".to_vec(), RecordType::Put, 1);
    let room = SSTABLE_BLOCK_SIZE - small.encode().len();
    let head = Record::new(b"k".to_vec(), Vec::new(), RecordType::Put, 1).encode().len();
    let rest = Record::new(b"k".to_vec(), vec![7u8; room - head], RecordType::Put, 1);
    let over = Record::new(b"k".to_vec(), vec![7u8; room - head + 1], RecordType::Put, 1);
    builder.add_record(&small).unwrap();
    assert_eq!(builder.add_record(&over).unwrap_err(), over.encode());
    assert_eq!(builder.size(), small.encode().len());
    builder.add_record(&rest).unwrap();
    assert_eq!(builder.size(), SSTABLE_BLOCK_SIZE);
}
