//! The format of tables: sections, footer, index and records.
use ceredb::cursor::Cursor;
use ceredb::error::ErrorKind;
use ceredb::storage::bloom::BloomFilterWrapper;
use ceredb::storage::footer::{
    decode_record_from_file, read_sstable_bloom, read_sstable_footer, read_sstable_index,
    read_sstable_sparse_index, verify_bloom_checksum, SSTableFooter,
};
use ceredb::storage::index::{
    locate_block, search_sstable, search_sstable_with_bloom, verify_index_checksum, IndexEntry,
    Offset, SparseIndexEntry,
};
use ceredb::storage::keymap::KeyMap;
use ceredb::storage::record::{MemtableRecord, Record, RecordType};
use ceredb::storage::sstable_codec::SSTableCodec;
use ceredb::storage::writemanager::block::Block;

/// The filter for a number of keys and a rate of false positives.
fn with_rate(expected_items: usize, rate: f64) -> BloomFilterWrapper {
    let shape = fastbloom::BloomFilter::with_false_pos(rate).expected_items(expected_items);
    BloomFilterWrapper::with_shape(shape.as_slice().len(), shape.num_hashes())
}

fn version(key: &[u8], value: &[u8], lsn: u64) -> MemtableRecord {
    MemtableRecord {
        key: key.to_vec(),
        value: value.to_vec(),
        record_type: RecordType::Put,
        lsn,
    }
}

fn build_codec_fixture() -> (SSTableCodec, Vec<u8>) {
    let block_a = Block {
        offset: 0,
        first_key: b"alpha".to_vec(),
        last_key: b"kappa".to_vec(),
        record_count: 2,
        data_size: 64,
        data: Some(vec![version(b"alpha", b"value1", 1), version(b"lambda", b"value2", 2)]),
    };
    let block_b = Block {
        offset: block_a.encode().len() as u64,
        first_key: b"lambda".to_vec(),
        last_key: b"omega".to_vec(),
        record_count: 1,
        data_size: 48,
        data: Some(vec![version(b"omega", b"value3", 3), version(b"psi", b"value4", 4)]),
    };
    let index = [&block_a, &block_b]
        .iter()
        .map(|b| SparseIndexEntry {
            first_key: b.first_key.clone(),
            block_offset: b.offset,
            last_key: b.last_key.clone(),
            record_count: b.record_count,
        })
        .collect();
    let mut bloom = with_rate(8, 0.01);
    bloom.insert(b"alpha");
    bloom.insert(b"omega");
    let codec = SSTableCodec::new(vec![block_a, block_b], index, bloom);
    let raw = codec.serialize().0;
    (codec, raw)
}

#[test]
fn deserialize_reads_footer_and_bloom() {
    let codec = SSTableCodec::new(Vec::new(), Vec::new(), with_rate(16, 0.01));
    let (raw, footer) = codec.serialize();
    assert!(SSTableCodec::readable(&raw));
    assert!(SSTableCodec::deserialize(&raw).is_ok());
    assert_eq!(footer.index_block_start, 0);
    assert_eq!(footer.index_block_end, 8);
}

#[test]
fn deserialize_returns_section_metadata_without_loading_blocks() {
    let (codec, raw) = build_codec_fixture();
    let decoded = SSTableCodec::deserialize(&raw).unwrap();
    assert!(decoded.blocks.is_empty());
    assert_eq!(decoded.index.len(), codec.index.len());
    assert!(decoded.bloom().contains(b"alpha"));
    assert!(decoded.bloom().contains(b"omega"));
}

#[test]
fn damaged_tables_are_refused() {
    let (_, raw) = build_codec_fixture();
    let footer = read_sstable_footer(&raw).unwrap();

    let mut index = raw.clone();
    index[footer.index_block_start as usize + 9] ^= 1;
    let e = read_sstable_sparse_index(&index, &footer).err().unwrap();
    assert_eq!(e.kind(), ErrorKind::InvalidData);
    assert!(e.message.starts_with("Index block checksum mismatch: expected 0x"));

    let mut bloom = raw.clone();
    bloom[footer.bloom_block_end as usize - 1] ^= 1;
    let e = read_sstable_bloom(&bloom, &footer).err().unwrap();
    assert_eq!(e.kind(), ErrorKind::InvalidData);
    assert!(e.message.starts_with("Bloom filter checksum mismatch: expected 0x"));

    let mut magic = raw.clone();
    let end = raw.len();
    magic[end - 5] ^= 1;
    let e = SSTableCodec::deserialize(&magic).err().unwrap();
    assert_eq!(e.kind(), ErrorKind::InvalidData);
    assert!(e.message.starts_with("Invalid magic number: expected 0x"));

    assert!(SSTableCodec::deserialize(&raw[..20]).is_err());
}

#[test]
fn a_table_with_a_changed_byte_behind_its_blocks_is_refused() {
    let (_, raw) = build_codec_fixture();
    let footer = read_sstable_footer(&raw).unwrap();
    for i in footer.data_block_end as usize..raw.len() {
        let mut changed = raw.clone();
        changed[i] ^= 0x80;
        assert!(SSTableCodec::readable(&changed));
        let e = SSTableCodec::deserialize(&changed).err().unwrap();
        assert_eq!(e.kind(), ErrorKind::InvalidData);
    }
}

#[test]
fn footer_round_trip() {
    let footer = SSTableFooter {
        data_block_start: 0,
        data_block_end: 100,
        index_block_start: 100,
        index_block_end: 150,
        index_checksum: 0x1234,
        bloom_block_start: 150,
        bloom_block_end: 170,
        bloom_checksum: 0xABCD,
    };
    let encoded = footer.encode();
    assert_eq!(SSTableFooter::decode(&encoded, 0).unwrap(), footer);
    let mut file = vec![9u8; 33];
    file.extend_from_slice(&encoded);
    assert_eq!(read_sstable_footer(&file).unwrap(), footer);

    let mut bad = encoded.clone();
    bad[3] ^= 1;
    let e = SSTableFooter::decode(&bad, 0).unwrap_err();
    assert!(e.message.starts_with("Footer checksum mismatch: expected 0x"));
    let e = SSTableFooter::decode(&encoded[..10], 0).unwrap_err();
    assert_eq!(e.kind(), ErrorKind::UnexpectedEof);
    assert!(read_sstable_footer(&[1, 2, 3]).is_err());
}

#[test]
fn a_footer_with_a_changed_byte_is_refused() {
    let footer = SSTableFooter {
        data_block_start: 0,
        data_block_end: 100,
        index_block_start: 100,
        index_block_end: 150,
        index_checksum: 0x1234,
        bloom_block_start: 150,
        bloom_block_end: 170,
        bloom_checksum: 0xABCD,
    };
    let encoded = footer.encode();
    assert_eq!(encoded.len(), 64);
    for i in 0..64 {
        let mut changed = encoded.clone();
        changed[i] ^= 0x40;
        let e = SSTableFooter::decode(&changed, 0).unwrap_err();
        assert_eq!(e.kind(), ErrorKind::InvalidData);
    }
}

#[test]
fn checksums_of_sections() {
    let data = b"section";
    let sum = crc32fast::hash(data);
    assert!(verify_index_checksum(data, sum).is_ok());
    assert!(verify_bloom_checksum(data, sum).is_ok());
    let e = verify_index_checksum(data, 0xAB).unwrap_err();
    assert_eq!(e.message, format!("Index block checksum mismatch: expected 0xAB, got 0x{sum:X}"));
    let e = verify_bloom_checksum(data, 0xAB).unwrap_err();
    assert_eq!(e.message, format!("Bloom filter checksum mismatch: expected 0xAB, got 0x{sum:X}"));
}

#[test]
fn index_entries_round_trip() {
    let entry = IndexEntry { key: b"key".to_vec(), offset: 77 };
    let bytes = entry.encode();
    let (decoded, end) = IndexEntry::decode(&bytes, 0).unwrap();
    assert_eq!((decoded.key, decoded.offset, end), (b"key".to_vec(), 77, bytes.len()));

    let entry = SparseIndexEntry {
        first_key: b"a".to_vec(),
        block_offset: 5,
        last_key: b"zz".to_vec(),
        record_count: 9,
    };
    let bytes = entry.encode();
    let (decoded, end) = SparseIndexEntry::decode(&bytes, 0).unwrap();
    assert_eq!(decoded.first_key, b"a");
    assert_eq!(decoded.block_offset, 5);
    assert_eq!(decoded.last_key, b"zz");
    assert_eq!(decoded.record_count, 9);
    assert_eq!(end, bytes.len());
    assert!(SparseIndexEntry::decode(&bytes[..bytes.len() - 1], 0).is_err());
}

#[test]
fn blocks_are_located_by_their_keys() {
    let entry = |first: &[u8], last: &[u8]| SparseIndexEntry {
        first_key: first.to_vec(),
        block_offset: 0,
        last_key: last.to_vec(),
        record_count: 1,
    };
    let index = vec![entry(b"b", b"d"), entry(b"f", b"h")];
    assert_eq!(locate_block(&index, b"a"), Err(0));
    assert_eq!(locate_block(&index, b"b"), Ok(0));
    assert_eq!(locate_block(&index, b"d"), Ok(0));
    assert_eq!(locate_block(&index, b"e"), Err(1));
    assert_eq!(locate_block(&index, b"g"), Ok(1));
    assert_eq!(locate_block(&index, b"z"), Err(2));
}

/// The bytes of a record of a data file.
fn plain_record(key: &[u8], value: &[u8], record_type: RecordType) -> Vec<u8> {
    Record::new(key.to_vec(), value.to_vec(), record_type, 5).encode()
}

#[test]
fn records_of_data_files() {
    let data = plain_record(b"key", b"value", RecordType::Put);
    let (record, end) = Record::decode(&data, 0).unwrap();
    assert_eq!((record.key, record.value), (b"key".to_vec(), b"value".to_vec()));
    assert_eq!((record.timestamp, end), (5, data.len()));

    let mut bad = data.clone();
    bad[0] = 7;
    let e = Record::decode(&bad, 0).unwrap_err();
    assert_eq!(e.message, "Invalid record type");
    let mut bad = data.clone();
    let last = bad.len() - 1;
    bad[last] ^= 1;
    let e = Record::decode(&bad, 0).unwrap_err();
    assert_eq!(e.message, "Checksum mismatch");
    let e = Record::decode(&data[..last], 0).unwrap_err();
    assert_eq!(e.kind(), ErrorKind::UnexpectedEof);
}

#[test]
fn versions_round_trip() {
    let record = MemtableRecord::new(b"value".to_vec(), RecordType::Put, 7);
    let key = b"key".to_vec();
    let bytes = record.encode(&key);
    assert_eq!(bytes.len(), record.record_length(&key));
    let (decoded, end) = MemtableRecord::decode(&bytes, 0).unwrap();
    assert_eq!(decoded.key, key);
    assert_eq!(decoded.value, b"value");
    assert_eq!(decoded.lsn, 7);
    assert_eq!(end, bytes.len());
}

#[test]
fn a_cursor_keeps_its_place() {
    let mut cursor = Cursor::new(vec![1, 2, 3]);
    assert_eq!(cursor.position(), 0);
    cursor.set_position(2);
    assert_eq!(cursor.position(), 2);
    assert_eq!(cursor.get_ref(), &[1, 2, 3]);
    let e = Block::decode(&mut cursor, 0);
    assert!(e.is_err());
}

/// The bytes of a record without a timestamp: its type, the lengths, key, value and the
/// checksum of the value.
fn untimed_record(code: u8, key: &[u8], value: &[u8]) -> Vec<u8> {
    let mut data = vec![code];
    data.extend_from_slice(&(key.len() as u64).to_be_bytes());
    data.extend_from_slice(&(value.len() as u64).to_be_bytes());
    data.extend_from_slice(key);
    data.extend_from_slice(value);
    data.extend_from_slice(&crc32fast::hash(value).to_be_bytes());
    data
}

#[test]
fn lookups_through_a_full_index() {
    let mut data = untimed_record(1, b"key", b"value");
    let second = data.len() as u64;
    data.extend_from_slice(&untimed_record(2, b"gone", b""));
    assert_eq!(
        decode_record_from_file(&data, 0).unwrap(),
        (b"key".to_vec(), b"value".to_vec(), RecordType::Put, 54)
    );

    let mut index: KeyMap<Offset> = KeyMap::new();
    index.insert(b"key".to_vec(), Offset { offset: 0 });
    index.insert(b"gone".to_vec(), Offset { offset: second });
    assert_eq!(search_sstable(&data, b"key", &index).unwrap(), Some(b"value".to_vec()));
    assert_eq!(search_sstable(&data, b"gone", &index).unwrap(), None);
    assert_eq!(search_sstable(&data, b"other", &index).unwrap(), None);

    let mut bloom = with_rate(8, 0.01);
    assert_eq!(search_sstable_with_bloom(&data, b"key", &bloom, &index).unwrap(), None);
    bloom.insert(b"key");
    assert_eq!(
        search_sstable_with_bloom(&data, b"key", &bloom, &index).unwrap(),
        Some(b"value".to_vec())
    );

    data[20] ^= 1;
    let e = search_sstable(&data, b"key", &index).unwrap_err();
    assert_eq!(e.message, "Checksum mismatch");
    data[0] = 9;
    let e = search_sstable(&data, b"key", &index).unwrap_err();
    assert_eq!(e.message, "Invalid record type");
}

#[test]
fn sections_are_read_by_their_footer() {
    let (codec, raw) = build_codec_fixture();
    let footer = read_sstable_footer(&raw).unwrap();
    let index = read_sstable_sparse_index(&raw, &footer).unwrap();
    assert_eq!(index.len(), codec.index.len());
    assert_eq!(index[1].first_key, b"lambda");
    let bloom = read_sstable_bloom(&raw, &footer).unwrap();
    assert!(bloom.contains(b"alpha"));

    let mut file = Vec::new();
    file.extend_from_slice(&1u64.to_be_bytes());
    file.extend_from_slice(&IndexEntry { key: b"k".to_vec(), offset: 12 }.encode());
    let full = SSTableFooter {
        data_block_start: 0,
        data_block_end: 0,
        index_block_start: 0,
        index_block_end: file.len() as u64,
        index_checksum: crc32fast::hash(&file),
        bloom_block_start: 0,
        bloom_block_end: 0,
        bloom_checksum: 0,
    };
    let map = read_sstable_index(&file, &full).unwrap();
    assert_eq!(map.get(b"k").unwrap().offset, 12);
    assert!(map.get(b"x").is_none());
}
