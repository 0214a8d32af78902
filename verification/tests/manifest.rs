//! The manifest.
use ceredb::error::ErrorKind;
use ceredb::storage::bloom::BloomFilterWrapper;
use ceredb::storage::manifest_codec::{
    decode_add_payload, decode_entry, encode_add_payload, encode_checkpoint_payload, encode_entry,
    push_bytes, SSTableMeta, ENTRY_KIND_ADD, ENTRY_KIND_CHECKPOINT,
};

/// The filter for a number of keys and a rate of false positives.
fn with_rate(expected_items: usize, rate: f64) -> BloomFilterWrapper {
    let shape = fastbloom::BloomFilter::with_false_pos(rate).expected_items(expected_items);
    BloomFilterWrapper::with_shape(shape.as_slice().len(), shape.num_hashes())
}

#[test]
fn encode_and_decode_entry_roundtrip() {
    let mut bloom = with_rate(16, 0.01);
    bloom.insert(b"a");
    bloom.insert(b"z");

    let meta = SSTableMeta {
        file_id: 42,
        level: 0,
        path: "data/level-0/42.sst".to_string(),
        record_count: 101,
        bloom_bitmap: bloom,
        smallest_key: b"a".to_vec(),
        largest_key: b"z".to_vec(),
    };

    let payload = encode_add_payload(&meta).unwrap();
    let entry = encode_entry(ENTRY_KIND_ADD, &payload).unwrap();

    let (kind, decoded_payload, next_offset) = decode_entry(&entry, 0).unwrap();
    assert_eq!(kind, ENTRY_KIND_ADD);
    assert_eq!(next_offset, entry.len());

    let decoded = decode_add_payload(&decoded_payload).unwrap();
    assert_eq!(decoded.file_id, meta.file_id);
    assert_eq!(decoded.level, meta.level);
    assert_eq!(decoded.path, meta.path);
    assert_eq!(decoded.record_count, meta.record_count);
    assert_eq!(decoded.bloom_bitmap.encode(), meta.bloom_bitmap.encode());
    assert_eq!(decoded.smallest_key, meta.smallest_key);
    assert_eq!(decoded.largest_key, meta.largest_key);
    assert!(decoded.bloom_bitmap.contains(b"a"));
    assert!(decoded.bloom_bitmap.contains(b"z"));
}

#[test]
fn decode_add_payload_supports_legacy_without_range_fields() {
    let mut bloom = with_rate(16, 0.01);
    bloom.insert(b"legacy");

    let mut legacy_payload = Vec::new();
    legacy_payload.extend_from_slice(&0u32.to_be_bytes());
    legacy_payload.extend_from_slice(&7u64.to_be_bytes());
    legacy_payload.extend_from_slice(&1u64.to_be_bytes());
    push_bytes(&mut legacy_payload, b"data/level-0/7.sst").unwrap();
    push_bytes(&mut legacy_payload, bloom.encode().as_slice()).unwrap();

    let decoded = decode_add_payload(&legacy_payload).unwrap();
    assert_eq!(decoded.file_id, 7);
    assert_eq!(decoded.level, 0);
    assert_eq!(decoded.path, "data/level-0/7.sst");
    assert_eq!(decoded.record_count, 1);
    assert!(decoded.bloom_bitmap.contains(b"legacy"));
    assert!(decoded.smallest_key.is_empty());
    assert!(decoded.largest_key.is_empty());
}

#[test]
fn decode_rejects_checksum_mismatch() {
    let payload = encode_checkpoint_payload(12, 8);
    let mut entry = encode_entry(ENTRY_KIND_CHECKPOINT, &payload).unwrap();

    let last = entry.len() - 1;
    entry[last] ^= 0xFF;

    let result = decode_entry(&entry, 0);
    assert!(result.is_err());
    assert_eq!(result.unwrap_err().kind(), ErrorKind::InvalidData);
}

#[test]
fn an_entry_with_a_changed_byte_is_refused() {
    let payload = encode_checkpoint_payload(12, 8);
    let entry = encode_entry(ENTRY_KIND_CHECKPOINT, &payload).unwrap();
    assert_eq!(entry.len(), payload.len() + 9);
    for i in (0..1).chain(5..entry.len()) {
        let mut changed = entry.clone();
        changed[i] ^= 0x10;
        assert_eq!(decode_entry(&changed, 0).unwrap_err().kind(), ErrorKind::InvalidData);
    }
}

#[test]
fn an_entry_that_is_cut_off_is_refused() {
    let payload = encode_checkpoint_payload(12, 8);
    let entry = encode_entry(ENTRY_KIND_CHECKPOINT, &payload).unwrap();
    for n in 0..entry.len() {
        assert_eq!(decode_entry(&entry[..n], 0).unwrap_err().kind(), ErrorKind::UnexpectedEof);
    }
}
