//! Bloom filters.
use ceredb::storage::bloom::BloomFilterWrapper;

/// The filter for a number of keys and a rate of false positives.
fn with_rate(expected_items: usize, rate: f64) -> BloomFilterWrapper {
    let shape = fastbloom::BloomFilter::with_false_pos(rate).expected_items(expected_items);
    BloomFilterWrapper::with_shape(shape.as_slice().len(), shape.num_hashes())
}

#[test]
fn test_bloom_filter_basic() {
    let mut filter = with_rate(100, 0.01);

    filter.insert(b"key1");
    filter.insert(b"key2");
    filter.insert(b"key3");

    assert!(filter.contains(b"key1"));
    assert!(filter.contains(b"key2"));
    assert!(filter.contains(b"key3"));

    assert!(!filter.contains(b"key4"));
    assert!(!filter.contains(b"nonexistent"));
}

#[test]
fn test_bloom_filter_encode_decode() {
    let mut filter = with_rate(100, 0.01);

    filter.insert(b"apple");
    filter.insert(b"banana");
    filter.insert(b"cherry");

    let encoded = filter.encode();

    assert!(BloomFilterWrapper::decodable(&encoded, 0));
    let decoded = BloomFilterWrapper::decode(&encoded, 0).unwrap().0;

    assert!(decoded.contains(b"apple"));
    assert!(decoded.contains(b"banana"));
    assert!(decoded.contains(b"cherry"));
    assert!(!decoded.contains(b"dragonfruit"));
}

#[test]
fn test_bloom_filter_false_positive_rate() {
    let mut filter = with_rate(1000, 0.01);

    for i in 0..1000 {
        let key = format!("key{}", i);
        filter.insert(key.as_bytes());
    }

    let mut false_positives = 0;
    let test_count = 10000;

    for i in 1000..1000 + test_count {
        let key = format!("key{}", i);
        if filter.contains(key.as_bytes()) {
            false_positives += 1;
        }
    }

    let fpr = false_positives as f64 / test_count as f64;

    assert!(fpr < 0.03, "False positive rate {} too high", fpr);
}

#[test]
fn test_bloom_filter_no_false_negatives() {
    let mut filter = with_rate(100, 0.01);

    let keys = vec![b"test1", b"test2", b"test3", b"test4", b"test5"];

    for key in &keys {
        filter.insert(*key);
    }

    for key in &keys {
        assert!(
            filter.contains(*key),
            "False negative for key: {:?}",
            String::from_utf8_lossy(*key)
        );
    }
}

#[test]
fn test_bloom_filter_clear() {
    let mut filter = with_rate(100, 0.01);

    filter.insert(b"key1");
    filter.insert(b"key2");

    assert!(filter.contains(b"key1"));

    filter.clear();

    assert!(!filter.contains(b"key1"));
    assert!(!filter.contains(b"key2"));
}
