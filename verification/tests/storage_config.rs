//! Settings of the store.
use ceredb::storage::config::{FalsePositiveRate, StorageConfig};

fn rate(value: f64) -> FalsePositiveRate {
    FalsePositiveRate { bits: value.to_bits() }
}

#[test]
fn default_config_is_valid() {
    let config = StorageConfig::default();
    assert!(config.validate().is_ok());
}

#[test]
fn builder_creates_valid_config() {
    let config = StorageConfig::builder()
        .memtable_size_threshold(8 * 1024 * 1024)
        .max_level0_files(4)
        .build();
    assert!(config.is_ok());
}

#[test]
fn builder_rejects_invalid_memtable_size_too_small() {
    let result = StorageConfig::builder()
        .memtable_size_threshold(512 * 1024)
        .build();
    assert!(result.is_err());
}

#[test]
fn builder_rejects_invalid_memtable_size_too_large() {
    let result = StorageConfig::builder()
        .memtable_size_threshold(128 * 1024 * 1024)
        .build();
    assert!(result.is_err());
}

#[test]
fn builder_rejects_invalid_block_size_too_small() {
    let result = StorageConfig::builder().sstable_block_size(512).build();
    assert!(result.is_err());
}

#[test]
fn builder_rejects_invalid_block_size_too_large() {
    let result = StorageConfig::builder()
        .sstable_block_size(128 * 1024)
        .build();
    assert!(result.is_err());
}

#[test]
fn builder_rejects_invalid_level0_files_zero() {
    let result = StorageConfig::builder().max_level0_files(0).build();
    assert!(result.is_err());
}

#[test]
fn builder_rejects_invalid_level0_files_too_large() {
    let result = StorageConfig::builder().max_level0_files(20).build();
    assert!(result.is_err());
}

#[test]
fn builder_rejects_invalid_wal_segment_size_too_small() {
    let result = StorageConfig::builder()
        .wal_segment_size(128 * 1024)
        .build();
    assert!(result.is_err());
}

#[test]
fn builder_rejects_invalid_wal_segment_size_too_large() {
    let result = StorageConfig::builder()
        .wal_segment_size(20 * 1024 * 1024)
        .build();
    assert!(result.is_err());
}

#[test]
fn builder_rejects_invalid_bloom_fpr_zero() {
    let result = StorageConfig::builder()
        .bloom_false_positive_rate(rate(0.0))
        .build();
    assert!(result.is_err());
}

#[test]
fn builder_rejects_invalid_bloom_fpr_one() {
    let result = StorageConfig::builder()
        .bloom_false_positive_rate(rate(1.0))
        .build();
    assert!(result.is_err());
}

#[test]
fn builder_rejects_invalid_bloom_fpr_too_large() {
    let result = StorageConfig::builder()
        .bloom_false_positive_rate(rate(0.5))
        .build();
    assert!(result.is_ok()); // 0.5 is within range
}

#[test]
fn builder_rejects_invalid_file_handles_too_small() {
    let result = StorageConfig::builder().max_sstable_file_handles(4).build();
    assert!(result.is_err());
}

#[test]
fn builder_rejects_invalid_file_handles_too_large() {
    let result = StorageConfig::builder()
        .max_sstable_file_handles(1024)
        .build();
    assert!(result.is_err());
}

#[test]
fn builder_partial_override() {
    let config = StorageConfig::builder()
        .memtable_size_threshold(8 * 1024 * 1024)
        .build()
        .unwrap();
    assert_eq!(config.memtable_size_threshold, 8 * 1024 * 1024);
    assert_eq!(config.sstable_block_size, 4096); // default
    assert_eq!(config.max_level0_files, 2); // default
}
