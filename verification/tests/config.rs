//! Settings of the program.
use ceredb::config::{malformed_peers, Config, LogLevel};
use ceredb::storage::config::FalsePositiveRate;

fn rate(value: f64) -> FalsePositiveRate {
    FalsePositiveRate { bits: value.to_bits() }
}

fn test_config() -> Config {
    Config {
        log_level: "info".to_string(),
        verbose: false,
        data_dir: ".".to_string(),
        memtable_size_mb: 4,
        block_size_kb: 4,
        max_level0_files: 2,
        wal_segment_size_mb: 1,
        bloom_fp_rate: rate(0.01),
        raft_mode: false,
        raft_node_id: 1,
        raft_peers: String::new(),
        raft_http_bind: "127.0.0.1:21001".to_string(),
    }
}

#[test]
fn test_log_level_parsing() {
    let config = Config {
        log_level: "debug".to_string(),
        ..test_config()
    };
    assert_eq!(config.get_log_level(), LogLevel::Debug);
}

#[test]
fn test_verbose_flag() {
    let config = Config {
        log_level: "info".to_string(),
        verbose: true,
        ..test_config()
    };
    assert_eq!(config.get_log_level(), LogLevel::Debug);
}

#[test]
fn test_to_storage_config_defaults() {
    let config = test_config();
    let storage_config = config.to_storage_config().unwrap();
    assert_eq!(storage_config.memtable_size_threshold, 4 * 1024 * 1024);
    assert_eq!(storage_config.sstable_block_size, 4096);
    assert_eq!(storage_config.max_level0_files, 2);
    assert_eq!(storage_config.wal_segment_size, 1024 * 1024);
    assert!((f64::from_bits(storage_config.bloom_false_positive_rate.bits) - 0.01).abs() < 1e-6);
}

#[test]
fn test_to_storage_config_custom() {
    let config = Config {
        memtable_size_mb: 8,
        block_size_kb: 8,
        max_level0_files: 4,
        wal_segment_size_mb: 2,
        bloom_fp_rate: rate(0.001),
        ..test_config()
    };
    let storage_config = config.to_storage_config().unwrap();
    assert_eq!(storage_config.memtable_size_threshold, 8 * 1024 * 1024);
    assert_eq!(storage_config.sstable_block_size, 8 * 1024);
    assert_eq!(storage_config.max_level0_files, 4);
    assert_eq!(storage_config.wal_segment_size, 2 * 1024 * 1024);
    assert!((f64::from_bits(storage_config.bloom_false_positive_rate.bits) - 0.001).abs() < 1e-6);
}

#[test]
fn test_to_storage_config_invalid_bloom_fp() {
    let config = Config {
        bloom_fp_rate: rate(1.0),
        ..test_config()
    };
    assert!(config.to_storage_config().is_err());
}

#[test]
fn test_raft_config_returns_none_when_not_raft_mode() {
    let config = test_config();
    assert!(config.to_raft_node_config().is_none());
}

#[test]
fn test_raft_config_parses_peers() {
    let config = Config {
        raft_mode: true,
        raft_node_id: 2,
        raft_peers: "3:127.0.0.1:21002,4:127.0.0.1:21003".to_string(),
        raft_http_bind: "127.0.0.1:21004".to_string(),
        ..test_config()
    };
    let raft_cfg = config.to_raft_node_config().expect("should return Some");
    assert_eq!(raft_cfg.node_id, 2);
    assert_eq!(raft_cfg.peers, vec![(3, "127.0.0.1:21002".to_string()), (4, "127.0.0.1:21003".to_string())]);
    assert_eq!(raft_cfg.http_bind, "127.0.0.1:21004");
}

#[test]
fn peers_of_another_form_are_warned_of() {
    let text = "1:a:2,,b, 3:c ,x:d:4,5:e:6:7";
    assert_eq!(malformed_peers(text), vec!["b", " 3:c ", "5:e:6:7"]);
    let config = Config { raft_mode: true, raft_peers: text.to_string(), ..test_config() };
    assert_eq!(config.to_raft_node_config().unwrap().peers, vec![(1, "a:2".to_string())]);
    assert!(malformed_peers("").is_empty());
}
