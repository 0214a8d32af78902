//! Checksums.
use ceredb::error::DBError;
use ceredb::storage::checksum::{calculate_crc32, verify_crc32};

#[test]
fn test_calculate_crc32_empty_data() {
    let checksum = calculate_crc32(b"");
    assert_eq!(checksum, 0);
}

#[test]
fn test_calculate_crc32_simple_data() {
    let data = b"hello";
    let checksum1 = calculate_crc32(data);
    let checksum2 = calculate_crc32(data);

    assert_eq!(checksum1, checksum2);
    assert_ne!(checksum1, 0);
}

#[test]
fn test_calculate_crc32_different_data() {
    let checksum1 = calculate_crc32(b"hello");
    let checksum2 = calculate_crc32(b"world");
    assert_ne!(checksum1, checksum2);
}

#[test]
fn test_calculate_crc32_binary_data() {
    let data: Vec<u8> = (0..=255).collect();
    let checksum = calculate_crc32(&data);
    assert_ne!(checksum, 0);
}

#[test]
fn test_verify_crc32_valid() {
    let data = b"test data";
    let checksum = calculate_crc32(data);
    assert!(verify_crc32(data, checksum).is_ok());
}

#[test]
fn test_verify_crc32_invalid() {
    let data = b"test data";
    let wrong_checksum = 0xdeadbeef;
    let result = verify_crc32(data, wrong_checksum);

    assert!(result.is_err());
    let err = result.unwrap_err();
    match err {
        DBError::Corrupted(msg) => {
            assert!(msg.contains("CRC32 mismatch"));
            assert!(msg.contains("0xdeadbeef"));
        }
        _ => panic!("Expected DBError::Corrupted"),
    }
}

#[test]
fn test_verify_crc32_empty_data() {
    let data = b"";
    let checksum = calculate_crc32(data);
    assert!(verify_crc32(data, checksum).is_ok());
}

#[test]
fn test_verify_crc32_data_modification() {
    let mut data = b"important data".to_vec();
    let original_checksum = calculate_crc32(&data);

    data[0] ^= 0xFF;
    let result = verify_crc32(&data, original_checksum);
    assert!(result.is_err());
}

#[test]
fn test_checksum_deterministic() {
    let data = b"deterministic";
    let checksums: Vec<u32> = (0..10).map(|_| calculate_crc32(data)).collect();

    for (i, &checksum) in checksums.iter().enumerate().skip(1) {
        assert_eq!(
            checksums[0], checksum,
            "Checksum mismatch at iteration {}",
            i
        );
    }
}

#[test]
fn checksums_of_known_data() {
    assert_eq!(calculate_crc32(b"123456789"), 0xcbf4_3926);
    assert_eq!(calculate_crc32(b"a"), 0xe8b7_be43);
    assert_eq!(calculate_crc32(&[0; 32]), 0x190a_55ad);
    assert_eq!(calculate_crc32(&[0xff; 32]), 0xff6c_ab0b);
}

#[test]
fn a_changed_byte_changes_the_checksum() {
    let data: Vec<u8> = (0..300u32).map(|i| (i * 7 % 251) as u8).collect();
    let sum = calculate_crc32(&data);
    for i in 0..data.len() {
        let mut changed = data.clone();
        changed[i] = changed[i].wrapping_add(1 + (i % 255) as u8);
        assert_ne!(calculate_crc32(&changed), sum);
    }
}
