//! Write-ahead logs.
use ceredb::error::ErrorKind;
use ceredb::storage::constant::{WAL_HEADER_SIZE, WAL_MAGIC, WAL_VERSION};
use ceredb::storage::record::RecordType;
use ceredb::storage::wal::{
    read_wal_header, recover, store_log, WALHeader, WALManager, WALRecord, WAL,
};

#[test]
fn test_wal_header_encode_decode() {
    let header = WALHeader::new();
    let encoded = header.encode();

    let decoded = WALHeader::decode(&encoded).unwrap();
    assert_eq!(header.magic, decoded.magic);
    assert_eq!(header.version, decoded.version);
    assert_eq!(header.last_checkpoint, decoded.last_checkpoint);
    assert_eq!(
        header.last_checkpoint_offset,
        decoded.last_checkpoint_offset
    );
}

#[test]
fn test_wal_record_encode_decode() {
    let key = b"test_key".to_vec();
    let value = b"test_value".to_vec();
    let record_type = RecordType::Put;
    let expected_lsn = 1;

    let mut record = WALRecord::new();
    record.key = key.clone();
    record.value = value.clone();
    record.record_type = record_type;

    let mut buf = Vec::new();
    record.encode(&mut buf, record_type, &key, &value).unwrap();

    let (decoded, _) = WALRecord::decode(&buf).unwrap();

    assert_eq!(decoded.key, key);
    assert_eq!(decoded.value, value);
    assert_eq!(decoded.record_type, record_type);
    assert_eq!(decoded.lsn_val, expected_lsn);
}

#[test]
fn test_recover() {
    let mut buf = Vec::new();

    let header = WALHeader::new();
    buf.extend_from_slice(&header.encode());

    let key1 = b"key1".to_vec();
    let val1 = b"val1".to_vec();
    let mut record1 = WALRecord::new();
    record1.key = key1.clone();
    record1.value = val1.clone();
    record1.record_type = RecordType::Put;
    record1
        .encode(&mut buf, RecordType::Put, &key1, &val1)
        .unwrap();

    let key2 = b"key2".to_vec();
    let val2 = b"val2".to_vec();
    let mut record2 = WALRecord::new();
    record2.key = key2.clone();
    record2.value = val2.clone();
    record2.record_type = RecordType::Delete;
    record2
        .encode(&mut buf, RecordType::Delete, &key2, &val2)
        .unwrap();

    let records = recover(&buf).unwrap();

    assert_eq!(records.len(), 2);

    assert_eq!(records[0].key, b"key1");
    assert_eq!(records[0].value, b"val1");
    assert_eq!(records[0].record_type, RecordType::Put);
    assert_eq!(records[0].lsn_val, 1);

    assert_eq!(records[1].key, b"key2");
    assert_eq!(records[1].value, b"val2");
    assert_eq!(records[1].record_type, RecordType::Delete);
    assert_eq!(records[1].lsn_val, 1);
}

/// Appends a record to a log file, and says where it stands and what its number is.
fn append(
    file: &mut Vec<u8>,
    key: &Vec<u8>,
    value: &Vec<u8>,
    record_type: RecordType,
    wal: &mut WALRecord,
) -> (u64, u64) {
    let (bytes, offset, lsn) =
        store_log(file.len() as u64, key, value, record_type, wal).unwrap();
    file.extend_from_slice(&bytes);
    (offset, lsn)
}

#[test]
fn test_store_and_decode_log() {
    let mut file = Vec::new();
    let key = b"test_key".to_vec();
    let value = b"test_value".to_vec();
    let mut wal = WALRecord::new();
    let (offset, lsn) = append(&mut file, &key, &value, RecordType::Put, &mut wal);
    assert_eq!(offset, WAL_HEADER_SIZE);
    assert_eq!(lsn, 1);

    let result = WAL::decode(&file).unwrap();
    assert_eq!(result.records.len(), 1);
    let record = &result.records[0];
    assert_eq!(record.key, b"test_key");
    assert_eq!(record.value, b"test_value");
    assert_eq!(record.record_type, RecordType::Put);
    assert_eq!(record.lsn_val, 1);
}

#[test]
fn test_store_tombstone() {
    let mut file = Vec::new();
    let key = b"deleted_key".to_vec();
    let value = Vec::new();
    let mut wal = WALRecord::new();
    let (offset, lsn) = append(&mut file, &key, &value, RecordType::Delete, &mut wal);
    assert_eq!(offset, WAL_HEADER_SIZE);
    assert_eq!(lsn, 1);

    let result = WAL::decode(&file).unwrap();
    assert_eq!(result.records.len(), 1);
    let record = &result.records[0];
    assert_eq!(record.key, b"deleted_key");
    assert_eq!(record.record_type, RecordType::Delete);
    assert_eq!(record.value.len(), 0);
    assert_eq!(record.lsn_val, 1);
}

#[test]
fn test_wal_header() {
    let mut file = Vec::new();
    let key = b"key1".to_vec();
    let value = b"value1".to_vec();
    let mut wal = WALRecord::new();
    append(&mut file, &key, &value, RecordType::Put, &mut wal);

    let header = read_wal_header(&file).unwrap();
    assert_eq!(header.magic, WAL_MAGIC);
    assert_eq!(header.version, WAL_VERSION);
    assert_eq!(header.last_checkpoint, 0);
}

#[test]
fn test_lsn_increment() {
    let mut file = Vec::new();
    let mut wal = WALRecord::new();
    let (_, lsn1) = append(
        &mut file,
        &b"key1".to_vec(),
        &b"value1".to_vec(),
        RecordType::Put,
        &mut wal,
    );
    let (offset2, lsn2) = append(
        &mut file,
        &b"key2".to_vec(),
        &b"value2".to_vec(),
        RecordType::Put,
        &mut wal,
    );
    let (_, lsn3) = append(
        &mut file,
        &b"key3".to_vec(),
        &b"value3".to_vec(),
        RecordType::Put,
        &mut wal,
    );

    assert_eq!(lsn1, 1);
    assert_eq!(lsn2, 2);
    assert_eq!(lsn3, 3);
    // A record takes 29 bytes beside its key and its value.
    assert_eq!(offset2, WAL_HEADER_SIZE + 29 + 10);

    let records = recover(&file).unwrap();
    let numbers: Vec<u64> = records.iter().map(|r| r.lsn_val).collect();
    assert_eq!(numbers, vec![1, 2, 3]);
}

#[test]
fn a_decoded_record_has_no_counter() {
    let mut wal = WALRecord::new();
    let mut file = Vec::new();
    append(&mut file, &b"k".to_vec(), &b"v".to_vec(), RecordType::Put, &mut wal);
    assert_eq!(wal.get_lsn(), 2);

    let mut decoded = recover(&file).unwrap().remove(0);
    let e = store_log(9, &b"k".to_vec(), &b"v".to_vec(), RecordType::Put, &mut decoded).unwrap_err();
    assert_eq!(e.kind(), ErrorKind::Other);
    assert_eq!(e.message, "LSN not initialized");
}

#[test]
fn header_bytes() {
    let encoded = WALHeader::new().encode();
    assert_eq!(encoded.len() as u64, WAL_HEADER_SIZE);
    assert_eq!(&encoded[..8], b"WALMGIC\0");
    assert_eq!(&encoded[8..16], &1u64.to_be_bytes());
    assert!(encoded[16..32].iter().all(|b| *b == 0));
    assert_eq!(&encoded[32..], &crc32fast::hash(&encoded[..32]).to_be_bytes());
}

#[test]
fn damaged_headers() {
    let good = WALHeader::new().encode();

    let e = WALHeader::decode(&good[..35].to_vec()).unwrap_err();
    assert_eq!(e.kind(), ErrorKind::UnexpectedEof);
    assert_eq!(e.message, "Buffer too short for WAL header");

    let mut magic = good.clone();
    magic[0] = b'X';
    let e = WALHeader::decode(&magic).unwrap_err();
    assert_eq!(e.kind(), ErrorKind::InvalidData);
    assert_eq!(e.message, "Invalid WAL magic number");

    let e = read_wal_header(&good[..10]).unwrap_err();
    assert_eq!(e.kind(), ErrorKind::UnexpectedEof);
    assert!(WAL::decode(&good[..10].to_vec()).is_err());
}

#[test]
fn a_torn_record_is_left_out() {
    let mut wal = WALRecord::new();
    let mut file = Vec::new();
    append(&mut file, &b"a".to_vec(), &b"1".to_vec(), RecordType::Put, &mut wal);
    let whole = file.len();
    append(&mut file, &b"b".to_vec(), &b"2".to_vec(), RecordType::Put, &mut wal);

    for cut in whole..file.len() {
        let records = recover(&file[..cut].to_vec()).unwrap();
        assert_eq!(records.len(), 1);
        assert_eq!(records[0].key, b"a");
    }
    assert_eq!(recover(&file).unwrap().len(), 2);
}

#[test]
fn a_log_of_records_stores_them_with_the_first_number() {
    let mut log = WAL::new();
    let mut out = Vec::new();
    let at = log.store_log(&mut out, b"k".to_vec(), b"v".to_vec(), RecordType::Put).unwrap();
    assert_eq!(at, (2, 0));
    assert_eq!(log.records.len(), 1);

    let mut file = WALHeader::new().encode();
    file.extend_from_slice(&out);
    let records = log.recover(&file).unwrap();
    assert_eq!(records.len(), 1);
    assert_eq!(records[0].lsn_val, 1);
}

#[test]
fn records_that_are_read_back_are_no_counters() {
    let mut log = WAL::new();
    let mut file = log.header.encode();
    for key in [b"a", b"b"] {
        log.store_log(&mut file, key.to_vec(), b"v".to_vec(), RecordType::Put).unwrap();
    }
    assert!(log.records.iter().all(|r| r.get_lsn() == 2 && r.key.is_empty() && r.lsn_val == 0));
    for records in [
        recover(&file).unwrap(),
        log.recover(&file).unwrap(),
        WAL::decode(&file).unwrap().records,
    ] {
        assert_eq!(records.len(), 2);
        assert!(records.iter().all(|r| r.lsn.is_none() && r.get_lsn() == 1));
    }
}
