//! The segments of the log.
use ceredb::error::{ErrorKind, IoError};
use ceredb::storage::constant::{WAL_HEADER_SIZE, WAL_MAGIC, WAL_VERSION};
use ceredb::storage::memtable::PlainMemtable;
use ceredb::storage::record::RecordType;
use ceredb::storage::recovermanager::log_store::LogCommand;
use ceredb::storage::recovermanager::raft;
use ceredb::storage::recovermanager::segment::{segment_number_of, SegmentId};
use ceredb::storage::recovermanager::wal::{
    log_file_names, read_log, recover, recover_commands, recover_records, OpenSegment, WALHeader,
    WALManager, WALRecord,
};
use std::collections::HashMap;

const FIRST: &str = "00000000000000000000.log";

/// A directory of segments that is kept in memory.
struct Dir {
    files: HashMap<String, Vec<u8>>,
}

impl Dir {
    fn new() -> Dir {
        Dir { files: HashMap::new() }
    }

    fn names(&self) -> Vec<String> {
        self.files.keys().cloned().collect()
    }

    fn open_segment(&mut self, open: OpenSegment) {
        let file = self.files.entry(open.filename).or_default();
        if let Some(header) = open.header {
            file.extend_from_slice(&header);
        }
    }

    fn manager(&mut self, max_segment_size: u64) -> WALManager {
        let (manager, open) =
            WALManager::new(&self.names(), self.files.contains_key(FIRST), max_segment_size);
        self.open_segment(open);
        manager
    }

    fn write(
        &mut self,
        manager: &mut WALManager,
        key: &[u8],
        value: &[u8],
        lsn: u64,
        record_type: RecordType,
    ) {
        let name = manager.active_segment().filename();
        let len = self.files[&name].len() as u64;
        let (open, bytes) =
            manager.write_log(len, &key.to_vec(), &value.to_vec(), lsn, record_type);
        if let Some(open) = open {
            self.open_segment(open);
        }
        let name = manager.active_segment().filename();
        self.files.get_mut(&name).unwrap().extend_from_slice(&bytes);
    }

    fn rotate(&mut self, manager: &mut WALManager) -> u64 {
        let rotation = manager.rotate_wal_file();
        let open = manager.rotation_target(&rotation);
        self.open_segment(open);
        self.files.remove(&rotation.remove);
        manager.finish_rotation(rotation)
    }

    fn records(&self) -> Result<Vec<WALRecord>, IoError> {
        let files: Vec<Vec<u8>> =
            log_file_names(&self.names()).iter().map(|f| self.files[&f.name].clone()).collect();
        recover_records(&files)
    }
}

#[test]
fn initialize_new_file_segment() {
    let mut dir = Dir::new();
    let manager = dir.manager(1024 * 1024);

    assert_eq!(manager.active_segment().id, 0);
    assert_eq!(dir.files[FIRST].len() as u64, WAL_HEADER_SIZE);
}

#[test]
fn write_log_creates_new_segment() {
    let mut dir = Dir::new();
    let mut manager = dir.manager(1024 * 1024);

    let key = b"key".to_vec();
    let value = vec![0u8; 2048];
    dir.write(&mut manager, &key, &value, 1, RecordType::Put);
    assert_eq!(manager.active_segment().id, 0);

    let file = &dir.files[&manager.active_segment().filename()];
    let header = WALHeader::decode(&file[..WAL_HEADER_SIZE as usize].to_vec()).unwrap();
    assert_eq!(header.magic, WAL_MAGIC);
    assert_eq!(header.version, WAL_VERSION);
    assert_eq!(header.last_checkpoint, 0);
    assert_eq!(header.last_checkpoint_offset, 0);

    let records = read_log(file).unwrap();
    assert_eq!(records.len(), 1);
    assert_eq!(records[0].record_type, RecordType::Put.to_u8());
    assert_eq!(records[0].key, key);
    assert_eq!(records[0].value, value);
}

#[test]
fn write_log_single_record() {
    let mut dir = Dir::new();
    let mut manager = dir.manager(1024 * 1024);
    dir.write(&mut manager, b"test_key", b"test_value", 1, RecordType::Put);

    let records = read_log(&dir.files[FIRST]).unwrap();
    assert_eq!(records.len(), 1);
    assert_eq!(records[0].key, b"test_key");
    assert_eq!(records[0].value, b"test_value");
    assert_eq!(records[0].record_type, RecordType::Put.to_u8());
    assert_eq!(records[0].lsn, 1);
}

#[test]
fn write_log_multiple_records() {
    let mut dir = Dir::new();
    let mut manager = dir.manager(1024 * 1024);
    for i in 0..5 {
        let key = format!("key_{}", i).into_bytes();
        let value = format!("value_{}", i).into_bytes();
        dir.write(&mut manager, &key, &value, 1, RecordType::Put);
    }

    let records = read_log(&dir.files[FIRST]).unwrap();
    assert_eq!(records.len(), 5);
    for (i, record) in records.iter().enumerate() {
        assert_eq!(record.key, format!("key_{}", i).into_bytes());
        assert_eq!(record.value, format!("value_{}", i).into_bytes());
        assert_eq!(record.lsn, 1);
    }
}

#[test]
fn write_log_delete_record() {
    let mut dir = Dir::new();
    let mut manager = dir.manager(1024 * 1024);
    dir.write(&mut manager, b"delete_me", b"", 1, RecordType::Delete);

    let records = read_log(&dir.files[FIRST]).unwrap();
    assert_eq!(records.len(), 1);
    assert_eq!(records[0].key, b"delete_me");
    assert!(records[0].value.is_empty());
    assert_eq!(records[0].record_type, RecordType::Delete.to_u8());
}

#[test]
fn write_log_empty_value() {
    let mut dir = Dir::new();
    let mut manager = dir.manager(1024 * 1024);
    dir.write(&mut manager, b"key_with_empty_value", b"", 1, RecordType::Put);

    let records = read_log(&dir.files[FIRST]).unwrap();
    assert_eq!(records.len(), 1);
    assert_eq!(records[0].key, b"key_with_empty_value");
    assert!(records[0].value.is_empty());
    assert_eq!(records[0].record_type, RecordType::Put.to_u8());
}

#[test]
fn write_log_large_key_and_value() {
    let mut dir = Dir::new();
    let mut manager = dir.manager(1024 * 1024);
    dir.write(&mut manager, &vec![0u8; 10000], &vec![1u8; 50000], 1, RecordType::Put);

    let records = read_log(&dir.files[FIRST]).unwrap();
    assert_eq!(records.len(), 1);
    assert_eq!(records[0].key.len(), 10000);
    assert_eq!(records[0].value.len(), 50000);
    assert!(records[0].key.iter().all(|&b| b == 0));
    assert!(records[0].value.iter().all(|&b| b == 1));
}

#[test]
fn recover_empty_wal() {
    let mut dir = Dir::new();
    dir.manager(1024 * 1024);

    let mut memtable = PlainMemtable::new();
    recover(&dir.records().unwrap(), &mut memtable);
    assert_eq!(memtable.entries().len(), 0);
}

#[test]
fn recover_with_put_records() {
    let mut dir = Dir::new();
    let mut manager = dir.manager(1024 * 1024);
    dir.write(&mut manager, b"key1", b"value1", 1, RecordType::Put);
    dir.write(&mut manager, b"key2", b"value2", 1, RecordType::Put);
    dir.write(&mut manager, b"key3", b"value3", 1, RecordType::Put);

    dir.manager(1024 * 1024);
    let mut memtable = PlainMemtable::new();
    recover(&dir.records().unwrap(), &mut memtable);

    assert_eq!(memtable.entries().len(), 3);
    assert_eq!(memtable.get(b"key1"), Some((RecordType::Put, b"value1".to_vec())));
    assert_eq!(memtable.get(b"key2"), Some((RecordType::Put, b"value2".to_vec())));
    assert_eq!(memtable.get(b"key3"), Some((RecordType::Put, b"value3".to_vec())));
}

#[test]
fn recover_with_delete_records() {
    let mut dir = Dir::new();
    let mut manager = dir.manager(1024 * 1024);
    dir.write(&mut manager, b"key1", b"value1", 1, RecordType::Put);
    dir.write(&mut manager, b"key1", b"", 1, RecordType::Delete);

    let mut memtable = PlainMemtable::new();
    recover(&dir.records().unwrap(), &mut memtable);

    assert_eq!(memtable.entries().len(), 1);
    assert_eq!(memtable.get(b"key1"), Some((RecordType::Delete, Vec::new())));
}

#[test]
fn recover_checksum_verification() {
    let mut dir = Dir::new();
    let mut manager = dir.manager(1024 * 1024);
    dir.write(&mut manager, b"key", b"value", 1, RecordType::Put);
    dir.files.get_mut(FIRST).unwrap()[65] = 0xFF;

    let e = dir.records().unwrap_err();
    assert_eq!(e.kind(), ErrorKind::InvalidData);
}

#[test]
fn a_damaged_segment_header_is_refused() {
    let mut dir = Dir::new();
    dir.manager(1024 * 1024);
    let file = dir.files.get_mut(FIRST).unwrap();
    file[20] ^= 1;
    let e = read_log(file).unwrap_err();
    assert_eq!(e.kind(), ErrorKind::InvalidData);
    assert_eq!(e.message, "WAL header checksum mismatch");

    let e = read_log(&vec![0u8; 3]).unwrap_err();
    assert_eq!(e.kind(), ErrorKind::UnexpectedEof);
}

#[test]
fn a_full_segment_is_followed_by_a_new_one() {
    let mut dir = Dir::new();
    let mut manager = dir.manager(100);
    dir.write(&mut manager, b"a", &vec![7u8; 90], 1, RecordType::Put);
    assert_eq!(manager.active_segment().id, 0);
    dir.write(&mut manager, b"b", b"2", 2, RecordType::Put);
    assert_eq!(manager.active_segment().id, 1);

    let records = dir.records().unwrap();
    let keys: Vec<Vec<u8>> = records.into_iter().map(|r| r.key).collect();
    assert_eq!(keys, vec![b"a".to_vec(), b"b".to_vec()]);
}

#[test]
fn rotation_moves_to_the_next_segment() {
    let mut dir = Dir::new();
    let mut manager = dir.manager(1024);
    dir.write(&mut manager, b"a", b"1", 1, RecordType::Put);

    assert_eq!(dir.rotate(&mut manager), 1);
    assert_eq!(manager.active_segment().id, 1);
    assert!(!dir.files.contains_key(FIRST));
    assert_eq!(dir.records().unwrap().len(), 0);

    assert_eq!(dir.rotate(&mut manager), 2);
}

#[test]
fn segments_are_found_again_by_their_number() {
    let mut dir = Dir::new();
    dir.files.insert("00000000000000000007.log".to_string(), WALHeader::default().encode());
    dir.files.insert("notes.txt".to_string(), Vec::new());
    let manager = dir.manager(1024);
    assert_eq!(manager.active_segment().id, 7);
}

#[test]
fn file_names_of_segments() {
    assert_eq!(SegmentId { id: 0 }.filename(), FIRST);
    assert_eq!(SegmentId { id: 42 }.filename(), "00000000000000000042.log");
    assert_eq!(segment_number_of("00000000000000000042.log"), Some(42));
    assert_eq!(segment_number_of("42.db"), None);

    let names: Vec<String> = vec!["b.log".into(), "x.txt".into(), "a.log".into()];
    let sorted: Vec<String> = log_file_names(&names).into_iter().map(|f| f.name).collect();
    assert_eq!(sorted, vec!["a.log", "b.log"]);
}

#[test]
fn recovered_commands_keep_the_numbers() {
    let mut dir = Dir::new();
    let mut manager = dir.manager(1024);
    dir.write(&mut manager, b"a", b"1", 4, RecordType::Put);
    dir.write(&mut manager, b"b", b"", 5, RecordType::Delete);

    let commands = recover_commands(&dir.records().unwrap());
    assert_eq!(
        commands,
        vec![
            LogCommand::new(RecordType::Put, b"a".to_vec(), b"1".to_vec(), 4),
            LogCommand::new(RecordType::Delete, b"b".to_vec(), Vec::new(), 5),
        ]
    );
}

#[test]
fn test_delete_command_roundtrip() {
    let command = LogCommand::new(RecordType::Delete, b"key-to-delete".to_vec(), vec![], 1);
    let data = command.serialize();
    assert!(LogCommand::is_complete(&data));
    assert_eq!(LogCommand::deserialize(&data).unwrap(), command);
}

#[test]
fn commands_round_trip() {
    let command = LogCommand::new(RecordType::Put, b"k".to_vec(), b"value".to_vec(), 3);
    let data = command.serialize();
    assert_eq!(LogCommand::deserialize(&data).unwrap(), command);

    for cut in 0..data.len() {
        assert!(!LogCommand::is_complete(&data[..cut]));
    }

    let mut wrong = data.clone();
    wrong[0] = 9;
    let e = LogCommand::deserialize(&wrong).unwrap_err();
    assert_eq!(e.kind(), ErrorKind::InvalidData);
}

#[test]
fn test_recover_commands_skips_invalid_serialized_data() {
    let valid =
        LogCommand::new(RecordType::Put, b"valid-key".to_vec(), b"valid-value".to_vec(), 1);
    let entries = vec![valid.serialize(), vec![0xFF, 0xFF, 0xFF, 0xFF]];
    assert!(entries.iter().all(|e| LogCommand::is_complete(e)));
    assert_eq!(raft::recover_commands(&entries), vec![valid]);
}

#[test]
fn test_append_multiple_commands() {
    let commands = vec![
        LogCommand::new(RecordType::Put, b"key1".to_vec(), b"value1".to_vec(), 1),
        LogCommand::new(RecordType::Put, b"key2".to_vec(), b"value2".to_vec(), 2),
        LogCommand::new(RecordType::Delete, b"key1".to_vec(), vec![], 3),
    ];
    let entries: Vec<Vec<u8>> = commands.iter().map(|c| c.serialize()).collect();
    assert_eq!(raft::recover_commands(&entries), commands);
}

#[test]
fn a_rotation_removes_the_active_segment() {
    let mut dir = Dir::new();
    let mut manager = dir.manager(64);
    for lsn in 1..=3 {
        dir.write(&mut manager, b"key", &[b'x'; 64], lsn, RecordType::Put);
    }
    assert_eq!(dir.files.len(), 3);
    let mut reopened = dir.manager(64);
    assert_eq!(reopened.active_segment().id, manager.active_segment().id);
    assert_eq!(dir.rotate(&mut reopened), 3);
    let names: Vec<String> = log_file_names(&dir.names()).into_iter().map(|f| f.name).collect();
    assert_eq!(
        names,
        vec![FIRST, "00000000000000000001.log", "00000000000000000003.log"]
    );
    let numbers: Vec<u64> = dir.records().unwrap().iter().map(|r| r.lsn).collect();
    assert_eq!(numbers, vec![1, 2]);
}

#[test]
fn a_segment_with_a_changed_byte_is_refused() {
    let mut dir = Dir::new();
    let mut manager = dir.manager(1024 * 1024);
    dir.write(&mut manager, b"first", b"1", 1, RecordType::Put);
    let at = dir.files[FIRST].len();
    dir.write(&mut manager, b"key", b"value", 2, RecordType::Put);
    dir.write(&mut manager, b"last", b"3", 3, RecordType::Put);
    let file = dir.files[FIRST].clone();
    assert_eq!(read_log(&file).unwrap().len(), 3);
    let (key, value) = (at + 17..at + 20, at + 28..at + 33);
    assert_eq!((&file[key.clone()], &file[value.clone()]), (&b"key"[..], &b"value"[..]));
    for i in key.chain(value) {
        let mut changed = file.clone();
        changed[i] ^= 0x01;
        assert_eq!(read_log(&changed).unwrap_err().kind(), ErrorKind::InvalidData);
    }
    for n in at..at + 33 + 4 {
        assert_eq!(read_log(&file[..n].to_vec()).unwrap().len(), 1);
    }
}

#[test]
fn a_rotation_uses_a_reserved_segment_up() {
    let mut dir = Dir::new();
    let mut manager = dir.manager(1024 * 1024);
    assert_eq!(manager.change_to_reserve(0).unwrap_err().kind(), ErrorKind::NotFound);
    assert_eq!(dir.rotate(&mut manager), 1);
    assert_eq!(manager.change_to_reserve(0).unwrap().id, 0);
    dir.write(&mut manager, b"a", b"1", 1, RecordType::Put);

    assert_eq!(dir.rotate(&mut manager), 2);
    assert_eq!(manager.active_segment().id, 2);
    assert_eq!(dir.names(), vec!["00000000000000000002.log".to_string()]);
    assert_eq!(dir.files["00000000000000000002.log"], WALHeader::default().encode());
    dir.write(&mut manager, b"b", b"2", 2, RecordType::Put);
    let records = dir.records().unwrap();
    assert_eq!(records.len(), 1);
    assert_eq!(records[0].key, b"b");
}
