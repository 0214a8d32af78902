//! Text, names, settings and answers.
use ceredb::api::api::KVEngine;
use ceredb::command::{
    change_response, engine_call, execute_command, parse_command, tokenize, value_response, Command,
    EngineCall, ParseError, Response,
};
use ceredb::config::{find_level, parse_peers, Config, LogLevel};
use ceredb::error::{DBError, ErrorKind, IoError};
use ceredb::order::{order_keys, same_key, KeyOrder};
use ceredb::repl::{banner, format_response, format_result, read_input, ReplInput};
use ceredb::storage::compactionmanager::path::{
    build_compaction_output_path, file_name_of, flush_path, join_path, table_file_name,
};
use ceredb::storage::compactionmanager::span::{range_from_blocks, widen};
use ceredb::storage::config::{FalsePositiveRate, StorageConfig};
use ceredb::storage::levelstore::Levelstore;
use ceredb::storage::raft::log_store::{LogBound, RaftLog};
use ceredb::storage::raft::network::PeerUrls;
use ceredb::storage::raft::state_machine::{EntryPayload, KVStateMachine};
use ceredb::storage::readmanager::range::{key_in_range, ranges_overlap, KeyBound, KeyRange};
use ceredb::storage::record::RecordType;
use ceredb::storage::recovermanager::log_store::LogCommand;
use ceredb::storage::writemanager::write::WriteComponent;
use ceredb::testing::{is_sstable_file, level_from_dir};
use ceredb::text;

#[test]
fn numbers_as_text() {
    let mut s = String::new();
    text::push_decimal(&mut s, 0);
    text::push_decimal(&mut s, 18_446_744_073_709_551_615);
    assert_eq!(s, "018446744073709551615");

    let mut s = String::new();
    text::push_hex_padded(&mut s, 0xab, 8);
    assert_eq!(s, "000000ab");
    let mut s = String::new();
    text::push_hex_upper(&mut s, 0xab);
    assert_eq!(s, "AB");
    let mut s = String::new();
    text::push_decimal_padded(&mut s, 42, 5);
    assert_eq!(s, "00042");
}

#[test]
fn numbers_from_text() {
    let parse = |s: &str| text::parse_u64(&s.chars().collect::<Vec<char>>());
    assert_eq!(parse("0"), Some(0));
    assert_eq!(parse("+7"), Some(7));
    assert_eq!(parse("18446744073709551615"), Some(u64::MAX));
    assert_eq!(parse("18446744073709551616"), None);
    assert_eq!(parse(""), None);
    assert_eq!(parse("+"), None);
    assert_eq!(parse("-1"), None);
    assert_eq!(parse("1x"), None);
}

#[test]
fn bytes_as_text() {
    assert_eq!(text::from_utf8(b"abc".to_vec()), Ok("abc".to_string()));
    assert!(text::from_utf8(vec![0xFF]).is_err());
    assert_eq!(text::from_utf8_lossy(b"abc"), "abc");
    assert_eq!(text::from_utf8_lossy(&[b'a', 0xFF]), "a\u{FFFD}");
    assert_eq!(text::to_uppercase("stra\u{df}e"), "STRASSE");
    assert_eq!(text::to_lowercase("InFo"), "info");
}

#[test]
fn white_space_is_trimmed() {
    let trimmed: String = text::trim_chars(" \t a b\u{3000}\n").iter().collect();
    assert_eq!(trimmed, "a b");
    assert!(text::is_white_space('\u{a0}'));
    assert!(!text::is_white_space('\u{200b}'));
}

#[test]
fn tokens() {
    let words = |s: &str| tokenize(s).unwrap();
    assert_eq!(words("  SET  a   b "), vec!["SET", "a", "b"]);
    assert_eq!(words("SET k \"a b\""), vec!["SET", "k", "a b"]);
    assert_eq!(words("SET k 'it is'"), vec!["SET", "k", "it is"]);
    assert!(matches!(tokenize("SET k 'open"), Err(ParseError::UnterminatedQuotedValue)));
    assert!(words("   ").is_empty());
}

#[test]
fn quotes_and_backslashes_in_values() {
    match parse_command(r#"SET k "say \"a\\b\" now""#) {
        Ok(Command::SetKey { key, value }) => {
            assert_eq!(key, "k");
            assert_eq!(value, r#"say "a\b" now"#);
        }
        other => panic!("unexpected: {other:?}"),
    }
}

#[test]
fn keywords_in_any_case() {
    for keyword in ["get", "GET", "Get", "gEt"] {
        let line = format!("{keyword} k");
        assert_eq!(parse_command(&line), Ok(Command::Get { key: "k".to_string() }));
    }
}

#[test]
fn commands_that_are_refused() {
    assert!(matches!(parse_command("   "), Err(ParseError::Empty)));
    match parse_command("frob x") {
        Err(ParseError::UnknownCommand(c)) => assert_eq!(c, "frob"),
        other => panic!("unexpected: {other:?}"),
    }
    match parse_command("GET a b") {
        Err(ParseError::InvalidArity { command, expected }) => {
            assert_eq!(command, "GET");
            assert_eq!(expected, "GET <key>");
        }
        other => panic!("unexpected: {other:?}"),
    }
    assert_eq!(parse_command("exit"), Ok(Command::Exit));
    assert_eq!(parse_command("QUIT"), Ok(Command::Exit));
}

/// A store that fails.
struct Broken;

impl KVEngine for Broken {
    fn get(&self, _key: &[u8]) -> Result<Option<Vec<u8>>, DBError> {
        Err(DBError::StorageError("broken".to_string()))
    }

    fn put(&mut self, _key: Vec<u8>, _value: Vec<u8>) -> Result<(), DBError> {
        Err(DBError::StorageError("broken".to_string()))
    }

    fn delete(&mut self, _key: Vec<u8>) -> Result<(), DBError> {
        Err(DBError::StorageError("broken".to_string()))
    }
}

#[test]
fn failures_of_the_store_come_back() {
    let mut e = Broken;
    for line in ["SET a b", "GET a", "DEL a"] {
        let r = execute_command(&mut e, parse_command(line).unwrap());
        assert!(matches!(&r, Err(DBError::StorageError(m)) if m == "broken"));
        let (answer, leave) = format_result(&r);
        assert!(answer.starts_with("ERR "));
        assert!(answer.contains("broken"));
        assert!(!leave);
    }
    assert!(matches!(execute_command(&mut e, Command::Exit), Ok(Response::Bye)));
}

#[test]
fn calls_and_answers() {
    let set = Command::SetKey { key: "k".to_string(), value: "v".to_string() };
    assert!(matches!(engine_call(&set), EngineCall::Put(k, v) if k == b"k" && v == b"v"));
    assert!(matches!(engine_call(&Command::Exit), EngineCall::Nothing));
    assert!(matches!(change_response(Ok(())), Ok(Response::Okay)));
    assert!(matches!(value_response(Ok(None)), Ok(Response::Nil)));
    let lossy = value_response(Ok(Some(vec![0xFF]))).unwrap();
    assert_eq!(lossy, Response::Value("\u{FFFD}".to_string()));
}

#[test]
fn the_prompt() {
    assert_eq!(banner(), "ceredb CLI REPL (SET/GET/DELETE). Type EXIT to quit.");
    assert!(matches!(read_input("GET k\n"), ReplInput::Run(Command::Get { key }) if key == "k"));
    assert!(matches!(read_input("\n"), ReplInput::Skip));
    assert!(
        matches!(read_input("frob"), ReplInput::Print(l) if l == "ERR unknown command: frob")
    );
    assert!(
        matches!(read_input("SET a"), ReplInput::Print(l) if l == "ERR usage: SET <key> <value>")
    );
    assert!(
        matches!(read_input("SET a 'b"), ReplInput::Print(l) if l == "ERR unterminated quoted value")
    );
    assert_eq!(format_response(&Response::Nil), "(nil)");
    assert_eq!(format_result(&Ok(Response::Okay)), ("OK".to_string(), false));
    assert_eq!(format_result(&Ok(Response::Value("x".to_string()))), ("x".to_string(), false));
    assert_eq!(format_result(&Ok(Response::Bye)), ("bye".to_string(), true));
}

fn settings() -> Config {
    Config {
        log_level: "info".to_string(),
        verbose: false,
        data_dir: "db".to_string(),
        memtable_size_mb: 4,
        block_size_kb: 4,
        max_level0_files: 2,
        wal_segment_size_mb: 1,
        bloom_fp_rate: FalsePositiveRate { bits: 0.01f64.to_bits() },
        raft_mode: true,
        raft_node_id: 1,
        raft_peers: String::new(),
        raft_http_bind: "127.0.0.1:21001".to_string(),
    }
}

#[test]
fn settings_of_the_program() {
    assert_eq!(find_level("trace"), Some(LogLevel::Trace));
    assert_eq!(find_level("Trace"), None);
    assert_eq!(Config { log_level: "WARN".to_string(), ..settings() }.get_log_level(), LogLevel::Warn);
    assert_eq!(Config { log_level: "loud".to_string(), ..settings() }.get_log_level(), LogLevel::Info);

    assert!(settings().has_countable_sizes());
    assert!(!Config { memtable_size_mb: u64::MAX, ..settings() }.has_countable_sizes());
    let e = Config { max_level0_files: 0, ..settings() }.to_storage_config().unwrap_err();
    assert!(e.starts_with("invalid storage config: "));

    assert_eq!(settings().to_raft_node_config().unwrap().raft_dir, "db/raft");
    let peers = parse_peers(" 2:a:1 ,x:b:2,3:c,,4:d:5");
    assert_eq!(peers, vec![(2, "a:1".to_string()), (4, "d:5".to_string())]);
}

#[test]
fn rates_between_zero_and_one_are_usable() {
    let usable = |v: f64| FalsePositiveRate { bits: v.to_bits() }.is_usable();
    assert!(usable(0.5));
    assert!(usable(f64::MIN_POSITIVE));
    assert!(!usable(0.0));
    assert!(!usable(1.0));
    assert!(!usable(-0.5));
    assert!(!usable(f64::INFINITY));
    assert_eq!(f64::from_bits(StorageConfig::default().bloom_false_positive_rate.bits), 0.01);
}

#[test]
fn errors_as_text() {
    let e = IoError::new(ErrorKind::NotFound, "gone");
    assert_eq!(e.kind(), ErrorKind::NotFound);
    assert!(DBError::Io(e).describe().contains("gone"));
    assert!(DBError::Corrupted("bad".to_string()).describe().contains("bad"));
    assert!(DBError::MutexPoisoned("stuck".to_string()).describe().contains("stuck"));
}

#[test]
fn order_of_keys() {
    assert_eq!(order_keys(b"a", b"b"), KeyOrder::Before);
    assert_eq!(order_keys(b"ab", b"a"), KeyOrder::After);
    assert_eq!(order_keys(b"", b""), KeyOrder::Same);
    assert!(same_key(b"x", b"x"));
    assert!(!same_key(b"x", b"xy"));
}

#[test]
fn paths() {
    assert_eq!(table_file_name(9), "sstable-9.dat");
    assert_eq!(flush_path("db/sstable", 9), "db/sstable/level-0/sstable-9.dat");
    assert_eq!(
        build_compaction_output_path("db/sstable/level-0/sstable-1.dat", 1, 2),
        "db/sstable/level-1/sstable-2.dat"
    );
    assert_eq!(join_path("a", "b"), "a/b");
    assert_eq!(join_path("a/", "b"), "a/b");
    assert_eq!(file_name_of("a/b.log"), Some("b.log".to_string()));
    assert_eq!(file_name_of("a/b/"), Some("b".to_string()));
    assert_eq!(file_name_of(".."), None);
    assert_eq!(level_from_dir("level-12"), 12);
    assert_eq!(level_from_dir("other"), 0);
    assert!(is_sstable_file("sstable-1.dat"));
    assert!(!is_sstable_file("sstable-1.tmp"));
}

#[test]
fn ranges_of_keys() {
    let range = KeyRange {
        start: KeyBound::Excluded(b"b".to_vec()),
        end: KeyBound::Included(b"d".to_vec()),
    };
    assert!(!key_in_range(b"b", &range));
    assert!(key_in_range(b"c", &range));
    assert!(key_in_range(b"d", &range));
    assert!(!key_in_range(b"e", &range));
    assert!(ranges_overlap(&range, b"a", b"c"));
    assert!(!ranges_overlap(&range, b"e", b"f"));
    assert!(!ranges_overlap(&range, b"a", b"aa"));

    assert_eq!(widen(None, None), None);
    let some = Some((b"c".to_vec(), b"d".to_vec()));
    assert_eq!(widen(some.clone(), None), some);
    let wide = widen(some, Some((b"a".to_vec(), b"cc".to_vec())));
    assert_eq!(wide, Some((b"a".to_vec(), b"d".to_vec())));
    assert_eq!(range_from_blocks(&Vec::new()), None);
}

#[test]
fn levels_of_files() {
    let mut store = Levelstore::new();
    assert!(store.get_files(0).is_none());
    assert!(store.add_file(1, &"a".to_string()).is_none());
    assert!(store.get_files(0).unwrap().is_empty());
    assert!(store.add_file(1, &"b".to_string()).is_none());
    let merge = store.add_file(1, &"c".to_string()).unwrap();
    assert_eq!(merge, vec!["a", "b", "c"]);
    store.remove_file(1, b"b");
    store.remove_file(7, b"b");
    assert_eq!(store.get_files(1).unwrap(), &vec!["a".to_string(), "c".to_string()]);
}

#[test]
fn the_replicated_log() {
    let mut log = RaftLog::new(vec![10, 11, 12]);
    log.append(13);
    assert_eq!(log.last(), Some(&13));
    assert_eq!(log.try_get_log_entries(LogBound::Included(1), LogBound::Excluded(3)), &[11, 12]);
    assert_eq!(log.try_get_log_entries(LogBound::Excluded(1), LogBound::Unbounded), &[12, 13]);
    assert!(log.try_get_log_entries(LogBound::Included(9), LogBound::Unbounded).is_empty());
    let before = log.try_get_log_entries(LogBound::Unbounded, LogBound::Included(1)).to_vec();
    log.truncate(2);
    assert_eq!(log.entries(), &vec![10, 11, 12]);
    assert_eq!(log.try_get_log_entries(LogBound::Unbounded, LogBound::Included(1)), before);
    log.purge(0);
    assert_eq!(log.entries(), &vec![11, 12]);
    log.purge(7);
    assert!(log.entries().is_empty());
    assert_eq!(log.last(), None);
}

#[test]
fn addresses_of_nodes() {
    let mut peers = PeerUrls::new(vec![(2, "a:1".to_string())]);
    assert_eq!(peers.new_client(2), "http://a:1");
    assert_eq!(peers.url_for(3), None);
    assert_eq!(peers.new_client(3), "http://node-3:21001");
    peers.add_peer(2, "b:2".to_string());
    peers.add_peer(3, "c:3".to_string());
    assert_eq!(peers.url_for(2), Some("b:2".to_string()));
    assert_eq!(peers.new_client(3), "http://c:3");
}

#[test]
fn committed_entries_are_applied() {
    let mut machine: KVStateMachine<u64, &str> = KVStateMachine::new();
    let mut writes = WriteComponent::with_default_dir();
    let put = LogCommand::new(RecordType::Put, b"k".to_vec(), b"v".to_vec(), 5);
    assert!(machine.apply(1, EntryPayload::Normal(put.serialize()), &mut writes).is_empty());
    assert_eq!(machine.last_applied, Some(1));
    assert_eq!(writes.current_sequence_number(), 5);
    let record = writes.active_memtable_handle().newest(b"k", 5).unwrap();
    assert_eq!(record.value, b"v");

    machine.apply(2, EntryPayload::Normal(vec![9, 9]), &mut writes);
    machine.apply(3, EntryPayload::Membership("all"), &mut writes);
    machine.apply(4, EntryPayload::Blank, &mut writes);
    assert_eq!(machine.last_applied, Some(4));
    assert_eq!(machine.membership, Some((3, "all")));
    assert_eq!(writes.active_memtable_handle().entries().len(), 1);
}
