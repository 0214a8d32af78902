//! The command language.
use ceredb::api::api::KVEngine;
use ceredb::command::{execute_command, parse_command, Command, ParseError, Response};
use ceredb::error::DBError;
use std::collections::HashMap;

#[derive(Default)]
struct MockKV {
    data: HashMap<Vec<u8>, Vec<u8>>,
}

impl KVEngine for MockKV {
    fn get(&self, key: &[u8]) -> Result<Option<Vec<u8>>, DBError> {
        Ok(self.data.get(key).cloned())
    }

    fn put(&mut self, key: Vec<u8>, value: Vec<u8>) -> Result<(), DBError> {
        self.data.insert(key, value);
        Ok(())
    }

    fn delete(&mut self, key: Vec<u8>) -> Result<(), DBError> {
        self.data.remove(&key);
        Ok(())
    }
}

#[test]
fn parse_set_command() {
    let parsed = parse_command("SET key value");
    assert_eq!(
        parsed,
        Ok(Command::SetKey {
            key: "key".to_string(),
            value: "value".to_string()
        })
    );
}

#[test]
fn parse_set_with_quoted_value() {
    let parsed = parse_command("SET key \"value with spaces\"");
    assert_eq!(
        parsed,
        Ok(Command::SetKey {
            key: "key".to_string(),
            value: "value with spaces".to_string()
        })
    );
}

#[test]
fn parse_set_with_single_quoted_value() {
    let parsed = parse_command("SET key 'value with spaces'");
    assert_eq!(
        parsed,
        Ok(Command::SetKey {
            key: "key".to_string(),
            value: "value with spaces".to_string()
        })
    );
}

#[test]
fn parse_set_with_empty_quoted_value() {
    let parsed = parse_command("SET key \"\"");
    assert_eq!(
        parsed,
        Ok(Command::SetKey {
            key: "key".to_string(),
            value: "".to_string()
        })
    );
}

#[test]
fn parse_set_with_escaped_quote_in_value() {
    let parsed = parse_command("SET key \"value \\\"quoted\\\"\"");
    assert_eq!(
        parsed,
        Ok(Command::SetKey {
            key: "key".to_string(),
            value: "value \"quoted\"".to_string()
        })
    );
}

#[test]
fn parse_unterminated_quote() {
    let parsed = parse_command("SET key \"unterminated");
    assert_eq!(parsed, Err(ParseError::UnterminatedQuotedValue));
}

#[test]
fn parse_get_command() {
    let parsed = parse_command("GET key");
    assert_eq!(
        parsed,
        Ok(Command::Get {
            key: "key".to_string()
        })
    );
}

#[test]
fn parse_delete_command() {
    let parsed = parse_command("DELETE key");
    assert_eq!(
        parsed,
        Ok(Command::Delete {
            key: "key".to_string()
        })
    );
}

#[test]
fn parse_del_shorthand_command() {
    let parsed = parse_command("del key");
    assert_eq!(
        parsed,
        Ok(Command::Delete {
            key: "key".to_string()
        })
    );
}

#[test]
fn parse_lowercase_commands() {
    assert_eq!(
        parse_command("set key value"),
        Ok(Command::SetKey {
            key: "key".to_string(),
            value: "value".to_string()
        })
    );

    assert_eq!(
        parse_command("get key"),
        Ok(Command::Get {
            key: "key".to_string()
        })
    );

    assert_eq!(
        parse_command("delete key"),
        Ok(Command::Delete {
            key: "key".to_string()
        })
    );
}

#[test]
fn parse_invalid_arity() {
    let parsed = parse_command("SET only_key");
    assert_eq!(
        parsed,
        Err(ParseError::InvalidArity {
            command: "SET".to_string(),
            expected: "SET <key> <value>"
        })
    );
}

#[test]
fn execute_set_get_delete_flow() {
    let mut kv = MockKV::default();

    let set_result = execute_command(
        &mut kv,
        Command::SetKey {
            key: "k".to_string(),
            value: "v with spaces".to_string(),
        },
    );
    assert!(matches!(set_result, Ok(Response::Okay)));

    let get_result = execute_command(
        &mut kv,
        Command::Get {
            key: "k".to_string(),
        },
    );
    assert!(matches!(get_result, Ok(Response::Value(ref v)) if v == "v with spaces"));

    let delete_result = execute_command(
        &mut kv,
        Command::Delete {
            key: "k".to_string(),
        },
    );
    assert!(matches!(delete_result, Ok(Response::Okay)));

    let missing = execute_command(
        &mut kv,
        Command::Get {
            key: "k".to_string(),
        },
    );
    assert!(matches!(missing, Ok(Response::Nil)));
}
