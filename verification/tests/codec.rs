//! The line codec, log replay and the round trip through text.

use jsonlt::codec::{
    check_key, decode_operation, encode_operation, operation_from_fields, operation_from_value,
};
use jsonlt::log::{apply_line, decode, replay};
use jsonlt::snapshot::encode;
use jsonlt::{Error, Operations, Record, Table};
use serde_json::Value;

fn json(text: &str) -> Value {
    serde_json::from_str(text).unwrap()
}

fn record(text: &str) -> Record {
    Record::from_value(json(text))
}

fn lines(text: &[&str]) -> Vec<String> {
    text.iter().map(|line| line.to_string()).collect()
}

fn contents(table: &Table) -> Vec<(String, Value)> {
    table.iter().into_iter().map(|(k, r)| (k.clone(), r.value().clone())).collect()
}

#[test]
fn check_key_accepts_ordinary_keys() {
    assert!(check_key("a").is_ok());
    assert!(check_key("user-1").is_ok());
    assert!(check_key("with space and \t tab").is_ok());
    assert!(check_key("\u{e9}\u{4e2d}").is_ok());
}

#[test]
fn check_key_refuses_the_empty_key() {
    match check_key("") {
        Err(Error::InvalidKey(text)) => assert_eq!(text, "key is empty"),
        other => panic!("expected InvalidKey, got {:?}", other),
    }
}

#[test]
fn check_key_refuses_a_line_break() {
    for key in ["\n", "a\nb", "ab\n", "\u{e9}\n"] {
        match check_key(key) {
            Err(Error::InvalidKey(text)) => assert_eq!(text, "key contains a line break"),
            other => panic!("expected InvalidKey, got {:?}", other),
        }
    }
}

#[test]
fn encode_operation_writes_each_variant() {
    let insert = Operations::Insert { key: "a".to_string(), record: record(r#"{"n":1}"#) };
    let update = Operations::Update { key: "a".to_string(), record: record(r#"[true,null]"#) };
    let delete = Operations::Delete { key: "a".to_string() };
    let upsert = Operations::Upsert { key: "a b".to_string(), record: record(r#""x""#) };
    assert_eq!(encode_operation(&insert).unwrap(), r#"{"key":"a","op":"insert","record":{"n":1}}"#);
    assert_eq!(
        encode_operation(&update).unwrap(),
        r#"{"key":"a","op":"update","record":[true,null]}"#
    );
    assert_eq!(encode_operation(&delete).unwrap(), r#"{"key":"a","op":"delete"}"#);
    assert_eq!(encode_operation(&upsert).unwrap(), r#"{"key":"a b","record":"x"}"#);
}

#[test]
fn encode_operation_refuses_invalid_keys() {
    let empty = Operations::Delete { key: String::new() };
    let broken = Operations::Upsert { key: "a\nb".to_string(), record: Record::new() };
    assert!(matches!(encode_operation(&empty), Err(Error::InvalidKey(_))));
    assert!(matches!(encode_operation(&broken), Err(Error::InvalidKey(_))));
}

#[test]
fn encoded_lines_hold_no_line_break() {
    let op = Operations::Upsert {
        key: "k".to_string(),
        record: Record::from_value(Value::String("two\nlines\r\n".to_string())),
    };
    let line = encode_operation(&op).unwrap();
    assert!(!line.contains('\n'));
    assert!(!line.contains('\r'));
    match decode_operation(&line).unwrap() {
        Operations::Upsert { key, record } => {
            assert_eq!(key, "k");
            assert_eq!(record.value(), &Value::String("two\nlines\r\n".to_string()));
        },
        other => panic!("expected Upsert, got {:?}", other),
    }
}

#[test]
fn decode_operation_reads_each_variant() {
    match decode_operation(r#"{"op":"insert","key":"a","record":{"n":1}}"#).unwrap() {
        Operations::Insert { key, record } => {
            assert_eq!(key, "a");
            assert_eq!(record.value(), &json(r#"{"n":1}"#));
        },
        other => panic!("expected Insert, got {:?}", other),
    }
    match decode_operation(r#" { "key" : "a", "record" : 7, "op" : "update" } "#).unwrap() {
        Operations::Update { key, record } => {
            assert_eq!(key, "a");
            assert_eq!(record.value(), &json("7"));
        },
        other => panic!("expected Update, got {:?}", other),
    }
    match decode_operation(r#"{"key":"a","op":"delete"}"#).unwrap() {
        Operations::Delete { key } => assert_eq!(key, "a"),
        other => panic!("expected Delete, got {:?}", other),
    }
    match decode_operation(r#"{"key":"a","op":"upsert","record":null}"#).unwrap() {
        Operations::Upsert { key, record } => {
            assert_eq!(key, "a");
            assert_eq!(record.value(), &Value::Null);
        },
        other => panic!("expected Upsert, got {:?}", other),
    }
}

#[test]
fn a_line_without_op_is_an_upsert() {
    match decode_operation(r#"{"key":"a","record":{"n":1}}"#).unwrap() {
        Operations::Upsert { key, record } => {
            assert_eq!(key, "a");
            assert_eq!(record.value(), &json(r#"{"n":1}"#));
        },
        other => panic!("expected Upsert, got {:?}", other),
    }
}

fn format_fault(line: &str) -> String {
    match decode_operation(line) {
        Err(Error::InvalidFormat(text)) => text,
        other => panic!("expected InvalidFormat for {:?}, got {:?}", line, other),
    }
}

#[test]
fn decode_operation_refuses_malformed_lines() {
    assert_eq!(format_fault(""), "blank line");
    assert_eq!(format_fault(r#"{"record":1}"#), "missing key");
    assert_eq!(format_fault(r#"[1,2]"#), "missing key");
    assert_eq!(format_fault(r#"7"#), "missing key");
    assert_eq!(format_fault(r#"{"key":7,"record":1}"#), "key is not a string");
    assert_eq!(format_fault(r#"{"key":"a","op":1,"record":1}"#), "operation name is not a string");
    assert_eq!(format_fault(r#"{"key":"a","op":"merge","record":1}"#), "unknown operation");
    assert_eq!(format_fault(r#"{"key":"a","op":"Insert","record":1}"#), "unknown operation");
    assert_eq!(format_fault(r#"{"key":"a","op":"insert"}"#), "missing record");
    assert_eq!(format_fault(r#"{"key":"a"}"#), "missing record");
    assert_eq!(format_fault(r#"{"key":"a","op":"delete","record":1}"#), "delete carries a record");
}

#[test]
fn decode_operation_reports_the_parser_message() {
    let line = r#"{"key":"a","record":"#;
    let expected = serde_json::from_str::<Value>(line).unwrap_err().to_string();
    assert_eq!(format_fault(line), expected);
    assert!(!format_fault("   ").is_empty());
    assert!(!format_fault("not json").is_empty());
}

#[test]
fn decode_operation_refuses_invalid_keys() {
    match decode_operation(r#"{"key":"","record":1}"#) {
        Err(Error::InvalidKey(text)) => assert_eq!(text, "key is empty"),
        other => panic!("expected InvalidKey, got {:?}", other),
    }
    match decode_operation(r#"{"key":"a\nb","op":"delete"}"#) {
        Err(Error::InvalidKey(text)) => assert_eq!(text, "key contains a line break"),
        other => panic!("expected InvalidKey, got {:?}", other),
    }
    assert!(matches!(
        decode_operation(r#"{"key":"","op":"merge"}"#),
        Err(Error::InvalidKey(_))
    ));
}

#[test]
fn operation_from_fields_follows_the_name() {
    match operation_from_fields("k".to_string(), "insert", Some(record("1"))).unwrap() {
        Operations::Insert { key, record } => {
            assert_eq!(key, "k");
            assert_eq!(record.value(), &json("1"));
        },
        other => panic!("expected Insert, got {:?}", other),
    }
    assert!(matches!(
        operation_from_fields("k".to_string(), "update", Some(record("1"))),
        Ok(Operations::Update { .. })
    ));
    assert!(matches!(
        operation_from_fields("k".to_string(), "upsert", Some(record("1"))),
        Ok(Operations::Upsert { .. })
    ));
    assert!(matches!(
        operation_from_fields("k".to_string(), "delete", None),
        Ok(Operations::Delete { .. })
    ));
    assert!(matches!(
        operation_from_fields("k".to_string(), "delete", Some(record("1"))),
        Err(Error::InvalidFormat(_))
    ));
    assert!(matches!(
        operation_from_fields("k".to_string(), "insert", None),
        Err(Error::InvalidFormat(_))
    ));
    assert!(matches!(
        operation_from_fields("k".to_string(), "", Some(record("1"))),
        Err(Error::InvalidFormat(_))
    ));
    assert!(matches!(
        operation_from_fields(String::new(), "insert", Some(record("1"))),
        Err(Error::InvalidKey(_))
    ));
}

#[test]
fn operation_from_value_reads_a_parsed_line() {
    let value = json(r#"{"key":"k","op":"update","record":{"deep":[1,{"x":"y"}]}}"#);
    match operation_from_value(&value).unwrap() {
        Operations::Update { key, record } => {
            assert_eq!(key, "k");
            assert_eq!(record.value(), &json(r#"{"deep":[1,{"x":"y"}]}"#));
        },
        other => panic!("expected Update, got {:?}", other),
    }
    assert!(matches!(operation_from_value(&Value::Null), Err(Error::InvalidFormat(_))));
}

#[test]
fn operations_survive_the_line_codec() {
    let ops = vec![
        Operations::Insert { key: "a".to_string(), record: record(r#"{"n":1.5,"s":"é"}"#) },
        Operations::Update { key: "b c".to_string(), record: record(r#"[1,-2,3e10,"x",null]"#) },
        Operations::Delete { key: "\"quoted\"".to_string() },
        Operations::Upsert { key: "\u{4e2d}".to_string(), record: record("false") },
    ];
    for op in ops {
        let line = encode_operation(&op).unwrap();
        let back = decode_operation(&line).unwrap();
        assert_eq!(encode_operation(&back).unwrap(), line);
        match (op, back) {
            (
                Operations::Insert { key: k1, record: r1 },
                Operations::Insert { key: k2, record: r2 },
            )
            | (
                Operations::Update { key: k1, record: r1 },
                Operations::Update { key: k2, record: r2 },
            )
            | (
                Operations::Upsert { key: k1, record: r1 },
                Operations::Upsert { key: k2, record: r2 },
            ) => {
                assert_eq!(k1, k2);
                assert_eq!(r1.value(), r2.value());
            },
            (Operations::Delete { key: k1 }, Operations::Delete { key: k2 }) => assert_eq!(k1, k2),
            (op, back) => panic!("{:?} came back as {:?}", op, back),
        }
    }
}

#[test]
fn replay_folds_operations_in_order() {
    let ops = vec![
        Operations::Insert { key: "b".to_string(), record: record("1") },
        Operations::Insert { key: "a".to_string(), record: record("2") },
        Operations::Update { key: "b".to_string(), record: record("3") },
        Operations::Upsert { key: "c".to_string(), record: record("4") },
        Operations::Delete { key: "a".to_string() },
    ];
    let table = replay(ops).unwrap();
    assert_eq!(
        contents(&table),
        vec![("b".to_string(), json("3")), ("c".to_string(), json("4"))]
    );
}

#[test]
fn replay_of_nothing_is_the_empty_table() {
    assert!(replay(Vec::new()).unwrap().is_empty());
    assert!(decode(&Vec::new()).unwrap().is_empty());
}

#[test]
fn replay_aborts_at_the_first_refusal() {
    let ops = vec![
        Operations::Insert { key: "a".to_string(), record: record("1") },
        Operations::Insert { key: "a".to_string(), record: record("2") },
        Operations::Delete { key: "zzz".to_string() },
    ];
    match replay(ops) {
        Err(Error::AlreadyExists(key)) => assert_eq!(key, "a"),
        other => panic!("expected AlreadyExists, got {:?}", other.map(|t| t.len())),
    }
}

#[test]
fn decode_replays_lines() {
    let table = decode(&lines(&[
        r#"{"key":"b","record":{"n":2}}"#,
        r#"{"key":"a","op":"insert","record":{"n":1}}"#,
        r#"{"key":"b","op":"update","record":{"n":3}}"#,
        r#"{"key":"c","record":null}"#,
        r#"{"key":"c","op":"delete"}"#,
    ]))
    .unwrap();
    assert_eq!(
        contents(&table),
        vec![("a".to_string(), json(r#"{"n":1}"#)), ("b".to_string(), json(r#"{"n":3}"#))]
    );
}

#[test]
fn decode_aborts_at_the_first_bad_line() {
    let blank = decode(&lines(&[r#"{"key":"a","record":1}"#, "", r#"{"key":"b","record":2}"#]));
    match blank {
        Err(Error::InvalidFormat(text)) => assert_eq!(text, "blank line"),
        other => panic!("expected InvalidFormat, got {:?}", other.map(|t| t.len())),
    }
    let missing = decode(&lines(&[r#"{"key":"a","op":"update","record":1}"#, "garbage"]));
    match missing {
        Err(Error::NotFound(key)) => assert_eq!(key, "a"),
        other => panic!("expected NotFound, got {:?}", other.map(|t| t.len())),
    }
    let twice = decode(&lines(&[
        r#"{"key":"a","op":"insert","record":1}"#,
        r#"{"key":"a","op":"insert","record":2}"#,
    ]));
    assert!(matches!(twice, Err(Error::AlreadyExists(_))));
}

#[test]
fn apply_line_is_all_or_nothing() {
    let mut table = Table::new();
    assert!(apply_line(&mut table, r#"{"key":"a","record":{"n":1}}"#).is_ok());
    let before = encode(&table).unwrap();
    assert!(matches!(apply_line(&mut table, "{"), Err(Error::InvalidFormat(_))));
    assert!(matches!(apply_line(&mut table, ""), Err(Error::InvalidFormat(_))));
    assert!(matches!(
        apply_line(&mut table, r#"{"key":"a","op":"insert","record":0}"#),
        Err(Error::AlreadyExists(_))
    ));
    assert!(matches!(
        apply_line(&mut table, r#"{"key":"b","op":"delete"}"#),
        Err(Error::NotFound(_))
    ));
    assert!(matches!(
        apply_line(&mut table, r#"{"key":"","record":0}"#),
        Err(Error::InvalidKey(_))
    ));
    assert_eq!(encode(&table).unwrap(), before);
    assert!(apply_line(&mut table, r#"{"key":"a","op":"delete"}"#).is_ok());
    assert!(table.is_empty());
}

#[test]
fn table_survives_the_round_trip() {
    let mut table = Table::new();
    table.insert("user-2".to_string(), record(r#"{"name":"Bob","email":"bob@example.com"}"#));
    table.insert("user-1".to_string(), record(r#"{"name":"Alice","tags":["x","y"],"age":30}"#));
    table.insert("odd \"key\" \\ \t".to_string(), record(r#"[1.25,-7,18446744073709551615,1e-7]"#));
    table.insert("\u{1f600}".to_string(), record(r#""line\nbreak""#));
    table.insert("empty".to_string(), Record::new());
    let text = encode(&table).unwrap();
    assert_eq!(text.len(), 5);
    let back = decode(&text).unwrap();
    assert_eq!(back.keys(), table.keys());
    assert_eq!(contents(&back), contents(&table));
    assert_eq!(encode(&back).unwrap(), text);
}

#[test]
fn empty_table_round_trips_to_no_lines() {
    let text = encode(&Table::new()).unwrap();
    assert!(text.is_empty());
    assert!(decode(&text).unwrap().is_empty());
}

#[test]
fn encode_refuses_a_table_with_an_invalid_key() {
    let mut table = Table::new();
    table.insert("a".to_string(), Record::new());
    table.insert(String::new(), Record::new());
    match encode(&table) {
        Err(Error::InvalidKey(text)) => assert_eq!(text, "key is empty"),
        other => panic!("expected InvalidKey, got {:?}", other),
    }
    let mut broken = Table::new();
    broken.insert("a\nb".to_string(), Record::new());
    match encode(&broken) {
        Err(Error::InvalidKey(text)) => assert_eq!(text, "key contains a line break"),
        other => panic!("expected InvalidKey, got {:?}", other),
    }
}

#[test]
fn replay_is_deterministic() {
    let log = lines(&[
        r#"{"key":"x","op":"insert","record":{"v":[1,2,3]}}"#,
        r#"{"key":"y","record":"two"}"#,
        r#"{"key":"x","op":"update","record":{"v":[]}}"#,
        r#"{"key":"z","record":0}"#,
        r#"{"key":"y","op":"delete"}"#,
    ]);
    let first = decode(&log).unwrap();
    let second = decode(&log).unwrap();
    assert_eq!(first.keys(), second.keys());
    assert_eq!(contents(&first), contents(&second));
    assert_eq!(encode(&first).unwrap(), encode(&second).unwrap());
    assert_eq!(first.keys(), vec!["x".to_string(), "z".to_string()]);
}
