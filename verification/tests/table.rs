//! The table's storage primitives and the key order.

use jsonlt::key::{compare_keys, KeyOrder};
use jsonlt::{Record, Table};
use serde_json::Value;

fn json(text: &str) -> Value {
    serde_json::from_str(text).unwrap()
}

fn record(text: &str) -> Record {
    Record::from_value(json(text))
}

#[test]
fn new_record_holds_null() {
    assert_eq!(Record::new().value(), &Value::Null);
    assert_eq!(Record::default().value(), &Value::Null);
}

#[test]
fn record_from_value_and_back() {
    let value = json(r#"{"a":[1,2,{"b":null}],"c":"text"}"#);
    let record = Record::from(value.clone());
    assert_eq!(record.value(), &value);
    assert_eq!(record.clone().value(), &value);
}

#[test]
fn record_value_mut_replaces_the_value() {
    let mut record = record(r#"{"n":1}"#);
    *record.value_mut() = json(r#"{"n":2}"#);
    assert_eq!(record.value(), &json(r#"{"n":2}"#));
}

#[test]
fn insert_replaces_without_checking() {
    let mut table = Table::new();
    table.insert("k".to_string(), record("1"));
    table.insert("k".to_string(), record("2"));
    assert_eq!(table.len(), 1);
    assert_eq!(table.get("k").unwrap().value(), &json("2"));
}

#[test]
fn remove_returns_the_record_or_none() {
    let mut table = Table::new();
    table.insert("k".to_string(), record(r#"{"n":1}"#));
    table.insert("j".to_string(), record(r#"{"n":0}"#));
    assert!(table.remove("absent").is_none());
    assert_eq!(table.len(), 2);
    let removed = table.remove("k").unwrap();
    assert_eq!(removed.value(), &json(r#"{"n":1}"#));
    assert_eq!(table.len(), 1);
    assert!(table.remove("k").is_none());
    assert_eq!(table.get("j").unwrap().value(), &json(r#"{"n":0}"#));
}

#[test]
fn get_of_an_absent_key_is_none() {
    let mut table = Table::new();
    assert!(table.get("a").is_none());
    table.insert("a".to_string(), record("1"));
    assert!(table.get("b").is_none());
    assert!(table.get("").is_none());
}

#[test]
fn keys_come_in_ascending_order() {
    let mut table = Table::new();
    for key in ["pear", "apple", "fig", "apples", "Zebra", "\u{e9}clair", ""] {
        table.insert(key.to_string(), Record::new());
    }
    let keys = table.keys();
    let mut sorted = keys.clone();
    sorted.sort();
    assert_eq!(keys, sorted);
    assert_eq!(
        keys,
        vec!["", "Zebra", "apple", "apples", "fig", "pear", "\u{e9}clair"]
            .into_iter()
            .map(String::from)
            .collect::<Vec<String>>()
    );
}

#[test]
fn iter_walks_entries_in_key_order_and_restarts() {
    let mut table = Table::new();
    table.insert("b".to_string(), record("2"));
    table.insert("c".to_string(), record("3"));
    table.insert("a".to_string(), record("1"));
    let first: Vec<(String, Value)> =
        table.iter().into_iter().map(|(k, r)| (k.clone(), r.value().clone())).collect();
    let second: Vec<(String, Value)> =
        table.iter().into_iter().map(|(k, r)| (k.clone(), r.value().clone())).collect();
    assert_eq!(
        first,
        vec![
            ("a".to_string(), json("1")),
            ("b".to_string(), json("2")),
            ("c".to_string(), json("3")),
        ]
    );
    assert_eq!(first, second);
}

#[test]
fn clone_is_an_independent_copy() {
    let mut table = Table::new();
    table.insert("a".to_string(), record("1"));
    let mut copy = table.clone();
    copy.insert("b".to_string(), record("2"));
    assert_eq!(table.len(), 1);
    assert_eq!(copy.len(), 2);
    assert_eq!(copy.get("a").unwrap().value(), &json("1"));
    assert!(Table::default().is_empty());
}

#[test]
fn many_keys_are_all_found_again() {
    let mut table = Table::new();
    for i in 0..200u32 {
        let key = format!("key-{}", (i * 37) % 200);
        table.insert(key, Record::from_value(Value::from(i)));
    }
    assert_eq!(table.len(), 200);
    for i in 0..200u32 {
        let key = format!("key-{}", (i * 37) % 200);
        assert_eq!(table.get(&key).unwrap().value(), &Value::from(i));
    }
    for i in 0..100u32 {
        assert!(table.remove(&format!("key-{}", i)).is_some());
    }
    assert_eq!(table.len(), 100);
    assert!(!table.contains_key("key-0"));
    assert!(table.contains_key("key-150"));
}

#[test]
fn compare_keys_orders_as_strings_do() {
    assert_eq!(compare_keys("a", "b"), KeyOrder::Before);
    assert_eq!(compare_keys("b", "a"), KeyOrder::After);
    assert_eq!(compare_keys("a", "a"), KeyOrder::Same);
    assert_eq!(compare_keys("", ""), KeyOrder::Same);
    assert_eq!(compare_keys("", "a"), KeyOrder::Before);
    assert_eq!(compare_keys("ab", "a"), KeyOrder::After);
    assert_eq!(compare_keys("a", "ab"), KeyOrder::Before);
    assert_eq!(compare_keys("Z", "a"), KeyOrder::Before);
    assert_eq!(compare_keys("z", "\u{e9}"), KeyOrder::Before);
    assert_eq!(compare_keys("\u{10000}", "\u{ffff}"), KeyOrder::After);
    let words = ["", "a", "A", "ab", "b", "\u{e9}", "\u{4e2d}", "\u{1f600}", "a\u{0}"];
    for x in words {
        for y in words {
            let expected = if x < y {
                KeyOrder::Before
            } else if x == y {
                KeyOrder::Same
            } else {
                KeyOrder::After
            };
            assert_eq!(compare_keys(x, y), expected);
        }
    }
}
