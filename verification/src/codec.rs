//! The line codec: one operation per line of text, as a JSON object.
//!
//! A line holds an object with the members `key` (a string), `op` (one of
//! `insert`, `update`, `delete`, `upsert`) and `record` (any JSON value). A
//! line without `op` is a snapshot line and means `upsert`; that is the form
//! in which a table's entries and upserts are written. A `delete` line has
//! no `record`, every other line has one.

use vstd::prelude::*;
use vstd::string::*;
use serde_json::Value;
use crate::error::{Error, ErrorView};
use crate::json::{
    clone_value, field_of, json_field, json_object, json_of_string, json_parse, json_string,
    json_text, member_views, object_value, parse_value, string_of, string_value, value_text,
};
use crate::key::{compare_keys, KeyOrder};
use crate::ops::{Change, Operations};
use crate::record::Record;

verus! {

/// What is wrong with a key, if anything: a key is a non-empty string
/// without a line break.
pub open spec fn key_fault(key: Seq<char>) -> Option<ErrorView> {
    if key.len() == 0 {
        Some(ErrorView::InvalidKey("key is empty"@))
    } else if key.contains('\n') {
        Some(ErrorView::InvalidKey("key contains a line break"@))
    } else {
        None
    }
}

/// Checks a key against the key format.
pub fn check_key(key: &str) -> (r: Result<(), Error>)
    ensures
        match key_fault(key@) {
            None => r is Ok,
            Some(fault) => r matches Err(e) && e@ == fault,
        },
{
    if key.is_empty() {
        return Err(Error::InvalidKey("key is empty".to_owned()));
    }
    for c in it: key.chars()
        invariant
            it.seq() == key@,
            forall|j: int| 0 <= j < it.index() ==> key@[j] != '\n',
    {
        if c == '\n' {
            return Err(Error::InvalidKey("key contains a line break".to_owned()));
        }
    }
    Ok(())
}

/// The JSON object that a change is written as.
pub open spec fn line_value(change: Change) -> Value {
    match change {
        Change::Insert { key, value } => json_object(
            seq![
                ("key"@, json_of_string(key)),
                ("op"@, json_of_string("insert"@)),
                ("record"@, value),
            ],
        ),
        Change::Update { key, value } => json_object(
            seq![
                ("key"@, json_of_string(key)),
                ("op"@, json_of_string("update"@)),
                ("record"@, value),
            ],
        ),
        Change::Delete { key } => json_object(
            seq![("key"@, json_of_string(key)), ("op"@, json_of_string("delete"@))],
        ),
        Change::Upsert { key, value } => json_object(
            seq![("key"@, json_of_string(key)), ("record"@, value)],
        ),
    }
}

/// The line that a change is written as: refused where the key is not a
/// valid key, else whatever the JSON codec prints for the change's object.
pub open spec fn encode_change(change: Change) -> Result<Seq<char>, ErrorView> {
    match key_fault(change.key()) {
        Some(fault) => Err(fault),
        None => match json_text(line_value(change)) {
            Ok(text) => Ok(text),
            Err(message) => Err(ErrorView::Json(message)),
        },
    }
}

/// The change that a line's members stand for, or what is wrong with them.
pub open spec fn decode_fields(key: Seq<char>, name: Seq<char>, record: Option<Value>) -> Result<
    Change,
    ErrorView,
> {
    if let Some(fault) = key_fault(key) {
        Err(fault)
    } else if name == "delete"@ {
        match record {
            None => Ok(Change::Delete { key }),
            Some(_) => Err(ErrorView::InvalidFormat("delete carries a record"@)),
        }
    } else if name == "insert"@ || name == "update"@ || name == "upsert"@ {
        match record {
            None => Err(ErrorView::InvalidFormat("missing record"@)),
            Some(value) => if name == "insert"@ {
                Ok(Change::Insert { key, value })
            } else if name == "update"@ {
                Ok(Change::Update { key, value })
            } else {
                Ok(Change::Upsert { key, value })
            },
        }
    } else {
        Err(ErrorView::InvalidFormat("unknown operation"@))
    }
}

/// The change that a JSON value stands for, or what is wrong with it.
pub open spec fn decode_value(value: Value) -> Result<Change, ErrorView> {
    match json_field(value, "key"@) {
        None => Err(ErrorView::InvalidFormat("missing key"@)),
        Some(k) => match json_string(k) {
            None => Err(ErrorView::InvalidFormat("key is not a string"@)),
            Some(key) => match json_field(value, "op"@) {
                None => decode_fields(key, "upsert"@, json_field(value, "record"@)),
                Some(n) => match json_string(n) {
                    None => Err(ErrorView::InvalidFormat("operation name is not a string"@)),
                    Some(name) => decode_fields(key, name, json_field(value, "record"@)),
                },
            },
        },
    }
}

/// The change that a line of text stands for, or why it stands for none.
/// A blank line and a line that is not JSON are format errors.
pub open spec fn decode_line(line: Seq<char>) -> Result<Change, ErrorView> {
    if line.len() == 0 {
        Err(ErrorView::InvalidFormat("blank line"@))
    } else {
        match json_parse(line) {
            Err(message) => Err(ErrorView::InvalidFormat(message)),
            Ok(value) => decode_value(value),
        }
    }
}

/// Writes an operation as one line of text, without a line end.
///
/// The key must be a valid key, so that the line can be read back.
pub fn encode_operation(op: &Operations) -> (r: Result<String, Error>)
    ensures
        match encode_change(op@) {
            Ok(line) => r matches Ok(text) && text@ == line,
            Err(fault) => r matches Err(e) && e@ == fault,
        },
{
    let mut members: Vec<(String, Value)> = Vec::new();
    match op {
        Operations::Insert { key, record } => {
            check_key(key.as_str())?;
            members.push(("key".to_owned(), string_value(key.as_str())));
            members.push(("op".to_owned(), string_value("insert")));
            members.push(("record".to_owned(), clone_value(record.value())));
        },
        Operations::Update { key, record } => {
            check_key(key.as_str())?;
            members.push(("key".to_owned(), string_value(key.as_str())));
            members.push(("op".to_owned(), string_value("update")));
            members.push(("record".to_owned(), clone_value(record.value())));
        },
        Operations::Delete { key } => {
            check_key(key.as_str())?;
            members.push(("key".to_owned(), string_value(key.as_str())));
            members.push(("op".to_owned(), string_value("delete")));
        },
        Operations::Upsert { key, record } => {
            check_key(key.as_str())?;
            members.push(("key".to_owned(), string_value(key.as_str())));
            members.push(("record".to_owned(), clone_value(record.value())));
        },
    }
    assert(member_views(members@) =~= match op@ {
        Change::Insert { key, value } => seq![
            ("key"@, json_of_string(key)),
            ("op"@, json_of_string("insert"@)),
            ("record"@, value),
        ],
        Change::Update { key, value } => seq![
            ("key"@, json_of_string(key)),
            ("op"@, json_of_string("update"@)),
            ("record"@, value),
        ],
        Change::Delete { key } => seq![("key"@, json_of_string(key)), ("op"@, json_of_string("delete"@))],
        Change::Upsert { key, value } => seq![("key"@, json_of_string(key)), ("record"@, value)],
    });
    match value_text(&object_value(members)) {
        Ok(text) => Ok(text),
        Err(message) => Err(Error::Json(message)),
    }
}

/// Builds the operation that a line's members stand for: the key, the
/// operation's name, and the record if the line has one.
pub fn operation_from_fields(key: String, name: &str, record: Option<Record>) -> (r: Result<
    Operations,
    Error,
>)
    ensures
        match decode_fields(
            key@,
            name@,
            match record {
                Some(rec) => Some(rec@),
                None => None,
            },
        ) {
            Ok(change) => r matches Ok(op) && op@ == change,
            Err(fault) => r matches Err(e) && e@ == fault,
        },
{
    check_key(key.as_str())?;
    let delete = compare_keys(name, "delete") == KeyOrder::Same;
    let insert = compare_keys(name, "insert") == KeyOrder::Same;
    let update = compare_keys(name, "update") == KeyOrder::Same;
    let upsert = compare_keys(name, "upsert") == KeyOrder::Same;
    if delete {
        match record {
            None => Ok(Operations::Delete { key }),
            Some(_) => Err(Error::InvalidFormat("delete carries a record".to_owned())),
        }
    } else if insert || update || upsert {
        match record {
            None => Err(Error::InvalidFormat("missing record".to_owned())),
            Some(record) => if insert {
                Ok(Operations::Insert { key, record })
            } else if update {
                Ok(Operations::Update { key, record })
            } else {
                Ok(Operations::Upsert { key, record })
            },
        }
    } else {
        Err(Error::InvalidFormat("unknown operation".to_owned()))
    }
}

/// Reads an operation out of a parsed line.
pub fn operation_from_value(value: &Value) -> (r: Result<Operations, Error>)
    ensures
        match decode_value(*value) {
            Ok(change) => r matches Ok(op) && op@ == change,
            Err(fault) => r matches Err(e) && e@ == fault,
        },
{
    let key = match field_of(value, "key") {
        None => { return Err(Error::InvalidFormat("missing key".to_owned())); },
        Some(k) => match string_of(&k) {
            None => { return Err(Error::InvalidFormat("key is not a string".to_owned())); },
            Some(key) => key,
        },
    };
    let record = match field_of(value, "record") {
        None => None,
        Some(v) => Some(Record::from_value(v)),
    };
    match field_of(value, "op") {
        None => operation_from_fields(key, "upsert", record),
        Some(n) => match string_of(&n) {
            None => Err(Error::InvalidFormat("operation name is not a string".to_owned())),
            Some(name) => operation_from_fields(key, name.as_str(), record),
        },
    }
}

/// Reads one line of text, given without its line end, as an operation.
pub fn decode_operation(line: &str) -> (r: Result<Operations, Error>)
    ensures
        match decode_line(line@) {
            Ok(change) => r matches Ok(op) && op@ == change,
            Err(fault) => r matches Err(e) && e@ == fault,
        },
{
    if line.is_empty() {
        return Err(Error::InvalidFormat("blank line".to_owned()));
    }
    match parse_value(line) {
        Err(message) => Err(Error::InvalidFormat(message)),
        Ok(value) => operation_from_value(&value),
    }
}

} // verus!
