//! The table as a scripting host sees it: records go in and out as JSON
//! text, and failures come back as plain messages.

use vstd::prelude::*;
use serde_json::Value;
use crate::json::{
    array_value, json_array, json_of_string, json_parse, json_text, parse_value, string_value,
    value_text,
};
use crate::key::ordered_keys;
use crate::record::Record;
use crate::table::{keys_of, Table};

verus! {

/// A table whose records are handed over as JSON text.
#[derive(Debug)]
pub struct JsTable {
    inner: Table,
}

impl View for JsTable {
    type V = Map<Seq<char>, Value>;

    closed spec fn view(&self) -> Map<Seq<char>, Value> {
        self.inner@
    }
}

/// The text a record is handed out as: what the JSON codec prints for it,
/// or the empty text where it prints none.
pub open spec fn record_text(value: Value) -> Seq<char> {
    match json_text(value) {
        Ok(text) => text,
        Err(_) => Seq::empty(),
    }
}

/// The text a list of keys is handed out as: the JSON array of the keys as
/// strings, or an empty array where the JSON codec prints none.
pub open spec fn keys_text(keys: Seq<Seq<char>>) -> Seq<char> {
    match json_text(json_array(keys.map_values(|key: Seq<char>| json_of_string(key)))) {
        Ok(text) => text,
        Err(_) => "[]"@,
    }
}

impl JsTable {
    /// Creates an empty table.
    #[must_use]
    pub fn new() -> (r: Self)
        ensures
            r@ == Map::<Seq<char>, Value>::empty(),
    {
        JsTable { inner: Table::new() }
    }

    /// The number of records in the table.
    #[must_use]
    pub fn length(&self) -> (r: usize)
        ensures
            r == self@.len(),
    {
        self.inner.len()
    }

    /// Whether the table holds no record.
    #[must_use]
    pub fn is_empty(&self) -> (r: bool)
        ensures
            r == (self@.len() == 0),
    {
        self.inner.is_empty()
    }

    /// Whether a record is stored under the key.
    #[must_use]
    pub fn has_key(&self, key: &str) -> (r: bool)
        ensures
            r == self@.contains_key(key@),
    {
        self.inner.contains_key(key)
    }

    /// The record under a key as JSON text, or `None` where the key is
    /// absent.
    #[must_use]
    pub fn get(&self, key: &str) -> (r: Option<String>)
        ensures
            match r {
                Some(text) => self@.contains_key(key@) && text@ == record_text(self@[key@]),
                None => !self@.contains_key(key@),
            },
    {
        match self.inner.get(key) {
            None => None,
            Some(record) => match value_text(record.value()) {
                Ok(text) => Some(text),
                Err(_) => Some(String::new()),
            },
        }
    }

    /// Stores under a key the record that a JSON text denotes. Text that is
    /// not JSON is refused with the codec's message, and the table is as it
    /// was.
    pub fn insert(&mut self, key: &str, json: &str) -> (r: Result<(), String>)
        ensures
            match json_parse(json@) {
                Ok(value) => r is Ok && final(self)@ == old(self)@.insert(key@, value),
                Err(message) => r matches Err(text) && text@ == message && final(self)@ == old(
                    self,
                )@,
            },
    {
        match parse_value(json) {
            Err(message) => Err(message),
            Ok(value) => {
                self.inner.insert(key.to_owned(), Record::from_value(value));
                Ok(())
            },
        }
    }

    /// Removes the record under a key; tells whether there was one.
    pub fn remove(&mut self, key: &str) -> (r: bool)
        ensures
            r == old(self)@.contains_key(key@),
            final(self)@ == old(self)@.remove(key@),
    {
        self.inner.remove(key).is_some()
    }

    /// All keys, in ascending key order, as the text of a JSON array.
    #[must_use]
    pub fn keys(&self) -> (r: String)
        ensures
            r@ == keys_text(ordered_keys(self@.dom())),
    {
        let keys = self.inner.keys();
        let mut items: Vec<Value> = Vec::new();
        let mut i: usize = 0;
        while i < keys.len()
            invariant
                i <= keys@.len(),
                items@.len() == i,
                forall|j: int| 0 <= j < i ==> #[trigger] items@[j] == json_of_string(keys@[j]@),
            decreases keys@.len() - i,
        {
            items.push(string_value(keys[i].as_str()));
            i += 1;
        }
        proof {
            assert(items@ =~= keys_of(keys@).map_values(|key: Seq<char>| json_of_string(key)));
        }
        match value_text(&array_value(items)) {
            Ok(text) => text,
            Err(_) => "[]".to_owned(),
        }
    }
}

impl Default for JsTable {
    fn default() -> (r: Self)
        ensures
            r@ == Map::<Seq<char>, Value>::empty(),
    {
        JsTable::new()
    }
}

} // verus!
