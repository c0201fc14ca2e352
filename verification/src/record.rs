//! A record: one unit of structured data, stored under a key.

use vstd::prelude::*;
use vstd::std_specs::convert::FromSpecImpl;
use serde_json::Value;
use crate::json::{clone_value, json_parse, null_text, null_value};

verus! {

/// A single record: an owned JSON value with no identity of its own.
///
/// A record is never patched in place by the table; it is replaced whole.
/// Nothing is validated when a record is made.
#[derive(Debug)]
pub struct Record {
    data: Value,
}

impl View for Record {
    type V = Value;

    closed spec fn view(&self) -> Value {
        self.data
    }
}

impl Record {
    /// The record that holds the given value.
    pub closed spec fn holding(value: Value) -> Record {
        Record { data: value }
    }

    /// Creates an empty record, which holds JSON null.
    #[must_use]
    pub fn new() -> (r: Self)
        ensures
            json_parse(null_text()) == Ok::<Value, Seq<char>>(r@),
    {
        Record { data: null_value() }
    }

    /// Wraps a JSON value; the value moves into the record.
    #[must_use]
    pub fn from_value(value: Value) -> (r: Self)
        ensures
            r@ == value,
    {
        Record { data: value }
    }

    /// The value the record holds.
    #[must_use]
    pub fn value(&self) -> (r: &Value)
        ensures
            *r == self@,
    {
        &self.data
    }

    /// The value the record holds, for replacing or editing it.
    pub fn value_mut(&mut self) -> (r: &mut Value)
        ensures
            *r == old(self)@,
            final(self)@ == *final(r),
    {
        &mut self.data
    }
}

impl Clone for Record {
    fn clone(&self) -> (r: Self)
        ensures
            r@ == self@,
    {
        Record { data: clone_value(&self.data) }
    }
}

impl From<Value> for Record {
    fn from(value: Value) -> (r: Self)
        ensures
            r@ == value,
    {
        Record::from_value(value)
    }
}

impl FromSpecImpl<Value> for Record {
    open spec fn obeys_from_spec() -> bool {
        true
    }

    open spec fn from_spec(value: Value) -> Self {
        Record::holding(value)
    }
}

impl Default for Record {
    fn default() -> (r: Self)
        ensures
            json_parse(null_text()) == Ok::<Value, Seq<char>>(r@),
    {
        Record::new()
    }
}

} // verus!
