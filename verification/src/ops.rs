//! The operations that change a table, and the rules by which they apply.

use vstd::prelude::*;
use serde_json::Value;
use crate::error::{Error, ErrorView};
use crate::record::Record;
use crate::table::Table;

verus! {

/// An intended change to a table.
///
/// `Insert`, `Update` and `Delete` state what the caller believes of the
/// table: that the key is absent, or present. `Upsert` stores a record
/// whatever the table holds. An operation names its entry by key only, so it
/// can be built before any table exists and applied to any table.
#[derive(Debug)]
pub enum Operations {
    /// Store a record under a key that is absent.
    Insert {
        /// The key of the new record.
        key: String,
        /// The record to store.
        record: Record,
    },
    /// Replace the record under a key that is present.
    Update {
        /// The key of the record to replace.
        key: String,
        /// The record to store in its place.
        record: Record,
    },
    /// Remove the record under a key that is present.
    Delete {
        /// The key of the record to remove.
        key: String,
    },
    /// Store a record under a key, present or not.
    Upsert {
        /// The key of the record.
        key: String,
        /// The record to store.
        record: Record,
    },
}

/// An operation as contracts see it: keys as character sequences, records as
/// the values they hold.
pub enum Change {
    Insert { key: Seq<char>, value: Value },
    Update { key: Seq<char>, value: Value },
    Delete { key: Seq<char> },
    Upsert { key: Seq<char>, value: Value },
}

impl View for Operations {
    type V = Change;

    open spec fn view(&self) -> Change {
        match self {
            Operations::Insert { key, record } => Change::Insert { key: key@, value: record@ },
            Operations::Update { key, record } => Change::Update { key: key@, value: record@ },
            Operations::Delete { key } => Change::Delete { key: key@ },
            Operations::Upsert { key, record } => Change::Upsert { key: key@, value: record@ },
        }
    }
}

impl Change {
    /// The key the change is about.
    pub open spec fn key(self) -> Seq<char> {
        match self {
            Change::Insert { key, .. } => key,
            Change::Update { key, .. } => key,
            Change::Delete { key } => key,
            Change::Upsert { key, .. } => key,
        }
    }

    /// What applying the change to a table's contents gives: the new
    /// contents, or the rule that the change broke.
    pub open spec fn apply(self, table: Map<Seq<char>, Value>) -> Result<
        Map<Seq<char>, Value>,
        ErrorView,
    > {
        match self {
            Change::Insert { key, value } => if table.contains_key(key) {
                Err(ErrorView::AlreadyExists(key))
            } else {
                Ok(table.insert(key, value))
            },
            Change::Update { key, value } => if table.contains_key(key) {
                Ok(table.insert(key, value))
            } else {
                Err(ErrorView::NotFound(key))
            },
            Change::Delete { key } => if table.contains_key(key) {
                Ok(table.remove(key))
            } else {
                Err(ErrorView::NotFound(key))
            },
            Change::Upsert { key, value } => Ok(table.insert(key, value)),
        }
    }

    /// The keys a table holds after the change, given those it held before.
    pub open spec fn keys_after(self, keys: Set<Seq<char>>) -> Set<Seq<char>> {
        match self {
            Change::Delete { key } => keys.remove(key),
            _ => keys.insert(self.key()),
        }
    }
}

impl Operations {
    /// Applies the operation to a table, all or nothing: either the change
    /// is made and `Ok` returned, or the rule it broke is returned and the
    /// table is as it was.
    pub fn apply(self, table: &mut Table) -> (r: Result<(), Error>)
        ensures
            match self@.apply(old(table)@) {
                Ok(after) => r is Ok && final(table)@ == after,
                Err(rule) => r matches Err(e) && e@ == rule && final(table)@ == old(table)@,
            },
    {
        match self {
            Operations::Insert { key, record } => {
                if table.contains_key(key.as_str()) {
                    return Err(Error::AlreadyExists(key));
                }
                table.insert(key, record);
            },
            Operations::Update { key, record } => {
                if !table.contains_key(key.as_str()) {
                    return Err(Error::NotFound(key));
                }
                table.insert(key, record);
            },
            Operations::Delete { key } => {
                if table.remove(key.as_str()).is_none() {
                    proof {
                        assert(old(table)@.remove(key@) =~= old(table)@);
                    }
                    return Err(Error::NotFound(key));
                }
            },
            Operations::Upsert { key, record } => {
                table.insert(key, record);
            },
        }
        Ok(())
    }
}

impl Clone for Operations {
    fn clone(&self) -> (r: Self)
        ensures
            r@ == self@,
    {
        match self {
            Operations::Insert { key, record } => Operations::Insert {
                key: key.clone(),
                record: record.clone(),
            },
            Operations::Update { key, record } => Operations::Update {
                key: key.clone(),
                record: record.clone(),
            },
            Operations::Delete { key } => Operations::Delete { key: key.clone() },
            Operations::Upsert { key, record } => Operations::Upsert {
                key: key.clone(),
                record: record.clone(),
            },
        }
    }
}

/// A successful change keeps the keys unique and counts them: the table
/// then holds the keys it held, with the change's key added or, for a
/// delete, taken away, and as many records as keys.
pub proof fn lemma_apply_counts_keys(change: Change, table: Map<Seq<char>, Value>)
    requires
        table.dom().finite(),
        change.apply(table) is Ok,
    ensures
        ({
            let after = change.apply(table)->Ok_0;
            &&& after.dom().finite()
            &&& after.dom() == change.keys_after(table.dom())
            &&& after.len() as int == match change {
                Change::Insert { .. } => table.len() as int + 1,
                Change::Update { .. } => table.len() as int,
                Change::Delete { .. } => table.len() as int - 1,
                Change::Upsert { key, .. } => if table.contains_key(key) {
                    table.len() as int
                } else {
                    table.len() as int + 1
                },
            }
        }),
{
    let after = change.apply(table)->Ok_0;
    assert(after.dom() =~= change.keys_after(table.dom()));
}

/// A change that is accepted touches its own key only: every other key is
/// present or absent as before, with the record it had.
pub proof fn lemma_apply_touches_one_key(change: Change, table: Map<Seq<char>, Value>, other: Seq<char>)
    requires
        change.apply(table) is Ok,
        other != change.key(),
    ensures
        change.apply(table)->Ok_0.contains_key(other) == table.contains_key(other),
        table.contains_key(other) ==> change.apply(table)->Ok_0[other] == table[other],
{
}

/// Upserting twice in a row gives the same table as upserting once.
pub proof fn lemma_upsert_idempotent(key: Seq<char>, value: Value, table: Map<Seq<char>, Value>)
    ensures
        ({
            let upsert = Change::Upsert { key, value };
            let once = upsert.apply(table);
            &&& once is Ok
            &&& upsert.apply(once->Ok_0) == once
        }),
{
    let once = table.insert(key, value);
    assert(once.insert(key, value) =~= once);
}

} // verus!
