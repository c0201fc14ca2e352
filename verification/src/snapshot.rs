//! Canonical write-back: a table as lines of text.
//!
//! A table is written one snapshot line per key, in ascending key order. The
//! lines depend on the table's contents alone, never on the order in which
//! the contents came about, so equal tables give identical text.

use vstd::prelude::*;
use serde_json::Value;
use crate::codec::{decode_line, encode_change, encode_operation};
use crate::error::{Error, ErrorView};
use crate::key::{keys_ascending, lemma_ordered_keys_exist, ordered_keys};
use crate::log::{lines_of, replay_lines};
use crate::ops::{Change, Operations};
use crate::table::Table;

verus! {

/// The snapshot line of one entry.
pub open spec fn encode_entry(key: Seq<char>, value: Value) -> Result<Seq<char>, ErrorView> {
    encode_change(Change::Upsert { key, value })
}

/// The lines of the entries under the given keys, in the order of the keys,
/// or the error of the first entry that cannot be written.
pub open spec fn encode_entries(keys: Seq<Seq<char>>, table: Map<Seq<char>, Value>) -> Result<
    Seq<Seq<char>>,
    ErrorView,
>
    decreases keys.len(),
{
    if keys.len() == 0 {
        Ok(Seq::empty())
    } else {
        match encode_entries(keys.drop_last(), table) {
            Err(fault) => Err(fault),
            Ok(lines) => match encode_entry(keys.last(), table[keys.last()]) {
                Err(fault) => Err(fault),
                Ok(line) => Ok(lines.push(line)),
            },
        }
    }
}

/// The lines a table is written as: one per key, in ascending key order.
pub open spec fn encode_table(table: Map<Seq<char>, Value>) -> Result<Seq<Seq<char>>, ErrorView> {
    encode_entries(ordered_keys(table.dom()), table)
}

/// Whether an entry survives the line codec: its line, where it has one,
/// decodes to an upsert of the same record under the same key.
pub open spec fn entry_round_trips(key: Seq<char>, value: Value) -> bool {
    encode_entry(key, value) matches Ok(line) ==> decode_line(line) == Ok::<Change, ErrorView>(
        Change::Upsert { key, value },
    )
}

proof fn lemma_encode_entries_refused(keys: Seq<Seq<char>>, table: Map<Seq<char>, Value>, n: int)
    requires
        0 <= n <= keys.len(),
        encode_entries(keys.take(n), table) is Err,
    ensures
        encode_entries(keys, table) == encode_entries(keys.take(n), table),
    decreases keys.len() - n,
{
    if n < keys.len() {
        assert(keys.take(n + 1).drop_last() =~= keys.take(n));
        lemma_encode_entries_refused(keys, table, n + 1);
    } else {
        assert(keys.take(n) =~= keys);
    }
}

proof fn lemma_encode_entries_step(keys: Seq<Seq<char>>, table: Map<Seq<char>, Value>, n: int)
    requires
        0 <= n < keys.len(),
        encode_entries(keys.take(n), table) is Ok,
    ensures
        encode_entries(keys.take(n + 1), table) == match encode_entry(keys[n], table[keys[n]]) {
            Err(fault) => Err::<Seq<Seq<char>>, ErrorView>(fault),
            Ok(line) => Ok(encode_entries(keys.take(n), table)->Ok_0.push(line)),
        },
{
    assert(keys.take(n + 1).drop_last() =~= keys.take(n));
    assert(keys.take(n + 1).last() == keys[n]);
}

/// Writes a table as lines of text, without line ends: one line per key, in
/// ascending key order. A key that is not a valid key, or a record that the
/// JSON codec cannot print, aborts the writing with its error.
pub fn encode(table: &Table) -> (r: Result<Vec<String>, Error>)
    ensures
        match encode_table(table@) {
            Ok(lines) => r matches Ok(text) && lines_of(text@) == lines,
            Err(fault) => r matches Err(e) && e@ == fault,
        },
{
    let entries = table.iter();
    let ghost keys = ordered_keys(table@.dom());
    proof {
        lemma_ordered_keys_exist(table@.dom());
        assert(keys.take(0) =~= Seq::<Seq<char>>::empty());
    }
    let mut lines: Vec<String> = Vec::new();
    let mut i: usize = 0;
    proof {
        assert(lines_of(lines@) =~= Seq::<Seq<char>>::empty());
    }
    while i < entries.len()
        invariant
            keys == ordered_keys(table@.dom()),
            i <= entries@.len(),
            entries@.len() == keys.len(),
            forall|j: int|
                0 <= j < entries@.len() ==> (#[trigger] entries@[j]).0@ == keys[j] && entries@[j].1@
                    == table@[entries@[j].0@],
            encode_entries(keys.take(i as int), table@) == Ok::<Seq<Seq<char>>, ErrorView>(
                lines_of(lines@),
            ),
        decreases entries@.len() - i,
    {
        let op = Operations::Upsert { key: entries[i].0.clone(), record: entries[i].1.clone() };
        proof {
            assert(keys.take(i + 1).drop_last() =~= keys.take(i as int));
            assert(keys.take(i + 1).last() == keys[i as int]);
            assert(op@ == Change::Upsert { key: keys[i as int], value: table@[keys[i as int]] });
            lemma_encode_entries_step(keys, table@, i as int);
        }
        match encode_operation(&op) {
            Err(e) => {
                proof {
                    lemma_encode_entries_refused(keys, table@, i + 1);
                }
                return Err(e);
            },
            Ok(line) => {
                let ghost before = lines_of(lines@);
                lines.push(line);
                proof {
                    assert(lines_of(lines@) =~= before.push(line@));
                }
            },
        }
        i += 1;
    }
    proof {
        assert(keys.take(keys.len() as int) =~= keys);
    }
    Ok(lines)
}

proof fn lemma_round_trip_entries(keys: Seq<Seq<char>>, table: Map<Seq<char>, Value>)
    requires
        keys.no_duplicates(),
        forall|i: int| 0 <= i < keys.len() ==> table.contains_key(#[trigger] keys[i]),
        forall|key: Seq<char>| table.contains_key(key) ==> #[trigger] entry_round_trips(key, table[key]),
        encode_entries(keys, table) is Ok,
    ensures
        replay_lines(encode_entries(keys, table)->Ok_0) == Ok::<Map<Seq<char>, Value>, ErrorView>(
            table.restrict(keys.to_set()),
        ),
    decreases keys.len(),
{
    if keys.len() == 0 {
        assert(table.restrict(keys.to_set()) =~= Map::<Seq<char>, Value>::empty());
    } else {
        let front = keys.drop_last();
        let key = keys.last();
        lemma_round_trip_entries(front, table);
        let lines = encode_entries(front, table)->Ok_0;
        let line = encode_entry(key, table[key])->Ok_0;
        assert(table.contains_key(key));
        assert(entry_round_trips(key, table[key]));
        assert(lines.push(line).drop_last() =~= lines);
        assert(table.restrict(front.to_set()).insert(key, table[key]) =~= table.restrict(
            keys.to_set(),
        )) by {
            assert forall|k: Seq<char>| keys.to_set().contains(k) <==> (k == key
                || front.to_set().contains(k)) by {
                if keys.to_set().contains(k) {
                    let i = choose|i: int| 0 <= i < keys.len() && keys[i] == k;
                    if i < keys.len() - 1 {
                        assert(front[i] == k);
                    }
                }
                if front.to_set().contains(k) {
                    let i = choose|i: int| 0 <= i < front.len() && front[i] == k;
                    assert(keys[i] == k);
                }
            }
        }
    }
}

/// Writing a table and replaying the lines gives the table back: the same
/// keys, with the same record under each. This holds of every table that can
/// be written and whose entries each survive the line codec.
pub proof fn lemma_round_trip(table: Map<Seq<char>, Value>)
    requires
        table.dom().finite(),
        encode_table(table) is Ok,
        forall|key: Seq<char>| table.contains_key(key) ==> #[trigger] entry_round_trips(key, table[key]),
    ensures
        replay_lines(encode_table(table)->Ok_0) == Ok::<Map<Seq<char>, Value>, ErrorView>(table),
{
    let keys = ordered_keys(table.dom());
    lemma_ordered_keys_exist(table.dom());
    assert forall|i: int| 0 <= i < keys.len() implies table.contains_key(#[trigger] keys[i]) by {
        assert(keys.to_set().contains(keys[i]));
    }
    lemma_round_trip_entries(keys, table);
    assert(table.restrict(keys.to_set()) =~= table);
}

/// Tables with the same keys and the same record under each key are written
/// as the same lines, however each came about.
pub proof fn lemma_equal_tables_encode_equally(
    first: Map<Seq<char>, Value>,
    second: Map<Seq<char>, Value>,
)
    requires
        first.dom() == second.dom(),
        forall|key: Seq<char>| first.contains_key(key) ==> first[key] == second[key],
    ensures
        encode_table(first) == encode_table(second),
{
    assert(first =~= second);
}

/// The lines of a table stand in ascending key order: the line at each index
/// is the snapshot line of the key at that index in the order of the keys.
pub proof fn lemma_encode_in_key_order(table: Map<Seq<char>, Value>, i: int)
    requires
        table.dom().finite(),
        encode_table(table) is Ok,
        0 <= i < table.len(),
    ensures
        keys_ascending(ordered_keys(table.dom())),
        encode_table(table)->Ok_0.len() == table.len(),
        encode_entry(ordered_keys(table.dom())[i], table[ordered_keys(table.dom())[i]]) == Ok::<
            Seq<char>,
            ErrorView,
        >(encode_table(table)->Ok_0[i]),
{
    lemma_ordered_keys_exist(table.dom());
    lemma_encode_entries_index(ordered_keys(table.dom()), table, i);
}

proof fn lemma_encode_entries_len(keys: Seq<Seq<char>>, table: Map<Seq<char>, Value>)
    requires
        encode_entries(keys, table) is Ok,
    ensures
        encode_entries(keys, table)->Ok_0.len() == keys.len(),
    decreases keys.len(),
{
    if keys.len() > 0 {
        lemma_encode_entries_len(keys.drop_last(), table);
    }
}

proof fn lemma_encode_entries_index(keys: Seq<Seq<char>>, table: Map<Seq<char>, Value>, i: int)
    requires
        encode_entries(keys, table) is Ok,
        0 <= i < keys.len(),
    ensures
        encode_entries(keys, table)->Ok_0.len() == keys.len(),
        encode_entry(keys[i], table[keys[i]]) == Ok::<Seq<char>, ErrorView>(
            encode_entries(keys, table)->Ok_0[i],
        ),
    decreases keys.len(),
{
    lemma_encode_entries_len(keys, table);
    lemma_encode_entries_len(keys.drop_last(), table);
    if i < keys.len() - 1 {
        lemma_encode_entries_index(keys.drop_last(), table, i);
    }
}

} // verus!
