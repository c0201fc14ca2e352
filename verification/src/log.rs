//! Log replay: folding an ordered sequence of operations into a table.
//!
//! Replay starts from an empty table and applies the operations strictly in
//! the order given. The policy on failure is to abort: the first operation
//! that is refused, or the first line that cannot be decoded, ends the replay
//! with its error, and no table is handed out. A partly built table is never
//! returned as if it were the whole.

use vstd::prelude::*;
use serde_json::Value;
use crate::codec::{decode_line, decode_operation};
use crate::error::{Error, ErrorView};
use crate::ops::{Change, Operations};
use crate::table::Table;

verus! {

/// The operations in a vector, as contracts see them.
pub open spec fn changes_of(ops: Seq<Operations>) -> Seq<Change> {
    Seq::new(ops.len(), |i: int| ops[i]@)
}

/// The lines in a vector of strings, as contracts see them.
pub open spec fn lines_of(lines: Seq<String>) -> Seq<Seq<char>> {
    Seq::new(lines.len(), |i: int| lines[i]@)
}

/// What one line does to a table's contents: the line is decoded and the
/// change applied.
pub open spec fn line_applied(line: Seq<char>, table: Map<Seq<char>, Value>) -> Result<
    Map<Seq<char>, Value>,
    ErrorView,
> {
    match decode_line(line) {
        Err(fault) => Err(fault),
        Ok(change) => change.apply(table),
    }
}

/// The contents that replaying the changes from an empty table gives, or
/// the error of the first change that is refused.
pub open spec fn replay_changes(changes: Seq<Change>) -> Result<Map<Seq<char>, Value>, ErrorView>
    decreases changes.len(),
{
    if changes.len() == 0 {
        Ok(Map::empty())
    } else {
        match replay_changes(changes.drop_last()) {
            Err(fault) => Err(fault),
            Ok(table) => changes.last().apply(table),
        }
    }
}

/// The contents that replaying the lines from an empty table gives, or the
/// error of the first line that is refused.
pub open spec fn replay_lines(lines: Seq<Seq<char>>) -> Result<Map<Seq<char>, Value>, ErrorView>
    decreases lines.len(),
{
    if lines.len() == 0 {
        Ok(Map::empty())
    } else {
        match replay_lines(lines.drop_last()) {
            Err(fault) => Err(fault),
            Ok(table) => line_applied(lines.last(), table),
        }
    }
}

/// The keys that are live after the changes: every key a change stored,
/// less those a later change deleted.
pub open spec fn live_keys(changes: Seq<Change>) -> Set<Seq<char>>
    decreases changes.len(),
{
    if changes.len() == 0 {
        Set::empty()
    } else {
        changes.last().keys_after(live_keys(changes.drop_last()))
    }
}

proof fn lemma_replay_changes_refused(changes: Seq<Change>, n: int)
    requires
        0 <= n <= changes.len(),
        replay_changes(changes.take(n)) is Err,
    ensures
        replay_changes(changes) == replay_changes(changes.take(n)),
    decreases changes.len() - n,
{
    if n < changes.len() {
        assert(changes.take(n + 1).drop_last() =~= changes.take(n));
        lemma_replay_changes_refused(changes, n + 1);
    } else {
        assert(changes.take(n) =~= changes);
    }
}

proof fn lemma_replay_lines_refused(lines: Seq<Seq<char>>, n: int)
    requires
        0 <= n <= lines.len(),
        replay_lines(lines.take(n)) is Err,
    ensures
        replay_lines(lines) == replay_lines(lines.take(n)),
    decreases lines.len() - n,
{
    if n < lines.len() {
        assert(lines.take(n + 1).drop_last() =~= lines.take(n));
        lemma_replay_lines_refused(lines, n + 1);
    } else {
        assert(lines.take(n) =~= lines);
    }
}

/// Replays operations, in order, into a fresh table. The first operation
/// that is refused aborts the replay with its error.
pub fn replay(ops: Vec<Operations>) -> (r: Result<Table, Error>)
    ensures
        match replay_changes(changes_of(ops@)) {
            Ok(contents) => r matches Ok(table) && table@ == contents,
            Err(fault) => r matches Err(e) && e@ == fault,
        },
{
    let ghost all = changes_of(ops@);
    let mut table = Table::new();
    proof {
        assert(all.take(0) =~= Seq::<Change>::empty());
    }
    for op in it: ops
        invariant
            all == changes_of(it.seq()),
            replay_changes(all.take(it.index() as int)) == Ok::<Map<Seq<char>, Value>, ErrorView>(
                table@,
            ),
    {
        proof {
            assert(all.take(it.index() + 1).drop_last() =~= all.take(it.index() as int));
            assert(all.take(it.index() + 1).last() == op@);
        }
        match op.apply(&mut table) {
            Ok(()) => {},
            Err(e) => {
                proof {
                    lemma_replay_changes_refused(all, it.index() + 1);
                }
                return Err(e);
            },
        }
    }
    proof {
        assert(all.take(all.len() as int) =~= all);
    }
    Ok(table)
}

/// Decodes one line and applies it to the table, all or nothing: on any
/// error the table is as it was.
pub fn apply_line(table: &mut Table, line: &str) -> (r: Result<(), Error>)
    ensures
        match line_applied(line@, old(table)@) {
            Ok(after) => r is Ok && final(table)@ == after,
            Err(fault) => r matches Err(e) && e@ == fault && final(table)@ == old(table)@,
        },
{
    match decode_operation(line) {
        Err(e) => Err(e),
        Ok(op) => op.apply(table),
    }
}

/// Replays lines, in order, into a fresh table. The first line that cannot
/// be decoded or whose operation is refused aborts the replay with its error.
pub fn decode(lines: &Vec<String>) -> (r: Result<Table, Error>)
    ensures
        match replay_lines(lines_of(lines@)) {
            Ok(contents) => r matches Ok(table) && table@ == contents,
            Err(fault) => r matches Err(e) && e@ == fault,
        },
{
    let ghost all = lines_of(lines@);
    let mut table = Table::new();
    let mut i: usize = 0;
    proof {
        assert(all.take(0) =~= Seq::<Seq<char>>::empty());
    }
    while i < lines.len()
        invariant
            all == lines_of(lines@),
            i <= lines@.len(),
            replay_lines(all.take(i as int)) == Ok::<Map<Seq<char>, Value>, ErrorView>(table@),
        decreases lines@.len() - i,
    {
        proof {
            assert(all.take(i + 1).drop_last() =~= all.take(i as int));
            assert(all.take(i + 1).last() == lines@[i as int]@);
        }
        match apply_line(&mut table, lines[i].as_str()) {
            Ok(()) => {},
            Err(e) => {
                proof {
                    lemma_replay_lines_refused(all, i + 1);
                }
                return Err(e);
            },
        }
        i += 1;
    }
    proof {
        assert(all.take(all.len() as int) =~= all);
    }
    Ok(table)
}

/// After a replay that succeeds, the table holds exactly the live keys: it
/// has as many records as keys were stored and not deleted since, one record
/// for each.
pub proof fn lemma_replay_counts_keys(changes: Seq<Change>)
    requires
        replay_changes(changes) is Ok,
    ensures
        replay_changes(changes)->Ok_0.dom().finite(),
        replay_changes(changes)->Ok_0.dom() == live_keys(changes),
        replay_changes(changes)->Ok_0.len() == live_keys(changes).len(),
    decreases changes.len(),
{
    if changes.len() == 0 {
        assert(Map::<Seq<char>, Value>::empty().dom() =~= Set::<Seq<char>>::empty());
    } else {
        lemma_replay_counts_keys(changes.drop_last());
        crate::ops::lemma_apply_counts_keys(
            changes.last(),
            replay_changes(changes.drop_last())->Ok_0,
        );
    }
}

/// Replay is a function of the lines alone: the same lines replayed twice
/// give the same outcome, and where that is a table, the same keys with the
/// same record under each.
pub proof fn lemma_replay_deterministic(first: Seq<Seq<char>>, second: Seq<Seq<char>>)
    requires
        first == second,
    ensures
        replay_lines(first) == replay_lines(second),
        replay_lines(first) matches Ok(a) ==> replay_lines(second) matches Ok(b) && a.dom()
            == b.dom() && forall|key: Seq<char>| a.contains_key(key) ==> a[key] == b[key],
{
}

} // verus!
