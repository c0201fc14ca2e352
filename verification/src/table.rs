//! The table: the in-memory state of the store.

use vstd::prelude::*;
use serde_json::Value;
use crate::key::{
    compare_keys, key_before, keys_ascending, lemma_key_order_asymmetric,
    lemma_key_order_transitive, lemma_ordered_keys_unique, ordered_keys, KeyOrder,
};
use crate::record::Record;

verus! {

/// One key with the record stored under it.
#[derive(Debug)]
struct Entry {
    key: String,
    record: Record,
}

/// A keyed table of records: at most one record per key.
///
/// The table is plain storage. It checks nothing about the keys or records
/// it is given; the rules for when a change is allowed belong to
/// [`crate::Operations`]. Entries are kept in ascending key order, so a
/// table's contents alone decide the order in which it is walked and written.
#[derive(Debug)]
pub struct Table {
    entries: Vec<Entry>,
}

/// Whether the entries' keys are strictly ascending.
spec fn ascending(es: Seq<Entry>) -> bool {
    forall|i: int, j: int| 0 <= i < j < es.len() ==> key_before(#[trigger] es[i].key@, #[trigger] es[j].key@)
}

/// The keys of the entries, in the order of the entries.
spec fn entry_keys(es: Seq<Entry>) -> Seq<Seq<char>> {
    Seq::new(es.len(), |i: int| es[i].key@)
}

/// Whether some entry has the key.
spec fn has_key(es: Seq<Entry>, key: Seq<char>) -> bool {
    exists|i: int| 0 <= i < es.len() && #[trigger] es[i].key@ == key
}

/// The index of an entry with the key.
spec fn index_of(es: Seq<Entry>, key: Seq<char>) -> int {
    choose|i: int| 0 <= i < es.len() && #[trigger] es[i].key@ == key
}

/// The mapping that the entries stand for.
spec fn entries_map(es: Seq<Entry>) -> Map<Seq<char>, Value> {
    Map::new(|key: Seq<char>| has_key(es, key), |key: Seq<char>| es[index_of(es, key)].record@)
}

proof fn lemma_ascending_distinct(es: Seq<Entry>, i: int, j: int)
    requires
        ascending(es),
        0 <= i < es.len(),
        0 <= j < es.len(),
        es[i].key@ == es[j].key@,
    ensures
        i == j,
{
    lemma_key_order_asymmetric(es[i].key@, es[j].key@);
    if i < j {
        assert(key_before(es[i].key@, es[j].key@));
    } else if j < i {
        assert(key_before(es[j].key@, es[i].key@));
    }
}

proof fn lemma_entries_map(es: Seq<Entry>)
    requires
        ascending(es),
    ensures
        forall|i: int|
            0 <= i < es.len() ==> entries_map(es).contains_key(#[trigger] es[i].key@)
                && entries_map(es)[es[i].key@] == es[i].record@,
        forall|key: Seq<char>| #[trigger]
            entries_map(es).contains_key(key) ==> 0 <= index_of(es, key) < es.len() && es[index_of(
                es,
                key,
            )].key@ == key,
{
    assert forall|i: int| 0 <= i < es.len() implies entries_map(es).contains_key(
        #[trigger] es[i].key@,
    ) && entries_map(es)[es[i].key@] == es[i].record@ by {
        let key = es[i].key@;
        assert(has_key(es, key));
        lemma_ascending_distinct(es, i, index_of(es, key));
    }
}

proof fn lemma_entry_keys(es: Seq<Entry>)
    requires
        ascending(es),
    ensures
        keys_ascending(entry_keys(es)),
        entry_keys(es).to_set() == entries_map(es).dom(),
        ordered_keys(entries_map(es).dom()) == entry_keys(es),
        entries_map(es).dom().finite(),
        entries_map(es).dom().len() == es.len(),
{
    let ks = entry_keys(es);
    assert(keys_ascending(ks)) by {
        assert forall|i: int, j: int| 0 <= i < j < ks.len() implies key_before(
            #[trigger] ks[i],
            #[trigger] ks[j],
        ) by {
            assert(key_before(es[i].key@, es[j].key@));
        }
    }
    assert(ks.to_set() =~= entries_map(es).dom()) by {
        assert forall|k: Seq<char>| ks.to_set().contains(k) implies entries_map(es).dom().contains(
            k,
        ) by {
            let i = choose|i: int| 0 <= i < ks.len() && ks[i] == k;
            assert(es[i].key@ == k);
        }
        assert forall|k: Seq<char>| entries_map(es).dom().contains(k) implies ks.to_set().contains(
            k,
        ) by {
            let i = index_of(es, k);
            assert(ks[i] == k);
        }
    }
    lemma_ordered_keys_unique(ordered_keys(entries_map(es).dom()), ks);
    assert(ks.no_duplicates()) by {
        assert forall|i: int, j: int| 0 <= i < ks.len() && 0 <= j < ks.len() && i != j implies ks[i]
            != ks[j] by {
            if ks[i] == ks[j] {
                lemma_ascending_distinct(es, i, j);
            }
        }
    }
    ks.unique_seq_to_set();
    vstd::seq_lib::seq_to_set_is_finite(ks);
}

impl View for Table {
    type V = Map<Seq<char>, Value>;

    closed spec fn view(&self) -> Map<Seq<char>, Value> {
        entries_map(self.entries@)
    }
}

impl Table {
    #[verifier::type_invariant]
    spec fn well_formed(&self) -> bool {
        ascending(self.entries@)
    }

    /// Creates an empty table.
    #[must_use]
    pub fn new() -> (r: Self)
        ensures
            r@ == Map::<Seq<char>, Value>::empty(),
    {
        let r = Table { entries: Vec::new() };
        assert(r@ =~= Map::<Seq<char>, Value>::empty());
        r
    }

    /// Finds where a key stands: the index of its entry and `true`, or the
    /// index at which it would be inserted and `false`.
    fn search(&self, key: &str) -> (r: (usize, bool))
        ensures
            r.0 <= self.entries@.len(),
            forall|i: int| 0 <= i < r.0 ==> key_before(#[trigger] self.entries@[i].key@, key@),
            r.1 ==> r.0 < self.entries@.len() && self.entries@[r.0 as int].key@ == key@,
            !r.1 ==> forall|i: int|
                r.0 <= i < self.entries@.len() ==> key_before(key@, #[trigger] self.entries@[i].key@),
            r.1 == self@.contains_key(key@),
    {
        proof {
            use_type_invariant(self);
        }
        let mut lo: usize = 0;
        let mut hi: usize = self.entries.len();
        while lo < hi
            invariant
                ascending(self.entries@),
                lo <= hi <= self.entries@.len(),
                forall|i: int| 0 <= i < lo ==> key_before(#[trigger] self.entries@[i].key@, key@),
                forall|i: int|
                    hi <= i < self.entries@.len() ==> key_before(
                        key@,
                        #[trigger] self.entries@[i].key@,
                    ),
            decreases hi - lo,
        {
            let mid: usize = lo + (hi - lo) / 2;
            match compare_keys(self.entries[mid].key.as_str(), key) {
                KeyOrder::Same => {
                    assert(has_key(self.entries@, key@));
                    return (mid, true);
                },
                KeyOrder::Before => {
                    assert forall|i: int| 0 <= i < mid + 1 implies key_before(
                        #[trigger] self.entries@[i].key@,
                        key@,
                    ) by {
                        if i < mid {
                            assert(key_before(self.entries@[i].key@, self.entries@[mid as int].key@));
                            lemma_key_order_transitive(
                                self.entries@[i].key@,
                                self.entries@[mid as int].key@,
                                key@,
                            );
                        }
                    }
                    lo = mid + 1;
                },
                KeyOrder::After => {
                    assert forall|i: int| mid <= i < self.entries@.len() implies key_before(
                        key@,
                        #[trigger] self.entries@[i].key@,
                    ) by {
                        if mid < i {
                            assert(key_before(self.entries@[mid as int].key@, self.entries@[i].key@));
                            lemma_key_order_transitive(
                                key@,
                                self.entries@[mid as int].key@,
                                self.entries@[i].key@,
                            );
                        }
                    }
                    hi = mid;
                },
            }
        }
        proof {
            if has_key(self.entries@, key@) {
                let i = index_of(self.entries@, key@);
                lemma_key_order_asymmetric(key@, key@);
                if i < lo {
                    assert(key_before(self.entries@[i].key@, key@));
                } else {
                    assert(key_before(key@, self.entries@[i].key@));
                }
            }
        }
        (lo, false)
    }

    /// The number of keys in the table.
    #[must_use]
    pub fn len(&self) -> (r: usize)
        ensures
            r == self@.len(),
            self@.dom().finite(),
    {
        proof {
            use_type_invariant(self);
            lemma_entry_keys(self.entries@);
        }
        self.entries.len()
    }

    /// Whether the table holds no key.
    #[must_use]
    pub fn is_empty(&self) -> (r: bool)
        ensures
            r == (self@.len() == 0),
            r == (self@ == Map::<Seq<char>, Value>::empty()),
    {
        proof {
            use_type_invariant(self);
            lemma_entry_keys(self.entries@);
            if self.entries@.len() == 0 {
                assert(self@ =~= Map::<Seq<char>, Value>::empty());
            }
        }
        self.entries.len() == 0
    }

    /// The record stored under a key, if there is one. Absence is no error.
    #[must_use]
    pub fn get(&self, key: &str) -> (r: Option<&Record>)
        ensures
            match r {
                Some(record) => self@.contains_key(key@) && record@ == self@[key@],
                None => !self@.contains_key(key@),
            },
    {
        let (i, found) = self.search(key);
        if found {
            proof {
                use_type_invariant(self);
                lemma_entries_map(self.entries@);
            }
            Some(&self.entries[i].record)
        } else {
            None
        }
    }

    /// Whether a record is stored under the key.
    #[must_use]
    pub fn contains_key(&self, key: &str) -> (r: bool)
        ensures
            r == self@.contains_key(key@),
    {
        self.search(key).1
    }

    /// Stores a record under a key, unconditionally: a record already stored
    /// under the key is replaced and dropped, otherwise the key is added.
    pub fn insert(&mut self, key: String, record: Record)
        ensures
            final(self)@ == old(self)@.insert(key@, record@),
    {
        let (i, found) = self.search(key.as_str());
        proof {
            use_type_invariant(&*self);
            lemma_entries_map(self.entries@);
        }
        let ghost before = self.entries@;
        let ghost k = key@;
        let ghost v = record@;
        let entry = Entry { key, record };
        let mut entries: Vec<Entry> = Vec::new();
        std::mem::swap(&mut self.entries, &mut entries);
        if found {
            entries.set(i, entry);
            proof {
                let after = entries@;
                assert forall|a: int, b: int| 0 <= a < b < after.len() implies key_before(
                    #[trigger] after[a].key@,
                    #[trigger] after[b].key@,
                ) by {
                    assert(after[a].key@ == before[a].key@);
                    assert(after[b].key@ == before[b].key@);
                    assert(key_before(before[a].key@, before[b].key@));
                }
                lemma_entries_map(after);
                assert(entries_map(after) =~= entries_map(before).insert(k, v)) by {
                    assert forall|x: Seq<char>| entries_map(after).contains_key(x) implies #[trigger]
                        entries_map(before).insert(k, v).contains_key(x) by {
                        let j = index_of(after, x);
                        assert(before[j].key@ == x);
                    }
                    assert forall|x: Seq<char>| #[trigger]
                        entries_map(before).insert(k, v).contains_key(x) implies entries_map(
                        after,
                    ).contains_key(x) && entries_map(after)[x] == entries_map(before).insert(k, v)[x] by {
                        if x == k {
                            assert(after[i as int].key@ == x);
                        } else {
                            let j = index_of(before, x);
                            assert(after[j].key@ == x);
                            assert(j != i);
                            assert(after[j].record@ == before[j].record@);
                        }
                    }
                }
            }
        } else {
            entries.insert(i, entry);
            proof {
                let after = entries@;
                assert forall|a: int, b: int| 0 <= a < b < after.len() implies key_before(
                    #[trigger] after[a].key@,
                    #[trigger] after[b].key@,
                ) by {
                    if b < i {
                        assert(key_before(before[a].key@, before[b].key@));
                    } else if b == i {
                        assert(key_before(before[a].key@, k));
                    } else if a < i {
                        assert(key_before(before[a].key@, before[b - 1].key@));
                    } else if a == i {
                        assert(key_before(k, before[b - 1].key@));
                    } else {
                        assert(key_before(before[a - 1].key@, before[b - 1].key@));
                    }
                }
                lemma_entries_map(after);
                assert(entries_map(after) =~= entries_map(before).insert(k, v)) by {
                    assert forall|x: Seq<char>| entries_map(after).contains_key(x) implies #[trigger]
                        entries_map(before).insert(k, v).contains_key(x) by {
                        let j = index_of(after, x);
                        if j < i {
                            assert(before[j].key@ == x);
                        } else if j > i {
                            assert(before[j - 1].key@ == x);
                        }
                    }
                    assert forall|x: Seq<char>| #[trigger]
                        entries_map(before).insert(k, v).contains_key(x) implies entries_map(
                        after,
                    ).contains_key(x) && entries_map(after)[x] == entries_map(before).insert(k, v)[x] by {
                        if x == k {
                            assert(after[i as int].key@ == x);
                        } else {
                            let j = index_of(before, x);
                            if j < i {
                                assert(after[j].key@ == x);
                                assert(after[j].record@ == before[j].record@);
                            } else {
                                assert(after[j + 1].key@ == x);
                                assert(after[j + 1].record@ == before[j].record@);
                            }
                        }
                    }
                }
            }
        }
        std::mem::swap(&mut self.entries, &mut entries);
    }

    /// Removes the record stored under a key and returns it. Where the key is
    /// absent nothing changes and `None` is returned: never an error.
    pub fn remove(&mut self, key: &str) -> (r: Option<Record>)
        ensures
            match r {
                Some(record) => old(self)@.contains_key(key@) && record@ == old(self)@[key@],
                None => !old(self)@.contains_key(key@),
            },
            final(self)@ == old(self)@.remove(key@),
    {
        let (i, found) = self.search(key);
        proof {
            use_type_invariant(&*self);
            lemma_entries_map(self.entries@);
        }
        let ghost before = self.entries@;
        if found {
            let mut entries: Vec<Entry> = Vec::new();
            std::mem::swap(&mut self.entries, &mut entries);
            let entry = entries.remove(i);
            proof {
                let after = entries@;
                assert forall|a: int, b: int| 0 <= a < b < after.len() implies key_before(
                    #[trigger] after[a].key@,
                    #[trigger] after[b].key@,
                ) by {
                    let a0 = if a < i { a } else { a + 1 };
                    let b0 = if b < i { b } else { b + 1 };
                    assert(after[a] == before[a0]);
                    assert(after[b] == before[b0]);
                    assert(key_before(before[a0].key@, before[b0].key@));
                }
                lemma_entries_map(after);
                assert(entries_map(after) =~= entries_map(before).remove(key@)) by {
                    assert forall|x: Seq<char>| entries_map(after).contains_key(x) implies #[trigger]
                        entries_map(before).remove(key@).contains_key(x) by {
                        let j = index_of(after, x);
                        let j0 = if j < i { j } else { j + 1 };
                        assert(after[j] == before[j0]);
                        assert(before[j0].key@ == x);
                        if x == key@ {
                            lemma_ascending_distinct(before, j0, i as int);
                        }
                    }
                    assert forall|x: Seq<char>| #[trigger]
                        entries_map(before).remove(key@).contains_key(x) implies entries_map(
                        after,
                    ).contains_key(x) && entries_map(after)[x] == entries_map(before).remove(key@)[x] by {
                        let j = index_of(before, x);
                        assert(j != i);
                        let j1 = if j < i { j } else { j - 1 };
                        assert(after[j1] == before[j]);
                        assert(after[j1].key@ == x);
                    }
                }
            }
            std::mem::swap(&mut self.entries, &mut entries);
            Some(entry.record)
        } else {
            proof {
                assert(entries_map(before) =~= entries_map(before).remove(key@));
            }
            None
        }
    }

    /// The keys of the table, in ascending key order.
    pub fn keys(&self) -> (r: Vec<String>)
        ensures
            self@.dom().finite(),
            r@.len() == self@.len(),
            keys_of(r@) == ordered_keys(self@.dom()),
    {
        proof {
            use_type_invariant(self);
            lemma_entry_keys(self.entries@);
        }
        let mut keys: Vec<String> = Vec::new();
        let mut i: usize = 0;
        while i < self.entries.len()
            invariant
                i <= self.entries@.len(),
                keys@.len() == i,
                forall|j: int| 0 <= j < i ==> (#[trigger] keys@[j])@ == self.entries@[j].key@,
            decreases self.entries@.len() - i,
        {
            keys.push(self.entries[i].key.clone());
            i += 1;
        }
        assert(keys_of(keys@) =~= entry_keys(self.entries@));
        keys
    }

    /// The entries of the table, each key with its record, in ascending key
    /// order. Every call walks the table afresh.
    pub fn iter(&self) -> (r: Vec<(&String, &Record)>)
        ensures
            self@.dom().finite(),
            r@.len() == self@.len(),
            forall|i: int|
                0 <= i < r@.len() ==> (#[trigger] r@[i]).0@ == ordered_keys(self@.dom())[i]
                    && r@[i].1@ == self@[r@[i].0@],
    {
        proof {
            use_type_invariant(self);
            lemma_entry_keys(self.entries@);
            lemma_entries_map(self.entries@);
        }
        let mut items: Vec<(&String, &Record)> = Vec::new();
        let mut i: usize = 0;
        while i < self.entries.len()
            invariant
                i <= self.entries@.len(),
                items@.len() == i,
                forall|j: int|
                    0 <= j < i ==> (#[trigger] items@[j]).0@ == self.entries@[j].key@
                        && items@[j].1@ == self.entries@[j].record@,
            decreases self.entries@.len() - i,
        {
            items.push((&self.entries[i].key, &self.entries[i].record));
            i += 1;
        }
        items
    }
}

/// The keys in a vector of strings, as contracts see them.
pub open spec fn keys_of(keys: Seq<String>) -> Seq<Seq<char>> {
    Seq::new(keys.len(), |i: int| keys[i]@)
}

impl Clone for Table {
    fn clone(&self) -> (r: Self)
        ensures
            r@ == self@,
    {
        proof {
            use_type_invariant(self);
        }
        let mut entries: Vec<Entry> = Vec::new();
        let mut i: usize = 0;
        while i < self.entries.len()
            invariant
                i <= self.entries@.len(),
                entries@.len() == i,
                forall|j: int|
                    0 <= j < i ==> (#[trigger] entries@[j]).key@ == self.entries@[j].key@
                        && entries@[j].record@ == self.entries@[j].record@,
            decreases self.entries@.len() - i,
        {
            let entry = Entry {
                key: self.entries[i].key.clone(),
                record: self.entries[i].record.clone(),
            };
            entries.push(entry);
            i += 1;
        }
        proof {
            let a = self.entries@;
            let b = entries@;
            assert forall|x: int, y: int| 0 <= x < y < b.len() implies key_before(
                #[trigger] b[x].key@,
                #[trigger] b[y].key@,
            ) by {
                assert(key_before(a[x].key@, a[y].key@));
            }
            lemma_entries_map(a);
            lemma_entries_map(b);
            assert(entries_map(b) =~= entries_map(a)) by {
                assert forall|k: Seq<char>| entries_map(b).contains_key(k) implies #[trigger]
                    entries_map(a).contains_key(k) by {
                    assert(a[index_of(b, k)].key@ == k);
                }
                assert forall|k: Seq<char>| #[trigger]
                    entries_map(a).contains_key(k) implies entries_map(b).contains_key(k)
                    && entries_map(b)[k] == entries_map(a)[k] by {
                    assert(b[index_of(a, k)].key@ == k);
                }
            }
        }
        Table { entries }
    }
}

impl Default for Table {
    fn default() -> (r: Self)
        ensures
            r@ == Map::<Seq<char>, Value>::empty(),
    {
        Table::new()
    }
}

} // verus!
