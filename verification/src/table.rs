//! The symbol table: one entry for each distinct item of the two sequences.
//!
//! The entries live in one vector and are named by their index in it. Every position of
//! the old and of the new sequence holds an [`ArrayEntry`], which at first names the
//! entry of the item found there.

use crate::matching::{count_before, lemma_count_absent, occurrences};
use std::collections::HashMap;
use std::hash::Hash;
use vstd::prelude::*;
use vstd::std_specs::hash::obeys_key_model;

verus! {

/// How often an item occurs, as far as pairing needs to know: not at all, once, or more
/// often.
#[derive(Debug, PartialEq, Eq, Structural)]
pub enum Counter {
    Zero,
    One,
    Many,
}

/// What a [`Counter`] shows after `n` occurrences were counted.
pub open spec fn tally(n: nat) -> nat {
    if n < 2 {
        n
    } else {
        2
    }
}

impl View for Counter {
    type V = nat;

    open spec fn view(&self) -> nat {
        match *self {
            Counter::Zero => 0,
            Counter::One => 1,
            Counter::Many => 2,
        }
    }
}

impl Counter {
    /// The counter after one more occurrence. `Many` stays `Many`.
    pub fn increment(&self) -> (next: Counter)
        ensures
            next@ == tally(self@ + 1),
    {
        match self {
            Counter::Zero => Counter::One,
            Counter::One => Counter::Many,
            Counter::Many => Counter::Many,
        }
    }
}

/// What the table knows of one item.
#[derive(Debug, PartialEq, Eq)]
pub struct TableEntry {
    pub old_counter: Counter,
    pub new_counter: Counter,
    /// The positions of the item in the old sequence that are not paired yet, in
    /// ascending order.
    pub indexes_in_old: Vec<usize>,
}

impl TableEntry {
    /// The entry of an item that was not seen yet.
    pub fn new() -> (entry: TableEntry)
        ensures
            entry.old_counter@ == 0,
            entry.new_counter@ == 0,
            entry.indexes_in_old@ == Seq::<usize>::empty(),
    {
        TableEntry {
            old_counter: Counter::Zero,
            new_counter: Counter::Zero,
            indexes_in_old: Vec::new(),
        }
    }
}

/// What stands at one position of the old or of the new sequence.
#[derive(Debug, PartialEq, Eq, Structural)]
pub enum ArrayEntry {
    /// The position is not paired; the payload names the table entry of its item.
    TableEntry(usize),
    /// The position is paired with the given position of the other sequence.
    IndexInOther(usize),
}

impl View for ArrayEntry {
    type V = Option<int>;

    /// The position this one is paired with, if any.
    open spec fn view(&self) -> Option<int> {
        match *self {
            ArrayEntry::TableEntry(_) => None,
            ArrayEntry::IndexInOther(i) => Some(i as int),
        }
    }
}

/// For every position of an array, the position it is paired with, if any.
pub open spec fn views(array: Seq<ArrayEntry>) -> Seq<Option<int>> {
    array.map_values(|a: ArrayEntry| a@)
}

/// The positions below `n` at which `s` holds `x`, in ascending order.
pub open spec fn positions<T>(s: Seq<T>, x: T, n: int) -> Seq<usize>
    decreases n,
{
    if n <= 0 {
        Seq::empty()
    } else if s[n - 1] == x {
        positions(s, x, n - 1).push((n - 1) as usize)
    } else {
        positions(s, x, n - 1)
    }
}

/// The list has one position for every occurrence counted, and the position at index `r`
/// is the one that holds `x` at rank `r`.
pub proof fn lemma_positions<T>(s: Seq<T>, x: T, n: int)
    requires
        0 <= n <= s.len() <= usize::MAX,
    ensures
        positions(s, x, n).len() == count_before(s, x, n),
        forall|r: int|
            0 <= r < positions(s, x, n).len() ==> {
                let p = #[trigger] positions(s, x, n)[r];
                0 <= p < n && s[p as int] == x && count_before(s, x, p as int) == r
            },
    decreases n,
{
    if n > 0 {
        lemma_positions(s, x, n - 1);
    }
}

/// No position below `n` holds an item that `s` does not hold there: the list is empty.
pub proof fn lemma_positions_absent<T>(s: Seq<T>, x: T, n: int)
    requires
        forall|i: int| 0 <= i < n ==> s[i] != x,
    ensures
        positions(s, x, n) == Seq::<usize>::empty(),
    decreases n,
{
    if n > 0 {
        lemma_positions_absent(s, x, n - 1);
    }
}

/// The table maps each key to the index of its entry, and holds nothing else.
pub open spec fn indexed<'a, T>(table: Map<&'a T, usize>, keys: Seq<T>) -> bool {
    &&& forall|e: int|
        0 <= e < keys.len() ==> table.contains_key(&#[trigger] keys[e]) && table[&keys[e]] == e
    &&& forall|x: &'a T| #[trigger]
        table.contains_key(x) ==> table[x] < keys.len() && keys[table[x] as int] == *x
}

/// The entry of a key that was not counted yet.
pub open spec fn fresh(entry: TableEntry) -> bool {
    &&& entry.old_counter@ == 0
    &&& entry.new_counter@ == 0
    &&& entry.indexes_in_old@ == Seq::<usize>::empty()
}

/// The index of the entry of `item`, which is made first where the table has none.
///
/// `keys` holds the item of each entry. Where the table is consistent with it, the
/// entry returned is the one of `item`, and the second result holds the item of each
/// entry after the call.
pub fn entry_of<'a, T: Eq + Hash>(
    table: &mut HashMap<&'a T, usize>,
    entries: &mut Vec<TableEntry>,
    Ghost(keys): Ghost<Seq<T>>,
    item: &'a T,
) -> (found: (usize, Ghost<Seq<T>>))
    ensures
        found.0 < final(entries)@.len(),
        final(entries)@ == old(entries)@ || (final(entries)@.drop_last() == old(entries)@ && fresh(
            final(entries)@.last(),
        )),
        obeys_key_model::<&'a T>() && indexed(old(table)@, keys) && old(entries)@.len()
            == keys.len() ==> {
            &&& indexed(final(table)@, found.1@)
            &&& final(entries)@.len() == found.1@.len()
            &&& found.1@[found.0 as int] == *item
            &&& found.1@ == if keys.contains(*item) {
                keys
            } else {
                keys.push(*item)
            }
            &&& keys.contains(*item) <==> final(entries)@ == old(entries)@
        },
{
    let known: usize = entries.len();
    let id: usize = *table.entry(item).or_insert(known);
    let ghost keys_now = if keys.contains(*item) {
        keys
    } else {
        keys.push(*item)
    };
    // An index below `known` names the entry that the table held for the item. For an
    // item that it did not hold, `or_insert` has put `known` there: the index of the
    // entry that is made now.
    if id < known {
        (id, Ghost(keys_now))
    } else {
        entries.push(TableEntry::new());
        (known, Ghost(keys_now))
    }
}

/// What the entry of `key` holds once `new` was scanned whole and `old` up to `n`.
pub open spec fn counted<T>(entry: TableEntry, key: T, old: Seq<T>, new: Seq<T>, n: int) -> bool {
    &&& entry.new_counter@ == tally(occurrences(new, key))
    &&& entry.old_counter@ == tally(count_before(old, key, n))
    &&& entry.indexes_in_old@ == positions(old, key, n)
}

/// Every position of `array` names the entry whose key is the item of `s` there.
pub open spec fn names_entries<T>(array: Seq<ArrayEntry>, s: Seq<T>, keys: Seq<T>) -> bool {
    &&& array.len() == s.len()
    &&& forall|i: int|
        0 <= i < s.len() ==> (#[trigger] array[i] matches ArrayEntry::TableEntry(e) && e
            < keys.len() && keys[e as int] == s[i])
}

/// The state in which the table builder leaves the table and the two arrays where `==`
/// and the hash of the items are consistent: `keys` holds the distinct items, `entries`
/// what was counted of each, and every position names the entry of its item.
pub open spec fn scanned<T>(
    entries: Seq<TableEntry>,
    keys: Seq<T>,
    old_array: Seq<ArrayEntry>,
    new_array: Seq<ArrayEntry>,
    old: Seq<T>,
    new: Seq<T>,
) -> bool {
    &&& keys.no_duplicates()
    &&& entries.len() == keys.len()
    &&& names_entries(old_array, old, keys)
    &&& names_entries(new_array, new, keys)
    &&& forall|e: int|
        0 <= e < keys.len() ==> counted(#[trigger] entries[e], keys[e], old, new, old.len() as int)
}

/// Every position that waits in the queue of an entry lies below `bound`.
pub open spec fn queues_below(entries: Seq<TableEntry>, bound: int) -> bool {
    forall|e: int, k: int|
        0 <= e < entries.len() && 0 <= k < entries[e].indexes_in_old@.len()
            ==> #[trigger] entries[e].indexes_in_old@[k] < bound
}

/// Every entry that `array` names exists, and every position that it names lies below
/// `bound`.
pub open spec fn in_range(array: Seq<ArrayEntry>, entries: int, bound: int) -> bool {
    forall|i: int|
        0 <= i < array.len() ==> match #[trigger] array[i] {
            ArrayEntry::TableEntry(e) => e < entries,
            ArrayEntry::IndexInOther(p) => p < bound,
        }
}

/// What holds of the table and the two arrays whatever the items are: whatever names
/// an entry or a position names one that exists.
pub open spec fn well_formed(
    entries: Seq<TableEntry>,
    old_array: Seq<ArrayEntry>,
    new_array: Seq<ArrayEntry>,
) -> bool {
    &&& queues_below(entries, old_array.len() as int)
    &&& in_range(old_array, entries.len() as int, new_array.len() as int)
    &&& in_range(new_array, entries.len() as int, old_array.len() as int)
}

/// Scans `new` and then `old`, gives every distinct item its table entry, counts in it
/// the occurrences of the item on either side, queues in it the positions of the item in
/// `old`, and notes at every position the entry of its item.
///
/// Returns the entries, the array of `old`, the array of `new` and, as a ghost, the
/// item of each entry.
pub fn build_symbol_table<'a, T: Eq + Hash>(old: &'a [T], new: &'a [T]) -> (built: (
    Vec<TableEntry>,
    Vec<ArrayEntry>,
    Vec<ArrayEntry>,
    Ghost<Seq<T>>,
))
    ensures
        built.1@.len() == old@.len(),
        built.2@.len() == new@.len(),
        well_formed(built.0@, built.1@, built.2@),
        obeys_key_model::<&'a T>() ==> scanned(built.0@, built.3@, built.1@, built.2@, old@, new@),
{
    let mut table: HashMap<&'a T, usize> = HashMap::new();
    let mut entries: Vec<TableEntry> = Vec::new();
    let mut old_array: Vec<ArrayEntry> = Vec::new();
    let mut new_array: Vec<ArrayEntry> = Vec::new();
    let ghost mut keys: Seq<T> = Seq::empty();
    let ghost consistent = obeys_key_model::<&'a T>();

    for new_idx in 0..new.len()
        invariant
            consistent == obeys_key_model::<&'a T>(),
            new_array@.len() == new_idx,
            in_range(new_array@, entries@.len() as int, 0),
            queues_below(entries@, 0),
            consistent ==> indexed(table@, keys) && entries@.len() == keys.len(),
            consistent ==> forall|j: int|
                0 <= j < new_idx ==> (#[trigger] new_array@[j] matches ArrayEntry::TableEntry(e)
                    && e < keys.len() && keys[e as int] == new@[j]),
            consistent ==> forall|e: int|
                0 <= e < keys.len() ==> (#[trigger] entries@[e]).new_counter@ == tally(
                    count_before(new@, keys[e], new_idx as int),
                ) && entries@[e].old_counter@ == 0 && entries@[e].indexes_in_old@ == Seq::<
                    usize,
                >::empty(),
    {
        let item: &'a T = &new[new_idx];
        let ghost keys_before = keys;
        let (id, Ghost(keys_now)) = entry_of(&mut table, &mut entries, Ghost(keys), item);
        proof {
            keys = keys_now;
            if consistent && !keys_before.contains(*item) {
                // A new key occurs at no position before this one.
                assert forall|j: int| 0 <= j < new_idx implies new@[j] != *item by {
                    assert(new_array@[j] matches ArrayEntry::TableEntry(e) && keys_before[e as int]
                        == new@[j]);
                }
                lemma_count_absent(new@, *item, new_idx as int);
                assert(forall|e: int|
                    0 <= e < keys_before.len() ==> entries@[e] == entries@.drop_last()[e]);
            }
        }
        entries[id].new_counter = entries[id].new_counter.increment();
        new_array.push(ArrayEntry::TableEntry(id));
    }

    for old_idx in 0..old.len()
        invariant
            consistent == obeys_key_model::<&'a T>(),
            new_array@.len() == new@.len(),
            old_array@.len() == old_idx,
            in_range(new_array@, entries@.len() as int, 0),
            in_range(old_array@, entries@.len() as int, 0),
            queues_below(entries@, old_idx as int),
            consistent ==> indexed(table@, keys) && entries@.len() == keys.len(),
            consistent ==> names_entries(new_array@, new@, keys),
            consistent ==> forall|i: int|
                0 <= i < old_idx ==> (#[trigger] old_array@[i] matches ArrayEntry::TableEntry(e)
                    && e < keys.len() && keys[e as int] == old@[i]),
            consistent ==> forall|e: int|
                0 <= e < keys.len() ==> counted(
                    #[trigger] entries@[e],
                    keys[e],
                    old@,
                    new@,
                    old_idx as int,
                ),
    {
        let item: &'a T = &old[old_idx];
        let ghost keys_before = keys;
        let (id, Ghost(keys_now)) = entry_of(&mut table, &mut entries, Ghost(keys), item);
        proof {
            keys = keys_now;
            if consistent && !keys_before.contains(*item) {
                // A new key occurs at no position of `new` and at none before this one.
                assert forall|j: int| 0 <= j < new@.len() implies new@[j] != *item by {
                    assert(new_array@[j] matches ArrayEntry::TableEntry(e) && keys_before[e as int]
                        == new@[j]);
                }
                assert forall|i: int| 0 <= i < old_idx implies old@[i] != *item by {
                    assert(old_array@[i] matches ArrayEntry::TableEntry(e) && keys_before[e as int]
                        == old@[i]);
                }
                lemma_count_absent(new@, *item, new@.len() as int);
                lemma_count_absent(old@, *item, old_idx as int);
                lemma_positions_absent(old@, *item, old_idx as int);
                assert(forall|e: int|
                    0 <= e < keys_before.len() ==> entries@[e] == entries@.drop_last()[e]);
            }
        }
        entries[id].old_counter = entries[id].old_counter.increment();
        entries[id].indexes_in_old.push(old_idx);
        old_array.push(ArrayEntry::TableEntry(id));
    }

    (entries, old_array, new_array, Ghost(keys))
}

} // verus!
