//! The matcher: pairs the positions of the new sequence with those of the old one.

use crate::matching::{count_before, has_partner, link, links, occurrences, paired, rank};
use crate::matching::{
    lemma_paired_is_partner, lemma_rank_below_occurrences, lemma_rank_identifies,
};
use crate::table::{lemma_positions, positions, scanned, tally, views, well_formed};
use crate::table::{ArrayEntry, Counter, TableEntry};
use vstd::prelude::*;

verus! {

/// The queue of `key` once the positions of `new` below `done` were visited: of the
/// positions of `key` in `old`, those that no visited position has taken.
pub open spec fn waiting<T>(old: Seq<T>, new: Seq<T>, key: T, done: int) -> Seq<usize> {
    let all = positions(old, key, old.len() as int);
    let taken = count_before(new, key, done);
    if taken < all.len() {
        all.skip(taken as int)
    } else {
        Seq::empty()
    }
}

/// What the entry of `key` holds once the positions of `new` below `done` were visited.
pub open spec fn visited<T>(
    entry: TableEntry,
    key: T,
    old: Seq<T>,
    new: Seq<T>,
    done: int,
) -> bool {
    &&& entry.new_counter@ == tally(occurrences(new, key))
    &&& entry.old_counter@ == tally(occurrences(old, key))
    &&& entry.indexes_in_old@ == waiting(old, new, key, done)
}

/// What the old array holds at position `i` once the positions of `new` below `done`
/// were visited: its partner where a visited position has taken it, else the entry of
/// its item.
pub open spec fn old_side<T>(
    at: ArrayEntry,
    keys: Seq<T>,
    old: Seq<T>,
    new: Seq<T>,
    i: int,
    done: int,
) -> bool {
    if rank(old, i) < count_before(new, old[i], done) {
        at@ == link(old, new, i) && has_partner(old, new, i)
    } else {
        at matches ArrayEntry::TableEntry(e) && e < keys.len() && keys[e as int] == old[i]
    }
}

/// What the new array holds at position `j` once the positions below `done` were
/// visited: its link where it was visited, else the entry of its item.
pub open spec fn new_side<T>(
    at: ArrayEntry,
    keys: Seq<T>,
    old: Seq<T>,
    new: Seq<T>,
    j: int,
    done: int,
) -> bool {
    if j < done {
        at@ == link(new, old, j)
    } else {
        at matches ArrayEntry::TableEntry(e) && e < keys.len() && keys[e as int] == new[j]
    }
}

/// Visits the positions of the new sequence in ascending order. Each takes the earliest
/// position of its item that still waits in the old sequence, and the two are noted as
/// paired in both arrays. A position whose item has no position waiting stays as it is.
///
/// `keys` holds the item of each entry, `old_items` and `new_items` the two sequences
/// that the table was built from. Where the table is in the state that the builder
/// leaves it in for consistent items, the arrays hold the links of the pairing afterwards.
pub fn match_positions<T>(
    entries: &mut Vec<TableEntry>,
    old_array: &mut Vec<ArrayEntry>,
    new_array: &mut Vec<ArrayEntry>,
    Ghost(keys): Ghost<Seq<T>>,
    Ghost(old_items): Ghost<Seq<T>>,
    Ghost(new_items): Ghost<Seq<T>>,
)
    requires
        well_formed(old(entries)@, old(old_array)@, old(new_array)@),
    ensures
        final(old_array)@.len() == old(old_array)@.len(),
        final(new_array)@.len() == old(new_array)@.len(),
        well_formed(final(entries)@, final(old_array)@, final(new_array)@),
        scanned(old(entries)@, keys, old(old_array)@, old(new_array)@, old_items, new_items) ==> {
            &&& views(final(old_array)@) == links(old_items, new_items)
            &&& views(final(new_array)@) == links(new_items, old_items)
        },
{
    let n: usize = new_array.len();
    let ghost exact = scanned(entries@, keys, old_array@, new_array@, old_items, new_items);
    proof {
        if exact {
            assert(old_items.len() == old_array.len());
            assert forall|e: int| 0 <= e < keys.len() implies visited(
                #[trigger] entries@[e],
                keys[e],
                old_items,
                new_items,
                0,
            ) by {
                let all = positions(old_items, keys[e], old_items.len() as int);
                assert(all.skip(0) == all);
                assert(all.len() == 0 ==> all == Seq::<usize>::empty());
            }
        }
    }
    for new_idx in 0..n
        invariant
            n == new_array@.len(),
            old_array@.len() == old(old_array)@.len(),
            entries@.len() == old(entries)@.len(),
            well_formed(entries@, old_array@, new_array@),
            exact ==> {
                &&& n == new_items.len()
                &&& old_array@.len() == old_items.len() <= usize::MAX
                &&& keys.no_duplicates()
                &&& entries@.len() == keys.len()
                &&& forall|e: int|
                    0 <= e < keys.len() ==> visited(
                        #[trigger] entries@[e],
                        keys[e],
                        old_items,
                        new_items,
                        new_idx as int,
                    )
                &&& forall|j: int|
                    0 <= j < new_items.len() ==> new_side(
                        #[trigger] new_array@[j],
                        keys,
                        old_items,
                        new_items,
                        j,
                        new_idx as int,
                    )
                &&& forall|i: int|
                    0 <= i < old_items.len() ==> old_side(
                        #[trigger] old_array@[i],
                        keys,
                        old_items,
                        new_items,
                        i,
                        new_idx as int,
                    )
            },
    {
        match new_array[new_idx] {
            ArrayEntry::TableEntry(e) => {
                let ghost key = keys[e as int];
                let ghost all = positions(old_items, key, old_items.len() as int);
                let ghost taken = rank(new_items, new_idx as int);
                let ghost queue = entries@[e as int].indexes_in_old@;
                proof {
                    if exact {
                        lemma_positions(old_items, key, old_items.len() as int);
                        lemma_rank_below_occurrences(new_items, new_idx as int);
                        assert(taken + 1 == all.len() ==> all.skip(taken as int + 1) == Seq::<
                            usize,
                        >::empty());
                    }
                }
                if !entries[e].indexes_in_old.is_empty() {
                    let old_idx: usize = entries[e].indexes_in_old.remove(0);
                    proof {
                        if exact {
                            assert(all.skip(taken as int).remove(0) == all.skip(taken as int + 1));
                            lemma_paired_is_partner(
                                new_items,
                                old_items,
                                new_idx as int,
                                old_idx as int,
                            );
                            lemma_paired_is_partner(
                                old_items,
                                new_items,
                                old_idx as int,
                                new_idx as int,
                            );
                        }
                    }
                    // The pair is taken where the item occurs once on either side, and
                    // where it occurs on both and the old position was not paired before.
                    let is_observation1 = entries[e].new_counter == Counter::One
                        && entries[e].old_counter == Counter::One;
                    let is_observation2 = entries[e].new_counter != Counter::Zero
                        && entries[e].old_counter != Counter::Zero && new_array[new_idx]
                        == old_array[old_idx];
                    // With consistent items, a position that waited in the queue was
                    // never paired: the second test holds of whatever the queue hands out.
                    assert(exact ==> is_observation2);
                    if is_observation1 || is_observation2 {
                        new_array[new_idx] = ArrayEntry::IndexInOther(old_idx);
                        old_array[old_idx] = ArrayEntry::IndexInOther(new_idx);
                    }
                }
                proof {
                    if exact {
                        assert forall|i: int| 0 <= i < old_items.len() implies old_side(
                            #[trigger] old_array@[i],
                            keys,
                            old_items,
                            new_items,
                            i,
                            new_idx + 1,
                        ) by {
                            lemma_rank_below_occurrences(old_items, i);
                            if old_items[i] == key && rank(old_items, i) == taken && taken
                                < all.len() {
                                lemma_rank_identifies(old_items, i, all[taken as int] as int);
                            }
                        }
                    }
                }
            },
            _ => {},
        }
    }
}

} // verus!
