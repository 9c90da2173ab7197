//! The change list that follows from a pairing of the positions of two sequences.
//!
//! A pairing is given by two sequences of links, one for each side: the link of a
//! position is the position of the other side that it is paired with, if any. From these
//! the change list is read off in two passes: first the old positions without a link,
//! as deletions, then the new positions, as insertions, replacements and moves.

use crate::change::{all_sound, edits, sound, Change, Delete, Edit, Insert, Move, Replace};
use crate::matching::links;
use crate::table::{views, ArrayEntry};
use vstd::laws_eq::obeys_concrete_eq;
use vstd::prelude::*;

verus! {

/// Number of positions below `n` that have no link.
pub open spec fn unlinked_before(links: Seq<Option<int>>, n: int) -> nat
    decreases n,
{
    if n <= 0 {
        0
    } else {
        unlinked_before(links, n - 1) + if links[n - 1] is None {
            1nat
        } else {
            0nat
        }
    }
}

/// The deletions of the old positions below `n`: one for each position without a link,
/// in ascending order.
pub open spec fn deletions<T>(old: Seq<T>, old_links: Seq<Option<int>>, n: int) -> Seq<Edit<T>>
    decreases n,
{
    if n <= 0 {
        Seq::empty()
    } else if old_links[n - 1] is None {
        deletions(old, old_links, n - 1).push(Edit::Delete { item: old[n - 1], index: n - 1 })
    } else {
        deletions(old, old_links, n - 1)
    }
}

/// For every old position, the number of deletions before it.
pub open spec fn delete_counts(old_links: Seq<Option<int>>) -> Seq<int> {
    Seq::new(old_links.len(), |i: int| unlinked_before(old_links, i) as int)
}

/// Where the item of old position `p`, paired with new position `j`, would stand in the
/// new sequence if the deletions and insertions were all that happened. `offsets` holds
/// for every old position the number of deletions before it.
pub open spec fn expected_position(
    offsets: Seq<int>,
    new_links: Seq<Option<int>>,
    p: int,
    j: int,
) -> int {
    p - offsets[p] + unlinked_before(new_links, j)
}

/// The entries for new position `j`: an insertion where it has no link; else a
/// replacement where the paired items differ, and then a move where the position is not
/// the expected one.
pub open spec fn placement<T>(
    old: Seq<T>,
    new: Seq<T>,
    offsets: Seq<int>,
    new_links: Seq<Option<int>>,
    j: int,
) -> Seq<Edit<T>> {
    match new_links[j] {
        None => seq![Edit::Insert { item: new[j], index: j }],
        Some(p) => {
            let replaced = if old[p] != new[j] {
                seq![Edit::Replace { old_item: old[p], new_item: new[j], index: j }]
            } else {
                Seq::empty()
            };
            let moved = if expected_position(offsets, new_links, p, j) != j {
                seq![Edit::Move { item: new[j], from_index: p, to_index: j }]
            } else {
                Seq::empty()
            };
            replaced + moved
        },
    }
}

/// The entries for the new positions below `n`, in ascending order of position.
pub open spec fn placements<T>(
    old: Seq<T>,
    new: Seq<T>,
    offsets: Seq<int>,
    new_links: Seq<Option<int>>,
    n: int,
) -> Seq<Edit<T>>
    decreases n,
{
    if n <= 0 {
        Seq::empty()
    } else {
        placements(old, new, offsets, new_links, n - 1) + placement(
            old,
            new,
            offsets,
            new_links,
            n - 1,
        )
    }
}

/// The change list for a given pairing: all deletions, then all placements.
pub open spec fn script<T>(
    old: Seq<T>,
    new: Seq<T>,
    old_links: Seq<Option<int>>,
    new_links: Seq<Option<int>>,
) -> Seq<Edit<T>> {
    deletions(old, old_links, old.len() as int) + placements(
        old,
        new,
        delete_counts(old_links),
        new_links,
        new.len() as int,
    )
}

/// The change list from `old` to `new`: the one that follows from pairing equal items
/// in their order of occurrence.
pub open spec fn diff_spec<T>(old: Seq<T>, new: Seq<T>) -> Seq<Edit<T>> {
    script(old, new, links(old, new), links(new, old))
}

/// The numbers of a vector of offsets.
pub open spec fn ints(offsets: Seq<usize>) -> Seq<int> {
    offsets.map_values(|d: usize| d as int)
}

/// The change list that inserts every item of `new` at its position.
pub open spec fn insert_all<T>(new: Seq<T>) -> Seq<Edit<T>> {
    Seq::new(new.len(), |j: int| Edit::Insert { item: new[j], index: j })
}

/// The change list that deletes every item of `old` at its position.
pub open spec fn delete_all<T>(old: Seq<T>) -> Seq<Edit<T>> {
    Seq::new(old.len(), |i: int| Edit::Delete { item: old[i], index: i })
}

/// There are no more positions without a link than positions.
pub proof fn lemma_unlinked_bounded(links: Seq<Option<int>>, n: int)
    requires
        0 <= n,
    ensures
        unlinked_before(links, n) <= n,
    decreases n,
{
    if n > 0 {
        lemma_unlinked_bounded(links, n - 1);
    }
}

/// A sound list stays sound when a sound entry is appended.
pub proof fn lemma_push_sound<'a, T>(
    changes: Seq<Change<'a, T>>,
    change: Change<'a, T>,
    old: Seq<T>,
    new: Seq<T>,
)
    requires
        all_sound(edits(changes), old, new),
        sound(change@, old, new),
    ensures
        edits(changes.push(change)) == edits(changes).push(change@),
        all_sound(edits(changes.push(change)), old, new),
{
    assert(edits(changes.push(change)) =~= edits(changes).push(change@));
}

/// Walks the old sequence and emits a deletion for every position that is not paired.
/// Beside the deletions it returns, for every old position, how many deletions were
/// emitted for the positions before it.
pub fn accumulate_deletes<'a, T>(old_items: &'a [T], old_array: &Vec<ArrayEntry>) -> (out: (
    Vec<Change<'a, T>>,
    Vec<usize>,
))
    requires
        old_array@.len() == old_items@.len(),
    ensures
        edits(out.0@) == deletions(old_items@, views(old_array@), old_items@.len() as int),
        out.1@.len() == old_items@.len(),
        ints(out.1@) == delete_counts(views(old_array@)),
        forall|i: int| 0 <= i < old_items@.len() ==> #[trigger] out.1@[i] <= i,
{
    let mut changes: Vec<Change<'a, T>> = Vec::new();
    let mut delete_offsets: Vec<usize> = Vec::new();
    let mut running_offset: usize = 0;
    let ghost old_links = views(old_array@);
    for old_offset in 0..old_items.len()
        invariant
            old_array@.len() == old_items@.len(),
            old_links == views(old_array@),
            running_offset == unlinked_before(old_links, old_offset as int),
            running_offset <= old_offset,
            delete_offsets@.len() == old_offset,
            forall|i: int|
                0 <= i < old_offset ==> #[trigger] delete_offsets@[i] == unlinked_before(
                    old_links,
                    i,
                ),
            edits(changes@) == deletions(old_items@, old_links, old_offset as int),
    {
        delete_offsets.push(running_offset);
        match old_array[old_offset] {
            ArrayEntry::TableEntry(_) => {
                let delete = Delete { item: &old_items[old_offset], index: old_offset };
                changes.push(Change::Delete(delete));
                running_offset += 1;
            },
            _ => {},
        }
    }
    assert forall|i: int| 0 <= i < old_items@.len() implies #[trigger] delete_offsets@[i] <= i by {
        lemma_unlinked_bounded(old_links, i);
    }
    (changes, delete_offsets)
}

/// Walks the new sequence and appends to `changes` an insertion for every position that
/// is not paired and, for a paired one, a replacement where the two items differ and a
/// move where the position is not the one that the deletions and insertions lead to.
/// `delete_offsets` holds for every old position the number of deletions before it.
///
/// Which entries these are is stated for item types whose `!=` tells whether two values
/// differ.
pub fn generate_changes<'a, T: PartialEq>(
    old_items: &'a [T],
    new_items: &'a [T],
    new_array: &Vec<ArrayEntry>,
    delete_offsets: &Vec<usize>,
    changes: &mut Vec<Change<'a, T>>,
)
    requires
        new_array@.len() == new_items@.len(),
        delete_offsets@.len() == old_items@.len(),
        forall|j: int|
            0 <= j < new_items@.len() ==> ((#[trigger] new_array@[j])@ matches Some(p) ==> 0 <= p
                < old_items@.len()),
        forall|i: int| 0 <= i < old_items@.len() ==> #[trigger] delete_offsets@[i] <= i,
        all_sound(edits(old(changes)@), old_items@, new_items@),
    ensures
        all_sound(edits(final(changes)@), old_items@, new_items@),
        obeys_concrete_eq::<T>() ==> edits(final(changes)@) == edits(old(changes)@) + placements(
            old_items@,
            new_items@,
            ints(delete_offsets@),
            views(new_array@),
            new_items@.len() as int,
        ),
{
    let ghost offsets = ints(delete_offsets@);
    let ghost new_links = views(new_array@);
    let ghost before = edits(changes@);
    let mut running_offset: usize = 0;
    for new_offset in 0..new_items.len()
        invariant
            new_array@.len() == new_items@.len(),
            new_links == views(new_array@),
            offsets == ints(delete_offsets@),
            delete_offsets@.len() == old_items@.len(),
            forall|j: int|
                0 <= j < new_items@.len() ==> ((#[trigger] new_array@[j])@ matches Some(p) ==> 0
                    <= p < old_items@.len()),
            forall|i: int| 0 <= i < old_items@.len() ==> #[trigger] delete_offsets@[i] <= i,
            running_offset == unlinked_before(new_links, new_offset as int),
            running_offset <= new_offset,
            all_sound(edits(changes@), old_items@, new_items@),
            obeys_concrete_eq::<T>() ==> edits(changes@) == before + placements(
                old_items@,
                new_items@,
                offsets,
                new_links,
                new_offset as int,
            ),
    {
        match new_array[new_offset] {
            ArrayEntry::TableEntry(_) => {
                running_offset += 1;

                let insert = Insert { item: &new_items[new_offset], index: new_offset };
                proof {
                    lemma_push_sound(changes@, Change::Insert(insert), old_items@, new_items@);
                }
                changes.push(Change::Insert(insert));
            },
            ArrayEntry::IndexInOther(old_idx) => {
                proof {
                    reveal(obeys_concrete_eq);
                }
                if old_items[old_idx] != new_items[new_offset] {
                    let replace = Replace {
                        old_item: &old_items[old_idx],
                        new_item: &new_items[new_offset],
                        index: new_offset,
                    };
                    proof {
                        lemma_push_sound(
                            changes@,
                            Change::Replace(replace),
                            old_items@,
                            new_items@,
                        );
                    }
                    changes.push(Change::Replace(replace));
                }
                // The item stands where expected when its old position less the
                // deletions before it is its new position less the insertions before it.
                let delete_offset: usize = delete_offsets[old_idx];
                if old_idx - delete_offset != new_offset - running_offset {
                    let moved = Move {
                        item: &new_items[new_offset],
                        from_index: old_idx,
                        to_index: new_offset,
                    };
                    proof {
                        lemma_push_sound(changes@, Change::Move(moved), old_items@, new_items@);
                    }
                    changes.push(Change::Move(moved));
                }
            },
        }
    }
}

} // verus!
