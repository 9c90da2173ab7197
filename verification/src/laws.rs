//! What holds of every change list that [`crate::script::diff_spec`] describes.

use crate::change::{position, well_ordered, Edit};
use crate::matching::{lemma_links_determined, lemma_links_in_range, links};
use crate::script::{
    delete_all, delete_counts, deletions, diff_spec, insert_all, lemma_unlinked_bounded,
    placements, unlinked_before,
};
use vstd::prelude::*;

verus! {

/// The deletions of the positions below `n` are as many as the positions without a
/// link, and they ascend by position.
pub proof fn lemma_deletions_ascend<T>(old: Seq<T>, old_links: Seq<Option<int>>, n: int)
    requires
        0 <= n,
    ensures
        deletions(old, old_links, n).len() == unlinked_before(old_links, n),
        forall|k: int|
            0 <= k < deletions(old, old_links, n).len() ==> {
                let e = #[trigger] deletions(old, old_links, n)[k];
                e is Delete && 0 <= position(e) < n && e->Delete_item == old[position(e)]
            },
        forall|a: int, b: int|
            0 <= a < b < deletions(old, old_links, n).len() ==> position(
                #[trigger] deletions(old, old_links, n)[a],
            ) < position(#[trigger] deletions(old, old_links, n)[b]),
    decreases n,
{
    if n > 0 {
        lemma_deletions_ascend(old, old_links, n - 1);
    }
}

/// Where every link joins two equal items, the entries for the positions below `n` are
/// insertions and moves, at most one for each position, and they ascend by position.
pub proof fn lemma_placements_ascend<T>(
    old: Seq<T>,
    new: Seq<T>,
    offsets: Seq<int>,
    new_links: Seq<Option<int>>,
    n: int,
)
    requires
        0 <= n,
        forall|j: int|
            0 <= j < n ==> (#[trigger] new_links[j] matches Some(p) ==> old[p] == new[j]),
    ensures
        placements(old, new, offsets, new_links, n).len() <= n,
        forall|k: int|
            0 <= k < placements(old, new, offsets, new_links, n).len() ==> {
                let e = #[trigger] placements(old, new, offsets, new_links, n)[k];
                (e is Insert || e is Move) && 0 <= position(e) < n
            },
        forall|a: int, b: int|
            0 <= a < b < placements(old, new, offsets, new_links, n).len() ==> position(
                #[trigger] placements(old, new, offsets, new_links, n)[a],
            ) < position(#[trigger] placements(old, new, offsets, new_links, n)[b]),
    decreases n,
{
    if n > 0 {
        lemma_placements_ascend(old, new, offsets, new_links, n - 1);
    }
}

/// The links of the pairing join equal items.
pub proof fn lemma_links_join_equals<T>(old: Seq<T>, new: Seq<T>)
    ensures
        forall|j: int|
            0 <= j < new.len() ==> (#[trigger] links(new, old)[j] matches Some(p) ==> 0 <= p
                < old.len() && old[p] == new[j]),
{
    lemma_links_in_range(new, old);
}

/// In every change list the deletions precede all other entries and ascend by old
/// position, the other entries ascend by new position, none of them is a replacement,
/// and there are no more entries than the two sequences have positions.
pub proof fn lemma_diff_well_ordered<T>(old: Seq<T>, new: Seq<T>)
    ensures
        well_ordered(diff_spec(old, new)),
        diff_spec(old, new).len() <= old.len() + new.len(),
        forall|k: int|
            0 <= k < diff_spec(old, new).len() ==> !(#[trigger] diff_spec(old, new)[k] is Replace),
{
    let old_links = links(old, new);
    let new_links = links(new, old);
    lemma_links_join_equals(old, new);
    lemma_deletions_ascend(old, old_links, old.len() as int);
    lemma_unlinked_bounded(old_links, old.len() as int);
    lemma_placements_ascend(old, new, delete_counts(old_links), new_links, new.len() as int);
}

/// Below positions that all have a link nothing is counted and nothing deleted.
pub proof fn lemma_all_linked<T>(old: Seq<T>, old_links: Seq<Option<int>>, n: int)
    requires
        forall|i: int| 0 <= i < n ==> #[trigger] old_links[i] is Some,
    ensures
        unlinked_before(old_links, n) == 0,
        deletions(old, old_links, n) == Seq::<Edit<T>>::empty(),
    decreases n,
{
    if n > 0 {
        lemma_all_linked(old, old_links, n - 1);
    }
}

/// Where no position below `n` has a link, every one of them is deleted.
pub proof fn lemma_all_deleted<T>(old: Seq<T>, old_links: Seq<Option<int>>, n: int)
    requires
        0 <= n <= old.len(),
        forall|i: int| 0 <= i < n ==> #[trigger] old_links[i] is None,
    ensures
        deletions(old, old_links, n) == delete_all(old.take(n)),
    decreases n,
{
    if n > 0 {
        lemma_all_deleted(old, old_links, n - 1);
    }
}

/// Where no position below `n` has a link, every one of them is inserted.
pub proof fn lemma_all_inserted<T>(
    old: Seq<T>,
    new: Seq<T>,
    offsets: Seq<int>,
    new_links: Seq<Option<int>>,
    n: int,
)
    requires
        0 <= n <= new.len(),
        forall|j: int| 0 <= j < n ==> #[trigger] new_links[j] is None,
    ensures
        placements(old, new, offsets, new_links, n) == insert_all(new.take(n)),
    decreases n,
{
    if n > 0 {
        lemma_all_inserted(old, new, offsets, new_links, n - 1);
    }
}

/// Where every position below `n` is linked to itself, nothing is placed.
pub proof fn lemma_all_in_place<T>(s: Seq<T>, own_links: Seq<Option<int>>, n: int)
    requires
        n <= own_links.len(),
        forall|j: int| 0 <= j < n ==> #[trigger] own_links[j] == Some(j),
    ensures
        placements(s, s, delete_counts(own_links), own_links, n) == Seq::<Edit<T>>::empty(),
    decreases n,
{
    if n > 0 {
        lemma_all_in_place(s, own_links, n - 1);
        lemma_all_linked(s, own_links, n - 1);
    }
}

/// A sequence does not differ from itself: the change list is empty.
pub proof fn lemma_diff_of_equal_is_empty<T>(s: Seq<T>)
    ensures
        diff_spec(s, s) == Seq::<Edit<T>>::empty(),
{
    let own_links = Seq::new(s.len(), |j: int| Some(j));
    lemma_links_determined(s, s, own_links);
    lemma_all_linked(s, own_links, s.len() as int);
    lemma_all_in_place(s, own_links, s.len() as int);
}

/// From nothing to `new`, every item is inserted at its position.
pub proof fn lemma_diff_from_empty_inserts_all<T>(new: Seq<T>)
    ensures
        diff_spec(Seq::<T>::empty(), new) == insert_all(new),
{
    let old = Seq::<T>::empty();
    lemma_links_determined(new, old, Seq::new(new.len(), |j: int| None));
    lemma_all_inserted(
        old,
        new,
        delete_counts(links(old, new)),
        links(new, old),
        new.len() as int,
    );
}

/// From `old` to nothing, every item is deleted at its position.
pub proof fn lemma_diff_to_empty_deletes_all<T>(old: Seq<T>)
    ensures
        diff_spec(old, Seq::<T>::empty()) == delete_all(old),
{
    let new = Seq::<T>::empty();
    lemma_links_determined(old, new, Seq::new(old.len(), |i: int| None));
    lemma_all_deleted(old, links(old, new), old.len() as int);
}

} // verus!
