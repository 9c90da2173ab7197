//! Carrying out a change list, and the proof that doing so leads from the old sequence
//! to the new one.
//!
//! A change list is carried out in two passes. The deletions are taken last entry
//! first, so that every old position still means what it meant in the old sequence. The
//! other entries are taken first entry first and speak of positions in the result: an
//! insertion puts a new item there, a move says which item of the old sequence stands
//! there, a replacement says which item stands there instead of the one found.

use crate::change::Edit;
use crate::laws::{lemma_deletions_ascend, lemma_links_join_equals, lemma_placements_ascend};
use crate::matching::{
    count_before, lemma_count_of_prefix, lemma_links_in_range, lemma_paired_is_partner, links,
    occurrences,
};
use crate::script::{
    delete_counts, deletions, diff_spec, expected_position, lemma_unlinked_bounded, placement,
    placements, unlinked_before,
};
use vstd::prelude::*;

verus! {

/// Removes from `items` every position that a deletion of `script` names, last entry
/// first.
pub open spec fn apply_deletions<T>(items: Seq<T>, script: Seq<Edit<T>>) -> Seq<T>
    decreases script.len(),
{
    if script.len() == 0 {
        items
    } else {
        match script.last() {
            Edit::Delete { index, .. } => apply_deletions(items.remove(index), script.drop_last()),
            _ => apply_deletions(items, script.drop_last()),
        }
    }
}

/// Carries out the entries of `script` that are no deletions, first entry first, on
/// `items`. `old` is the sequence that the moves take their items from.
pub open spec fn apply_placements<T>(items: Seq<T>, old: Seq<T>, script: Seq<Edit<T>>) -> Seq<T>
    decreases script.len(),
{
    if script.len() == 0 {
        items
    } else {
        let before = apply_placements(items, old, script.drop_last());
        match script.last() {
            Edit::Insert { item, index } => before.insert(index, item),
            Edit::Delete { .. } => before,
            Edit::Replace { new_item, index, .. } => before.update(index, new_item),
            Edit::Move { from_index, to_index, .. } => before.update(to_index, old[from_index]),
        }
    }
}

/// What becomes of `old` when `script` is carried out on it.
pub open spec fn replay<T>(old: Seq<T>, script: Seq<Edit<T>>) -> Seq<T> {
    apply_placements(apply_deletions(old, script), old, script)
}

/// The items at the positions below `n` that have a link, in order.
pub open spec fn kept<T>(items: Seq<T>, links: Seq<Option<int>>, n: int) -> Seq<T>
    decreases n,
{
    if n <= 0 {
        Seq::empty()
    } else if links[n - 1] is Some {
        kept(items, links, n - 1).push(items[n - 1])
    } else {
        kept(items, links, n - 1)
    }
}

/// What is kept of the positions below `n` depends on these positions alone.
proof fn lemma_kept_of_prefix<T>(a: Seq<T>, b: Seq<T>, links: Seq<Option<int>>, n: int)
    requires
        forall|i: int| 0 <= i < n ==> a[i] == b[i],
    ensures
        kept(a, links, n) == kept(b, links, n),
    decreases n,
{
    if n > 0 {
        lemma_kept_of_prefix(a, b, links, n - 1);
    }
}

/// As many items are kept as positions have a link, and the item of a linked position
/// stands as far from the start as linked positions come before it.
proof fn lemma_kept_places<T>(items: Seq<T>, links: Seq<Option<int>>, n: int)
    requires
        0 <= n,
    ensures
        kept(items, links, n).len() == n - unlinked_before(links, n),
        forall|p: int|
            0 <= p < n && #[trigger] links[p] is Some ==> 0 <= p - unlinked_before(links, p) < kept(
                items,
                links,
                n,
            ).len() && kept(items, links, n)[p - unlinked_before(links, p)] == items[p],
    decreases n,
{
    if n > 0 {
        lemma_kept_places(items, links, n - 1);
        lemma_unlinked_bounded(links, n - 1);
    }
}

/// The count of linked positions does not fall as more positions are counted.
proof fn lemma_linked_monotonic(links: Seq<Option<int>>, a: int, b: int)
    requires
        0 <= a <= b,
    ensures
        a - unlinked_before(links, a) <= b - unlinked_before(links, b),
    decreases b - a,
{
    if a < b {
        lemma_linked_monotonic(links, a, b - 1);
    }
}

/// Two sequences of links that have links at the same positions count alike.
proof fn lemma_unlinked_agree(l1: Seq<Option<int>>, l2: Seq<Option<int>>, n: int)
    requires
        forall|i: int| 0 <= i < n ==> (l1[i] is None <==> l2[i] is None),
    ensures
        unlinked_before(l1, n) == unlinked_before(l2, n),
    decreases n,
{
    if n > 0 {
        lemma_unlinked_agree(l1, l2, n - 1);
    }
}

/// Where no position below `n` has a link, all of them are counted.
proof fn lemma_all_unlinked(links: Seq<Option<int>>, n: int)
    requires
        0 <= n,
        forall|i: int| 0 <= i < n ==> links[i] is None,
    ensures
        unlinked_before(links, n) == n,
    decreases n,
{
    if n > 0 {
        lemma_all_unlinked(links, n - 1);
    }
}

/// One more item at the end of `new` gives a link to at most one more position of
/// `old`: the one that holds the item at the rank of the new occurrence.
proof fn lemma_old_links_grow<T>(old: Seq<T>, new: Seq<T>, m: int)
    requires
        new.len() > 0,
        0 <= m <= old.len(),
    ensures
        unlinked_before(links(old, new.drop_last()), m) == unlinked_before(links(old, new), m)
            + if occurrences(new.drop_last(), new.last()) < count_before(old, new.last(), m) {
            1nat
        } else {
            0nat
        },
    decreases m,
{
    if m > 0 {
        lemma_old_links_grow(old, new, m - 1);
        let shorter = new.drop_last();
        let y = old[m - 1];
        lemma_count_of_prefix(new, shorter, y, shorter.len() as int);
    }
}

/// As many positions of `old` have a link as positions of `new` have one.
proof fn lemma_linked_counts_agree<T>(old: Seq<T>, new: Seq<T>)
    ensures
        old.len() - unlinked_before(links(old, new), old.len() as int) == new.len()
            - unlinked_before(links(new, old), new.len() as int),
    decreases new.len(),
{
    if new.len() == 0 {
        lemma_all_unlinked(links(old, new), old.len() as int);
    } else {
        // Without its last item, `new` has the same links, but for the last position
        // itself and for the old position that it pairs with, if there is one.
        let shorter = new.drop_last();
        let last = new.len() - 1;
        lemma_linked_counts_agree(old, shorter);
        lemma_old_links_grow(old, new, old.len() as int);
        assert forall|i: int| 0 <= i < last implies (links(new, old)[i] is None <==> links(
            shorter,
            old,
        )[i] is None) by {
            lemma_count_of_prefix(new, shorter, new[i], i);
        }
        lemma_unlinked_agree(links(new, old), links(shorter, old), last);
        lemma_count_of_prefix(new, shorter, new.last(), last);
    }
}

/// Entries that are no deletions make no difference to what is deleted.
proof fn lemma_apply_deletions_ignores<T>(items: Seq<T>, s: Seq<Edit<T>>, t: Seq<Edit<T>>)
    requires
        forall|k: int| 0 <= k < t.len() ==> !(#[trigger] t[k] is Delete),
    ensures
        apply_deletions(items, s + t) == apply_deletions(items, s),
    decreases t.len(),
{
    if t.len() > 0 {
        assert((s + t).drop_last() == s + t.drop_last());
        lemma_apply_deletions_ignores(items, s, t.drop_last());
    }
}

/// Carrying out the deletions of the positions below `n` keeps of these positions the
/// linked ones, and all that comes after them.
proof fn lemma_apply_deletions_keeps<T>(
    w: Seq<T>,
    old: Seq<T>,
    old_links: Seq<Option<int>>,
    n: int,
)
    requires
        0 <= n <= w.len(),
    ensures
        apply_deletions(w, deletions(old, old_links, n)) == kept(w, old_links, n) + w.skip(n),
    decreases n,
{
    if n > 0 {
        if old_links[n - 1] is None {
            // The deletion of position `n - 1` is the last entry and is taken first.
            let shorter = w.remove(n - 1);
            assert(deletions(old, old_links, n).drop_last() == deletions(old, old_links, n - 1));
            lemma_apply_deletions_keeps(shorter, old, old_links, n - 1);
            lemma_kept_of_prefix(shorter, w, old_links, n - 1);
        } else {
            lemma_apply_deletions_keeps(w, old, old_links, n - 1);
        }
    }
}

/// Carrying out one list after another is carrying out the two joined.
proof fn lemma_apply_placements_joined<T>(
    items: Seq<T>,
    old: Seq<T>,
    s: Seq<Edit<T>>,
    t: Seq<Edit<T>>,
)
    ensures
        apply_placements(items, old, s + t) == apply_placements(
            apply_placements(items, old, s),
            old,
            t,
        ),
    decreases t.len(),
{
    if t.len() > 0 {
        assert((s + t).drop_last() == s + t.drop_last());
        lemma_apply_placements_joined(items, old, s, t.drop_last());
    }
}

/// Deletions place nothing.
proof fn lemma_apply_placements_skips<T>(items: Seq<T>, old: Seq<T>, s: Seq<Edit<T>>)
    requires
        forall|k: int| 0 <= k < s.len() ==> #[trigger] s[k] is Delete,
    ensures
        apply_placements(items, old, s) == items,
    decreases s.len(),
{
    if s.len() > 0 {
        lemma_apply_placements_skips(items, old, s.drop_last());
    }
}

/// Once the entries for the new positions below `n` were carried out on the kept items,
/// the result starts with the first `n` items of `new`, and the kept items that were not
/// reached yet follow.
proof fn lemma_placements_rebuild<T>(old: Seq<T>, new: Seq<T>, n: int)
    requires
        0 <= n <= new.len(),
    ensures
        ({
            let old_links = links(old, new);
            let new_links = links(new, old);
            let rest = kept(old, old_links, old.len() as int);
            let reached = n - unlinked_before(new_links, n);
            &&& 0 <= reached <= rest.len()
            &&& apply_placements(
                rest,
                old,
                placements(old, new, delete_counts(old_links), new_links, n),
            ) == new.take(n) + rest.skip(reached)
        }),
    decreases n,
{
    let old_links = links(old, new);
    let new_links = links(new, old);
    let rest = kept(old, old_links, old.len() as int);
    lemma_unlinked_bounded(new_links, n);
    lemma_linked_counts_agree(old, new);
    lemma_kept_places(old, old_links, old.len() as int);
    lemma_linked_monotonic(new_links, n, new.len() as int);
    if n > 0 {
        let j = n - 1;
        let reached = j - unlinked_before(new_links, j);
        lemma_placements_rebuild(old, new, j);
        let sofar = placements(old, new, delete_counts(old_links), new_links, j);
        let step = placement(old, new, delete_counts(old_links), new_links, j);
        let w = new.take(j) + rest.skip(reached);
        lemma_apply_placements_joined(rest, old, sofar, step);
        lemma_links_in_range(new, old);
        match new_links[j] {
            None => {
                // The insertion puts `new[j]` before the kept items not reached yet.
                assert(apply_placements(w, old, step.drop_last()) == w);
            },
            Some(p) => {
                // `old[p]` is `new[j]`; it is the kept item reached next exactly where
                // position `j` is the expected one, and then there is no entry.
                lemma_paired_is_partner(old, new, p, j);
                assert(old_links[p] == Some(j));
                if expected_position(delete_counts(old_links), new_links, p, j) != j {
                    assert(apply_placements(w, old, step.drop_last()) == w);
                    assert(w.update(j, old[p]) == new.take(n) + rest.skip(reached + 1));
                }
            },
        }
    }
}

/// Carrying out the change list from `old` to `new` on `old` gives `new`.
pub proof fn lemma_replay_rebuilds_new<T>(old: Seq<T>, new: Seq<T>)
    ensures
        replay(old, diff_spec(old, new)) == new,
{
    let old_links = links(old, new);
    let new_links = links(new, old);
    let removed = deletions(old, old_links, old.len() as int);
    let placed = placements(old, new, delete_counts(old_links), new_links, new.len() as int);
    let rest = kept(old, old_links, old.len() as int);
    lemma_links_join_equals(old, new);
    lemma_deletions_ascend(old, old_links, old.len() as int);
    lemma_placements_ascend(old, new, delete_counts(old_links), new_links, new.len() as int);

    lemma_apply_deletions_ignores(old, removed, placed);
    lemma_apply_deletions_keeps(old, old, old_links, old.len() as int);

    lemma_apply_placements_joined(rest, old, removed, placed);
    lemma_apply_placements_skips(rest, old, removed);
    lemma_placements_rebuild(old, new, new.len() as int);
    lemma_linked_counts_agree(old, new);
    lemma_kept_places(old, old_links, old.len() as int);
}

} // verus!
