//! The diff itself: table, matcher and the two passes that emit the change list.

use crate::change::{all_sound, edits, well_ordered, Change};
use crate::laws::{
    lemma_deletions_ascend, lemma_diff_from_empty_inserts_all, lemma_diff_of_equal_is_empty,
    lemma_diff_to_empty_deletes_all, lemma_diff_well_ordered,
};
use crate::matcher::match_positions;
use crate::replay::{lemma_replay_rebuilds_new, replay};
use crate::script::{accumulate_deletes, delete_all, diff_spec, generate_changes, insert_all};
use crate::table::{build_symbol_table, views};
use std::hash::Hash;
use vstd::laws_eq::obeys_concrete_eq;
use vstd::prelude::*;
use vstd::std_specs::hash::obeys_key_model;

verus! {

/// Compares `old` with `new` and returns the changes that lead from the one to the
/// other: first a deletion for every old item without a counterpart, in ascending order
/// of old position, then, in ascending order of new position, an insertion for every new
/// item without a counterpart and a move for every item that has one but stands
/// elsewhere than the deletions and insertions would put it.
///
/// Items are told apart by `==` and found by their hash. The result is the one
/// described where the two are consistent: `==` on `T` decides whether two items are the
/// same value, and references to `T` behave as keys of a hash map should. For other item
/// types the call returns as well, with a list that need not explain anything.
pub fn diff<'a, T: Eq + Hash>(old: &'a [T], new: &'a [T]) -> (changes: Vec<Change<'a, T>>)
    ensures
        all_sound(edits(changes@), old@, new@),
        obeys_key_model::<&'a T>() && obeys_concrete_eq::<T>() ==> {
            &&& edits(changes@) == diff_spec(old@, new@)
            &&& replay(old@, edits(changes@)) == new@
            &&& well_ordered(edits(changes@))
            &&& changes@.len() <= old@.len() + new@.len()
            &&& forall|k: int| 0 <= k < changes@.len() ==> !(#[trigger] changes@[k] is Replace)
            &&& old@ == new@ ==> changes@.len() == 0
            &&& old@.len() == 0 ==> edits(changes@) == insert_all(new@)
            &&& new@.len() == 0 ==> edits(changes@) == delete_all(old@)
        },
{
    let (mut entries, mut old_array, mut new_array, keys) = build_symbol_table(old, new);
    match_positions(
        &mut entries,
        &mut old_array,
        &mut new_array,
        keys,
        Ghost(old@),
        Ghost(new@),
    );
    let (mut changes, delete_offsets) = accumulate_deletes(old, &old_array);
    proof {
        lemma_deletions_ascend(old@, views(old_array@), old@.len() as int);
    }
    generate_changes(old, new, &new_array, &delete_offsets, &mut changes);
    proof {
        if obeys_key_model::<&'a T>() && obeys_concrete_eq::<T>() {
            lemma_replay_rebuilds_new(old@, new@);
            lemma_diff_well_ordered(old@, new@);
            assert forall|k: int| 0 <= k < changes@.len() implies !(#[trigger] changes@[k]
                is Replace) by {
                assert(!(edits(changes@)[k] is Replace));
            }
            if old@ == new@ {
                lemma_diff_of_equal_is_empty(old@);
            }
            if old@.len() == 0 {
                assert(old@ == Seq::<T>::empty());
                lemma_diff_from_empty_inserts_all(new@);
            }
            if new@.len() == 0 {
                assert(new@ == Seq::<T>::empty());
                lemma_diff_to_empty_deletes_all(old@);
            }
        }
    }
    changes
}

} // verus!
