use deep_diff::{diff, Change, Delete, Insert, Move, Replace};
use std::hash::{Hash, Hasher};

fn deleted<T>(item: &T, index: usize) -> Change<'_, T> {
    Change::Delete(Delete { item, index })
}

fn inserted<T>(item: &T, index: usize) -> Change<'_, T> {
    Change::Insert(Insert { item, index })
}

fn moved<T>(item: &T, from_index: usize, to_index: usize) -> Change<'_, T> {
    Change::Move(Move { item, from_index, to_index })
}

#[test]
fn one_item_changed_is_deleted_then_inserted() {
    let old = vec!["a", "b", "c"];
    let new = vec!["a", "B", "c"];
    let changes = diff(&old, &new);
    assert_eq!(changes, vec![deleted(&"b", 1), inserted(&"B", 1)]);
}

#[test]
fn reversal_moves_the_two_ends() {
    let old = vec!["a", "b", "c"];
    let new = vec!["c", "b", "a"];
    let changes = diff(&old, &new);
    assert_eq!(changes, vec![moved(&"c", 2, 0), moved(&"a", 0, 2)]);
}

#[test]
fn last_item_brought_forward_moves_all_it_passes() {
    let old = vec![1, 2, 3, 4, 5];
    let new = vec![1, 5, 2, 3, 4];
    let changes = diff(&old, &new);
    assert_eq!(
        changes,
        vec![moved(&5, 4, 1), moved(&2, 1, 2), moved(&3, 2, 3), moved(&4, 3, 4)]
    );
}

#[test]
fn sitting_to_kitten() {
    let old: Vec<char> = "sitting".chars().collect();
    let new: Vec<char> = "kitten".chars().collect();
    let changes = diff(&old, &new);
    assert_eq!(
        changes,
        vec![
            deleted(&'s', 0),
            deleted(&'i', 4),
            deleted(&'g', 6),
            inserted(&'k', 0),
            inserted(&'e', 4),
        ]
    );
}

#[test]
fn tail_cut_off_is_deleted() {
    let old = vec!["a", "b", "c"];
    let new = vec!["a"];
    let changes = diff(&old, &new);
    assert_eq!(changes, vec![deleted(&"b", 1), deleted(&"c", 2)]);
}

#[test]
fn moves_are_told_from_shifts_by_deletions_and_insertions() {
    let old = vec![3, 2, 1];
    let new = vec![1, 4, 3];
    let changes = diff(&old, &new);
    assert_eq!(
        changes,
        vec![deleted(&2, 1), moved(&1, 2, 0), inserted(&4, 1), moved(&3, 0, 2)]
    );
}

#[test]
fn items_shifted_by_deletions_and_insertions_alone_are_not_moved() {
    let old = vec!["a", "b", "c", "d"];
    let new = vec!["x", "b", "d"];
    let changes = diff(&old, &new);
    assert_eq!(changes, vec![deleted(&"a", 0), deleted(&"c", 2), inserted(&"x", 0)]);
}

#[test]
fn full_permutation_moves_every_item() {
    let old = vec![1, 3, 0, 2];
    let new = vec![0, 2, 3, 1];
    let changes = diff(&old, &new);
    assert_eq!(
        changes,
        vec![moved(&0, 2, 0), moved(&2, 3, 1), moved(&3, 1, 2), moved(&1, 0, 3)]
    );
}

#[test]
fn surplus_occurrence_in_old_is_deleted_last() {
    let old = vec!["a", "a"];
    let new = vec!["a"];
    let changes = diff(&old, &new);
    assert_eq!(changes, vec![deleted(&"a", 1)]);
}

#[test]
fn surplus_occurrence_in_new_is_inserted_last() {
    let old = vec!["a"];
    let new = vec!["a", "a"];
    let changes = diff(&old, &new);
    assert_eq!(changes, vec![inserted(&"a", 1)]);
}

#[test]
fn repeated_items_pair_in_order_of_occurrence() {
    let old = vec!["a", "b", "a"];
    let new = vec!["a", "a", "b"];
    let changes = diff(&old, &new);
    assert_eq!(changes, vec![moved(&"a", 2, 1), moved(&"b", 1, 2)]);
}

#[test]
fn alternating_items_swap_pairwise() {
    let old = vec!['a', 'b', 'a', 'b'];
    let new = vec!['b', 'a', 'b', 'a'];
    let changes = diff(&old, &new);
    assert_eq!(
        changes,
        vec![moved(&'b', 1, 0), moved(&'a', 0, 1), moved(&'b', 3, 2), moved(&'a', 2, 3)]
    );
}

#[test]
fn item_held_many_times_on_both_sides() {
    let old = vec![7, 7, 7];
    let new = vec![7, 7, 7, 7];
    let changes = diff(&old, &new);
    assert_eq!(changes, vec![inserted(&7, 3)]);

    let changes = diff(&new, &old);
    assert_eq!(changes, vec![deleted(&7, 3)]);
}

#[test]
fn unequal_sequence_of_one_item_each() {
    let old = vec![String::from("left")];
    let new = vec![String::from("right")];
    let changes = diff(&old, &new);
    assert_eq!(
        changes,
        vec![deleted(&String::from("left"), 0), inserted(&String::from("right"), 0)]
    );
}

#[test]
fn accessors_tell_the_kinds_apart() {
    let old = vec![1, 2];
    let new = vec![2, 3, 1];
    let changes = diff(&old, &new);
    assert_eq!(changes, vec![moved(&2, 1, 0), inserted(&3, 1), moved(&1, 0, 2)]);

    let first = &changes[0];
    assert_eq!(first.move_(), Some(&Move { item: &2, from_index: 1, to_index: 0 }));
    assert!(first.insert().is_none());
    assert!(first.delete().is_none());
    assert!(first.replace().is_none());

    let second = &changes[1];
    assert_eq!(second.insert(), Some(&Insert { item: &3, index: 1 }));
    assert!(second.move_().is_none());
    assert!(second.delete().is_none());
    assert!(second.replace().is_none());

    let gone = diff(&old, &[]);
    assert_eq!(gone[1].delete(), Some(&Delete { item: &2, index: 1 }));
    assert!(gone[1].insert().is_none());
    assert!(gone[1].replace().is_none());
    assert!(gone[1].move_().is_none());
}

/// An item type that breaks the rules of `PartialEq`: `!=` holds of every pair, also of
/// one that `==` holds of.
#[derive(Debug)]
struct Contrary(u32);

impl PartialEq for Contrary {
    fn eq(&self, other: &Contrary) -> bool {
        self.0 == other.0
    }

    fn ne(&self, _other: &Contrary) -> bool {
        true
    }
}

impl Eq for Contrary {}

impl Hash for Contrary {
    fn hash<H: Hasher>(&self, state: &mut H) {
        self.0.hash(state);
    }
}

#[test]
fn paired_items_that_compare_unequal_are_replaced() {
    let old = vec![Contrary(1), Contrary(2)];
    let new = vec![Contrary(2), Contrary(1)];
    let changes = diff(&old, &new);
    assert_eq!(changes.len(), 4);
    assert_eq!(
        changes[0].replace(),
        Some(&Replace { old_item: &old[1], new_item: &new[0], index: 0 })
    );
    assert_eq!(changes[1].move_(), Some(&Move { item: &new[0], from_index: 1, to_index: 0 }));
    assert_eq!(
        changes[2].replace(),
        Some(&Replace { old_item: &old[0], new_item: &new[1], index: 1 })
    );
    assert_eq!(changes[3].move_(), Some(&Move { item: &new[1], from_index: 0, to_index: 1 }));
    assert!(changes[0].insert().is_none());
    assert!(changes[0].delete().is_none());
    assert!(changes[0].move_().is_none());
}

/// An item type whose hash disagrees with `==`: two items are equal when their names
/// are, but the hash takes the tag into account.
#[derive(Debug)]
struct Tagged {
    name: &'static str,
    tag: u8,
}

impl PartialEq for Tagged {
    fn eq(&self, other: &Tagged) -> bool {
        self.name == other.name
    }
}

impl Eq for Tagged {}

impl Hash for Tagged {
    fn hash<H: Hasher>(&self, state: &mut H) {
        self.tag.hash(state);
    }
}

#[test]
fn items_with_an_inconsistent_hash_still_give_entries_about_real_positions() {
    let old: Vec<Tagged> = (0..40u8).map(|tag| Tagged { name: "same", tag }).collect();
    let new: Vec<Tagged> = (40..90u8).map(|tag| Tagged { name: "same", tag }).collect();
    let changes = diff(&old, &new);
    assert!(changes.len() <= old.len() + 2 * new.len());
    for change in &changes {
        match change {
            Change::Insert(put) => {
                assert!(put.index < new.len());
                assert!(std::ptr::eq(put.item, &new[put.index]));
            }
            Change::Delete(gone) => {
                assert!(gone.index < old.len());
                assert!(std::ptr::eq(gone.item, &old[gone.index]));
            }
            Change::Replace(swap) => {
                assert!(swap.index < new.len());
                assert!(std::ptr::eq(swap.new_item, &new[swap.index]));
            }
            Change::Move(shift) => {
                assert!(shift.from_index < old.len());
                assert!(shift.to_index < new.len());
                assert!(std::ptr::eq(shift.item, &new[shift.to_index]));
            }
        }
    }
}
