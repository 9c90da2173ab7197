//! The entries of a change list, and their mathematical view.

use vstd::prelude::*;

verus! {

/// An item of the new sequence that has no counterpart in the old one.
#[derive(Debug, PartialEq, Eq)]
pub struct Insert<'a, T> {
    /// The item, as the new sequence holds it.
    pub item: &'a T,
    /// Position of the item in the new sequence.
    pub index: usize,
}

/// An item of the old sequence that has no counterpart in the new one.
#[derive(Debug, PartialEq, Eq)]
pub struct Delete<'a, T> {
    /// The item, as the old sequence holds it.
    pub item: &'a T,
    /// Position of the item in the old sequence.
    pub index: usize,
}

/// A paired position whose old and new item compare unequal.
#[derive(Debug, PartialEq, Eq)]
pub struct Replace<'a, T> {
    /// The item of the old position.
    pub old_item: &'a T,
    /// The item of the new position.
    pub new_item: &'a T,
    /// Position of the new item in the new sequence.
    pub index: usize,
}

/// A paired item that is not where the deletions and insertions alone would put it.
#[derive(Debug, PartialEq, Eq)]
pub struct Move<'a, T> {
    /// The item, as the new sequence holds it.
    pub item: &'a T,
    /// Position of the item in the old sequence.
    pub from_index: usize,
    /// Position of the item in the new sequence.
    pub to_index: usize,
}

/// One entry of a change list.
#[derive(Debug, PartialEq, Eq)]
pub enum Change<'a, T> {
    Insert(Insert<'a, T>),
    Delete(Delete<'a, T>),
    Replace(Replace<'a, T>),
    Move(Move<'a, T>),
}

/// The mathematical view of a [`Change`]: the items themselves and unbounded indices.
pub enum Edit<T> {
    Insert { item: T, index: int },
    Delete { item: T, index: int },
    Replace { old_item: T, new_item: T, index: int },
    Move { item: T, from_index: int, to_index: int },
}

impl<'a, T> View for Change<'a, T> {
    type V = Edit<T>;

    open spec fn view(&self) -> Edit<T> {
        match *self {
            Change::Insert(i) => Edit::Insert { item: *i.item, index: i.index as int },
            Change::Delete(d) => Edit::Delete { item: *d.item, index: d.index as int },
            Change::Replace(r) => Edit::Replace {
                old_item: *r.old_item,
                new_item: *r.new_item,
                index: r.index as int,
            },
            Change::Move(m) => Edit::Move {
                item: *m.item,
                from_index: m.from_index as int,
                to_index: m.to_index as int,
            },
        }
    }
}

/// The views of the entries of a change list, in order.
pub open spec fn edits<'a, T>(changes: Seq<Change<'a, T>>) -> Seq<Edit<T>> {
    changes.map_values(|c: Change<'a, T>| c@)
}

/// The position that an entry speaks of: for a deletion the one in the old sequence,
/// for every other entry the one in the new sequence.
pub open spec fn position<T>(e: Edit<T>) -> int {
    match e {
        Edit::Insert { index, .. } => index,
        Edit::Delete { index, .. } => index,
        Edit::Replace { index, .. } => index,
        Edit::Move { to_index, .. } => to_index,
    }
}

/// The entry speaks of positions that `old` and `new` have, and the items it carries
/// are the ones found there.
pub open spec fn sound<T>(e: Edit<T>, old: Seq<T>, new: Seq<T>) -> bool {
    match e {
        Edit::Insert { item, index } => 0 <= index < new.len() && item == new[index],
        Edit::Delete { item, index } => 0 <= index < old.len() && item == old[index],
        Edit::Replace { old_item, new_item, index } => {
            &&& 0 <= index < new.len()
            &&& new_item == new[index]
            &&& old.contains(old_item)
        },
        Edit::Move { item, from_index, to_index } => {
            &&& 0 <= from_index < old.len()
            &&& 0 <= to_index < new.len()
            &&& item == new[to_index]
        },
    }
}

/// Every entry of the list is sound.
pub open spec fn all_sound<T>(s: Seq<Edit<T>>, old: Seq<T>, new: Seq<T>) -> bool {
    forall|k: int| 0 <= k < s.len() ==> sound(#[trigger] s[k], old, new)
}

/// All deletions stand before all other entries, the deletions ascend by old position,
/// and the other entries ascend by new position.
pub open spec fn well_ordered<T>(s: Seq<Edit<T>>) -> bool {
    forall|a: int, b: int|
        0 <= a < b < s.len() ==> {
            &&& (#[trigger] s[b]) is Delete ==> (#[trigger] s[a]) is Delete
            &&& (s[a] is Delete <==> s[b] is Delete) ==> position(s[a]) < position(s[b])
        }
}

impl<'a, T> Change<'a, T> {
    /// The insertion this entry stands for, if it is one.
    pub fn insert(&self) -> (found: Option<&Insert<'a, T>>)
        ensures
            found == (match *self {
                Change::Insert(i) => Some(&i),
                _ => None,
            }),
    {
        match self {
            Change::Insert(i) => Some(i),
            _ => None,
        }
    }

    /// The deletion this entry stands for, if it is one.
    pub fn delete(&self) -> (found: Option<&Delete<'a, T>>)
        ensures
            found == (match *self {
                Change::Delete(d) => Some(&d),
                _ => None,
            }),
    {
        match self {
            Change::Delete(d) => Some(d),
            _ => None,
        }
    }

    /// The replacement this entry stands for, if it is one.
    pub fn replace(&self) -> (found: Option<&Replace<'a, T>>)
        ensures
            found == (match *self {
                Change::Replace(r) => Some(&r),
                _ => None,
            }),
    {
        match self {
            Change::Replace(r) => Some(r),
            _ => None,
        }
    }

    /// The move this entry stands for, if it is one.
    pub fn move_(&self) -> (found: Option<&Move<'a, T>>)
        ensures
            found == (match *self {
                Change::Move(m) => Some(&m),
                _ => None,
            }),
    {
        match self {
            Change::Move(m) => Some(m),
            _ => None,
        }
    }
}

} // verus!
