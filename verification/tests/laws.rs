use deep_diff::{diff, Change, Delete, Insert, Move};

/// Carries out a change list on `old`: the deletions last entry first, then the other
/// entries first entry first, each at the position of the result that it names.
fn replay<T: Clone>(old: &[T], changes: &[Change<T>]) -> Vec<T> {
    let mut items: Vec<T> = old.to_vec();
    for change in changes.iter().rev() {
        if let Some(gone) = change.delete() {
            items.remove(gone.index);
        }
    }
    for change in changes {
        match change {
            Change::Insert(put) => items.insert(put.index, put.item.clone()),
            Change::Move(shift) => items[shift.to_index] = old[shift.from_index].clone(),
            Change::Replace(swap) => items[swap.index] = swap.new_item.clone(),
            Change::Delete(_) => {}
        }
    }
    items
}

/// The change list as the pairing by order of occurrence defines it, worked out the
/// slow way.
fn by_definition<'a>(old: &'a [u8], new: &'a [u8]) -> Vec<Change<'a, u8>> {
    let rank = |s: &[u8], i: usize| s[..i].iter().filter(|x| **x == s[i]).count();
    let partner = |s: &[u8], other: &[u8], i: usize| {
        (0..other.len()).find(|k| other[*k] == s[i] && rank(other, *k) == rank(s, i))
    };
    let alone_before = |s: &[u8], other: &[u8], n: usize| {
        (0..n).filter(|i| partner(s, other, *i).is_none()).count()
    };
    let mut changes = Vec::new();
    for i in 0..old.len() {
        if partner(old, new, i).is_none() {
            changes.push(Change::Delete(Delete { item: &old[i], index: i }));
        }
    }
    for j in 0..new.len() {
        match partner(new, old, j) {
            None => changes.push(Change::Insert(Insert { item: &new[j], index: j })),
            Some(p) => {
                if p - alone_before(old, new, p) + alone_before(new, old, j) != j {
                    changes.push(Change::Move(Move { item: &new[j], from_index: p, to_index: j }));
                }
            }
        }
    }
    changes
}

/// Pairs of sequences over small alphabets, in a fixed order that is the same at every
/// run.
fn samples() -> Vec<(Vec<u8>, Vec<u8>)> {
    let mut state: u64 = 0x2545_f491_4f6c_dd1d;
    let mut next = move |bound: u64| {
        state = state.wrapping_mul(6364136223846793005).wrapping_add(1442695040888963407);
        (state >> 33) % bound
    };
    let mut pairs = Vec::new();
    for round in 0..400u64 {
        let letters = 1 + round % 5;
        let old_len = next(9);
        let new_len = next(9);
        let old: Vec<u8> = (0..old_len).map(|_| next(letters) as u8).collect();
        let new: Vec<u8> = (0..new_len).map(|_| next(letters) as u8).collect();
        pairs.push((old, new));
    }
    pairs
}

#[test]
fn equal_sequences_do_not_differ() {
    let words = vec!["to", "be", "or", "not", "to", "be"];
    assert!(diff(&words, &words).is_empty());
    let copy = words.clone();
    assert!(diff(&words, &copy).is_empty());

    for (old, _) in samples() {
        assert_eq!(diff(&old, &old), vec![]);
    }
}

#[test]
fn from_nothing_every_item_is_inserted() {
    for (_, new) in samples() {
        let changes = diff(&[], &new);
        assert_eq!(changes.len(), new.len());
        for (j, change) in changes.iter().enumerate() {
            assert_eq!(change, &Change::Insert(Insert { item: &new[j], index: j }));
        }
    }
}

#[test]
fn to_nothing_every_item_is_deleted() {
    for (old, _) in samples() {
        let changes = diff(&old, &[]);
        assert_eq!(changes.len(), old.len());
        for (i, change) in changes.iter().enumerate() {
            assert_eq!(change, &Change::Delete(Delete { item: &old[i], index: i }));
        }
    }
}

#[test]
fn replaying_the_changes_gives_the_new_sequence() {
    let old = vec!["a", "b", "c", "d", "e"];
    let new = vec!["e", "x", "b", "a", "y", "d"];
    let changes = diff(&old, &new);
    assert_eq!(replay(&old, &changes), new);

    for (old, new) in samples() {
        let changes = diff(&old, &new);
        assert_eq!(replay(&old, &changes), new);
    }
}

#[test]
fn deletions_come_first_and_positions_ascend() {
    for (old, new) in samples() {
        let changes = diff(&old, &new);
        assert!(changes.len() <= old.len() + new.len());

        let deleted = changes.iter().take_while(|c| c.delete().is_some()).count();
        let (removed, placed) = changes.split_at(deleted);
        assert!(placed.iter().all(|c| c.delete().is_none()));
        assert!(placed.iter().all(|c| c.replace().is_none()));

        let old_positions: Vec<usize> = removed.iter().map(|c| c.delete().unwrap().index).collect();
        assert!(old_positions.windows(2).all(|w| w[0] < w[1]));
        assert!(old_positions.iter().all(|i| *i < old.len()));

        let new_positions: Vec<usize> = placed
            .iter()
            .map(|c| match c {
                Change::Insert(put) => put.index,
                Change::Move(shift) => shift.to_index,
                Change::Replace(swap) => swap.index,
                Change::Delete(gone) => gone.index,
            })
            .collect();
        assert!(new_positions.windows(2).all(|w| w[0] < w[1]));
        assert!(new_positions.iter().all(|j| *j < new.len()));
    }
}

#[test]
fn changes_are_those_of_pairing_by_order_of_occurrence() {
    for (old, new) in samples() {
        assert_eq!(diff(&old, &new), by_definition(&old, &new));
    }
}

#[test]
fn moves_carry_the_item_of_both_positions() {
    for (old, new) in samples() {
        for change in diff(&old, &new) {
            if let Some(shift) = change.move_() {
                assert_eq!(shift.item, &old[shift.from_index]);
                assert_eq!(shift.item, &new[shift.to_index]);
            }
        }
    }
}
