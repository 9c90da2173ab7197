//! How the positions of two sequences are paired.
//!
//! Two positions, one in each sequence, belong together when they hold the same item
//! and the same number of equal items stands before each of them: the first `x` of the
//! one sequence pairs with the first `x` of the other, the second with the second, and
//! so on. An occurrence beyond those the other sequence has stays without a partner.

use vstd::prelude::*;

verus! {

/// Number of positions below `n` at which `s` holds `x`.
pub open spec fn count_before<T>(s: Seq<T>, x: T, n: int) -> nat
    decreases n,
{
    if n <= 0 {
        0
    } else {
        count_before(s, x, n - 1) + if s[n - 1] == x {
            1nat
        } else {
            0nat
        }
    }
}

/// Number of positions at which `s` holds `x`.
pub open spec fn occurrences<T>(s: Seq<T>, x: T) -> nat {
    count_before(s, x, s.len() as int)
}

/// Number of positions below `i` that hold the same item as position `i`.
pub open spec fn rank<T>(s: Seq<T>, i: int) -> nat {
    count_before(s, s[i], i)
}

/// Position `i` of `s` and position `k` of `other` hold the same item at the same rank.
pub open spec fn paired<T>(s: Seq<T>, other: Seq<T>, i: int, k: int) -> bool {
    &&& 0 <= i < s.len()
    &&& 0 <= k < other.len()
    &&& other[k] == s[i]
    &&& rank(other, k) == rank(s, i)
}

/// Whether `other` has an occurrence of the item at position `i` of `s` for it to pair with.
pub open spec fn has_partner<T>(s: Seq<T>, other: Seq<T>, i: int) -> bool {
    rank(s, i) < occurrences(other, s[i])
}

/// The position of `other` that position `i` of `s` pairs with, where it has one.
pub open spec fn partner<T>(s: Seq<T>, other: Seq<T>, i: int) -> int {
    choose|k: int| paired(s, other, i, k)
}

/// The partner of position `i` of `s` in `other`, or `None` where it has none.
pub open spec fn link<T>(s: Seq<T>, other: Seq<T>, i: int) -> Option<int> {
    if has_partner(s, other, i) {
        Some(partner(s, other, i))
    } else {
        None
    }
}

/// The link of every position of `s` into `other`.
pub open spec fn links<T>(s: Seq<T>, other: Seq<T>) -> Seq<Option<int>> {
    Seq::new(s.len(), |i: int| link(s, other, i))
}

/// Counting further never lowers the count.
pub proof fn lemma_count_monotonic<T>(s: Seq<T>, x: T, a: int, b: int)
    requires
        a <= b,
    ensures
        count_before(s, x, a) <= count_before(s, x, b),
    decreases b - a,
{
    if a < b {
        lemma_count_monotonic(s, x, a, b - 1);
    }
}

/// An item that no counted position holds is counted zero times.
pub proof fn lemma_count_absent<T>(s: Seq<T>, x: T, n: int)
    requires
        forall|i: int| 0 <= i < n ==> s[i] != x,
    ensures
        count_before(s, x, n) == 0,
    decreases n,
{
    if n > 0 {
        lemma_count_absent(s, x, n - 1);
    }
}

/// The count depends only on the positions counted.
pub proof fn lemma_count_of_prefix<T>(s: Seq<T>, t: Seq<T>, x: T, n: int)
    requires
        forall|i: int| 0 <= i < n ==> s[i] == t[i],
    ensures
        count_before(s, x, n) == count_before(t, x, n),
    decreases n,
{
    if n > 0 {
        lemma_count_of_prefix(s, t, x, n - 1);
    }
}

/// Every position ranks below the number of occurrences of its item.
pub proof fn lemma_rank_below_occurrences<T>(s: Seq<T>, i: int)
    requires
        0 <= i < s.len(),
    ensures
        rank(s, i) < occurrences(s, s[i]),
{
    lemma_count_monotonic(s, s[i], i + 1, s.len() as int);
}

/// Of two positions with the same item, the later one has the higher rank.
pub proof fn lemma_rank_increases<T>(s: Seq<T>, i: int, k: int)
    requires
        0 <= i < k < s.len(),
        s[i] == s[k],
    ensures
        rank(s, i) < rank(s, k),
{
    lemma_count_monotonic(s, s[i], i + 1, k);
}

/// Item and rank together identify a position.
pub proof fn lemma_rank_identifies<T>(s: Seq<T>, i: int, k: int)
    requires
        0 <= i < s.len(),
        0 <= k < s.len(),
        s[i] == s[k],
        rank(s, i) == rank(s, k),
    ensures
        i == k,
{
    if i < k {
        lemma_rank_increases(s, i, k);
    } else if k < i {
        lemma_rank_increases(s, k, i);
    }
}

/// Below every count reached there is a position that holds the item at that rank.
pub proof fn lemma_position_at_rank<T>(s: Seq<T>, x: T, r: nat, n: int) -> (k: int)
    requires
        0 <= n <= s.len(),
        r < count_before(s, x, n),
    ensures
        0 <= k < n,
        s[k] == x,
        rank(s, k) == r,
    decreases n,
{
    if s[n - 1] == x && count_before(s, x, n - 1) == r {
        n - 1
    } else {
        lemma_position_at_rank(s, x, r, n - 1)
    }
}

/// A position pairs with at most one position of the other sequence.
pub proof fn lemma_paired_unique<T>(s: Seq<T>, other: Seq<T>, i: int, k1: int, k2: int)
    requires
        paired(s, other, i, k1),
        paired(s, other, i, k2),
    ensures
        k1 == k2,
{
    lemma_rank_identifies(other, k1, k2);
}

/// A position that has a partner is paired with it, and with it alone.
pub proof fn lemma_partner_paired<T>(s: Seq<T>, other: Seq<T>, i: int)
    requires
        0 <= i < s.len(),
        has_partner(s, other, i),
    ensures
        paired(s, other, i, partner(s, other, i)),
        has_partner(other, s, partner(s, other, i)),
        partner(other, s, partner(s, other, i)) == i,
{
    let k = lemma_position_at_rank(other, s[i], rank(s, i), other.len() as int);
    assert(paired(s, other, i, k));
    let p = partner(s, other, i);
    lemma_rank_below_occurrences(s, i);
    lemma_paired_unique(other, s, p, i, partner(other, s, p));
}

/// A position that is paired with another has that one for its partner.
pub proof fn lemma_paired_is_partner<T>(s: Seq<T>, other: Seq<T>, i: int, k: int)
    requires
        paired(s, other, i, k),
    ensures
        has_partner(s, other, i),
        partner(s, other, i) == k,
        link(s, other, i) == Some(k),
{
    lemma_rank_below_occurrences(other, k);
    lemma_paired_unique(s, other, i, k, partner(s, other, i));
}

/// A link, where there is one, points into the other sequence.
pub proof fn lemma_links_in_range<T>(s: Seq<T>, other: Seq<T>)
    ensures
        links(s, other).len() == s.len(),
        forall|i: int|
            0 <= i < s.len() ==> match #[trigger] links(s, other)[i] {
                Some(k) => 0 <= k < other.len() && paired(s, other, i, k),
                None => !has_partner(s, other, i),
            },
{
    assert forall|i: int| 0 <= i < s.len() implies match #[trigger] links(s, other)[i] {
        Some(k) => 0 <= k < other.len() && paired(s, other, i, k),
        None => !has_partner(s, other, i),
    } by {
        if has_partner(s, other, i) {
            lemma_partner_paired(s, other, i);
        }
    }
}

/// The links are the only sequence that gives every paired position its partner and
/// every other position nothing.
pub proof fn lemma_links_determined<T>(s: Seq<T>, other: Seq<T>, given: Seq<Option<int>>)
    requires
        given.len() == s.len(),
        forall|i: int|
            0 <= i < s.len() ==> match #[trigger] given[i] {
                Some(k) => paired(s, other, i, k),
                None => !has_partner(s, other, i),
            },
    ensures
        links(s, other) == given,
{
    assert forall|i: int| 0 <= i < s.len() implies links(s, other)[i] == given[i] by {
        match given[i] {
            Some(k) => {
                lemma_paired_is_partner(s, other, i, k);
            },
            None => {},
        }
    }
}

} // verus!
