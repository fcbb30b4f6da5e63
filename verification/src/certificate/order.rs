//! Stable ordering of simplices by filtration value and reverse rank.
//!
//! Each simplex is given the key `(value, u128::MAX - rank, position)`:
//! the bit pattern of its value (on non-negative values that are not NaN,
//! the order of the patterns is the numeric order), its colexicographic
//! rank reversed, and its position in the input, which makes the order
//! stable. Sorting the keys yields the order of the simplices.

use vstd::prelude::*;

verus! {

/// A sort key: value pattern, reversed rank, input position.
pub type SimplexKey = (u64, u128, usize);

/// Lexicographic order of keys.
pub open spec fn key_le(first: SimplexKey, second: SimplexKey) -> bool {
    first.0 < second.0 || (first.0 == second.0 && (first.1 < second.1 || (first.1 == second.1 && first.2
        <= second.2)))
}

/// Strict lexicographic order of keys.
pub open spec fn key_lt(first: SimplexKey, second: SimplexKey) -> bool {
    key_le(first, second) && first != second
}

/// Calls `slice::sort_unstable` on the keys: the same keys, as a multiset,
/// in ascending lexicographic order (the order std documents for tuples).
#[verifier::external_body]
pub(crate) fn sort_keys(keys: &mut Vec<SimplexKey>)
    ensures
        final(keys)@.to_multiset() == old(keys)@.to_multiset(),
        forall|i: int, j: int| 0 <= i <= j < final(keys)@.len() ==> key_le(final(keys)@[i], final(keys)@[j]),
{
    keys.sort_unstable();
}

/// Each key carries its own position.
pub open spec fn positioned(keys: Seq<SimplexKey>) -> bool {
    forall|i: int| 0 <= i < keys.len() ==> (#[trigger] keys[i]).2 == i
}

/// Position `i` occurs in `order` below `count`.
pub open spec fn lists(order: Seq<int>, count: nat, i: int) -> bool {
    exists|j: int| 0 <= j < count && #[trigger] order[j] == i
}

/// `order` lists every position below `count` exactly once.
pub open spec fn is_permutation(order: Seq<int>, count: nat) -> bool {
    &&& order.len() == count
    &&& forall|j: int| 0 <= j < count ==> 0 <= #[trigger] order[j] < count
    &&& forall|a: int, b: int| 0 <= a < b < count ==> order[a] != order[b]
    &&& forall|i: int| 0 <= i < count ==> #[trigger] lists(order, count, i)
}

/// The positions of the sorted keys.
pub open spec fn key_positions(sorted: Seq<SimplexKey>) -> Seq<int> {
    Seq::new(sorted.len(), |j: int| sorted[j].2 as int)
}

/// Sorting positioned keys permutes the positions, keeps each key, and
/// orders the keys strictly.
pub proof fn lemma_sorted_keys(keys: Seq<SimplexKey>, sorted: Seq<SimplexKey>)
    requires
        positioned(keys),
        sorted.to_multiset() == keys.to_multiset(),
        forall|i: int, j: int| 0 <= i <= j < sorted.len() ==> key_le(sorted[i], sorted[j]),
    ensures
        sorted.len() == keys.len(),
        is_permutation(key_positions(sorted), keys.len()),
        forall|j: int| 0 <= j < sorted.len() ==> #[trigger] sorted[j] == keys[sorted[j].2 as int],
        forall|i: int, j: int| 0 <= i < j < sorted.len() ==> key_lt(sorted[i], sorted[j]),
{
    broadcast use vstd::seq_lib::group_to_multiset_ensures;

    let n = keys.len();
    assert(sorted.len() == n) by {
        sorted.to_multiset_ensures();
        keys.to_multiset_ensures();
    }
    assert(keys.no_duplicates()) by {
        assert forall|a: int, b: int| 0 <= a < n && 0 <= b < n && a != b implies keys[a] != keys[b] by {
            assert(keys[a].2 == a);
            assert(keys[b].2 == b);
        }
    }
    keys.lemma_multiset_has_no_duplicates();
    sorted.lemma_multiset_has_no_duplicates_conv();
    assert forall|j: int| 0 <= j < n implies #[trigger] sorted[j] == keys[sorted[j].2 as int] && sorted[j].2 < n by {
        assert(sorted.to_multiset().contains(sorted[j]));
        assert(keys.to_multiset().contains(sorted[j]));
        let i = choose|i: int| 0 <= i < n && keys[i] == sorted[j];
        assert(keys[i].2 == i);
    }
    let order = key_positions(sorted);
    assert forall|i: int| 0 <= i < n implies #[trigger] lists(order, n, i) by {
        assert(keys.to_multiset().contains(keys[i]));
        assert(sorted.to_multiset().contains(keys[i]));
        let j = choose|j: int| 0 <= j < n && sorted[j] == keys[i];
        assert(order[j] == i);
    }
    assert forall|a: int, b: int| 0 <= a < b < n implies order[a] != order[b] by {
        if order[a] == order[b] {
            assert(sorted[a] == keys[order[a]]);
            assert(sorted[b] == keys[order[b]]);
        }
    }
    assert forall|i: int, j: int| 0 <= i < j < n implies key_lt(sorted[i], sorted[j]) by {
        assert(key_le(sorted[i], sorted[j]));
    }
}

} // verus!
