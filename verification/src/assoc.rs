//! Spec-level helpers for association sequences: ordered key-value pairs with
//! unique keys, the shape this library gives every per-frame map.

use vstd::prelude::*;

verus! {

/// No key occurs twice.
pub open spec fn keys_unique<K, V>(s: Seq<(K, V)>) -> bool {
    forall|i: int, j: int|
        0 <= i < j < s.len() ==> (#[trigger] s[i]).0 != (#[trigger] s[j]).0
}

/// Some entry carries key `k`.
pub open spec fn has_key<K, V>(s: Seq<(K, V)>, k: K) -> bool {
    exists|i: int| 0 <= i < s.len() && (#[trigger] s[i]).0 == k
}

/// An index of an entry with key `k`; the index when keys are unique.
pub open spec fn key_index<K, V>(s: Seq<(K, V)>, k: K) -> int {
    choose|i: int| 0 <= i < s.len() && (#[trigger] s[i]).0 == k
}

/// The value stored under `k`.
pub open spec fn value_of<K, V>(s: Seq<(K, V)>, k: K) -> V
    recommends
        has_key(s, k),
{
    s[key_index(s, k)].1
}

/// Entry order and all other entries survive an update of the entry at `k`.
pub open spec fn updated_at<K, V>(s: Seq<(K, V)>, k: K, v: V) -> Seq<(K, V)>
    recommends
        has_key(s, k),
{
    s.update(key_index(s, k), (k, v))
}

/// A counter map after one more operation on `k`: the entry for `k` is
/// incremented in place, or appended with count one; all else is unchanged.
pub open spec fn bumped<K>(s: Seq<(K, u64)>, k: K) -> Seq<(K, u64)>
    recommends
        has_key(s, k) ==> value_of(s, k) < u64::MAX,
{
    if has_key(s, k) {
        updated_at(s, k, (value_of(s, k) + 1) as u64)
    } else {
        s.push((k, 1))
    }
}

/// The head's key does not recur in the tail of a unique-keyed sequence.
pub proof fn lemma_unique_head_not_in_tail<K, V>(s: Seq<(K, V)>)
    requires
        keys_unique(s),
        s.len() > 0,
    ensures
        !has_key(s.subrange(1, s.len() as int), s[0].0),
{
    let tail = s.subrange(1, s.len() as int);
    if has_key(tail, s[0].0) {
        let j = choose|j: int| 0 <= j < tail.len() && (#[trigger] tail[j]).0 == s[0].0;
        assert(s[j + 1].0 == s[0].0);
        assert(false);
    }
}

} // verus!
