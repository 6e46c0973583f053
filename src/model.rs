use vstd::prelude::*;
use vstd::std_specs::hash::obeys_key_model;

verus! {

/// What the cache needs of its key type: hashing and `==` that agree with
/// spec equality, and a `clone` that yields an equal key.
pub open spec fn key_type_ok<K: Clone>() -> bool {
    &&& obeys_key_model::<K>()
    &&& forall|a: K, b: K| #[trigger] cloned(a, b) ==> a == b
}

/// The keys of a cache state, in recency order.
pub open spec fn keys_of<K, V>(s: Seq<(K, V)>) -> Seq<K> {
    s.map_values(|p: (K, V)| p.0)
}

/// Whether `k` is cached in state `s`.
pub open spec fn has_key<K, V>(s: Seq<(K, V)>, k: K) -> bool {
    exists|i: int| 0 <= i < s.len() && (#[trigger] s[i]).0 == k
}

/// The position of `k` in state `s` (meaningful when `has_key(s, k)`).
pub open spec fn key_index<K, V>(s: Seq<(K, V)>, k: K) -> int {
    choose|i: int| 0 <= i < s.len() && (#[trigger] s[i]).0 == k
}

/// A state that a cache of capacity `cap` can be in: distinct keys, at
/// most `cap` of them.
pub open spec fn valid_state<K, V>(s: Seq<(K, V)>, cap: nat) -> bool {
    &&& 0 < cap
    &&& s.len() <= cap
    &&& keys_of(s).no_duplicates()
}

/// State `s` after the entry at position `i` is used: it moves to the front.
pub open spec fn touch<K, V>(s: Seq<(K, V)>, i: int) -> Seq<(K, V)> {
    seq![s[i]] + s.remove(i)
}

/// State `s` after a lookup of `k`.
pub open spec fn get_result<K, V>(s: Seq<(K, V)>, k: K) -> Seq<(K, V)> {
    if has_key(s, k) {
        touch(s, key_index(s, k))
    } else {
        s
    }
}

/// State `s` of a cache of capacity `cap` after storing `v` under `k`: the
/// pair goes to the front, replacing the old pair of `k`; a new key in a full
/// cache pushes out the last, least recently used, pair.
pub open spec fn put_result<K, V>(s: Seq<(K, V)>, k: K, v: V, cap: nat) -> Seq<(K, V)> {
    if has_key(s, k) {
        seq![(k, v)] + s.remove(key_index(s, k))
    } else if s.len() < cap {
        seq![(k, v)] + s
    } else {
        seq![(k, v)] + s.drop_last()
    }
}

} // verus!
