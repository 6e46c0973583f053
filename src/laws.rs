use vstd::prelude::*;

use crate::model::{get_result, has_key, key_index, keys_of, put_result, valid_state};

verus! {

/// The state reached from `s` by storing each pair of `items`, first to last.
pub open spec fn put_all<K, V>(s: Seq<(K, V)>, items: Seq<(K, V)>, cap: nat) -> Seq<(K, V)>
    decreases items.len(),
{
    if items.len() == 0 {
        s
    } else {
        put_result(put_all(s, items.drop_last(), cap), items.last().0, items.last().1, cap)
    }
}

/// A state whose front pair has key `k` and no other pair has it finds `k`
/// at the front.
proof fn lemma_found_at_front<K, V>(r: Seq<(K, V)>, k: K)
    requires
        r.len() > 0,
        r[0].0 == k,
        forall|j: int| 1 <= j < r.len() ==> (#[trigger] r[j]).0 != k,
    ensures
        has_key(r, k),
        key_index(r, k) == 0,
{
    assert(r[0].0 == k);
}

/// Taking out one pair of a state with distinct keys leaves no pair with
/// that pair's key.
proof fn lemma_removed_key_gone<K, V>(s: Seq<(K, V)>, i: int)
    requires
        keys_of(s).no_duplicates(),
        0 <= i < s.len(),
    ensures
        forall|j: int| 0 <= j < s.len() - 1 ==> (#[trigger] s.remove(i)[j]).0 != s[i].0,
{
    assert forall|j: int| 0 <= j < s.len() - 1 implies (#[trigger] s.remove(i)[j]).0 != s[i].0 by {
        let oj = if j < i { j } else { j + 1 };
        assert(s.remove(i)[j] == s[oj]);
        assert(keys_of(s)[oj] == s[oj].0);
        assert(keys_of(s)[i] == s[i].0);
    }
}

/// Storing distinct keys one after another leaves the most recent ones at
/// the front, newest first, as far as the capacity reaches.
proof fn lemma_put_all_front<K, V>(s: Seq<(K, V)>, items: Seq<(K, V)>, cap: nat)
    requires
        0 < cap,
        s.len() <= cap,
        keys_of(items).no_duplicates(),
    ensures
        put_all(s, items, cap).len() <= cap,
        put_all(s, items, cap).len() >= if items.len() < cap { items.len() } else { cap },
        forall|j: int|
            0 <= j < items.len() && j < cap ==> (#[trigger] put_all(s, items, cap)[j]).0
                == items[items.len() - 1 - j].0,
    decreases items.len(),
{
    if items.len() > 0 {
        let n = items.len();
        let init = items.drop_last();
        assert forall|a: int, b: int|
            0 <= a < init.len() && 0 <= b < init.len() && a != b implies keys_of(init)[a]
            != keys_of(init)[b] by {
            assert(keys_of(init)[a] == keys_of(items)[a]);
            assert(keys_of(init)[b] == keys_of(items)[b]);
        }
        lemma_put_all_front(s, init, cap);
        let prev = put_all(s, init, cap);
        let k = items.last().0;
        let v = items.last().1;
        let r = put_all(s, items, cap);
        assert(r == put_result(prev, k, v, cap));
        let m1: int = if init.len() < cap { init.len() as int } else { cap as int };
        assert forall|j: int| 0 <= j < m1 implies (#[trigger] prev[j]).0 != k by {
            assert(prev[j].0 == init[n - 2 - j].0);
            assert(keys_of(items)[n - 2 - j] == items[n - 2 - j].0);
            assert(keys_of(items)[n - 1] == k);
        }
        if has_key(prev, k) {
            let i = key_index(prev, k);
            assert(i >= m1) by {
                if i < m1 {
                    assert(prev[i].0 != k);
                }
            }
            assert forall|j: int| 0 <= j < n && j < cap implies (#[trigger] r[j]).0 == items[n - 1
                - j].0 by {
                if j > 0 {
                    assert(r[j] == prev.remove(i)[j - 1]);
                    assert(prev[j - 1].0 == init[n - 2 - (j - 1)].0);
                }
            }
        } else if prev.len() < cap {
            assert forall|j: int| 0 <= j < n && j < cap implies (#[trigger] r[j]).0 == items[n - 1
                - j].0 by {
                if j > 0 {
                    assert(r[j] == prev[j - 1]);
                    assert(prev[j - 1].0 == init[n - 2 - (j - 1)].0);
                }
            }
        } else {
            assert forall|j: int| 0 <= j < n && j < cap implies (#[trigger] r[j]).0 == items[n - 1
                - j].0 by {
                if j > 0 {
                    assert(r[j] == prev.drop_last()[j - 1]);
                    assert(prev[j - 1].0 == init[n - 2 - (j - 1)].0);
                }
            }
        }
    }
}

/// Storing `cap + 1` distinct keys into a cache of capacity `cap`, with no
/// lookup in between, leaves the first of them out and all others in.
pub proof fn lemma_eviction<K, V>(s: Seq<(K, V)>, items: Seq<(K, V)>, cap: nat)
    requires
        valid_state(s, cap),
        items.len() == cap + 1,
        keys_of(items).no_duplicates(),
    ensures
        !has_key(put_all(s, items, cap), items[0].0),
        forall|j: int| 1 <= j <= cap ==> has_key(put_all(s, items, cap), #[trigger] items[j].0),
{
    lemma_put_all_front(s, items, cap);
    let r = put_all(s, items, cap);
    assert forall|j: int| 1 <= j <= cap implies has_key(r, #[trigger] items[j].0) by {
        assert(r[cap - j].0 == items[j].0);
    }
    if has_key(r, items[0].0) {
        let i = key_index(r, items[0].0);
        assert(r[i].0 == items[cap - i].0);
        assert(keys_of(items)[cap - i] == items[cap - i].0);
        assert(keys_of(items)[0] == items[0].0);
    }
}

/// A lookup of a cached key makes it the most recently used: the next
/// insertion of a new key, even into a full cache, keeps it (given room for
/// two entries).
pub proof fn lemma_promotion<K, V>(s: Seq<(K, V)>, k: K, k2: K, v2: V, cap: nat)
    requires
        valid_state(s, cap),
        2 <= cap,
        has_key(s, k),
        !has_key(s, k2),
    ensures
        get_result(s, k)[0].0 == k,
        has_key(put_result(get_result(s, k), k2, v2, cap), k),
{
    let i = key_index(s, k);
    let t = get_result(s, k);
    assert(t.len() == s.len());
    assert(!has_key(t, k2)) by {
        if has_key(t, k2) {
            let j = key_index(t, k2);
            if j == 0 {
                assert(s[i].0 == k2);
            } else {
                let oj = if j - 1 < i { j - 1 } else { j };
                assert(t[j] == s[oj]);
            }
        }
    }
    let r = put_result(t, k2, v2, cap);
    assert(r[1] == t[0]);
}

/// Storing under a cached key replaces its value and leaves the number of
/// entries as it was.
pub proof fn lemma_update_in_place<K, V>(s: Seq<(K, V)>, k: K, v: V, cap: nat)
    requires
        valid_state(s, cap),
        has_key(s, k),
    ensures
        put_result(s, k, v, cap).len() == s.len(),
        has_key(put_result(s, k, v, cap), k),
        put_result(s, k, v, cap)[key_index(put_result(s, k, v, cap), k)].1 == v,
{
    let i = key_index(s, k);
    let r = put_result(s, k, v, cap);
    lemma_removed_key_gone(s, i);
    assert forall|j: int| 1 <= j < r.len() implies (#[trigger] r[j]).0 != k by {
        assert(r[j] == s.remove(i)[j - 1]);
    }
    lemma_found_at_front(r, k);
}

/// A lookup right after storing `v` under `k` finds `k`, hands back `v`,
/// and leaves the state as the store left it.
pub proof fn lemma_round_trip<K, V>(s: Seq<(K, V)>, k: K, v: V, cap: nat)
    requires
        valid_state(s, cap),
    ensures
        has_key(put_result(s, k, v, cap), k),
        put_result(s, k, v, cap)[key_index(put_result(s, k, v, cap), k)].1 == v,
        get_result(put_result(s, k, v, cap), k) == put_result(s, k, v, cap),
{
    let r = put_result(s, k, v, cap);
    if has_key(s, k) {
        let i = key_index(s, k);
        lemma_removed_key_gone(s, i);
        assert forall|j: int| 1 <= j < r.len() implies (#[trigger] r[j]).0 != k by {
            assert(r[j] == s.remove(i)[j - 1]);
        }
    } else if s.len() < cap {
        assert forall|j: int| 1 <= j < r.len() implies (#[trigger] r[j]).0 != k by {
            assert(r[j] == s[j - 1]);
        }
    } else {
        assert forall|j: int| 1 <= j < r.len() implies (#[trigger] r[j]).0 != k by {
            assert(r[j] == s[j - 1]);
        }
    }
    lemma_found_at_front(r, k);
    assert(get_result(r, k) =~= r);
}

/// Looking a cached key up again changes nothing more: the state, and so the
/// number of entries and the key's value, stay as the first lookup left them.
pub proof fn lemma_repeated_lookup<K, V>(s: Seq<(K, V)>, k: K, cap: nat)
    requires
        valid_state(s, cap),
        has_key(s, k),
    ensures
        get_result(get_result(s, k), k) == get_result(s, k),
        get_result(s, k).len() == s.len(),
        get_result(s, k)[0] == s[key_index(s, k)],
{
    let i = key_index(s, k);
    let t = get_result(s, k);
    lemma_removed_key_gone(s, i);
    assert forall|j: int| 1 <= j < t.len() implies (#[trigger] t[j]).0 != k by {
        assert(t[j] == s.remove(i)[j - 1]);
    }
    lemma_found_at_front(t, k);
    assert(get_result(t, k) =~= t);
}

} // verus!
