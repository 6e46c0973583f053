use std::collections::HashMap;
use std::hash::Hash;
use vstd::prelude::*;

use crate::model::{get_result, has_key, key_index, key_type_ok, keys_of, put_result, valid_state};
use crate::node::{create_node, InternalNode, Node};

verus! {

/// Why a cache could not be built.
#[derive(Debug, PartialEq, Eq, Structural)]
pub enum LruError {
    InvalidCapacity,
}

/// The entries' payload (key and value) is the same in both arenas; only
/// links may differ.
spec fn same_payload<K, V>(a: Seq<InternalNode<K, V>>, b: Seq<InternalNode<K, V>>) -> bool {
    &&& a.len() == b.len()
    &&& forall|j: int| 0 <= j < a.len() ==> (#[trigger] b[j]).key == a[j].key && b[j].value == a[j].value
}

/// `order` lists distinct slots of `entries` from head to tail, and the
/// links, head and tail agree with it.
spec fn links_ok<K, V>(
    entries: Seq<InternalNode<K, V>>,
    order: Seq<usize>,
    head: Option<usize>,
    tail: Option<usize>,
) -> bool {
    &&& order.no_duplicates()
    &&& forall|i: int| 0 <= i < order.len() ==> #[trigger] order[i] < entries.len()
    &&& head == (if order.len() == 0 { None } else { Some(order[0]) })
    &&& tail == (if order.len() == 0 { None } else { Some(order.last()) })
    &&& forall|i: int| 0 <= i < order.len() ==> #[trigger] entries[order[i] as int].prev == (if i == 0 {
        None
    } else {
        Some(order[i - 1])
    })
    &&& forall|i: int| 0 <= i < order.len() ==> #[trigger] entries[order[i] as int].next == (if i
        == order.len() - 1 {
        None
    } else {
        Some(order[i + 1])
    })
}

/// A bounded map that forgets its least recently used entry when it
/// overflows.
///
/// Entries live in one arena (`entries`); the recency list links them by
/// slot number and `lookup` maps each key to its slot.
pub struct LRU<K, V> {
    capacity: u32,
    length: u64,
    head: Option<usize>,
    tail: Option<usize>,
    lookup: HashMap<K, usize>,
    entries: Vec<InternalNode<K, V>>,
    order: Ghost<Seq<usize>>,
}

impl<Key, Val> View for LRU<Key, Val> {
    type V = Seq<(Key, Val)>;

    /// The cached pairs, most recently used first.
    closed spec fn view(&self) -> Seq<(Key, Val)> {
        self.order@.map_values(|s: usize| (self.entries@[s as int].key, self.entries@[s as int].value))
    }
}

impl<K: Eq + Hash + Clone, V: Clone> LRU<K, V> {
    spec fn list_ok(&self) -> bool {
        links_ok(self.entries@, self.order@, self.head, self.tail)
    }

    /// Unlinks the entry at position `i` of the recency order.
    fn detach(&mut self, slot: usize, Ghost(i): Ghost<int>)
        requires
            old(self).list_ok(),
            0 <= i < old(self).order@.len(),
            old(self).order@[i] == slot,
        ensures
            final(self).list_ok(),
            final(self).order@ == old(self).order@.remove(i),
            final(self).entries@[slot as int].prev is None,
            final(self).entries@[slot as int].next is None,
            same_payload(old(self).entries@, final(self).entries@),
            final(self).lookup == old(self).lookup,
            final(self).capacity == old(self).capacity,
            final(self).length == old(self).length,
    {
        let ghost order = self.order@;
        let ghost old_entries = self.entries@;
        let prev = self.entries[slot].prev;
        let next = self.entries[slot].next;
        match prev {
            Some(p) => {
                self.entries[p].next = next;
            },
            None => {
                self.head = next;
            },
        }
        match next {
            Some(n) => {
                self.entries[n].prev = prev;
            },
            None => {
                self.tail = prev;
            },
        }
        self.entries[slot].prev = None;
        self.entries[slot].next = None;
        self.order = Ghost(order.remove(i));
        proof {
            let new_order = order.remove(i);
            order.remove_ensures(i);
            assert forall|j: int| 0 <= j < new_order.len() implies new_order[j] != slot by {
                if j < i {
                    assert(order[j] == new_order[j]);
                } else {
                    assert(order[j + 1] == new_order[j]);
                }
            }
            assert(new_order.no_duplicates()) by {
                assert forall|a: int, b: int|
                    0 <= a < new_order.len() && 0 <= b < new_order.len() && a != b implies new_order[a]
                    != new_order[b] by {
                    let oa = if a < i { a } else { a + 1 };
                    let ob = if b < i { b } else { b + 1 };
                    assert(new_order[a] == order[oa]);
                    assert(new_order[b] == order[ob]);
                }
            }
            assert forall|j: int| 0 <= j < new_order.len() implies #[trigger] self.entries@[new_order[j] as int].prev == (if j == 0 {
                None
            } else {
                Some(new_order[j - 1])
            }) by {
                let oj = if j < i { j } else { j + 1 };
                assert(new_order[j] == order[oj]);
                if j > 0 {
                    let pj = if j - 1 < i { j - 1 } else { j };
                    assert(new_order[j - 1] == order[pj]);
                }
                if i > 0 {
                    assert(order[i - 1] != order[oj] || oj == i - 1);
                }
            }
            assert forall|j: int| 0 <= j < new_order.len() implies #[trigger] self.entries@[new_order[j] as int].next == (if j
                == new_order.len() - 1 {
                None
            } else {
                Some(new_order[j + 1])
            }) by {
                let oj = if j < i { j } else { j + 1 };
                assert(new_order[j] == order[oj]);
                if j + 1 < new_order.len() {
                    let nj = if j + 1 < i { j + 1 } else { j + 2 };
                    assert(new_order[j + 1] == order[nj]);
                }
                if i + 1 < order.len() {
                    assert(order[i + 1] != order[oj] || oj == i + 1);
                }
            }
            assert(same_payload(old_entries, self.entries@));
        }
    }

    /// Links `slot`, which is not in the recency order, in as its head.
    fn prepend(&mut self, slot: usize)
        requires
            old(self).list_ok(),
            slot < old(self).entries@.len(),
            !old(self).order@.contains(slot),
        ensures
            final(self).list_ok(),
            final(self).order@ == seq![slot] + old(self).order@,
            same_payload(old(self).entries@, final(self).entries@),
            final(self).lookup == old(self).lookup,
            final(self).capacity == old(self).capacity,
            final(self).length == old(self).length,
    {
        let ghost order = self.order@;
        let ghost old_entries = self.entries@;
        match self.head {
            Some(h) => {
                self.entries[h].prev = Some(slot);
            },
            None => {
                self.tail = Some(slot);
            },
        }
        self.entries[slot].next = self.head;
        self.entries[slot].prev = None;
        self.head = Some(slot);
        self.order = Ghost(seq![slot] + order);
        proof {
            let new_order = seq![slot] + order;
            assert forall|j: int| 0 < j < new_order.len() implies new_order[j] == order[j - 1]
                && new_order[j] != slot by {}
            assert(new_order.no_duplicates()) by {
                assert forall|a: int, b: int|
                    0 <= a < new_order.len() && 0 <= b < new_order.len() && a != b implies new_order[a]
                    != new_order[b] by {
                    if a > 0 && b > 0 {
                        assert(new_order[a] == order[a - 1]);
                        assert(new_order[b] == order[b - 1]);
                    }
                }
            }
            assert forall|j: int| 0 <= j < new_order.len() implies #[trigger] self.entries@[new_order[j] as int].prev == (if j == 0 {
                None
            } else {
                Some(new_order[j - 1])
            }) by {
                if j > 0 {
                    assert(new_order[j] == order[j - 1]);
                    if j > 1 {
                        assert(new_order[j - 1] == order[j - 2]);
                    }
                }
            }
            assert forall|j: int| 0 <= j < new_order.len() implies #[trigger] self.entries@[new_order[j] as int].next == (if j
                == new_order.len() - 1 {
                None
            } else {
                Some(new_order[j + 1])
            }) by {
                if j > 0 {
                    assert(new_order[j] == order[j - 1]);
                    assert(order[j - 1] != order[0] || j == 1);
                }
            }
            assert(same_payload(old_entries, self.entries@));
        }
    }

    /// Unlinks the tail, the least recently used entry, and returns its slot.
    fn evict_tail(&mut self) -> (slot: usize)
        requires
            old(self).list_ok(),
            old(self).order@.len() > 0,
        ensures
            slot == old(self).order@.last(),
            final(self).list_ok(),
            final(self).order@ == old(self).order@.drop_last(),
            same_payload(old(self).entries@, final(self).entries@),
            final(self).lookup == old(self).lookup,
            final(self).capacity == old(self).capacity,
            final(self).length == old(self).length,
    {
        let slot = self.tail.unwrap();
        self.detach(slot, Ghost(self.order@.len() - 1));
        proof {
            assert(self.order@ =~= old(self).order@.drop_last());
        }
        slot
    }

    /// The cache is consistent and holds at most `capacity` entries.
    pub closed spec fn wf(&self) -> bool {
        &&& self.consistent()
        &&& self.length <= self.capacity
    }

    /// The arena, the recency list and the index describe the same entries.
    spec fn consistent(&self) -> bool {
        &&& key_type_ok::<K>()
        &&& 0 < self.capacity
        &&& self.entries@.len() == self.length
        &&& self.order@.len() == self.length
        &&& self.list_ok()
        &&& forall|s: usize| s < self.entries@.len() ==> #[trigger] self.order@.contains(s)
        &&& self.lookup@.len() == self.length
        &&& forall|s: int|
            0 <= s < self.entries@.len() ==> self.lookup@.contains_key((#[trigger] self.entries@[s]).key)
                && self.lookup@[self.entries@[s].key] == s
        &&& forall|k: K| #[trigger]
            self.lookup@.contains_key(k) ==> self.lookup@[k] < self.entries@.len()
                && self.entries@[self.lookup@[k] as int].key == k
    }

    /// As `consistent`, but arena slot `t` is free: it is on neither the
    /// recency list nor the index.
    spec fn consistent_except(&self, t: usize) -> bool {
        &&& key_type_ok::<K>()
        &&& 0 < self.capacity
        &&& t < self.entries@.len()
        &&& self.entries@.len() == self.length + 1
        &&& self.order@.len() == self.length
        &&& self.list_ok()
        &&& !self.order@.contains(t)
        &&& forall|s: usize| s < self.entries@.len() && s != t ==> #[trigger] self.order@.contains(s)
        &&& self.lookup@.len() == self.length
        &&& forall|s: int|
            0 <= s < self.entries@.len() && s != t ==> self.lookup@.contains_key(
                (#[trigger] self.entries@[s]).key,
            ) && self.lookup@[self.entries@[s].key] == s
        &&& forall|k: K| #[trigger]
            self.lookup@.contains_key(k) ==> self.lookup@[k] < self.entries@.len() && self.lookup@[k]
                != t && self.entries@[self.lookup@[k] as int].key == k
    }

    /// The bound fixed at construction.
    pub closed spec fn spec_capacity(&self) -> nat {
        self.capacity as nat
    }

    /// The entry count kept by the cache.
    pub closed spec fn spec_len(&self) -> nat {
        self.length as nat
    }

    /// The number of records in the index.
    pub closed spec fn index_len(&self) -> nat {
        self.lookup@.len()
    }

    /// The number of entries on the recency list.
    pub closed spec fn list_len(&self) -> nat {
        self.order@.len()
    }

    proof fn lemma_key_position(&self, k: K, i: int)
        requires
            self.wf(),
            0 <= i < self.order@.len(),
            self.entries@[self.order@[i] as int].key == k,
        ensures
            has_key(self@, k),
            key_index(self@, k) == i,
            self@[i] == (k, self.entries@[self.order@[i] as int].value),
    {
        assert(self@[i].0 == k);
        let j = key_index(self@, k);
        assert(self.entries@[self.order@[j] as int].key == k);
        assert(self.lookup@[k] == self.order@[j]);
        assert(self.lookup@[k] == self.order@[i]);
    }

    proof fn lemma_absent(&self, k: K)
        requires
            self.wf(),
            !self.lookup@.contains_key(k),
        ensures
            !has_key(self@, k),
    {
        if has_key(self@, k) {
            let j = key_index(self@, k);
            assert(self.entries@[self.order@[j] as int].key == k);
        }
    }

    /// After the entry at position `i` moved to the head (its value possibly
    /// replaced), the cache is consistent again and its pairs are those of
    /// `prev` with that entry moved to the front.
    proof fn lemma_touched(&self, prev: Self, i: int)
        requires
            prev.wf(),
            0 <= i < prev.order@.len(),
            self.list_ok(),
            self.order@ == seq![prev.order@[i]] + prev.order@.remove(i),
            self.entries@.len() == prev.entries@.len(),
            forall|j: int|
                0 <= j < self.entries@.len() ==> (#[trigger] self.entries@[j]).key
                    == prev.entries@[j].key,
            forall|j: int|
                0 <= j < self.entries@.len() && j != prev.order@[i] ==> (#[trigger] self.entries@[j]).value
                    == prev.entries@[j].value,
            self.lookup == prev.lookup,
            self.capacity == prev.capacity,
            self.length == prev.length,
        ensures
            self.wf(),
            self@ == seq![(prev@[i].0, self.entries@[prev.order@[i] as int].value)] + prev@.remove(i),
    {
        let order = prev.order@;
        let slot = order[i];
        assert forall|s: usize| s < self.entries@.len() implies #[trigger] self.order@.contains(s) by {
            assert(order.contains(s));
            let j = choose|j: int| 0 <= j < order.len() && order[j] == s;
            if j < i {
                assert(self.order@[j + 1] == s);
            } else if j > i {
                assert(self.order@[j] == s);
            } else {
                assert(self.order@[0] == s);
            }
        }
        assert forall|s: int| 0 <= s < self.entries@.len() implies self.lookup@.contains_key(
            (#[trigger] self.entries@[s]).key,
        ) && self.lookup@[self.entries@[s].key] == s by {
            assert(prev.entries@[s].key == self.entries@[s].key);
        }
        let expect = seq![(prev@[i].0, self.entries@[slot as int].value)] + prev@.remove(i);
        assert forall|j: int| 0 <= j < self@.len() implies self@[j] == expect[j] by {
            if j > 0 {
                let oj = if j - 1 < i { j - 1 } else { j };
                assert(self.order@[j] == order[oj]);
                assert(order[oj] != slot);
            }
        }
        assert(self@ =~= expect);
    }

    /// After a new key went in at the head, in a fresh slot at the end of the
    /// arena, the cache is consistent again and one entry longer.
    proof fn lemma_inserted(&self, prev: Self, k: K)
        requires
            prev.wf(),
            !prev.lookup@.contains_key(k),
            self.list_ok(),
            self.capacity == prev.capacity,
            self.order@ == seq![prev.length as usize] + prev.order@,
            self.entries@.len() == prev.entries@.len() + 1,
            self.entries@[prev.length as int].key == k,
            forall|j: int|
                0 <= j < prev.entries@.len() ==> (#[trigger] self.entries@[j]).key
                    == prev.entries@[j].key && self.entries@[j].value == prev.entries@[j].value,
            self.lookup@ == prev.lookup@.insert(k, prev.length as usize),
            self.length == prev.length + 1,
        ensures
            self.consistent(),
            self@ == seq![(k, self.entries@[prev.length as int].value)] + prev@,
    {
        let order = prev.order@;
        let n = order.len();
        let slot = prev.length as usize;
        let v = self.entries@[slot as int].value;
        let old_lookup = prev.lookup@;
        assert forall|s: usize| s < self.entries@.len() implies #[trigger] self.order@.contains(s) by {
            if s != slot {
                assert(order.contains(s));
                let j = choose|j: int| 0 <= j < n && order[j] == s;
                assert(self.order@[j + 1] == s);
            } else {
                assert(self.order@[0] == s);
            }
        }
        assert(self.lookup@.dom() =~= old_lookup.dom().insert(k));
        assert forall|s: int| 0 <= s < self.entries@.len() implies self.lookup@.contains_key(
            (#[trigger] self.entries@[s]).key,
        ) && self.lookup@[self.entries@[s].key] == s by {
            if s != slot {
                let ks = prev.entries@[s].key;
                assert(old_lookup[ks] == s);
            }
        }
        assert forall|kk: K| #[trigger]
            self.lookup@.contains_key(kk) implies self.lookup@[kk] < self.entries@.len()
            && self.entries@[self.lookup@[kk] as int].key == kk by {
            if kk != k {
                assert(old_lookup.contains_key(kk));
                let s = old_lookup[kk];
                assert(prev.entries@[s as int].key == kk);
                assert(self.entries@[s as int].key == kk);
            }
        }
        let expect = seq![(k, v)] + prev@;
        assert forall|j: int| 0 <= j < self@.len() implies self@[j] == expect[j] by {
            if j > 0 {
                assert(self.order@[j] == order[j - 1]);
            }
        }
        assert(self@ =~= expect);
    }

    /// After the tail `t` left the recency list and its key left the index,
    /// the cache is consistent but for the free slot `t`.
    proof fn lemma_evicted(&self, prev: Self, t: usize)
        requires
            prev.consistent(),
            prev.order@.len() > 0,
            t == prev.order@.last(),
            self.list_ok(),
            self.order@ == prev.order@.drop_last(),
            same_payload(prev.entries@, self.entries@),
            self.lookup@ == prev.lookup@.remove(prev.entries@[t as int].key),
            self.length == prev.length - 1,
            self.capacity == prev.capacity,
        ensures
            self.consistent_except(t),
            self@ == prev@.drop_last(),
            self.lookup@.dom() == prev.lookup@.dom().remove(prev@.last().0),
    {
        let order = prev.order@;
        let n = order.len();
        let kt = prev.entries@[t as int].key;
        let old_lookup = prev.lookup@;
        assert(old_lookup.contains_key(kt) && old_lookup[kt] == t);
        assert(prev@.last().0 == kt);
        assert(self.lookup@.dom() =~= old_lookup.dom().remove(kt));
        assert forall|s: usize| s < self.entries@.len() && s != t implies #[trigger] self.order@.contains(
            s,
        ) by {
            assert(order.contains(s));
            let j = choose|j: int| 0 <= j < n && order[j] == s;
            assert(self.order@[j] == s);
        }
        assert(!self.order@.contains(t)) by {
            if self.order@.contains(t) {
                let j = choose|j: int| 0 <= j < n - 1 && self.order@[j] == t;
                assert(order[j] == order[n - 1]);
            }
        }
        assert forall|s: int| 0 <= s < self.entries@.len() && s != t implies self.lookup@.contains_key(
            (#[trigger] self.entries@[s]).key,
        ) && self.lookup@[self.entries@[s].key] == s by {
            let ks = prev.entries@[s].key;
            assert(old_lookup[ks] == s);
        }
        assert forall|kk: K| #[trigger]
            self.lookup@.contains_key(kk) implies self.lookup@[kk] < self.entries@.len()
            && self.lookup@[kk] != t && self.entries@[self.lookup@[kk] as int].key == kk by {
            assert(old_lookup.contains_key(kk));
            let s = old_lookup[kk];
            assert(prev.entries@[s as int].key == kk);
            assert(self.entries@[s as int].key == kk);
        }
        assert(self@ =~= prev@.drop_last());
    }

    /// In every consistent cache the entry count, the index and the recency
    /// list agree in size and stay within the capacity; the pairs have
    /// distinct keys.
    pub proof fn lemma_sizes_agree(&self)
        requires
            self.wf(),
        ensures
            self.spec_len() == self.index_len(),
            self.index_len() == self.list_len(),
            self.list_len() <= self.spec_capacity(),
            self@.len() == self.spec_len(),
            valid_state(self@, self.spec_capacity()),
    {
        let ks = keys_of(self@);
        assert forall|a: int, b: int| 0 <= a < ks.len() && 0 <= b < ks.len() && a != b implies ks[a]
            != ks[b] by {
            if ks[a] == ks[b] {
                assert(self.entries@[self.order@[a] as int].key == ks[a]);
                assert(self.entries@[self.order@[b] as int].key == ks[b]);
                assert(self.lookup@[ks[a]] == self.order@[a]);
            }
        }
    }

    /// Removes the least recently used entry when the cache holds one more
    /// entry than its capacity; within capacity it changes nothing.
    fn trim_cache(&mut self)
        requires
            old(self).consistent(),
            old(self).length <= old(self).capacity + 1,
        ensures
            final(self).wf(),
            final(self).capacity == old(self).capacity,
            old(self).length <= old(self).capacity ==> *final(self) == *old(self),
            old(self).length == old(self).capacity + 1 ==> {
                &&& final(self)@ == old(self)@.drop_last()
                &&& final(self).length == old(self).capacity
                &&& final(self).lookup@.dom() == old(self).lookup@.dom().remove(old(self)@.last().0)
            },
    {
        if self.length <= self.capacity as u64 {
            return;
        }
        let ghost before = *self;
        let t = self.evict_tail();
        let _ = self.lookup.remove(&self.entries[t].key);
        self.length = self.length - 1;
        proof {
            self.lemma_evicted(before, t);
        }
        self.compact(t);
    }

    /// Fills the free slot `t` with the arena's last entry and shortens the
    /// arena by one. The moved entry keeps its place in the recency order.
    fn compact(&mut self, t: usize)
        requires
            old(self).consistent_except(t),
        ensures
            final(self).consistent(),
            final(self)@ == old(self)@,
            final(self).lookup@.dom() == old(self).lookup@.dom(),
            final(self).length == old(self).length,
            final(self).capacity == old(self).capacity,
    {
        let ghost order = self.order@;
        let ghost old_entries = self.entries@;
        let ghost old_lookup = self.lookup@;
        let last = self.entries.len() - 1;
        let _ = self.entries.swap_remove(t);
        if t < last {
            proof {
                assert(order.contains(last));
            }
            let ghost p = choose|p: int| 0 <= p < order.len() && order[p] == last;
            let ghost key_last = old_entries[last as int].key;
            proof {
                assert(self.entries@[t as int] == old_entries[last as int]);
                if p > 0 {
                    assert(order[p - 1] != last && order[p - 1] < old_entries.len());
                }
                if p + 1 < order.len() {
                    assert(order[p + 1] != last && order[p + 1] < old_entries.len());
                }
                assert(old_lookup[key_last] == last);
            }
            let prev = self.entries[t].prev;
            let next = self.entries[t].next;
            match prev {
                Some(a) => {
                    self.entries[a].next = Some(t);
                },
                None => {
                    self.head = Some(t);
                },
            }
            match next {
                Some(b) => {
                    self.entries[b].prev = Some(t);
                },
                None => {
                    self.tail = Some(t);
                },
            }
            let k = clone_key(&self.entries[t].key);
            self.lookup.insert(k, t);
            self.order = Ghost(order.update(p, t));
            proof {
                let n = order.len();
                let new_order = order.update(p, t);
                assert forall|j: int| 0 <= j < n && j != p implies #[trigger] order[j] != last
                    && order[j] != t && order[j] < last by {
                    if order[j] == t {
                        assert(order.contains(t));
                    }
                }
                assert(new_order.no_duplicates()) by {
                    assert forall|a: int, b: int|
                        0 <= a < n && 0 <= b < n && a != b implies new_order[a] != new_order[b] by {
                        if a != p && b != p {
                            assert(new_order[a] == order[a] && new_order[b] == order[b]);
                        }
                    }
                }
                assert forall|j: int| 0 <= j < n implies (#[trigger] self.entries@[new_order[j] as int]).key
                    == old_entries[order[j] as int].key && self.entries@[new_order[j] as int].value
                    == old_entries[order[j] as int].value by {
                    if j != p {
                        assert(new_order[j] == order[j]);
                    }
                }
                assert forall|j: int| 0 <= j < n implies #[trigger] self.entries@[new_order[j] as int].prev
                    == (if j == 0 {
                    None
                } else {
                    Some(new_order[j - 1])
                }) by {
                    if j != p {
                        assert(new_order[j] == order[j]);
                    }
                    if j > 0 && j - 1 != p {
                        assert(new_order[j - 1] == order[j - 1]);
                    }
                }
                assert forall|j: int| 0 <= j < n implies #[trigger] self.entries@[new_order[j] as int].next
                    == (if j == n - 1 {
                    None
                } else {
                    Some(new_order[j + 1])
                }) by {
                    if j != p {
                        assert(new_order[j] == order[j]);
                    }
                    if j + 1 < n && j + 1 != p {
                        assert(new_order[j + 1] == order[j + 1]);
                    }
                }
                assert forall|s: usize| s < self.entries@.len() implies #[trigger] new_order.contains(s) by {
                    if s == t {
                        assert(new_order[p] == s);
                    } else {
                        assert(order.contains(s));
                        let j = choose|j: int| 0 <= j < n && order[j] == s;
                        assert(new_order[j] == s);
                    }
                }
                assert(self.lookup@.dom() =~= old_lookup.dom());
                assert forall|s: int| 0 <= s < self.entries@.len() implies self.lookup@.contains_key(
                    (#[trigger] self.entries@[s]).key,
                ) && self.lookup@[self.entries@[s].key] == s by {
                    if s != t {
                        assert(self.entries@[s].key == old_entries[s].key);
                        assert(old_lookup[old_entries[s].key] == s);
                    }
                }
                assert forall|kk: K| #[trigger]
                    self.lookup@.contains_key(kk) implies self.lookup@[kk] < self.entries@.len()
                    && self.entries@[self.lookup@[kk] as int].key == kk by {
                    if kk != key_last {
                        let s = old_lookup[kk];
                        assert(old_entries[s as int].key == kk);
                        assert(s != last);
                        assert(self.entries@[s as int].key == kk);
                    }
                }
                assert forall|j: int| 0 <= j < n implies self@[j] == old(self)@[j] by {}
                assert(self@ =~= old(self)@);
            }
        } else {
            proof {
                assert(self.entries@ =~= old_entries.drop_last());
                assert forall|j: int| 0 <= j < order.len() implies #[trigger] order[j] < last by {
                    assert(order[j] != t);
                }
                assert(self@ =~= order.map_values(
                    |s: usize| (old_entries[s as int].key, old_entries[s as int].value),
                ));
            }
        }
    }

    /// An empty cache that holds at most `capacity` entries; a capacity of
    /// zero is refused.
    pub fn new(capacity: u32) -> (r: Result<Self, LruError>)
        requires
            key_type_ok::<K>(),
        ensures
            r is Err <==> capacity == 0,
            match r {
                Ok(c) => c.wf() && c@ == Seq::<(K, V)>::empty() && c.spec_capacity() == capacity,
                Err(e) => e == LruError::InvalidCapacity,
            },
    {
        if capacity == 0 {
            return Err(LruError::InvalidCapacity);
        }
        let c = LRU {
            capacity,
            length: 0,
            head: None,
            tail: None,
            lookup: HashMap::new(),
            entries: Vec::new(),
            order: Ghost(Seq::empty()),
        };
        proof {
            assert(c@ =~= Seq::<(K, V)>::empty());
        }
        Ok(c)
    }

    /// The number of cached entries.
    pub fn len(&self) -> (r: u32)
        requires
            self.wf(),
        ensures
            r == self@.len(),
    {
        proof {
            self.lemma_sizes_agree();
        }
        self.length as u32
    }

    /// The bound fixed at construction.
    pub fn capacity(&self) -> (r: u32)
        ensures
            r == self.spec_capacity(),
    {
        self.capacity
    }

    /// Looks `key` up. On a hit the entry becomes the most recently used and
    /// a copy of its value is returned; on a miss nothing changes.
    pub fn get(&mut self, key: &K) -> (r: Option<Node<V>>)
        requires
            old(self).wf(),
        ensures
            final(self).wf(),
            final(self).spec_capacity() == old(self).spec_capacity(),
            final(self)@ == get_result(old(self)@, *key),
            r is Some <==> has_key(old(self)@, *key),
            match r {
                Some(n) => cloned(old(self)@[key_index(old(self)@, *key)].1, n@),
                None => true,
            },
    {
        let found = match self.lookup.get(key) {
            Some(s) => Some(*s),
            None => None,
        };
        match found {
            Some(slot) => {
                proof {
                    assert(self.order@.contains(slot));
                }
                let ghost i = choose|i: int| 0 <= i < self.order@.len() && self.order@[i] == slot;
                proof {
                    self.lemma_key_position(*key, i);
                }
                self.detach(slot, Ghost(i));
                self.prepend(slot);
                let v = self.entries[slot].get();
                proof {
                    self.lemma_touched(*old(self), i);
                }
                Some(Node::new(v))
            },
            None => {
                proof {
                    self.lemma_absent(*key);
                }
                None
            },
        }
    }


    /// Stores `value` under `key` as the most recently used entry. A new key
    /// that takes the cache over its capacity evicts the least recently used
    /// entry.
    pub fn update(&mut self, key: K, value: V)
        requires
            old(self).wf(),
        ensures
            final(self).wf(),
            final(self).spec_capacity() == old(self).spec_capacity(),
            final(self)@ == put_result(old(self)@, key, value, old(self).spec_capacity()),
    {
        let found = match self.lookup.get(&key) {
            Some(s) => Some(*s),
            None => None,
        };
        match found {
            Some(slot) => {
                proof {
                    assert(self.order@.contains(slot));
                }
                let ghost i = choose|i: int| 0 <= i < self.order@.len() && self.order@[i] == slot;
                proof {
                    self.lemma_key_position(key, i);
                }
                self.entries[slot].set(value);
                self.detach(slot, Ghost(i));
                self.prepend(slot);
                proof {
                    self.lemma_touched(*old(self), i);
                }
            },
            None => {
                proof {
                    self.lemma_absent(key);
                    self.lemma_sizes_agree();
                }
                let stored = clone_key(&key);
                let slot = self.entries.len();
                self.entries.push(create_node(key, value));
                self.prepend(slot);
                self.lookup.insert(stored, slot);
                self.length = self.length + 1;
                proof {
                    self.lemma_inserted(*old(self), key);
                }
                self.trim_cache();
                proof {
                    assert(self@ =~= put_result(old(self)@, key, value, old(self).spec_capacity()));
                }
            },
        }
    }
}

/// A copy of `k` that is equal to it.
fn clone_key<K: Clone>(k: &K) -> (r: K)
    requires
        key_type_ok::<K>(),
    ensures
        r == *k,
{
    let r = k.clone();
    proof {
        assert(cloned(*k, r));
    }
    r
}

} // verus!
