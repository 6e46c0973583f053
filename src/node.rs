use vstd::prelude::*;

verus! {

/// One slot of the cache's arena: a key, its value, and the slots of its
/// neighbours in recency order (`prev` is towards the most recently used end,
/// `next` towards the least recently used end).
pub struct InternalNode<K, V> {
    pub key: K,
    pub value: V,
    pub prev: Option<usize>,
    pub next: Option<usize>,
}

impl<K, V: Clone> InternalNode<K, V> {
    /// Replaces the stored value; the key and the links stay as they are.
    pub fn set(&mut self, value: V)
        ensures
            final(self).value == value,
            final(self).key == old(self).key,
            final(self).prev == old(self).prev,
            final(self).next == old(self).next,
    {
        self.value = value;
    }

    /// A copy of the stored value.
    pub fn get(&self) -> (r: V)
        ensures
            cloned(self.value, r),
    {
        self.value.clone()
    }
}

/// A fresh, unlinked entry holding `key` and `value`.
pub fn create_node<K, V>(key: K, value: V) -> (r: InternalNode<K, V>)
    ensures
        r.key == key,
        r.value == value,
        r.prev is None,
        r.next is None,
{
    InternalNode { key, value, prev: None, next: None }
}

/// A value handed out by a cache lookup. It is the caller's own copy:
/// changing it leaves the cache as it is.
pub struct Node<T> {
    value: T,
}

impl<T> View for Node<T> {
    type V = T;

    closed spec fn view(&self) -> T {
        self.value
    }
}

impl<T: Clone> Node<T> {
    pub fn new(value: T) -> (r: Node<T>)
        ensures
            r@ == value,
    {
        Node { value }
    }

    pub fn set(&mut self, value: T)
        ensures
            final(self)@ == value,
    {
        self.value = value;
    }

    pub fn get(&self) -> (r: T)
        ensures
            cloned(self@, r),
    {
        self.value.clone()
    }
}

} // verus!
