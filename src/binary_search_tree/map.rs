//! A map from keys to values over an unbalanced binary search tree.
use super::node::Node;
use crate::entry::Entry;
use crate::order::{is_greatest, is_least, strictly_increasing, total_order};
use vstd::prelude::*;

verus! {

/// `m` with `v` under `k`, unless `m` already holds `k`.
pub open spec fn insert_if_absent<K, V>(m: Map<K, V>, k: K, v: V) -> Map<K, V> {
    if m.contains_key(k) {
        m
    } else {
        m.insert(k, v)
    }
}

/// An ordered map: an optional root node and the number of entries. The tree
/// makes no attempt to stay balanced.
pub struct BsTreeMap<K: Ord, V> {
    head: Option<Box<Node<K, V>>>,
    size: usize,
}

impl<K: Ord, V> View for BsTreeMap<K, V> {
    type V = Map<K, V>;

    /// The map from keys to values held by the tree.
    closed spec fn view(&self) -> Map<K, V> {
        Node::optional_as_map(self.head)
    }
}

impl<K: Ord, V> BsTreeMap<K, V> {
    /// The search order holds at every node of the tree, over a totally
    /// ordered key.
    pub closed spec fn search_ordered(self) -> bool {
        Node::optional_wf(self.head)
    }

    /// The entry count that the map keeps.
    pub closed spec fn spec_size(self) -> nat {
        self.size as nat
    }

    /// The tree is a search tree and the kept count is the number of keys
    /// reachable from the root.
    pub open spec fn wf(self) -> bool {
        &&& self.search_ordered()
        &&& self@.dom().finite()
        &&& self.spec_size() == self@.len()
    }

    /// The keys of the map as an in-order walk of the tree meets them.
    pub closed spec fn keys_in_order(self) -> Seq<K> {
        Node::optional_keys(self.head)
    }

    /// The search order of a well-formed map: walking the tree in order meets
    /// every key of the map and no other, each smaller than the next. So the
    /// kept count is the number of nodes. Since every operation that changes
    /// the map keeps it well-formed, this holds after any sequence of inserts
    /// and removals.
    pub proof fn lemma_search_order(self)
        requires
            self.wf(),
        ensures
            strictly_increasing(self.keys_in_order()),
            forall|k: K| self.keys_in_order().contains(k) <==> #[trigger] self@.contains_key(k),
            self.keys_in_order().len() == self.spec_size(),
    {
        self.lemma_keys_listed();
        let keys = self.keys_in_order();
        crate::order::lemma_total_order::<K>();
        assert(keys.no_duplicates());
        keys.unique_seq_to_set();
        assert(keys.to_set() =~= self@.dom());
    }

    /// Walking the tree in order meets the map's keys, in increasing order.
    proof fn lemma_keys_listed(self)
        requires
            self.wf(),
        ensures
            strictly_increasing(self.keys_in_order()),
            forall|k: K| self.keys_in_order().contains(k) <==> #[trigger] self@.contains_key(k),
    {
        if let Some(node) = self.head {
            node.lemma_keys_in_order();
            assert forall|k: K|
                self.keys_in_order().contains(k) <==> #[trigger] self@.contains_key(k) by {
                assert(node@.contains_key(k) == node.keys_in_order().contains(k));
            }
        } else {
            assert forall|k: K| !self.keys_in_order().contains(k) by {}
        }
    }

    /// The root and the count make a well-formed map.
    proof fn lemma_wf_parts(self)
        requires
            Node::optional_wf(self.head),
            self.size as nat == Node::optional_as_map(self.head).len(),
        ensures
            self.wf(),
    {
        Node::lemma_finite(self.head);
    }

    /// Makes an empty map.
    pub fn new() -> (m: BsTreeMap<K, V>)
        requires
            total_order::<K>(),
        ensures
            m.wf(),
            m@ == Map::<K, V>::empty(),
    {
        let m = BsTreeMap { head: None, size: 0 };
        proof { m.lemma_wf_parts(); }
        m
    }

    /// The number of entries in the map.
    pub fn size(&self) -> (n: usize)
        requires
            self.wf(),
        ensures
            n == self@.len(),
    {
        self.size
    }

    /// Whether the map holds `key`.
    pub fn contains(&self, key: &K) -> (r: bool)
        requires
            self.wf(),
        ensures
            r == self@.contains_key(*key),
    {
        match self.head {
            Some(ref node) => node.contains(key),
            None => false,
        }
    }

    /// Moves every entry of `other` into this map by inserting them one by
    /// one; where both hold a key, `other`'s value wins.
    pub fn merge(&mut self, other: BsTreeMap<K, V>)
        requires
            old(self).wf(),
            other.wf(),
            old(self)@.len() + other@.len() <= usize::MAX,
        ensures
            final(self).wf(),
            final(self)@ == old(self)@.union_prefer_right(other@),
    {
        let BsTreeMap { head, size } = other;
        match head {
            None => {
                assert(old(self)@.union_prefer_right(Map::empty()) =~= old(self)@);
            },
            Some(other_node) => match self.head {
                Some(ref mut node) => {
                    node.merge(*other_node);
                    proof {
                        vstd::set_lib::lemma_len_union(old(self)@.dom(), other@.dom());
                        assert(node@.dom() =~= old(self)@.dom().union(other@.dom()));
                    }
                    self.size = node.size();
                },
                None => {
                    assert(Map::empty().union_prefer_right(other@) =~= other@);
                    self.head = Some(other_node);
                    self.size = size;
                },
            },
        }
        proof { self.lemma_wf_parts(); }
    }

    /// Makes the map whose tree is `node`, counting its entries.
    pub fn from_node(node: Node<K, V>) -> (m: BsTreeMap<K, V>)
        requires
            node.wf(),
            node@.len() <= usize::MAX,
        ensures
            m.wf(),
            m@ == node@,
    {
        let size = node.size();
        let m = BsTreeMap { head: Some(Box::new(node)), size };
        proof { m.lemma_wf_parts(); }
        m
    }

    /// Sets the value under `key` to `value`; an existing value is
    /// overwritten.
    pub fn insert(&mut self, key: K, value: V)
        requires
            old(self).wf(),
            old(self)@.len() < usize::MAX,
        ensures
            final(self).wf(),
            final(self)@ == old(self)@.insert(key, value),
    {
        match self.head {
            Some(ref mut node) => {
                if node.insert(key, value) {
                    self.size += 1;
                }
            },
            None => {
                self.head = Some(Box::new(Node::new(key, value)));
                self.size += 1;
            },
        }
        proof { self.lemma_wf_parts(); }
    }

    /// Adds `key` with `value` unless the map already holds `key`, whose
    /// value then stays as it is.
    pub fn try_insert(&mut self, key: K, value: V)
        requires
            old(self).wf(),
            old(self)@.len() < usize::MAX,
        ensures
            final(self).wf(),
            final(self)@ == insert_if_absent(old(self)@, key, value),
    {
        match self.head {
            Some(ref mut node) => {
                if node.try_insert(key, value) {
                    self.size += 1;
                }
            },
            None => {
                self.head = Some(Box::new(Node::new(key, value)));
                self.size += 1;
            },
        }
        proof { self.lemma_wf_parts(); }
    }

    /// Removes the entry under `key`, if there is one; the count drops only
    /// when an entry was removed.
    pub fn remove(&mut self, key: &K)
        requires
            old(self).wf(),
        ensures
            final(self).wf(),
            final(self)@ == old(self)@.remove(*key),
    {
        if Node::remove(&mut self.head, key) {
            self.size -= 1;
        }
        proof { self.lemma_wf_parts(); }
    }

    /// The value under `key`, if the map holds it.
    pub fn get(&self, key: &K) -> (r: Option<&V>)
        requires
            self.wf(),
        ensures
            r == (if self@.contains_key(*key) { Some(&self@[*key]) } else { None }),
    {
        match self.head {
            Some(ref node) => node.get(key),
            None => None,
        }
    }

    /// The value under `key`, to be changed in place, if the map holds it.
    pub fn get_mut(&mut self, key: &K) -> (r: Option<&mut V>)
        requires
            old(self).wf(),
        ensures
            r is Some <==> old(self)@.contains_key(*key),
            r is None ==> *final(self) == *old(self),
            r matches Some(v) ==> {
                &&& *v == old(self)@[*key]
                &&& final(self).wf()
                &&& final(self)@ == old(self)@.insert(*key, *final(v))
            },
    {
        match self.head {
            Some(ref mut node) => node.get_mut(key),
            None => None,
        }
    }

    /// The entry with the smallest key, or nothing for an empty map.
    pub fn smallest(&self) -> (r: Option<&Entry<K, V>>)
        requires
            self.wf(),
        ensures
            r is None <==> self@ == Map::<K, V>::empty(),
            r matches Some(e) ==> is_least(self@.dom(), e@.0) && self@[e@.0] == e@.1,
    {
        match self.head {
            Some(ref node) => Some(node.smallest()),
            None => None,
        }
    }

    /// The entry with the smallest key, to be changed in place, or nothing
    /// for an empty map. While the entry keeps its key the map stays
    /// well-formed, with the entry's new value under that key.
    pub fn smallest_mut(&mut self) -> (r: Option<&mut Entry<K, V>>)
        requires
            old(self).wf(),
        ensures
            r is None <==> old(self)@ == Map::<K, V>::empty(),
            r is None ==> *final(self) == *old(self),
            r matches Some(e) ==> {
                &&& is_least(old(self)@.dom(), e@.0)
                &&& old(self)@[e@.0] == e@.1
                &&& final(e)@.0 == e@.0 ==> final(self).wf() && final(self)@ == old(self)@.insert(
                    e@.0,
                    final(e)@.1,
                )
            },
    {
        match self.head {
            Some(ref mut node) => Some(node.smallest_mut()),
            None => None,
        }
    }

    /// The entry with the largest key, or nothing for an empty map.
    pub fn largest(&self) -> (r: Option<&Entry<K, V>>)
        requires
            self.wf(),
        ensures
            r is None <==> self@ == Map::<K, V>::empty(),
            r matches Some(e) ==> is_greatest(self@.dom(), e@.0) && self@[e@.0] == e@.1,
    {
        match self.head {
            Some(ref node) => Some(node.largest()),
            None => None,
        }
    }

    /// The entry with the largest key, to be changed in place, or nothing
    /// for an empty map. While the entry keeps its key the map stays
    /// well-formed, with the entry's new value under that key.
    pub fn largest_mut(&mut self) -> (r: Option<&mut Entry<K, V>>)
        requires
            old(self).wf(),
        ensures
            r is None <==> old(self)@ == Map::<K, V>::empty(),
            r is None ==> *final(self) == *old(self),
            r matches Some(e) ==> {
                &&& is_greatest(old(self)@.dom(), e@.0)
                &&& old(self)@[e@.0] == e@.1
                &&& final(e)@.0 == e@.0 ==> final(self).wf() && final(self)@ == old(self)@.insert(
                    e@.0,
                    final(e)@.1,
                )
            },
    {
        match self.head {
            Some(ref mut node) => Some(node.largest_mut()),
            None => None,
        }
    }

    /// The entry under `key`, if the map holds it.
    pub fn entry(&self, key: &K) -> (r: Option<&Entry<K, V>>)
        requires
            self.wf(),
        ensures
            r is Some <==> self@.contains_key(*key),
            r matches Some(e) ==> e@ == (*key, self@[*key]),
    {
        match self.head {
            Some(ref node) => node.entry(key),
            None => None,
        }
    }

    /// The entry under `key`, to be changed in place, if the map holds it.
    /// While the entry keeps its key the map stays well-formed, with the
    /// entry's new value under `key`.
    pub fn node_mut(&mut self, key: &K) -> (r: Option<&mut Entry<K, V>>)
        requires
            old(self).wf(),
        ensures
            r is Some <==> old(self)@.contains_key(*key),
            r is None ==> *final(self) == *old(self),
            r matches Some(e) ==> {
                &&& e@ == (*key, old(self)@[*key])
                &&& final(e)@.0 == *key ==> final(self).wf() && final(self)@ == old(self)@.insert(
                    *key,
                    final(e)@.1,
                )
            },
    {
        match self.head {
            Some(ref mut node) => node.entry_mut(key),
            None => None,
        }
    }
}

impl<K: Ord, V> Default for BsTreeMap<K, V> {
    /// An empty map, well-formed wherever `K`'s order is total.
    fn default() -> (m: Self)
        ensures
            m@ == Map::<K, V>::empty(),
            total_order::<K>() ==> m.wf(),
    {
        let m = BsTreeMap { head: None, size: 0 };
        proof { Node::<K, V>::lemma_finite(None); }
        m
    }
}

/// Looking a key up right after inserting it gives the inserted value, and a
/// second insert under the same key overwrites the first.
pub proof fn lemma_insert_then_get<K, V>(m: Map<K, V>, k: K, v: V, v2: V)
    ensures
        m.insert(k, v).contains_key(k),
        m.insert(k, v)[k] == v,
        m.insert(k, v).insert(k, v2)[k] == v2,
{
}

/// Two inserts-if-absent under one key keep the first value.
pub proof fn lemma_try_insert_keeps_first<K, V>(m: Map<K, V>, k: K, v1: V, v2: V)
    requires
        !m.contains_key(k),
    ensures
        insert_if_absent(insert_if_absent(m, k, v1), k, v2).contains_key(k),
        insert_if_absent(insert_if_absent(m, k, v1), k, v2)[k] == v1,
{
}

/// Once a key held by the map is removed, the map no longer holds it and
/// its size is one less.
pub proof fn lemma_remove_then_absent<K: Ord, V>(
    before: BsTreeMap<K, V>,
    after: BsTreeMap<K, V>,
    k: K,
)
    requires
        before.wf(),
        after.wf(),
        before@.contains_key(k),
        after@ == before@.remove(k),
    ensures
        !after@.contains_key(k),
        after@.len() == before@.len() - 1,
{
}

} // verus!
