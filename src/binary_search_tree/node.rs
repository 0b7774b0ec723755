//! A node of the search tree, with the algorithms that walk it.
use crate::entry::Entry;
use crate::order::{
    is_greatest, is_least, key_lt, lemma_total_order, strictly_increasing, total_order,
};
use core::cmp::Ordering;
use vstd::prelude::*;

verus! {

/// One vertex of the tree: its entry, and the subtrees of smaller keys
/// (`left`) and of greater keys (`right`).
pub struct Node<K: Ord, V> {
    entry: Entry<K, V>,
    left: Option<Box<Node<K, V>>>,
    right: Option<Box<Node<K, V>>>,
}

impl<K: Ord, V> Node<K, V> {
    /// The map held by an optional subtree; empty where there is none.
    pub open spec fn optional_as_map(n: Option<Box<Node<K, V>>>) -> Map<K, V>
        decreases n,
    {
        match n {
            None => Map::empty(),
            Some(node) => node.as_map(),
        }
    }

    /// The map from keys to values held by this subtree.
    pub closed spec fn as_map(self) -> Map<K, V>
        decreases self,
    {
        Self::optional_as_map(self.left).union_prefer_right(
            Self::optional_as_map(self.right),
        ).insert(self.entry@.0, self.entry@.1)
    }

    /// The keys of an optional subtree in in-order; empty where there is none.
    pub open spec fn optional_keys(n: Option<Box<Node<K, V>>>) -> Seq<K>
        decreases n,
    {
        match n {
            None => Seq::empty(),
            Some(node) => node.keys_in_order(),
        }
    }

    /// The keys of this subtree as an in-order walk meets them: the left
    /// subtree's, the node's own, then the right subtree's.
    pub closed spec fn keys_in_order(self) -> Seq<K>
        decreases self,
    {
        Self::optional_keys(self.left) + seq![self.entry@.0] + Self::optional_keys(self.right)
    }

    /// The search order holds at every node of this subtree: each key of the
    /// left subtree is smaller than the node's key, each key of the right
    /// subtree greater.
    pub closed spec fn ordered(self) -> bool
        decreases self,
    {
        &&& forall|k: K| #[trigger]
            Self::optional_as_map(self.left).contains_key(k) ==> key_lt(k, self.entry@.0)
        &&& forall|k: K| #[trigger]
            Self::optional_as_map(self.right).contains_key(k) ==> key_lt(self.entry@.0, k)
        &&& match self.left {
            Some(l) => l.ordered(),
            None => true,
        }
        &&& match self.right {
            Some(r) => r.ordered(),
            None => true,
        }
    }

    /// An optional subtree is ordered wherever there is one.
    pub open spec fn optional_ordered(n: Option<Box<Node<K, V>>>) -> bool {
        match n {
            Some(node) => node.ordered(),
            None => true,
        }
    }

    /// The map held by the left subtree.
    pub closed spec fn left_map(self) -> Map<K, V> {
        Self::optional_as_map(self.left)
    }

    /// The map held by the right subtree.
    pub closed spec fn right_map(self) -> Map<K, V> {
        Self::optional_as_map(self.right)
    }

    /// The left subtree, if there is one.
    pub closed spec fn left_child(self) -> Option<Node<K, V>> {
        match self.left {
            Some(b) => Some(*b),
            None => None,
        }
    }

    /// The right subtree, if there is one.
    pub closed spec fn right_child(self) -> Option<Node<K, V>> {
        match self.right {
            Some(b) => Some(*b),
            None => None,
        }
    }

    /// An optional subtree is well-formed wherever there is one, over a
    /// totally ordered key.
    pub open spec fn optional_wf(n: Option<Box<Node<K, V>>>) -> bool {
        total_order::<K>() && Self::optional_ordered(n)
    }

    /// The node's own entry as a pair `(key, value)`.
    pub closed spec fn spec_entry(self) -> (K, V) {
        self.entry@
    }

    /// The subtree is a well-formed search tree over a totally ordered key.
    pub open spec fn wf(self) -> bool {
        total_order::<K>() && self.ordered()
    }

    /// Makes a tree of one node that holds `key` and `value`.
    pub fn new(key: K, value: V) -> (n: Node<K, V>)
        requires
            total_order::<K>(),
        ensures
            n.wf(),
            n@ == map![key => value],
            n.spec_entry() == (key, value),
    {
        let n = Node { entry: Entry::new(key, value), left: None, right: None };
        assert(n@ =~= map![key => value]);
        n
    }

    /// Whether the subtree holds `key`.
    pub fn contains(&self, key: &K) -> (r: bool)
        requires
            self.wf(),
        ensures
            r == self@.contains_key(*key),
        decreases self,
    {
        proof { lemma_total_order::<K>(); }
        match key.cmp(self.entry.key()) {
            Ordering::Less => {
                assert(!self.right_map().contains_key(*key));
                match self.left {
                    Some(ref node) => node.contains(key),
                    None => false,
                }
            },
            Ordering::Greater => {
                assert(!self.left_map().contains_key(*key));
                match self.right {
                    Some(ref node) => node.contains(key),
                    None => false,
                }
            },
            Ordering::Equal => true,
        }
    }

    /// The value stored under `key`, if the subtree holds it.
    pub fn get(&self, key: &K) -> (r: Option<&V>)
        requires
            self.wf(),
        ensures
            r == (if self@.contains_key(*key) { Some(&self@[*key]) } else { None }),
        decreases self,
    {
        proof { lemma_total_order::<K>(); }
        match key.cmp(self.entry.key()) {
            Ordering::Less => {
                assert(!self.right_map().contains_key(*key));
                match self.left {
                    Some(ref node) => node.get(key),
                    None => None,
                }
            },
            Ordering::Greater => {
                assert(!self.left_map().contains_key(*key));
                match self.right {
                    Some(ref node) => node.get(key),
                    None => None,
                }
            },
            Ordering::Equal => Some(self.entry.value()),
        }
    }

    /// The value stored under `key`, to be changed in place, if the subtree
    /// holds it.
    #[verifier::spinoff_prover]
    pub fn get_mut(&mut self, key: &K) -> (r: Option<&mut V>)
        requires
            old(self).wf(),
        ensures
            r is Some <==> old(self)@.contains_key(*key),
            r is None ==> *final(self) == *old(self),
            r matches Some(v) ==> {
                &&& *v == old(self)@[*key]
                &&& final(self).spec_entry().0 == old(self).spec_entry().0
                &&& final(self).left_map().dom() == old(self).left_map().dom()
                &&& final(self).right_map().dom() == old(self).right_map().dom()
                &&& final(self).wf()
                &&& final(self)@ == old(self)@.insert(*key, *final(v))
            },
        decreases *old(self),
    {
        proof { lemma_total_order::<K>(); }
        match key.cmp(self.entry.key()) {
            Ordering::Less => {
                assert(!self.right_map().contains_key(*key));
                match self.left {
                    Some(ref mut node) => node.get_mut(key),
                    None => None,
                }
            },
            Ordering::Greater => {
                assert(!self.left_map().contains_key(*key));
                match self.right {
                    Some(ref mut node) => node.get_mut(key),
                    None => None,
                }
            },
            Ordering::Equal => Some(self.entry.value_mut()),
        }
    }

    /// Sets the value under `key` to `value`, overwriting a value already
    /// there or adding a leaf node where the search for `key` ends. Returns
    /// whether a node was added.
    pub fn insert(&mut self, key: K, value: V) -> (added: bool)
        requires
            old(self).wf(),
        ensures
            final(self).wf(),
            final(self)@ == old(self)@.insert(key, value),
            added == !old(self)@.contains_key(key),
        decreases *old(self),
    {
        proof { lemma_total_order::<K>(); }
        match key.cmp(self.entry.key()) {
            Ordering::Less => {
                assert(!self.right_map().contains_key(key));
                match self.left {
                    Some(ref mut node) => {
                        let added = node.insert(key, value);
                        assert(self.left_map() <= old(self).left_map().insert(key, value));
                        added
                    },
                    None => {
                        let leaf = Node::new(key, value);
                        self.left = Some(Box::new(leaf));
                        true
                    },
                }
            },
            Ordering::Greater => {
                assert(!self.left_map().contains_key(key));
                match self.right {
                    Some(ref mut node) => {
                        let added = node.insert(key, value);
                        assert(self.right_map() <= old(self).right_map().insert(key, value));
                        added
                    },
                    None => {
                        let leaf = Node::new(key, value);
                        self.right = Some(Box::new(leaf));
                        true
                    },
                }
            },
            Ordering::Equal => {
                *self.entry.value_mut() = value;
                false
            },
        }
    }

    /// Adds `key` with `value` where the search for `key` ends, unless the
    /// subtree already holds `key`, whose value then stays as it is. Returns
    /// whether a node was added.
    pub fn try_insert(&mut self, key: K, value: V) -> (added: bool)
        requires
            old(self).wf(),
        ensures
            final(self).wf(),
            final(self)@ == (if old(self)@.contains_key(key) {
                old(self)@
            } else {
                old(self)@.insert(key, value)
            }),
            added == !old(self)@.contains_key(key),
        decreases *old(self),
    {
        proof { lemma_total_order::<K>(); }
        match key.cmp(self.entry.key()) {
            Ordering::Less => {
                assert(!self.right_map().contains_key(key));
                match self.left {
                    Some(ref mut node) => {
                        let added = node.try_insert(key, value);
                        assert(self.left_map().dom() <= old(self).left_map().dom().insert(key));
                        added
                    },
                    None => {
                        let leaf = Node::new(key, value);
                        self.left = Some(Box::new(leaf));
                        true
                    },
                }
            },
            Ordering::Greater => {
                assert(!self.left_map().contains_key(key));
                match self.right {
                    Some(ref mut node) => {
                        let added = node.try_insert(key, value);
                        assert(self.right_map().dom() <= old(self).right_map().dom().insert(key));
                        added
                    },
                    None => {
                        let leaf = Node::new(key, value);
                        self.right = Some(Box::new(leaf));
                        true
                    },
                }
            },
            Ordering::Equal => false,
        }
    }

    /// An optional subtree holds finitely many keys.
    pub proof fn lemma_finite(n: Option<Box<Node<K, V>>>)
        ensures
            Self::optional_as_map(n).dom().finite(),
        decreases n,
    {
        if let Some(node) = n {
            Self::lemma_finite(node.left);
            Self::lemma_finite(node.right);
            assert(node.as_map().dom() =~= (Self::optional_as_map(node.left).dom()
                + Self::optional_as_map(node.right).dom()).insert(node.entry@.0));
        }
    }

    /// In a well-formed subtree every key of the left subtree comes before
    /// the node's key, which comes before every key of the right subtree;
    /// both subtrees are well-formed, and the subtree's map is made of theirs
    /// and the node's entry.
    pub proof fn lemma_search_order(self)
        requires
            self.wf(),
        ensures
            forall|k: K| #[trigger] self.left_map().contains_key(k) ==> key_lt(k, self.spec_entry().0),
            forall|k: K| #[trigger] self.right_map().contains_key(k) ==> key_lt(self.spec_entry().0, k),
            self.left_child() matches Some(l) ==> l.wf() && l@ == self.left_map(),
            self.right_child() matches Some(r) ==> r.wf() && r@ == self.right_map(),
            self.left_child() is None ==> self.left_map() == Map::<K, V>::empty(),
            self.right_child() is None ==> self.right_map() == Map::<K, V>::empty(),
            self@ == self.left_map().union_prefer_right(self.right_map()).insert(
                self.spec_entry().0,
                self.spec_entry().1,
            ),
    {
    }

    /// In a well-formed subtree the in-order walk meets the keys in strictly
    /// increasing order, and meets exactly the keys that the subtree holds.
    pub proof fn lemma_keys_in_order(self)
        requires
            self.wf(),
        ensures
            strictly_increasing(self.keys_in_order()),
            forall|k: K| self.keys_in_order().contains(k) <==> #[trigger] self@.contains_key(k),
        decreases self,
    {
        lemma_total_order::<K>();
        let l = Self::optional_keys(self.left);
        let r = Self::optional_keys(self.right);
        let key = self.entry@.0;
        if let Some(ln) = self.left {
            ln.lemma_keys_in_order();
        }
        if let Some(rn) = self.right {
            rn.lemma_keys_in_order();
        }
        assert forall|k: K| l.contains(k) <==> #[trigger] self.left_map().contains_key(k) by {
            if let Some(ln) = self.left {
                assert(ln@.contains_key(k) == ln.keys_in_order().contains(k));
            }
        }
        assert forall|k: K| r.contains(k) <==> #[trigger] self.right_map().contains_key(k) by {
            if let Some(rn) = self.right {
                assert(rn@.contains_key(k) == rn.keys_in_order().contains(k));
            }
        }
        let s = self.keys_in_order();
        assert(s == l + seq![key] + r);
        let lk = l + seq![key];
        assert forall|i: int| 0 <= i < l.len() implies #[trigger] s[i] == l[i] && key_lt(s[i], key) by {
            assert(s[i] == lk[i]);
            assert(l.contains(l[i]));
            assert(self.left_map().contains_key(l[i]));
        }
        assert forall|i: int| l.len() < i < s.len() implies #[trigger] s[i] == r[i - l.len() - 1]
            && key_lt(key, s[i]) by {
            assert(s[i] == r[i - lk.len()]);
            assert(r.contains(r[i - l.len() - 1]));
            assert(self.right_map().contains_key(r[i - l.len() - 1]));
        }
        assert(s[l.len() as int] == key);
        assert forall|i: int, j: int|
            0 <= i < j < s.len() implies key_lt(#[trigger] s[i], #[trigger] s[j]) by {
            if j < l.len() {
                assert(s[i] == l[i] && s[j] == l[j]);
            } else if i > l.len() {
                assert(s[i] == r[i - l.len() - 1] && s[j] == r[j - l.len() - 1]);
            } else if i < l.len() && j > l.len() {
                assert(key_lt(s[i], key) && key_lt(key, s[j]));
            }
        }
        assert(self@ == self.left_map().union_prefer_right(self.right_map()).insert(key, self.entry@.1));
        assert forall|k: K| s.contains(k) <==> #[trigger] self@.contains_key(k) by {
            if s.contains(k) {
                let i = choose|i: int| 0 <= i < s.len() && s[i] == k;
                if i < l.len() {
                    assert(l.contains(l[i]));
                } else if i > l.len() {
                    assert(r.contains(r[i - l.len() - 1]));
                }
            }
            if self@.contains_key(k) {
                if k == key {
                    assert(s[l.len() as int] == k);
                } else if self.right_map().contains_key(k) {
                    assert(r.contains(k));
                    let j = choose|j: int| 0 <= j < r.len() && r[j] == k;
                    assert(s[l.len() + 1 + j] == k);
                } else {
                    assert(self.left_map().contains_key(k));
                    let j = choose|j: int| 0 <= j < l.len() && l[j] == k;
                    assert(s[j] == k);
                }
            }
        }
    }

    /// A well-formed subtree holds finitely many keys: one for its node and
    /// those of its two subtrees, which share none.
    pub proof fn lemma_len(self)
        requires
            self.wf(),
        ensures
            self@.dom().finite(),
            self.left_map().dom().finite(),
            self.right_map().dom().finite(),
            self@.len() == 1 + self.left_map().len() + self.right_map().len(),
    {
        lemma_total_order::<K>();
        Self::lemma_finite(self.left);
        Self::lemma_finite(self.right);
        let l = self.left_map().dom();
        let r = self.right_map().dom();
        assert(l.disjoint(r));
        vstd::set_lib::lemma_set_disjoint_lens(l, r);
        assert(self.left_map().union_prefer_right(self.right_map()).dom() =~= l + r);
        assert(!(l + r).contains(self.spec_entry().0));
        assert(self@.dom() =~= (l + r).insert(self.spec_entry().0));
    }

    /// The number of nodes, which is the number of keys, in the subtree.
    pub fn size(&self) -> (n: usize)
        requires
            self.wf(),
            self@.len() <= usize::MAX,
        ensures
            n == self@.len(),
        decreases self,
    {
        proof {
            self.lemma_len();
            self.lemma_search_order();
        }
        let mut size: usize = 1;
        if let Some(ref node) = self.right {
            size += node.size();
        }
        if let Some(ref node) = self.left {
            size += node.size();
        }
        size
    }

    /// The entry with the smallest key, found by walking left while there is
    /// a left subtree.
    pub fn smallest(&self) -> (e: &Entry<K, V>)
        requires
            self.wf(),
        ensures
            is_least(self@.dom(), e@.0),
            self@[e@.0] == e@.1,
        decreases self,
    {
        proof {
            lemma_total_order::<K>();
            self.lemma_search_order();
        }
        match self.left {
            Some(ref node) => {
                let e = node.smallest();
                assert(!self.right_map().contains_key(e@.0));
                e
            },
            None => &self.entry,
        }
    }

    /// The entry with the largest key, found by walking right while there is
    /// a right subtree.
    pub fn largest(&self) -> (e: &Entry<K, V>)
        requires
            self.wf(),
        ensures
            is_greatest(self@.dom(), e@.0),
            self@[e@.0] == e@.1,
        decreases self,
    {
        proof {
            lemma_total_order::<K>();
            self.lemma_search_order();
        }
        match self.right {
            Some(ref node) => node.largest(),
            None => &self.entry,
        }
    }

    /// The entry under `key`, if the subtree holds it.
    pub fn entry(&self, key: &K) -> (r: Option<&Entry<K, V>>)
        requires
            self.wf(),
        ensures
            r is Some <==> self@.contains_key(*key),
            r matches Some(e) ==> e@ == (*key, self@[*key]),
        decreases self,
    {
        proof { lemma_total_order::<K>(); }
        match key.cmp(self.entry.key()) {
            Ordering::Less => {
                assert(!self.right_map().contains_key(*key));
                match self.left {
                    Some(ref node) => node.entry(key),
                    None => None,
                }
            },
            Ordering::Greater => {
                assert(!self.left_map().contains_key(*key));
                match self.right {
                    Some(ref node) => node.entry(key),
                    None => None,
                }
            },
            Ordering::Equal => Some(&self.entry),
        }
    }

    /// Swaps `entry` with the entry of the rightmost node of the non-empty
    /// subtree in `slot` (the in-order predecessor of whatever `entry` came
    /// from), then splices that node out by putting its left subtree in its
    /// place.
    fn swap_with_largest(slot: &mut Option<Box<Node<K, V>>>, entry: &mut Entry<K, V>)
        requires
            total_order::<K>(),
            *old(slot) is Some,
            Self::optional_ordered(*old(slot)),
        ensures
            Self::optional_ordered(*final(slot)),
            is_greatest(Self::optional_as_map(*old(slot)).dom(), final(entry)@.0),
            Self::optional_as_map(*old(slot))[final(entry)@.0] == final(entry)@.1,
            Self::optional_as_map(*final(slot)) == Self::optional_as_map(*old(slot)).remove(
                final(entry)@.0,
            ),
        decreases *old(slot),
    {
        proof { lemma_total_order::<K>(); }
        let mut node = slot.take().unwrap();
        proof { node.lemma_search_order(); }
        if node.right.is_some() {
            Self::swap_with_largest(&mut node.right, entry);
            *slot = Some(node);
        } else {
            core::mem::swap(entry, &mut node.entry);
            *slot = node.left;
        }
    }

    /// Swaps `entry` with the entry of the leftmost node of the non-empty
    /// subtree in `slot` (the in-order successor of whatever `entry` came
    /// from), then splices that node out by putting its right subtree in its
    /// place.
    fn swap_with_smallest(slot: &mut Option<Box<Node<K, V>>>, entry: &mut Entry<K, V>)
        requires
            total_order::<K>(),
            *old(slot) is Some,
            Self::optional_ordered(*old(slot)),
        ensures
            Self::optional_ordered(*final(slot)),
            is_least(Self::optional_as_map(*old(slot)).dom(), final(entry)@.0),
            Self::optional_as_map(*old(slot))[final(entry)@.0] == final(entry)@.1,
            Self::optional_as_map(*final(slot)) == Self::optional_as_map(*old(slot)).remove(
                final(entry)@.0,
            ),
        decreases *old(slot),
    {
        proof { lemma_total_order::<K>(); }
        let mut node = slot.take().unwrap();
        proof { node.lemma_search_order(); }
        if node.left.is_some() {
            Self::swap_with_smallest(&mut node.left, entry);
            *slot = Some(node);
        } else {
            core::mem::swap(entry, &mut node.entry);
            *slot = node.right;
        }
    }

    /// Removes the node of `key` from the subtree held in `slot`, the parent's
    /// child link or the map's root. A node with a left subtree takes the
    /// entry of its in-order predecessor, which is spliced out; one with only
    /// a right subtree takes that of its in-order successor; a leaf empties
    /// the slot. Returns whether a node was removed.
    pub fn remove(slot: &mut Option<Box<Node<K, V>>>, key: &K) -> (removed: bool)
        requires
            Self::optional_wf(*old(slot)),
        ensures
            Self::optional_wf(*final(slot)),
            Self::optional_as_map(*final(slot)) == Self::optional_as_map(*old(slot)).remove(*key),
            removed == Self::optional_as_map(*old(slot)).contains_key(*key),
        decreases *old(slot),
    {
        proof { lemma_total_order::<K>(); }
        match slot.take() {
            None => {
                assert(Self::optional_as_map(*old(slot)) =~= Map::empty().remove(*key));
                false
            },
            Some(mut node) => {
                proof { node.lemma_search_order(); }
                match key.cmp(node.entry.key()) {
                    Ordering::Less => {
                        let removed = Self::remove(&mut node.left, key);
                        *slot = Some(node);
                        removed
                    },
                    Ordering::Greater => {
                        let removed = Self::remove(&mut node.right, key);
                        *slot = Some(node);
                        removed
                    },
                    Ordering::Equal => {
                        if node.left.is_some() {
                            Self::swap_with_largest(&mut node.left, &mut node.entry);
                            *slot = Some(node);
                        } else if node.right.is_some() {
                            Self::swap_with_smallest(&mut node.right, &mut node.entry);
                            *slot = Some(node);
                        }
                        true
                    },
                }
            },
        }
    }

    /// The entry under `key`, to be changed in place, if the subtree holds
    /// it. While the entry keeps its key the tree stays well-formed, with
    /// the entry's new value under `key`.
    #[verifier::spinoff_prover]
    pub fn entry_mut(&mut self, key: &K) -> (r: Option<&mut Entry<K, V>>)
        requires
            old(self).wf(),
        ensures
            r is Some <==> old(self)@.contains_key(*key),
            r is None ==> *final(self) == *old(self),
            r matches Some(e) ==> {
                &&& e@ == (*key, old(self)@[*key])
                &&& final(e)@.0 == *key ==> {
                    &&& final(self).spec_entry().0 == old(self).spec_entry().0
                    &&& final(self).left_map().dom() == old(self).left_map().dom()
                    &&& final(self).right_map().dom() == old(self).right_map().dom()
                    &&& final(self).wf()
                    &&& final(self)@ == old(self)@.insert(*key, final(e)@.1)
                }
            },
        decreases *old(self),
    {
        proof { lemma_total_order::<K>(); }
        match key.cmp(self.entry.key()) {
            Ordering::Less => {
                assert(!self.right_map().contains_key(*key));
                match self.left {
                    Some(ref mut node) => node.entry_mut(key),
                    None => None,
                }
            },
            Ordering::Greater => {
                assert(!self.left_map().contains_key(*key));
                match self.right {
                    Some(ref mut node) => node.entry_mut(key),
                    None => None,
                }
            },
            Ordering::Equal => Some(&mut self.entry),
        }
    }

    /// The entry with the smallest key, to be changed in place. While the
    /// entry keeps its key the tree stays well-formed, with the entry's new
    /// value under that key.
    #[verifier::spinoff_prover]
    pub fn smallest_mut(&mut self) -> (e: &mut Entry<K, V>)
        requires
            old(self).wf(),
        ensures
            is_least(old(self)@.dom(), e@.0),
            old(self)@[e@.0] == e@.1,
            final(e)@.0 == e@.0 ==> {
                &&& final(self).spec_entry().0 == old(self).spec_entry().0
                &&& final(self).left_map().dom() == old(self).left_map().dom()
                &&& final(self).right_map().dom() == old(self).right_map().dom()
                &&& final(self).wf()
                &&& final(self)@ == old(self)@.insert(e@.0, final(e)@.1)
            },
        decreases *old(self),
    {
        proof {
            lemma_total_order::<K>();
            old(self).lemma_search_order();
        }
        match self.left {
            Some(ref mut node) => {
                let e = node.smallest_mut();
                assert(!old(self).right_map().contains_key(e@.0));
                e
            },
            None => &mut self.entry,
        }
    }

    /// The entry with the largest key, to be changed in place. While the
    /// entry keeps its key the tree stays well-formed, with the entry's new
    /// value under that key.
    #[verifier::spinoff_prover]
    pub fn largest_mut(&mut self) -> (e: &mut Entry<K, V>)
        requires
            old(self).wf(),
        ensures
            is_greatest(old(self)@.dom(), e@.0),
            old(self)@[e@.0] == e@.1,
            final(e)@.0 == e@.0 ==> {
                &&& final(self).spec_entry().0 == old(self).spec_entry().0
                &&& final(self).left_map().dom() == old(self).left_map().dom()
                &&& final(self).right_map().dom() == old(self).right_map().dom()
                &&& final(self).wf()
                &&& final(self)@ == old(self)@.insert(e@.0, final(e)@.1)
            },
        decreases *old(self),
    {
        proof {
            lemma_total_order::<K>();
            old(self).lemma_search_order();
        }
        match self.right {
            Some(ref mut node) => node.largest_mut(),
            None => &mut self.entry,
        }
    }

    /// Inserts every entry of `other` into this subtree, the node's own entry
    /// first and then those of its left and right subtrees; where both hold a
    /// key, `other`'s value wins.
    pub fn merge(&mut self, other: Node<K, V>)
        requires
            old(self).wf(),
            other.wf(),
        ensures
            final(self).wf(),
            final(self)@ == old(self)@.union_prefer_right(other@),
        decreases other,
    {
        proof {
            lemma_total_order::<K>();
            other.lemma_search_order();
        }
        let ghost other_map = other@;
        let ghost before = self@;
        let Node { entry, left, right } = other;
        let (key, value) = entry.into_parts();
        self.insert(key, value);
        let ghost with_left = before.insert(key, value).union_prefer_right(Self::optional_as_map(left));
        if let Some(l) = left {
            self.merge(*l);
        }
        assert(self@ == with_left);
        if let Some(r) = right {
            self.merge(*r);
        }
        assert(self@ =~= with_left.union_prefer_right(Self::optional_as_map(right)));
        assert(self@ =~= before.union_prefer_right(other_map));
    }

    /// The left subtree, of smaller keys, if there is one.
    pub fn left(&self) -> (r: Option<&Node<K, V>>)
        ensures
            r is Some <==> self.left_child() is Some,
            r matches Some(n) ==> *n == self.left_child().unwrap(),
    {
        match self.left {
            Some(ref node) => Some(&**node),
            None => None,
        }
    }

    /// The left subtree, to be changed in place, if there is one. The node
    /// stays well-formed if the subtree does and keeps its keys smaller than
    /// the node's.
    pub fn left_mut(&mut self) -> (r: Option<&mut Node<K, V>>)
        ensures
            r is Some <==> old(self).left_child() is Some,
            r is None ==> *final(self) == *old(self),
            r matches Some(n) ==> {
                &&& *n == old(self).left_child().unwrap()
                &&& final(self).left_child() == Some(*final(n))
                &&& final(self).right_child() == old(self).right_child()
                &&& final(self).spec_entry() == old(self).spec_entry()
                &&& final(self)@ == final(n)@.union_prefer_right(old(self).right_map()).insert(
                    old(self).spec_entry().0,
                    old(self).spec_entry().1,
                )
                &&& (old(self).wf() && final(n).wf() && forall|k: K| #[trigger]
                    final(n)@.contains_key(k) ==> key_lt(k, old(self).spec_entry().0))
                    ==> final(self).wf()
            },
    {
        match self.left {
            Some(ref mut node) => Some(&mut **node),
            None => None,
        }
    }

    /// The right subtree, of greater keys, if there is one.
    pub fn right(&self) -> (r: Option<&Node<K, V>>)
        ensures
            r is Some <==> self.right_child() is Some,
            r matches Some(n) ==> *n == self.right_child().unwrap(),
    {
        match self.right {
            Some(ref node) => Some(&**node),
            None => None,
        }
    }

    /// The right subtree, to be changed in place, if there is one. The node
    /// stays well-formed if the subtree does and keeps its keys greater than
    /// the node's.
    pub fn right_mut(&mut self) -> (r: Option<&mut Node<K, V>>)
        ensures
            r is Some <==> old(self).right_child() is Some,
            r is None ==> *final(self) == *old(self),
            r matches Some(n) ==> {
                &&& *n == old(self).right_child().unwrap()
                &&& final(self).right_child() == Some(*final(n))
                &&& final(self).left_child() == old(self).left_child()
                &&& final(self).spec_entry() == old(self).spec_entry()
                &&& final(self)@ == old(self).left_map().union_prefer_right(final(n)@).insert(
                    old(self).spec_entry().0,
                    old(self).spec_entry().1,
                )
                &&& (old(self).wf() && final(n).wf() && forall|k: K| #[trigger]
                    final(n)@.contains_key(k) ==> key_lt(old(self).spec_entry().0, k))
                    ==> final(self).wf()
            },
    {
        match self.right {
            Some(ref mut node) => Some(&mut **node),
            None => None,
        }
    }

    /// The key of this node.
    pub fn key(&self) -> (k: &K)
        ensures
            *k == self.spec_entry().0,
    {
        self.entry.key()
    }

    /// The value of this node.
    pub fn value(&self) -> (v: &V)
        ensures
            *v == self.spec_entry().1,
    {
        self.entry.value()
    }

    /// The value of this node, to be changed in place; the key and the
    /// subtrees stay as they are.
    pub fn value_mut(&mut self) -> (v: &mut V)
        ensures
            *v == old(self).spec_entry().1,
            final(self).spec_entry() == (old(self).spec_entry().0, *final(v)),
            final(self).left_child() == old(self).left_child(),
            final(self).right_child() == old(self).right_child(),
            final(self)@ == old(self)@.insert(old(self).spec_entry().0, *final(v)),
            old(self).wf() ==> final(self).wf(),
    {
        self.entry.value_mut()
    }
}

impl<K: Ord, V> View for Node<K, V> {
    type V = Map<K, V>;

    open spec fn view(&self) -> Map<K, V> {
        self.as_map()
    }
}

} // verus!
