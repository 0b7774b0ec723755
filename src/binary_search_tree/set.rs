//! A set of keys over the search tree map, with no values attached.
use super::map::BsTreeMap;
use crate::entry::Entry;
use crate::order::{is_greatest, is_least, total_order};
use vstd::prelude::*;

verus! {

/// An ordered set: a search tree map whose values are all `()`.
pub struct BsTreeSet<T: Ord> {
    map: BsTreeMap<T, ()>,
}

impl<T: Ord> View for BsTreeSet<T> {
    type V = Set<T>;

    /// The keys held by the set.
    closed spec fn view(&self) -> Set<T> {
        self.map@.dom()
    }
}

impl<T: Ord> BsTreeSet<T> {
    /// The underlying map is well-formed.
    pub closed spec fn wf(self) -> bool {
        self.map.wf()
    }

    /// Makes an empty set.
    pub fn new() -> (s: BsTreeSet<T>)
        requires
            total_order::<T>(),
        ensures
            s.wf(),
            s@ == Set::<T>::empty(),
    {
        let s = BsTreeSet { map: BsTreeMap::new() };
        assert(s@ =~= Set::<T>::empty());
        s
    }

    /// Adds `key` to the set.
    pub fn insert(&mut self, key: T)
        requires
            old(self).wf(),
            old(self)@.len() < usize::MAX,
        ensures
            final(self).wf(),
            final(self)@ == old(self)@.insert(key),
    {
        self.map.insert(key, ());
        assert(self@ =~= old(self)@.insert(key));
    }

    /// Takes `key` out of the set, if it is there.
    pub fn remove(&mut self, key: &T)
        requires
            old(self).wf(),
        ensures
            final(self).wf(),
            final(self)@ == old(self)@.remove(*key),
    {
        self.map.remove(key);
        assert(self@ =~= old(self)@.remove(*key));
    }

    /// The number of keys in the set.
    pub fn size(&self) -> (n: usize)
        requires
            self.wf(),
        ensures
            n == self@.len(),
    {
        self.map.size()
    }

    /// Whether the set holds `key`.
    pub fn contains(&self, key: &T) -> (r: bool)
        requires
            self.wf(),
        ensures
            r == self@.contains(*key),
    {
        self.map.contains(key)
    }

    /// Adds every key of `other` to the set.
    pub fn extend(&mut self, other: BsTreeSet<T>)
        requires
            old(self).wf(),
            other.wf(),
            old(self)@.len() + other@.len() <= usize::MAX,
        ensures
            final(self).wf(),
            final(self)@ == old(self)@.union(other@),
    {
        self.map.merge(other.map);
        assert(self@ =~= old(self)@.union(other@));
    }

    /// The entry of the smallest key, or nothing for an empty set.
    pub fn smallest(&self) -> (r: Option<&Entry<T, ()>>)
        requires
            self.wf(),
        ensures
            r is None <==> self@ == Set::<T>::empty(),
            r matches Some(e) ==> is_least(self@, e@.0),
    {
        let r = self.map.smallest();
        proof {
            if r is None {
                assert(self@ =~= Set::<T>::empty());
            }
        }
        r
    }

    /// The entry of the smallest key, to be changed in place, or nothing for
    /// an empty set. While the entry keeps its key the set stays as it was.
    pub fn smallest_mut(&mut self) -> (r: Option<&mut Entry<T, ()>>)
        requires
            old(self).wf(),
        ensures
            r is None <==> old(self)@ == Set::<T>::empty(),
            r is None ==> *final(self) == *old(self),
            r matches Some(e) ==> {
                &&& is_least(old(self)@, e@.0)
                &&& final(e)@.0 == e@.0 ==> final(self).wf() && final(self)@ == old(self)@
            },
    {
        proof {
            if old(self).map@ == Map::<T, ()>::empty() {
                assert(old(self)@ =~= Set::<T>::empty());
            }
        }
        self.map.smallest_mut()
    }

    /// The entry of the largest key, or nothing for an empty set.
    pub fn largest(&self) -> (r: Option<&Entry<T, ()>>)
        requires
            self.wf(),
        ensures
            r is None <==> self@ == Set::<T>::empty(),
            r matches Some(e) ==> is_greatest(self@, e@.0),
    {
        let r = self.map.largest();
        proof {
            if r is None {
                assert(self@ =~= Set::<T>::empty());
            }
        }
        r
    }

    /// The entry of the largest key, to be changed in place, or nothing for
    /// an empty set. While the entry keeps its key the set stays as it was.
    pub fn largest_mut(&mut self) -> (r: Option<&mut Entry<T, ()>>)
        requires
            old(self).wf(),
        ensures
            r is None <==> old(self)@ == Set::<T>::empty(),
            r is None ==> *final(self) == *old(self),
            r matches Some(e) ==> {
                &&& is_greatest(old(self)@, e@.0)
                &&& final(e)@.0 == e@.0 ==> final(self).wf() && final(self)@ == old(self)@
            },
    {
        proof {
            if old(self).map@ == Map::<T, ()>::empty() {
                assert(old(self)@ =~= Set::<T>::empty());
            }
        }
        self.map.largest_mut()
    }
}


impl<T: Ord> Default for BsTreeSet<T> {
    /// An empty set, well-formed wherever `T`'s order is total.
    fn default() -> (s: Self)
        ensures
            s@ == Set::<T>::empty(),
            total_order::<T>() ==> s.wf(),
    {
        let s = BsTreeSet { map: BsTreeMap::default() };
        assert(s@ =~= Set::<T>::empty());
        s
    }
}

} // verus!
