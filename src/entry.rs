//! An owned key/value pair, the unit that the maps store.
use vstd::prelude::*;

verus! {

/// A key with its value. The key never changes once the entry exists; the
/// value may be read and replaced in place.
#[derive(Debug, PartialEq)]
pub struct Entry<K, V> {
    key: K,
    value: V,
}

impl<K, V> View for Entry<K, V> {
    type V = (K, V);

    /// The entry as its pair `(key, value)`.
    closed spec fn view(&self) -> (K, V) {
        (self.key, self.value)
    }
}

impl<K, V> Entry<K, V> {
    /// Makes the entry that holds `key` and `value`.
    pub fn new(key: K, value: V) -> (e: Entry<K, V>)
        ensures
            e@ == (key, value),
    {
        Entry { key, value }
    }

    /// The entry's key.
    pub fn key(&self) -> (k: &K)
        ensures
            *k == self@.0,
    {
        &self.key
    }

    /// The entry's value.
    pub fn value(&self) -> (v: &V)
        ensures
            *v == self@.1,
    {
        &self.value
    }

    /// The entry's value, to be changed in place; the key stays as it is.
    pub fn value_mut(&mut self) -> (v: &mut V)
        ensures
            *v == old(self)@.1,
            final(self)@ == (old(self)@.0, *final(v)),
    {
        &mut self.value
    }

    /// Takes the entry apart into its key and its value.
    pub(crate) fn into_parts(self) -> (r: (K, V))
        ensures
            r == self@,
    {
        (self.key, self.value)
    }
}

} // verus!
