//! A singly linked list with constant-time insertion at the front.
pub mod node;

use node::{first_index, remove_first, Node};
use vstd::laws_eq::obeys_concrete_eq;
use vstd::prelude::*;

verus! {

/// A list of values: an optional first node and the number of nodes.
pub struct LinkedList<T> {
    head: Option<Box<Node<T>>>,
    len: usize,
}

impl<T> View for LinkedList<T> {
    type V = Seq<T>;

    /// The values of the list, front first.
    closed spec fn view(&self) -> Seq<T> {
        Node::optional_seq(self.head)
    }
}

impl<T> LinkedList<T> {
    /// The node count that the list keeps.
    pub closed spec fn spec_len(self) -> nat {
        self.len as nat
    }

    /// The kept count is the number of nodes.
    pub open spec fn wf(self) -> bool {
        self.spec_len() == self@.len()
    }

    /// Makes an empty list.
    pub fn new() -> (l: LinkedList<T>)
        ensures
            l.wf(),
            l@ == Seq::<T>::empty(),
    {
        LinkedList { head: None, len: 0 }
    }

    /// Makes the list that starts at `node`, counting its nodes.
    pub fn from_node(node: Node<T>) -> (l: LinkedList<T>)
        requires
            node@.len() <= usize::MAX,
        ensures
            l.wf(),
            l@ == node@,
    {
        let len = node.length();
        LinkedList { head: Some(Box::new(node)), len }
    }

    /// Appends `value` at the end.
    pub fn push(&mut self, value: T)
        requires
            old(self).wf(),
            old(self)@.len() < usize::MAX,
        ensures
            final(self).wf(),
            final(self)@ == old(self)@.push(value),
    {
        match self.head {
            Some(ref mut node) => node.push(value),
            None => {
                self.head = Some(Box::new(Node::new(value)));
            },
        };
        self.len += 1;
    }

    /// The value at `index`, if the list is that long.
    pub fn get(&self, index: usize) -> (r: Option<&T>)
        ensures
            r == (if index < self@.len() { Some(&self@[index as int]) } else { None }),
    {
        match self.head {
            Some(ref node) => node.get(index),
            None => None,
        }
    }

    /// The value at `index`, to be changed in place, if the list is that
    /// long.
    pub fn get_mut(&mut self, index: usize) -> (r: Option<&mut T>)
        ensures
            r is Some <==> index < old(self)@.len(),
            r is None ==> *final(self) == *old(self),
            r matches Some(v) ==> {
                &&& *v == old(self)@[index as int]
                &&& final(self)@ == old(self)@.update(index as int, *final(v))
                &&& final(self).spec_len() == old(self).spec_len()
            },
    {
        match self.head {
            Some(ref mut node) => node.get_mut(index),
            None => None,
        }
    }

    /// Puts `value` at `index`, moving the values from there on one place
    /// back; if `index` is past the end, nothing changes.
    pub fn insert(&mut self, index: usize, value: T)
        requires
            old(self).wf(),
            old(self)@.len() < usize::MAX,
        ensures
            final(self).wf(),
            final(self)@ == (if index <= old(self)@.len() {
                old(self)@.insert(index as int, value)
            } else {
                old(self)@
            }),
    {
        if index == 0 {
            self.add(value);
            assert(self@ =~= old(self)@.insert(0, value));
            return;
        }
        if index > self.len {
            return;
        }
        match self.head {
            Some(ref mut node) => node.insert(index, value),
            None => {},
        }
        self.len += 1;
    }

    /// Removes the last value and returns it, or returns nothing for an
    /// empty list.
    pub fn pop(&mut self) -> (r: Option<T>)
        requires
            old(self).wf(),
        ensures
            final(self).wf(),
            old(self)@.len() == 0 ==> r is None && final(self)@ == old(self)@,
            old(self)@.len() > 0 ==> r == Some(old(self)@.last()) && final(self)@
                == old(self)@.drop_last(),
    {
        if self.len == 0 {
            return None;
        }
        if self.len == 1 {
            let node = self.head.take().unwrap();
            proof { node.lemma_unfold(); }
            self.len = 0;
            assert(self@ =~= old(self)@.drop_last());
            return Some(node.value);
        }
        self.len -= 1;
        match self.head {
            Some(ref mut node) => Some(node.pop()),
            None => None,
        }
    }

    /// Removes every value at `index` and after; if `index` is past the end,
    /// nothing changes.
    pub fn trunc(&mut self, index: usize)
        requires
            old(self).wf(),
        ensures
            final(self).wf(),
            final(self)@ == (if index < old(self)@.len() {
                old(self)@.take(index as int)
            } else {
                old(self)@
            }),
    {
        if index >= self.len {
            return;
        }
        if index == 0 {
            self.head = None;
            self.len = 0;
            assert(self@ =~= old(self)@.take(0));
            return;
        }
        match self.head {
            Some(ref mut node) => node.trunc(index - 1),
            None => {},
        }
        self.len = index;
    }

    /// Replaces the value at `index` with `value`; if no such value exists,
    /// nothing happens.
    pub fn set(&mut self, index: usize, value: T)
        requires
            old(self).wf(),
        ensures
            final(self).wf(),
            final(self)@ == (if index < old(self)@.len() {
                old(self)@.update(index as int, value)
            } else {
                old(self)@
            }),
    {
        if let Some(ref mut node) = self.head {
            node.set(index, value);
        }
    }

    /// Swaps the values at `first_index` and `second_index`; if either does
    /// not exist, nothing happens.
    pub fn swap(&mut self, first_index: usize, second_index: usize)
        requires
            old(self).wf(),
        ensures
            final(self).wf(),
            first_index < old(self)@.len() && second_index < old(self)@.len() ==> final(self)@
                == old(self)@.update(first_index as int, old(self)@[second_index as int]).update(
                second_index as int,
                old(self)@[first_index as int],
            ),
            !(first_index < old(self)@.len() && second_index < old(self)@.len()) ==> final(self)@
                == old(self)@,
    {
        if let Some(ref mut node) = self.head {
            node.swap(first_index, second_index);
        }
    }

    /// The number of values in the list.
    pub fn size(&self) -> (n: usize)
        requires
            self.wf(),
        ensures
            n == self@.len(),
    {
        self.len
    }

    /// Puts `value` in front of the list.
    pub fn add(&mut self, value: T)
        requires
            old(self).wf(),
            old(self)@.len() < usize::MAX,
        ensures
            final(self).wf(),
            final(self)@ == seq![value] + old(self)@,
    {
        let node = Node { value, next: self.head.take() };
        proof { node.lemma_unfold(); }
        self.head = Some(Box::new(node));
        self.len += 1;
    }

    /// Appends the values of `other` after those of this list.
    pub fn concat(&mut self, other: LinkedList<T>)
        requires
            old(self).wf(),
            other.wf(),
            old(self)@.len() + other@.len() <= usize::MAX,
        ensures
            final(self).wf(),
            final(self)@ == old(self)@ + other@,
    {
        if let Some(other_node) = other.head {
            self.len += other.len;
            match self.head {
                Some(ref mut node) => node.concat(*other_node),
                None => self.head = Some(other_node),
            }
        }
        assert(self@ =~= old(self)@ + other@);
    }
}

impl<T: PartialEq> LinkedList<T> {
    /// Whether `value` occurs in the list.
    pub fn contains(&self, value: T) -> (r: bool)
        requires
            obeys_concrete_eq::<T>(),
        ensures
            r == self@.contains(value),
    {
        match self.head {
            Some(ref node) => node.contains(value),
            None => false,
        }
    }

    /// Removes the first node that holds `value`, if there is one.
    pub fn remove(&mut self, value: T)
        requires
            old(self).wf(),
            obeys_concrete_eq::<T>(),
        ensures
            final(self).wf(),
            final(self)@ == remove_first(old(self)@, value),
    {
        proof { node::lemma_concrete_eq::<T>(); }
        if let Some(mut node) = self.head.take() {
            proof { node.lemma_unfold(); }
            if node.value == value {
                self.head = node.next.take();
                self.len -= 1;
                assert(self@ =~= remove_first(old(self)@, value));
            } else {
                proof { node::lemma_first_index(node@.drop_first(), value); }
                node.remove(value);
                self.len = node.length();
                self.head = Some(node);
            }
        }
    }

    /// The index of the first node that holds `value`, if there is one.
    pub fn find(&self, value: T) -> (r: Option<usize>)
        requires
            self.wf(),
            obeys_concrete_eq::<T>(),
        ensures
            match r {
                Some(i) => first_index(self@, value) == Some(i as int),
                None => first_index(self@, value) is None,
            },
    {
        match self.head {
            Some(ref node) => node.find(value),
            None => None,
        }
    }
}


impl<T> Default for LinkedList<T> {
    /// An empty list.
    fn default() -> (l: Self)
        ensures
            l.wf(),
            l@ == Seq::<T>::empty(),
    {
        Self::new()
    }
}

} // verus!
