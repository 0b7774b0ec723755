//! A node of the singly linked list, with the walks along it.
use vstd::laws_eq::obeys_concrete_eq;
use vstd::prelude::*;
use vstd::std_specs::cmp::PartialEqSpec;

verus! {

/// The index of the first occurrence of `v` in `s`, if there is one.
pub open spec fn first_index<T>(s: Seq<T>, v: T) -> Option<int>
    decreases s.len(),
{
    if s.len() == 0 {
        None
    } else if s[0] == v {
        Some(0)
    } else {
        match first_index(s.drop_first(), v) {
            Some(i) => Some(i + 1),
            None => None,
        }
    }
}

/// `s` without the first occurrence of `v`, or `s` itself if `v` does not
/// occur.
pub open spec fn remove_first<T>(s: Seq<T>, v: T) -> Seq<T> {
    match first_index(s, v) {
        Some(i) => s.remove(i),
        None => s,
    }
}

/// `first_index` finds the first occurrence, and finds one whenever `v`
/// occurs.
pub proof fn lemma_first_index<T>(s: Seq<T>, v: T)
    ensures
        first_index(s, v) is None <==> !s.contains(v),
        first_index(s, v) matches Some(i) ==> {
            &&& 0 <= i < s.len()
            &&& s[i] == v
            &&& forall|j: int| 0 <= j < i ==> s[j] != v
        },
    decreases s.len(),
{
    if s.len() > 0 {
        lemma_first_index(s.drop_first(), v);
        if s[0] != v {
            if s.contains(v) {
                let k = choose|k: int| 0 <= k < s.len() && s[k] == v;
                assert(s.drop_first()[k - 1] == v);
            }
            if let Some(i) = first_index(s.drop_first(), v) {
                assert forall|j: int| 0 <= j < i + 1 implies s[j] != v by {
                    if j > 0 {
                        assert(s[j] == s.drop_first()[j - 1]);
                    }
                }
            }
        }
    }
}

/// One element of a list and the rest of the list after it.
pub struct Node<T> {
    pub value: T,
    pub next: Option<Box<Node<T>>>,
}

impl<T> Node<T> {
    /// The elements of an optional list; empty where there is none.
    pub open spec fn optional_seq(n: Option<Box<Node<T>>>) -> Seq<T> {
        match n {
            None => Seq::empty(),
            Some(node) => node.as_seq(),
        }
    }

    /// The elements of the list that starts at this node, in order.
    pub open spec fn as_seq(self) -> Seq<T>
        decreases self,
    {
        match self.next {
            None => seq![self.value],
            Some(node) => seq![self.value] + node.as_seq(),
        }
    }

    /// The list starting here is its first value followed by the rest.
    pub proof fn lemma_unfold(self)
        ensures
            self@ == seq![self.value] + Self::optional_seq(self.next),
            self@.len() >= 1,
            self@[0] == self.value,
            self@.drop_first() == Self::optional_seq(self.next),
    {
        assert(self@ =~= seq![self.value] + Self::optional_seq(self.next));
        assert(self@.drop_first() =~= Self::optional_seq(self.next));
    }

    /// Makes a list of the one element `value`.
    pub fn new(value: T) -> (n: Node<T>)
        ensures
            n@ == seq![value],
    {
        let n = Node { value, next: None };
        assert(n@ =~= seq![value]);
        n
    }

    /// Appends `value` after the last node.
    pub fn push(&mut self, value: T)
        ensures
            final(self)@ == old(self)@.push(value),
        decreases *old(self),
    {
        match self.next {
            Some(ref mut node) => {
                node.push(value);
                let ghost rest = Self::optional_seq(old(self).next);
                assert(Self::optional_seq(self.next) == rest.push(value));
            },
            None => {
                self.next = Some(Box::new(Node::new(value)));
            },
        }
        assert(self@ =~= old(self)@.push(value));
    }

    /// The node at `n` steps from this one, to be changed in place, if the
    /// list is that long. Whatever becomes of it, the nodes before it stay.
    pub fn at_index_mut(&mut self, n: usize) -> (r: Option<&mut Node<T>>)
        ensures
            r is Some <==> n < old(self)@.len(),
            r is None ==> *final(self) == *old(self),
            r matches Some(node) ==> {
                &&& node@ == old(self)@.skip(n as int)
                &&& final(self)@ == old(self)@.take(n as int) + final(node)@
            },
        decreases *old(self),
    {
        proof { old(self).lemma_unfold(); }
        if n == 0 {
            assert(old(self)@.skip(0) =~= old(self)@);
            return Some(self);
        }
        match self.next {
            Some(ref mut node) => {
                proof {
                    let ghost rest = Self::optional_seq(old(self).next);
                    assert(n < old(self)@.len() ==> old(self)@.skip(n as int) =~= rest.skip(n - 1));
                }
                node.at_index_mut(n - 1)
            },
            None => None,
        }
    }

    /// Puts a new node holding `value` at `index`, after the node at
    /// `index - 1`, if the list reaches that far; otherwise nothing changes.
    pub fn insert(&mut self, index: usize, value: T)
        requires
            index >= 1,
        ensures
            index <= old(self)@.len() ==> final(self)@ == old(self)@.insert(index as int, value),
            index > old(self)@.len() ==> *final(self) == *old(self),
    {
        if let Some(node) = self.at_index_mut(index - 1) {
            let ghost before = node@;
            let new_node = Node { value, next: node.next.take() };
            assert(new_node@ == seq![value] + before.drop_first());
            node.next = Some(Box::new(new_node));
            assert(node@ =~= seq![before[0], value] + before.drop_first());
        }
        assert(index <= old(self)@.len() ==> self@ =~= old(self)@.insert(index as int, value));
    }

    /// Removes the last node, which is not this one, and returns its value.
    pub fn pop(&mut self) -> (v: T)
        requires
            old(self)@.len() >= 2,
        ensures
            v == old(self)@.last(),
            final(self)@ == old(self)@.drop_last(),
        decreases *old(self),
    {
        proof { old(self).lemma_unfold(); }
        let mut next = self.next.take().unwrap();
        proof { next.lemma_unfold(); }
        if next.next.is_none() {
            assert(self@ =~= old(self)@.drop_last());
            next.value
        } else {
            let v = next.pop();
            self.next = Some(next);
            assert(self@ =~= old(self)@.drop_last());
            v
        }
    }

    /// Cuts off every node after the one at `index`, if the list reaches
    /// that far; otherwise nothing changes.
    pub fn trunc(&mut self, index: usize)
        ensures
            index < old(self)@.len() ==> final(self)@ == old(self)@.take(index + 1),
            index >= old(self)@.len() ==> *final(self) == *old(self),
    {
        if let Some(node) = self.at_index_mut(index) {
            proof { node.lemma_unfold(); }
            node.next = None;
            proof { node.lemma_unfold(); }
        }
        assert(index < old(self)@.len() ==> self@ =~= old(self)@.take(index + 1));
    }

    /// The value at `index`, if the list is that long.
    pub fn get(&self, index: usize) -> (r: Option<&T>)
        ensures
            r == (if index < self@.len() { Some(&self@[index as int]) } else { None }),
        decreases self,
    {
        if index == 0 {
            return Some(&self.value);
        }
        match self.next {
            Some(ref node) => node.get(index - 1),
            None => None,
        }
    }

    /// The value at `index`, to be changed in place, if the list is that
    /// long.
    pub fn get_mut(&mut self, index: usize) -> (r: Option<&mut T>)
        ensures
            r is Some <==> index < old(self)@.len(),
            r is None ==> *final(self) == *old(self),
            r matches Some(v) ==> {
                &&& *v == old(self)@[index as int]
                &&& final(self)@ == old(self)@.update(index as int, *final(v))
            },
        decreases *old(self),
    {
        if index == 0 {
            return Some(&mut self.value);
        }
        match self.next {
            Some(ref mut node) => node.get_mut(index - 1),
            None => None,
        }
    }

    /// Replaces the value at `index` with `value`; if the index is out of
    /// bounds, nothing changes.
    pub fn set(&mut self, index: usize, value: T)
        ensures
            final(self)@ == (if index < old(self)@.len() {
                old(self)@.update(index as int, value)
            } else {
                old(self)@
            }),
    {
        if let Some(node) = self.at_index_mut(index) {
            proof { node.lemma_unfold(); }
            node.value = value;
            proof { node.lemma_unfold(); }
        }
        assert(index < old(self)@.len() ==> self@ =~= old(self)@.update(index as int, value));
    }

    /// Exchanges `value` with the value at `index`, if the list is that
    /// long; otherwise nothing changes.
    fn exchange(&mut self, index: usize, value: &mut T)
        ensures
            index < old(self)@.len() ==> {
                &&& *final(value) == old(self)@[index as int]
                &&& final(self)@ == old(self)@.update(index as int, *old(value))
            },
            index >= old(self)@.len() ==> *final(value) == *old(value) && *final(self)
                == *old(self),
        decreases *old(self),
    {
        proof { old(self).lemma_unfold(); }
        if index == 0 {
            core::mem::swap(&mut self.value, value);
            proof { self.lemma_unfold(); }
            assert(self@ =~= old(self)@.update(0, *old(value)));
        } else {
            match self.next {
                Some(ref mut node) => {
                    node.exchange(index - 1, value);
                    proof { self.lemma_unfold(); }
                    assert(index < old(self)@.len() ==> self@ =~= old(self)@.update(
                        index as int,
                        *old(value),
                    ));
                },
                None => {},
            }
        }
    }

    /// Swaps the values at `first_index` and `second_index`; if either is
    /// out of bounds, nothing changes.
    pub fn swap(&mut self, first_index: usize, second_index: usize)
        ensures
            first_index < old(self)@.len() && second_index < old(self)@.len() ==> final(self)@
                == old(self)@.update(first_index as int, old(self)@[second_index as int]).update(
                second_index as int,
                old(self)@[first_index as int],
            ),
            !(first_index < old(self)@.len() && second_index < old(self)@.len()) ==> final(self)@
                == old(self)@,
        decreases *old(self),
    {
        proof { old(self).lemma_unfold(); }
        let ghost s = old(self)@;
        if first_index == second_index {
            assert(first_index < s.len() ==> s.update(first_index as int, s[second_index as int]).update(
                second_index as int,
                s[first_index as int],
            ) =~= s);
            return;
        }
        let (low, high) = if first_index < second_index {
            (first_index, second_index)
        } else {
            (second_index, first_index)
        };
        if low == 0 {
            match self.next {
                Some(ref mut node) => {
                    node.exchange(high - 1, &mut self.value);
                },
                None => {},
            }
        } else {
            match self.next {
                Some(ref mut node) => {
                    node.swap(low - 1, high - 1);
                },
                None => {},
            }
        }
        proof { self.lemma_unfold(); }
        assert(first_index < s.len() && second_index < s.len() ==> self@ =~= s.update(
            first_index as int,
            s[second_index as int],
        ).update(second_index as int, s[first_index as int]));
        assert(!(first_index < s.len() && second_index < s.len()) ==> self@ =~= s);
    }

    /// Links `other` after the last node.
    pub fn concat(&mut self, other: Node<T>)
        ensures
            final(self)@ == old(self)@ + other@,
        decreases *old(self),
    {
        match self.next {
            Some(ref mut node) => {
                node.concat(other);
                assert(Self::optional_seq(self.next) == Self::optional_seq(old(self).next) + other@);
            },
            None => {
                self.next = Some(Box::new(other));
            },
        }
        assert(self@ =~= old(self)@ + other@);
    }

    /// The number of nodes in the list.
    pub fn length(&self) -> (n: usize)
        requires
            self@.len() <= usize::MAX,
        ensures
            n == self@.len(),
        decreases self,
    {
        let mut length: usize = 1;
        if let Some(ref node) = self.next {
            length += node.length();
        }
        length
    }
}

/// `==` on `T` is equality of values.
pub proof fn lemma_concrete_eq<T: PartialEq>()
    requires
        obeys_concrete_eq::<T>(),
    ensures
        T::obeys_eq_spec(),
        forall|x: T, y: T| #[trigger] x.eq_spec(&y) <==> (x == y),
{
    reveal(obeys_concrete_eq);
}

/// Dropping the first occurrence of `v` from a sequence that does not start
/// with `v` keeps its first element in front.
proof fn lemma_remove_first_cons<T>(s: Seq<T>, v: T)
    requires
        s.len() > 0,
        s[0] != v,
    ensures
        remove_first(s, v) == seq![s[0]] + remove_first(s.drop_first(), v),
{
    lemma_first_index(s.drop_first(), v);
    match first_index(s.drop_first(), v) {
        Some(i) => {
            assert(remove_first(s, v) =~= seq![s[0]] + s.drop_first().remove(i));
        },
        None => {
            assert(s =~= seq![s[0]] + s.drop_first());
        },
    }
}

impl<T: PartialEq> Node<T> {
    /// Whether `value` occurs in the list.
    pub fn contains(&self, value: T) -> (r: bool)
        requires
            obeys_concrete_eq::<T>(),
        ensures
            r == self@.contains(value),
        decreases self,
    {
        proof {
            lemma_concrete_eq::<T>();
            self.lemma_unfold();
        }
        if self.value == value {
            assert(self@[0] == value);
            return true;
        }
        match &self.next {
            Some(node) => {
                proof { node.lemma_unfold(); }
                if node.value == value {
                    assert(self@[1] == value);
                    return true;
                }
                let r = node.contains(value);
                proof {
                    if r {
                        let i = choose|i: int| 0 <= i < node@.len() && node@[i] == value;
                        assert(self@[i + 1] == value);
                    }
                    if self@.contains(value) {
                        let i = choose|i: int| 0 <= i < self@.len() && self@[i] == value;
                        assert(node@[i - 1] == value);
                    }
                }
                r
            },
            None => {
                assert(self@ == seq![self.value]);
                false
            },
        }
    }

    /// The index of the first node that holds `value`, if there is one.
    pub fn find(&self, value: T) -> (r: Option<usize>)
        requires
            obeys_concrete_eq::<T>(),
            self@.len() <= usize::MAX,
        ensures
            match r {
                Some(i) => first_index(self@, value) == Some(i as int),
                None => first_index(self@, value) is None,
            },
        decreases self,
    {
        proof {
            lemma_concrete_eq::<T>();
            self.lemma_unfold();
        }
        if self.value == value {
            return Some(0);
        }
        assert(self@[0] != value);
        if let Some(ref node) = self.next {
            proof { lemma_first_index(node@, value); }
            return match node.find(value) {
                Some(index) => Some(index + 1),
                None => None,
            };
        }
        assert(first_index(self@.drop_first(), value) is None);
        None
    }

    /// Removes the first node after this one that holds `value`, if there is
    /// one; this node itself is never removed.
    pub fn remove(&mut self, value: T)
        requires
            obeys_concrete_eq::<T>(),
        ensures
            final(self)@ == seq![old(self).value] + remove_first(old(self)@.drop_first(), value),
        decreases *old(self),
    {
        proof {
            lemma_concrete_eq::<T>();
            old(self).lemma_unfold();
        }
        match self.next {
            Some(ref mut node) => {
                proof { node.lemma_unfold(); }
                if node.value == value {
                    self.next = node.next.take();
                } else {
                    proof { lemma_remove_first_cons(node@, value); }
                    node.remove(value);
                }
            },
            None => {},
        }
        proof { self.lemma_unfold(); }
        assert(self@ =~= seq![old(self).value] + remove_first(old(self)@.drop_first(), value));
    }
}

impl<T> View for Node<T> {
    type V = Seq<T>;

    open spec fn view(&self) -> Seq<T> {
        self.as_seq()
    }
}

} // verus!
