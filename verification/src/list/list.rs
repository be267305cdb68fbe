use vstd::prelude::*;
use crate::list::steps::{after_pops, lemma_pops_in_order};

verus! {

type Link<T> = Option<Box<Node<T>>>;

/// A singly linked list used as a stack: `push` and `pop` work at the front.
pub struct List<T> {
    head: Link<T>,
}

pub struct Node<T> {
    value: T,
    next: Link<T>,
}

impl<T> Node<T> {
    /// The values along a chain of nodes, front first.
    pub closed spec fn chain(link: Link<T>) -> Seq<T>
        decreases link,
    {
        match link {
            None => Seq::empty(),
            Some(node) => seq![node.value] + Node::chain(node.next),
        }
    }

    /// The value this node holds.
    pub closed spec fn spec_value(&self) -> T {
        self.value
    }

    /// The values from this node to the end of its chain.
    pub closed spec fn spec_values(&self) -> Seq<T> {
        seq![self.value] + Node::chain(self.next)
    }

    pub fn new(val: T, next: Link<T>) -> (node: Self)
        ensures
            node.spec_value() == val,
            node.spec_values() == seq![val] + Node::chain(next),
    {
        Self { value: val, next: next }
    }
}

impl<T> View for List<T> {
    type V = Seq<T>;

    /// The values of the list, front (most recently pushed) first.
    closed spec fn view(&self) -> Seq<T> {
        Node::chain(self.head)
    }
}

impl<T> List<T> {
    /// An empty list.
    pub fn new() -> (l: Self)
        ensures
            l@ == Seq::<T>::empty(),
    {
        Self { head: None }
    }

    /// Puts `val` at the front.
    pub fn push(&mut self, val: T)
        ensures
            final(self)@ == seq![val] + old(self)@,
    {
        let node = Node::new(val, self.head.take());
        self.head = Some(Box::new(node));
    }

    /// Takes the front value off; `None` when the list is empty.
    pub fn pop(&mut self) -> (r: Option<T>)
        ensures
            old(self)@.len() == 0 ==> r is None && final(self)@ == old(self)@,
            old(self)@.len() > 0 ==> r == Some(old(self)@[0]) && final(self)@ == old(self)@.drop_first(),
    {
        match self.head.take() {
            Some(node) => {
                let mut node = node;
                self.head = node.next.take();
                Some(node.value)
            },
            None => None,
        }
    }

    /// The front value, left in place; `None` when the list is empty.
    pub fn peek(&self) -> (r: Option<&T>)
        ensures
            self@.len() == 0 ==> r is None,
            self@.len() > 0 ==> r == Some(&self@[0]),
    {
        match &self.head {
            Some(node) => Some(&node.value),
            None => None,
        }
    }

    /// Turns the list into an iterator that gives its values away, front first.
    pub fn into_iter(self) -> (it: IntoIter<T>)
        ensures
            it@ == self@,
    {
        IntoIter(self)
    }

    /// An iterator over references to the values, front first.
    pub fn iter(&self) -> (it: Iter<'_, T>)
        ensures
            it@ == self@,
    {
        Iter {
            next: match &self.head {
                Some(node) => Some(&**node),
                None => None,
            },
        }
    }

    /// An iterator over mutable references to the values, front first.
    pub fn iter_mut(&mut self) -> (it: IterMut<'_, T>)
        ensures
            it@ == old(self)@,
            (it.spec_next() is None) == (it@.len() == 0),
            final(self)@ == (match it.spec_next() {
                Some(node) => final(node).spec_values(),
                None => Seq::empty(),
            }),
    {
        IterMut {
            next: match &mut self.head {
                Some(node) => Some(&mut **node),
                None => None,
            },
        }
    }
}

/// Gives the values of a list away, front first.
pub struct IntoIter<T>(List<T>);

impl<T> View for IntoIter<T> {
    type V = Seq<T>;

    /// The values still to come.
    closed spec fn view(&self) -> Seq<T> {
        self.0@
    }
}

impl<T> IntoIter<T> {
    /// The next value, or `None` when all have been given.
    pub fn next(&mut self) -> (r: Option<T>)
        ensures
            old(self)@.len() == 0 ==> r is None && final(self)@ == old(self)@,
            old(self)@.len() > 0 ==> r == Some(old(self)@[0]) && final(self)@ == old(self)@.drop_first(),
    {
        self.0.pop()
    }
}

/// Walks the values of a list by reference, front first.
pub struct Iter<'a, T> {
    next: Option<&'a Node<T>>,
}

impl<'a, T> View for Iter<'a, T> {
    type V = Seq<T>;

    /// The values still to come.
    closed spec fn view(&self) -> Seq<T> {
        match self.next {
            Some(node) => node.spec_values(),
            None => Seq::empty(),
        }
    }
}

impl<'a, T> Iter<'a, T> {
    /// A reference to the next value, or `None` at the end.
    pub fn next(&mut self) -> (r: Option<&'a T>)
        ensures
            old(self)@.len() == 0 ==> r is None && final(self)@ == old(self)@,
            old(self)@.len() > 0 ==> r == Some(&old(self)@[0]) && final(self)@ == old(self)@.drop_first(),
    {
        match self.next {
            Some(node) => {
                self.next = match &node.next {
                    Some(n) => Some(&**n),
                    None => None,
                };
                proof {
                    assert(old(self)@.drop_first() =~= Node::chain(node.next));
                }
                Some(&node.value)
            },
            None => None,
        }
    }
}

/// Walks the values of a list by mutable reference, front first.
pub struct IterMut<'a, T> {
    next: Option<&'a mut Node<T>>,
}

impl<'a, T> View for IterMut<'a, T> {
    type V = Seq<T>;

    /// The values still to come.
    closed spec fn view(&self) -> Seq<T> {
        match self.next {
            Some(node) => node.spec_values(),
            None => Seq::empty(),
        }
    }
}

impl<'a, T> IterMut<'a, T> {
    /// The node the iterator stands on.
    pub closed spec fn spec_next(&self) -> Option<&'a mut Node<T>> {
        self.next
    }

    /// A mutable reference to the next value, or `None` at the end.
    pub fn next(&mut self) -> (r: Option<&'a mut T>)
        ensures
            (old(self).spec_next() is None) == (old(self)@.len() == 0),
            (final(self).spec_next() is None) == (final(self)@.len() == 0),
            old(self)@.len() == 0 ==> r is None && final(self)@ == old(self)@,
            old(self)@.len() > 0 ==> (r matches Some(v) && *v == old(self)@[0]) && final(self)@
                == old(self)@.drop_first(),
            old(self).spec_next() matches Some(node) ==> (r matches Some(v) && final(node).spec_values() == seq![
                *final(v),
            ] + match final(self).spec_next() {
                Some(rest) => final(rest).spec_values(),
                None => Seq::empty(),
            }),
    {
        match self.next.take() {
            Some(node) => {
                self.next = match &mut node.next {
                    Some(n) => Some(&mut **n),
                    None => None,
                };
                Some(&mut node.value)
            },
            None => None,
        }
    }
}

/// Popping right after pushing `v` gives back `v` and leaves the list as it was:
/// last in, first out.
pub proof fn lemma_pop_undoes_push<T>(s: Seq<T>, v: T)
    ensures
        (seq![v] + s).len() > 0,
        (seq![v] + s)[0] == v,
        (seq![v] + s).drop_first() == s,
{
    assert((seq![v] + s).drop_first() =~= s);
}

/// Each step of an iterator over a list with values `s` that has already given `k`
/// values gives `s[k]` and leaves `s.skip(k + 1)` to come: the values come in list
/// order, front first, and none twice.
pub proof fn lemma_iteration_step<T>(s: Seq<T>, k: int)
    requires
        0 <= k < s.len(),
    ensures
        s.skip(k).len() > 0,
        s.skip(k)[0] == s[k],
        s.skip(k).drop_first() == s.skip(k + 1),
{
    assert(s.skip(k).drop_first() =~= s.skip(k + 1));
}

/// An iterator fresh from a list has the whole list to come.
pub proof fn lemma_iteration_start<T>(s: Seq<T>)
    ensures
        s.skip(0) == s,
{
    assert(s.skip(0) =~= s);
}

/// The iterator from `into_iter` on a list holding `s` gives every value away once,
/// front to back: after `k` calls of `next` it holds `s.skip(k)`, the next call gives
/// `s[k]`, and after `s.len()` calls it is empty, so every further call gives `None`.
pub proof fn lemma_into_iter_yields_in_order<T>(s: Seq<T>, k: nat)
    requires
        k <= s.len(),
    ensures
        after_pops(s, k) == s.skip(k as int),
        k < s.len() ==> after_pops(s, k)[0] == s[k as int],
        k == s.len() ==> after_pops(s, k).len() == 0,
{
    lemma_pops_in_order(s, k);
}

/// The iterator from `iter` on a list holding `s` refers to every value once, front to
/// back: after `k` calls of `next` it has `s.skip(k)` to come, the next call gives a
/// reference to `s[k]`, and after `s.len()` calls every further call gives `None`. The
/// list itself is only borrowed for reading, so it still holds `s`.
pub proof fn lemma_iter_yields_in_order<T>(s: Seq<T>, k: nat)
    requires
        k <= s.len(),
    ensures
        after_pops(s, k) == s.skip(k as int),
        k < s.len() ==> after_pops(s, k)[0] == s[k as int],
        k == s.len() ==> after_pops(s, k).len() == 0,
{
    lemma_pops_in_order(s, k);
}

/// What the rest of the list holds from the `k`-th node on is `written.skip(k)`.
proof fn lemma_finals_from<T>(finals: Seq<Seq<T>>, written: Seq<T>, k: int)
    requires
        finals.len() == written.len() + 1,
        finals.last().len() == 0,
        forall|j: int| 0 <= j < written.len() ==> finals[j] == seq![#[trigger] written[j]] + finals[j + 1],
        0 <= k <= written.len(),
    ensures
        finals[k] == written.skip(k),
    decreases written.len() - k,
{
    if k == written.len() {
        assert(finals[k] =~= written.skip(k));
    } else {
        lemma_finals_from(finals, written, k + 1);
        assert(finals[k] == seq![written[k]] + finals[k + 1]);
        assert(seq![written[k]] + written.skip(k + 1) =~= written.skip(k));
    }
}

/// Walking `iter_mut` over a list to its end writes back what was left behind each
/// reference. `finals[k]` is what the list holds from the `k`-th node on once the borrow
/// ends (so `finals[0]` is the whole list, as `iter_mut` states), `written[k]` is the
/// value behind the `k`-th reference then, and each step of `IterMut::next` states
/// `finals[k] == seq![written[k]] + finals[k + 1]`; the walk ends with nothing left.
/// Then the list holds exactly `written`, in order.
pub proof fn lemma_iter_mut_writes_back<T>(finals: Seq<Seq<T>>, written: Seq<T>)
    requires
        finals.len() == written.len() + 1,
        finals.last().len() == 0,
        forall|k: int| 0 <= k < written.len() ==> finals[k] == seq![#[trigger] written[k]] + finals[k + 1],
    ensures
        finals[0] == written,
{
    lemma_finals_from(finals, written, 0);
    assert(written.skip(0) =~= written);
}

/// Walking `iter_mut` over a list holding `s` and writing `v` through the `i`-th
/// reference only (every other reference keeps its value) leaves the list holding
/// `s.update(i, v)`: same length, same order, one value changed.
pub proof fn lemma_iter_mut_one_write<T>(s: Seq<T>, i: int, v: T, finals: Seq<Seq<T>>, written: Seq<T>)
    requires
        written.len() == s.len(),
        0 <= i < s.len(),
        written[i] == v,
        forall|j: int| 0 <= j < s.len() && j != i ==> written[j] == s[j],
        finals.len() == written.len() + 1,
        finals.last().len() == 0,
        forall|k: int| 0 <= k < written.len() ==> finals[k] == seq![#[trigger] written[k]] + finals[k + 1],
    ensures
        finals[0] == s.update(i, v),
{
    lemma_iter_mut_writes_back(finals, written);
    assert(written =~= s.update(i, v));
}

} // verus!
