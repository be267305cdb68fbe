use vstd::prelude::*;
use crate::list::steps::{after_pops, after_push_backs, lemma_pops_in_order, lemma_push_backs_append};

verus! {

/// The slot of the head sentinel.
const HEAD: usize = 0;

/// The slot of the tail sentinel.
const TAIL: usize = 1;

/// A doubly linked list with a sentinel node at each end, usable as a deque.
///
/// The nodes live in slots of a vector and link to each other by slot number; the
/// slots of popped nodes are kept for reuse.
pub struct LinkedList<T: Default> {
    nodes: Vec<Node<T>>,
    free: Vec<usize>,
    /// The slots of the values, front to back.
    order: Ghost<Seq<usize>>,
}

struct Node<T> {
    value: T,
    prev: Option<usize>,
    next: Option<usize>,
}

impl<T> Node<T> {
    /// The value this node holds.
    pub closed spec fn spec_value(&self) -> T {
        self.value
    }

    /// The slot of the node before this one.
    pub closed spec fn spec_prev(&self) -> Option<usize> {
        self.prev
    }

    /// The slot of the node after this one.
    pub closed spec fn spec_next(&self) -> Option<usize> {
        self.next
    }

    /// A node holding `val`, not yet linked.
    pub fn new(val: T) -> (node: Self)
        ensures
            node.spec_value() == val,
            node.spec_prev() is None,
            node.spec_next() is None,
    {
        Node { value: val, prev: None, next: None }
    }
}

/// The slot of the node before position `k` of `order` (the head sentinel for the first).
spec fn slot_before(order: Seq<usize>, k: int) -> usize {
    if k == 0 {
        HEAD
    } else {
        order[k - 1]
    }
}

/// The slot of the node after position `k` of `order` (the tail sentinel for the last).
spec fn slot_after(order: Seq<usize>, k: int) -> usize {
    if k + 1 == order.len() {
        TAIL
    } else {
        order[k + 1]
    }
}

/// The slot right after the head sentinel.
spec fn first_slot(order: Seq<usize>) -> usize {
    if order.len() == 0 {
        TAIL
    } else {
        order[0]
    }
}

/// The slot right before the tail sentinel.
spec fn last_slot(order: Seq<usize>) -> usize {
    if order.len() == 0 {
        HEAD
    } else {
        order[order.len() - 1]
    }
}

impl<T: Default> View for LinkedList<T> {
    type V = Seq<T>;

    /// The values of the list, front to back.
    closed spec fn view(&self) -> Seq<T> {
        Seq::new(self.order@.len(), |k: int| self.nodes@[self.order@[k] as int].value)
    }
}

impl<T: Default> LinkedList<T> {
    /// The links between the slots match the order of the values: each node points
    /// back to the one before it and forward to the one after it, the sentinels close
    /// both ends, and no slot holding a value is on the free list.
    pub closed spec fn wf(&self) -> bool {
        let nodes = self.nodes@;
        let order = self.order@;
        &&& nodes.len() >= 2
        &&& order.no_duplicates()
        &&& forall|k: int| 0 <= k < order.len() ==> TAIL < #[trigger] order[k] < nodes.len()
        &&& nodes[HEAD as int].next == Some(first_slot(order))
        &&& nodes[HEAD as int].prev is None
        &&& nodes[TAIL as int].prev == Some(last_slot(order))
        &&& nodes[TAIL as int].next is None
        &&& forall|k: int|
            0 <= k < order.len() ==> (#[trigger] nodes[order[k] as int]).prev == Some(slot_before(order, k))
                && nodes[order[k] as int].next == Some(slot_after(order, k))
        &&& self.free@.no_duplicates()
        &&& forall|i: int|
            0 <= i < self.free@.len() ==> TAIL < #[trigger] self.free@[i] < nodes.len() && !order.contains(
                self.free@[i],
            )
    }

    /// An empty list: the two sentinels linked to each other.
    pub fn new() -> (l: Self)
        ensures
            l.wf(),
            l@ == Seq::<T>::empty(),
    {
        let mut dumy_head = Node::new(T::default());
        let mut dumy_tail = Node::new(T::default());
        dumy_head.next = Some(TAIL);
        dumy_tail.prev = Some(HEAD);
        let mut nodes: Vec<Node<T>> = Vec::new();
        nodes.push(dumy_head);
        nodes.push(dumy_tail);
        let l = Self { nodes, free: Vec::new(), order: Ghost(Seq::empty()) };
        proof {
            assert(l@ =~= Seq::<T>::empty());
        }
        l
    }

    /// A slot holding `val`, unlinked: a reused free slot, or a new one.
    fn alloc_slot(&mut self, val: T) -> (slot: usize)
        requires
            old(self).wf(),
        ensures
            final(self).wf(),
            final(self).order@ == old(self).order@,
            TAIL < slot < final(self).nodes@.len(),
            !final(self).order@.contains(slot),
            !final(self).free@.contains(slot),
            final(self).nodes@[slot as int].value == val,
            final(self).nodes@.len() >= old(self).nodes@.len(),
            forall|j: int| 0 <= j < old(self).nodes@.len() && j != slot ==> final(self).nodes@[j] == old(self).nodes@[j],
    {
        match self.free.pop() {
            Some(slot) => {
                proof {
                    assert(old(self).free@[old(self).free@.len() - 1] == slot);
                }
                self.nodes.set(slot, Node::new(val));
                proof {
                    assert(old(self).free@.no_duplicates());
                    if self.free@.contains(slot) {
                        let i = choose|i: int| 0 <= i < self.free@.len() && self.free@[i] == slot;
                        assert(old(self).free@[i] == slot);
                    }
                    assert forall|i: int| 0 <= i < self.free@.len() implies TAIL < #[trigger] self.free@[i] < self.nodes@.len()
                        && !self.order@.contains(self.free@[i]) by {
                        assert(self.free@[i] == old(self).free@[i]);
                    }
                    assert forall|k: int| 0 <= k < self.order@.len() implies (#[trigger] self.nodes@[self.order@[k] as int]).prev
                        == Some(slot_before(self.order@, k)) && self.nodes@[self.order@[k] as int].next == Some(
                        slot_after(self.order@, k),
                    ) by {
                        assert(self.order@[k] != slot);
                    }
                }
                slot
            },
            None => {
                let slot = self.nodes.len();
                self.nodes.push(Node::new(val));
                slot
            },
        }
    }

    /// Puts `val` at the front.
    pub fn push_front(&mut self, val: T)
        requires
            old(self).wf(),
        ensures
            final(self).wf(),
            final(self)@ == seq![val] + old(self)@,
    {
        let new_node = self.alloc_slot(val);
        let ghost o = self.order@;
        let ghost n0 = self.nodes@;
        let old_head = self.nodes[HEAD].next.unwrap();
        self.nodes[HEAD].next = Some(new_node);
        self.nodes[new_node].next = Some(old_head);
        self.nodes[new_node].prev = Some(HEAD);
        self.nodes[old_head].prev = Some(new_node);
        proof {
            let o2 = seq![new_node] + o;
            self.order@ = o2;
            let nodes = self.nodes@;
            assert(old_head == first_slot(o));
            assert(o2.no_duplicates()) by {
                assert forall|i: int, j: int| 0 <= i < j < o2.len() implies o2[i] != o2[j] by {
                    if i == 0 {
                        assert(o.contains(o2[j]));
                    } else {
                        assert(o2[i] == o[i - 1] && o2[j] == o[j - 1]);
                    }
                }
            }
            assert forall|k: int| 0 <= k < o2.len() implies TAIL < #[trigger] o2[k] < nodes.len() by {
                if k > 0 {
                    assert(o2[k] == o[k - 1]);
                }
            }
            assert(nodes[TAIL as int].prev == Some(last_slot(o2)));
            assert forall|k: int| 0 <= k < o2.len() implies (#[trigger] nodes[o2[k] as int]).prev == Some(
                slot_before(o2, k),
            ) && nodes[o2[k] as int].next == Some(slot_after(o2, k)) by {
                if k >= 1 {
                    assert(o2[k] == o[k - 1]);
                    assert(n0[o[k - 1] as int].prev == Some(slot_before(o, k - 1)));
                    if k >= 2 {
                        assert(o[k - 1] != o[0]);
                        assert(o2[k - 1] == o[k - 2]);
                    }
                    if k + 1 < o2.len() {
                        assert(o2[k + 1] == o[k]);
                    }
                }
            }
            assert forall|i: int| 0 <= i < self.free@.len() implies TAIL < #[trigger] self.free@[i] < nodes.len()
                && !o2.contains(self.free@[i]) by {
                if o2.contains(self.free@[i]) {
                    let k = choose|k: int| 0 <= k < o2.len() && o2[k] == self.free@[i];
                    if k > 0 {
                        assert(o.contains(o[k - 1]));
                    }
                }
            }
            assert(self@ =~= seq![val] + old(self)@) by {
                assert forall|k: int| 0 <= k < o2.len() implies #[trigger] self@[k] == (seq![val] + old(self)@)[k] by {
                    if k > 0 {
                        assert(o2[k] == o[k - 1]);
                    }
                }
            }
        }
    }

    /// Takes the front value off; `None` when the list is empty.
    pub fn pop_front(&mut self) -> (r: Option<T>)
        requires
            old(self).wf(),
        ensures
            final(self).wf(),
            old(self)@.len() == 0 ==> r is None && final(self)@ == old(self)@,
            old(self)@.len() > 0 ==> r == Some(old(self)@[0]) && final(self)@ == old(self)@.drop_first(),
    {
        let ghost o = self.order@;
        let ghost n0 = self.nodes@;
        let ghost f0 = self.free@;
        let first = self.nodes[HEAD].next.unwrap();
        if self.nodes[first].next.is_some() {
            let node = first;
            let successor = self.nodes[node].next.unwrap();
            self.nodes[node].next = None;
            self.nodes[HEAD].next = Some(successor);
            self.nodes[successor].prev = Some(HEAD);
            self.nodes[node].prev = None;
            let mut value = T::default();
            std::mem::swap(&mut value, &mut self.nodes[node].value);
            self.free.push(node);
            proof {
                assert(o.len() > 0);
                assert(node == o[0]);
                let o2 = o.drop_first();
                self.order@ = o2;
                let nodes = self.nodes@;
                assert(o2.no_duplicates()) by {
                    assert forall|i: int, j: int| 0 <= i < j < o2.len() implies o2[i] != o2[j] by {
                        assert(o2[i] == o[i + 1] && o2[j] == o[j + 1]);
                    }
                }
                assert forall|k: int| 0 <= k < o2.len() implies TAIL < #[trigger] o2[k] < nodes.len() by {
                    assert(o2[k] == o[k + 1]);
                }
                assert forall|k: int| 0 <= k < o2.len() implies (#[trigger] nodes[o2[k] as int]).prev == Some(
                    slot_before(o2, k),
                ) && nodes[o2[k] as int].next == Some(slot_after(o2, k)) by {
                    assert(o2[k] == o[k + 1]);
                    assert(o[k + 1] != o[0]);
                    assert(n0[o[k + 1] as int].prev == Some(slot_before(o, k + 1)));
                }
                if o.len() >= 2 {
                    assert(o[o.len() - 1] != o[0]);
                }
                assert forall|i: int| 0 <= i < self.free@.len() implies TAIL < #[trigger] self.free@[i] < nodes.len()
                    && !o2.contains(self.free@[i]) by {
                    if i < f0.len() {
                        assert(self.free@[i] == f0[i]);
                        if o2.contains(f0[i]) {
                            let k = choose|k: int| 0 <= k < o2.len() && o2[k] == f0[i];
                            assert(o.contains(o[k + 1]));
                        }
                    } else {
                        if o2.contains(node) {
                            let k = choose|k: int| 0 <= k < o2.len() && o2[k] == node;
                            assert(o[k + 1] == o[0]);
                        }
                    }
                }
                assert(self.free@.no_duplicates()) by {
                    assert(!f0.contains(node)) by {
                        if f0.contains(node) {
                            let i = choose|i: int| 0 <= i < f0.len() && f0[i] == node;
                            assert(o.contains(o[0]));
                        }
                    }
                    assert forall|i: int, j: int| 0 <= i < j < self.free@.len() implies self.free@[i] != self.free@[j] by {
                        if j == f0.len() {
                            assert(f0.contains(self.free@[i]));
                        }
                    }
                }
                assert(self@ =~= old(self)@.drop_first()) by {
                    assert forall|k: int| 0 <= k < o2.len() implies #[trigger] self@[k] == old(self)@.drop_first()[k] by {
                        assert(o2[k] == o[k + 1]);
                        assert(o[k + 1] != o[0]);
                    }
                }
            }
            return Some(value);
        }
        None
    }

    /// Puts `val` at the back.
    pub fn push_back(&mut self, val: T)
        requires
            old(self).wf(),
        ensures
            final(self).wf(),
            final(self)@ == old(self)@.push(val),
    {
        let new_node = self.alloc_slot(val);
        let ghost o = self.order@;
        let ghost n0 = self.nodes@;
        let old_tail = self.nodes[TAIL].prev.unwrap();
        self.nodes[TAIL].prev = Some(new_node);
        self.nodes[new_node].prev = Some(old_tail);
        self.nodes[new_node].next = Some(TAIL);
        self.nodes[old_tail].next = Some(new_node);
        proof {
            let o2 = o.push(new_node);
            self.order@ = o2;
            let nodes = self.nodes@;
            assert(old_tail == last_slot(o));
            assert(o2.no_duplicates()) by {
                assert forall|i: int, j: int| 0 <= i < j < o2.len() implies o2[i] != o2[j] by {
                    if j == o.len() {
                        assert(o.contains(o2[i]));
                    }
                }
            }
            assert forall|k: int| 0 <= k < o2.len() implies TAIL < #[trigger] o2[k] < nodes.len() by {
                if k < o.len() {
                    assert(o2[k] == o[k]);
                }
            }
            assert(nodes[HEAD as int].next == Some(first_slot(o2)));
            assert forall|k: int| 0 <= k < o2.len() implies (#[trigger] nodes[o2[k] as int]).prev == Some(
                slot_before(o2, k),
            ) && nodes[o2[k] as int].next == Some(slot_after(o2, k)) by {
                if k < o.len() {
                    assert(o2[k] == o[k]);
                    assert(n0[o[k] as int].prev == Some(slot_before(o, k)));
                    if k + 1 < o.len() {
                        assert(o[k] != o[o.len() - 1]);
                    }
                }
            }
            assert forall|i: int| 0 <= i < self.free@.len() implies TAIL < #[trigger] self.free@[i] < nodes.len()
                && !o2.contains(self.free@[i]) by {
                if o2.contains(self.free@[i]) {
                    let k = choose|k: int| 0 <= k < o2.len() && o2[k] == self.free@[i];
                    if k < o.len() {
                        assert(o.contains(o[k]));
                    }
                }
            }
            assert(self@ =~= old(self)@.push(val));
        }
    }

    /// Takes the back value off; `None` when the list is empty.
    pub fn pop_back(&mut self) -> (r: Option<T>)
        requires
            old(self).wf(),
        ensures
            final(self).wf(),
            old(self)@.len() == 0 ==> r is None && final(self)@ == old(self)@,
            old(self)@.len() > 0 ==> r == Some(old(self)@.last()) && final(self)@ == old(self)@.drop_last(),
    {
        let ghost o = self.order@;
        let ghost n0 = self.nodes@;
        let ghost f0 = self.free@;
        let last = self.nodes[TAIL].prev.unwrap();
        if self.nodes[last].prev.is_some() {
            let node = last;
            let successor = self.nodes[node].prev.unwrap();
            self.nodes[node].prev = None;
            self.nodes[TAIL].prev = Some(successor);
            self.nodes[successor].next = Some(TAIL);
            self.nodes[node].next = None;
            let mut value = T::default();
            std::mem::swap(&mut value, &mut self.nodes[node].value);
            self.free.push(node);
            proof {
                assert(o.len() > 0);
                let n = o.len() - 1;
                assert(node == o[n]);
                let o2 = o.drop_last();
                self.order@ = o2;
                let nodes = self.nodes@;
                assert(o2.no_duplicates()) by {
                    assert forall|i: int, j: int| 0 <= i < j < o2.len() implies o2[i] != o2[j] by {
                        assert(o2[i] == o[i] && o2[j] == o[j]);
                    }
                }
                assert forall|k: int| 0 <= k < o2.len() implies TAIL < #[trigger] o2[k] < nodes.len() by {
                    assert(o2[k] == o[k]);
                }
                assert forall|k: int| 0 <= k < o2.len() implies (#[trigger] nodes[o2[k] as int]).prev == Some(
                    slot_before(o2, k),
                ) && nodes[o2[k] as int].next == Some(slot_after(o2, k)) by {
                    assert(o2[k] == o[k]);
                    assert(o[k] != o[n]);
                    assert(n0[o[k] as int].prev == Some(slot_before(o, k)));
                }
                if o.len() >= 2 {
                    assert(o[0] != o[n]);
                }
                assert forall|i: int| 0 <= i < self.free@.len() implies TAIL < #[trigger] self.free@[i] < nodes.len()
                    && !o2.contains(self.free@[i]) by {
                    if i < f0.len() {
                        assert(self.free@[i] == f0[i]);
                        if o2.contains(f0[i]) {
                            let k = choose|k: int| 0 <= k < o2.len() && o2[k] == f0[i];
                            assert(o.contains(o[k]));
                        }
                    } else {
                        if o2.contains(node) {
                            let k = choose|k: int| 0 <= k < o2.len() && o2[k] == node;
                            assert(o[k] == o[n]);
                        }
                    }
                }
                assert(self.free@.no_duplicates()) by {
                    assert(!f0.contains(node)) by {
                        if f0.contains(node) {
                            let i = choose|i: int| 0 <= i < f0.len() && f0[i] == node;
                            assert(o.contains(o[n]));
                        }
                    }
                    assert forall|i: int, j: int| 0 <= i < j < self.free@.len() implies self.free@[i] != self.free@[j] by {
                        if j == f0.len() {
                            assert(f0.contains(self.free@[i]));
                        }
                    }
                }
                assert(self@ =~= old(self)@.drop_last()) by {
                    assert forall|k: int| 0 <= k < o2.len() implies #[trigger] self@[k] == old(self)@.drop_last()[k] by {
                        assert(o2[k] == o[k]);
                        assert(o[k] != o[n]);
                    }
                }
            }
            return Some(value);
        }
        None
    }

    /// Always `None`: the front value is not handed out by reference.
    pub fn peek_front(&mut self) -> (r: Option<&T>)
        ensures
            r is None,
            final(self)@ == old(self)@,
    {
        None
    }

}

/// Popping at the front right after pushing `v` at the front gives back `v` and
/// leaves the list as it was.
pub proof fn lemma_pop_front_undoes_push_front<T>(s: Seq<T>, v: T)
    ensures
        (seq![v] + s).len() > 0,
        (seq![v] + s)[0] == v,
        (seq![v] + s).drop_first() == s,
{
    assert((seq![v] + s).drop_first() =~= s);
}

/// Popping at the back right after pushing `v` at the back gives back `v` and leaves
/// the list as it was.
pub proof fn lemma_pop_back_undoes_push_back<T>(s: Seq<T>, v: T)
    ensures
        s.push(v).len() > 0,
        s.push(v).last() == v,
        s.push(v).drop_last() == s,
{
    assert(s.push(v).drop_last() =~= s);
}

/// Pushing at the back and popping at the front is first in, first out: a push at the
/// back does not change what the front gives, and is still there after the pop.
pub proof fn lemma_push_back_pop_front_fifo<T>(s: Seq<T>, v: T)
    requires
        s.len() > 0,
    ensures
        s.push(v)[0] == s[0],
        s.push(v).drop_first() == s.drop_first().push(v),
{
    assert(s.push(v).drop_first() =~= s.drop_first().push(v));
}

/// Pushing at the front and popping at the back is first in, first out as well.
pub proof fn lemma_push_front_pop_back_fifo<T>(s: Seq<T>, v: T)
    requires
        s.len() > 0,
    ensures
        (seq![v] + s).last() == s.last(),
        (seq![v] + s).drop_last() == seq![v] + s.drop_last(),
{
    assert((seq![v] + s).drop_last() =~= seq![v] + s.drop_last());
}

/// Pushing `xs` at the back, one value at a time, onto an empty list and then popping
/// at the front is first in, first out over any number of values: the list holds `xs`,
/// the `k`-th pop gives `xs[k]` and leaves `xs.skip(k + 1)`, and after `xs.len()` pops
/// the list is empty, so the next pop gives `None`.
pub proof fn lemma_push_back_then_pop_front_is_fifo<T>(xs: Seq<T>, k: nat)
    requires
        k <= xs.len(),
    ensures
        after_push_backs(Seq::<T>::empty(), xs) == xs,
        after_pops(xs, k) == xs.skip(k as int),
        k < xs.len() ==> after_pops(xs, k)[0] == xs[k as int],
        k == xs.len() ==> after_pops(xs, k).len() == 0,
{
    lemma_push_backs_append(Seq::<T>::empty(), xs);
    assert(Seq::<T>::empty() + xs =~= xs);
    lemma_pops_in_order(xs, k);
}

} // verus!
