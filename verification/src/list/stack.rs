use vstd::prelude::*;

verus! {

/// A last-in, first-out stack of `i32` values, built from singly linked
/// nodes that hang off a sentinel head node.
pub struct Stack {
    head: Node,
}

struct Node {
    value: i32,
    next: Option<Box<Node>>,
}

impl Node {
    /// The values of the chain that starts after this node, front first.
    spec fn chain(link: Option<Box<Node>>) -> Seq<i32>
        decreases link,
    {
        match link {
            None => Seq::empty(),
            Some(node) => seq![node.value].add(Node::chain(node.next)),
        }
    }

    /// The value this node holds.
    pub closed spec fn spec_value(&self) -> i32 {
        self.value
    }

    /// The link to the node after this one.
    pub closed spec fn spec_next(&self) -> Option<Box<Node>> {
        self.next
    }

    pub fn new(val: i32, next: Option<Box<Node>>) -> (node: Self)
        ensures
            node.spec_value() == val,
            node.spec_next() == next,
    {
        Self { value: val, next: next }
    }
}

impl View for Stack {
    type V = Seq<i32>;

    /// The stacked values, top first.
    closed spec fn view(&self) -> Seq<i32> {
        Node::chain(self.head.next)
    }
}

impl Stack {
    /// An empty stack.
    pub fn new() -> (s: Self)
        ensures
            s@ == Seq::<i32>::empty(),
    {
        Self { head: Node::new(0, None) }
    }

    /// Puts `val` on top of the stack.
    pub fn push(&mut self, val: i32)
        ensures
            final(self)@ == seq![val].add(old(self)@),
    {
        let node = Node::new(val, self.head.next.take());
        self.head.next = Some(Box::new(node));
    }

    /// Takes the top value off the stack; `None` when the stack is empty.
    pub fn pop(&mut self) -> (r: Option<i32>)
        ensures
            old(self)@.len() == 0 ==> r is None && final(self)@ == old(self)@,
            old(self)@.len() > 0 ==> r == Some(old(self)@[0]) && final(self)@ == old(self)@.drop_first(),
    {
        if let Some(mut node) = self.head.next.take() {
            self.head.next = node.next.take();
            return Some(node.value);
        }
        None
    }
}

/// Popping right after pushing `v` gives back `v` and leaves the stack as it was:
/// last in, first out.
pub proof fn lemma_pop_undoes_push(s: Seq<i32>, v: i32)
    ensures
        (seq![v] + s).len() > 0,
        (seq![v] + s)[0] == v,
        (seq![v] + s).drop_first() == s,
{
    assert((seq![v] + s).drop_first() =~= s);
}

} // verus!
