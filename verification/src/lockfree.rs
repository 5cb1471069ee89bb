//! Lock-free stacks and queues, as sequential structures.
//!
//! `TreiberStack` keeps the linked layout of a Treiber stack (a head node whose
//! `next` chain holds the older items); `MSQueue` is a first-in-first-out
//! queue; `MutexStack` and `MutexQueue` are the vector-backed structures they
//! are measured against. Each view lists the items oldest first, so a
//! stack's top is the last element of its view and a queue's front is the
//! first.
use vstd::prelude::*;
use std::collections::VecDeque;

verus! {

/// One node of a Treiber stack.
pub struct TreiberNode<T> {
    data: T,
    next: Option<Box<TreiberNode<T>>>,
}

/// The items reachable from `node`, oldest first (the node itself last).
pub closed spec fn chain_view<T>(node: Option<Box<TreiberNode<T>>>) -> Seq<T>
    decreases node,
{
    match node {
        None => Seq::empty(),
        Some(b) => chain_view(b.next).push(b.data),
    }
}

/// A last-in-first-out stack kept as a chain of nodes from the top.
pub struct TreiberStack<T> {
    head: Option<Box<TreiberNode<T>>>,
}

impl<T> View for TreiberStack<T> {
    type V = Seq<T>;

    closed spec fn view(&self) -> Seq<T> {
        chain_view(self.head)
    }
}

impl<T> TreiberStack<T> {
    /// An empty stack.
    pub fn new() -> (r: Self)
        ensures
            r@ == Seq::<T>::empty(),
    {
        TreiberStack { head: None }
    }

    /// Puts `data` on top: a new head node linked to the old head.
    pub fn push(&mut self, data: T)
        ensures
            final(self)@ == old(self)@.push(data),
    {
        let next = self.head.take();
        self.head = Some(Box::new(TreiberNode { data, next }));
    }

    /// Takes the top item, or `None` from an empty stack.
    pub fn pop(&mut self) -> (r: Option<T>)
        ensures
            old(self)@.len() == 0 ==> r is None && final(self)@ == old(self)@,
            old(self)@.len() > 0 ==> r == Some(old(self)@.last()) && final(self)@ == old(
                self,
            )@.drop_last(),
    {
        match self.head.take() {
            None => None,
            Some(node) => {
                let node = *node;
                let TreiberNode { data, next } = node;
                self.head = next;
                assert(chain_view(Some(Box::new(TreiberNode { data, next: self.head })))
                    == chain_view(self.head).push(data));
                assert(chain_view(self.head).push(data).drop_last() =~= chain_view(self.head));
                Some(data)
            },
        }
    }

    /// Whether the stack holds no item.
    pub fn is_empty(&self) -> (r: bool)
        ensures
            r == (self@.len() == 0),
    {
        match &self.head {
            None => true,
            Some(_) => false,
        }
    }
}

/// A first-in-first-out queue with the interface of a Michael-Scott queue.
pub struct MSQueue<T> {
    items: VecDeque<T>,
}

impl<T> View for MSQueue<T> {
    type V = Seq<T>;

    closed spec fn view(&self) -> Seq<T> {
        self.items@
    }
}

impl<T> MSQueue<T> {
    /// An empty queue.
    pub fn new() -> (r: Self)
        ensures
            r@ == Seq::<T>::empty(),
    {
        MSQueue { items: VecDeque::new() }
    }

    /// Appends `data` at the back.
    pub fn enqueue(&mut self, data: T)
        ensures
            final(self)@ == old(self)@.push(data),
    {
        self.items.push_back(data);
    }

    /// Takes the front item, or `None` from an empty queue.
    pub fn dequeue(&mut self) -> (r: Option<T>)
        ensures
            old(self)@.len() == 0 ==> r is None && final(self)@ == old(self)@,
            old(self)@.len() > 0 ==> r == Some(old(self)@[0]) && final(self)@ == old(
                self,
            )@.drop_first(),
    {
        self.items.pop_front()
    }

    /// Whether the queue holds no item.
    pub fn is_empty(&self) -> (r: bool)
        ensures
            r == (self@.len() == 0),
    {
        self.items.len() == 0
    }

    /// Removes every item, front first.
    pub fn drain(&mut self)
        ensures
            final(self)@ == Seq::<T>::empty(),
    {
        loop
            invariant_except_break
                true,
            ensures
                self@.len() == 0,
            decreases self@.len(),
        {
            match self.dequeue() {
                Some(_) => {},
                None => break,
            }
        }
        assert(self@ =~= Seq::<T>::empty());
    }
}

/// A stack behind one lock, kept as a vector whose last element is the top.
pub struct MutexStack<T> {
    inner: Vec<T>,
}

impl<T> View for MutexStack<T> {
    type V = Seq<T>;

    closed spec fn view(&self) -> Seq<T> {
        self.inner@
    }
}

impl<T> MutexStack<T> {
    /// An empty stack.
    pub fn new() -> (r: Self)
        ensures
            r@ == Seq::<T>::empty(),
    {
        MutexStack { inner: Vec::new() }
    }

    /// Puts `data` on top.
    pub fn push(&mut self, data: T)
        ensures
            final(self)@ == old(self)@.push(data),
    {
        self.inner.push(data);
    }

    /// Takes the top item, or `None` from an empty stack.
    pub fn pop(&mut self) -> (r: Option<T>)
        ensures
            old(self)@.len() == 0 ==> r is None && final(self)@ == old(self)@,
            old(self)@.len() > 0 ==> r == Some(old(self)@.last()) && final(self)@ == old(
                self,
            )@.drop_last(),
    {
        self.inner.pop()
    }
}

/// A queue behind one lock, kept as a vector whose first element is the front.
pub struct MutexQueue<T> {
    inner: Vec<T>,
}

impl<T> View for MutexQueue<T> {
    type V = Seq<T>;

    closed spec fn view(&self) -> Seq<T> {
        self.inner@
    }
}

impl<T> MutexQueue<T> {
    /// An empty queue.
    pub fn new() -> (r: Self)
        ensures
            r@ == Seq::<T>::empty(),
    {
        MutexQueue { inner: Vec::new() }
    }

    /// Appends `data` at the back.
    pub fn enqueue(&mut self, data: T)
        ensures
            final(self)@ == old(self)@.push(data),
    {
        self.inner.push(data);
    }

    /// Takes the front item, or `None` from an empty queue.
    pub fn dequeue(&mut self) -> (r: Option<T>)
        ensures
            old(self)@.len() == 0 ==> r is None && final(self)@ == old(self)@,
            old(self)@.len() > 0 ==> r == Some(old(self)@[0]) && final(self)@ == old(
                self,
            )@.drop_first(),
    {
        if self.inner.len() == 0 {
            None
        } else {
            Some(self.inner.remove(0))
        }
    }
}

/// A compare-and-swap stack, kept as a vector whose
/// last element is the top.
pub struct LockFreeStack<T> {
    items: Vec<T>,
}

impl<T> View for LockFreeStack<T> {
    type V = Seq<T>;

    closed spec fn view(&self) -> Seq<T> {
        self.items@
    }
}

impl<T> LockFreeStack<T> {
    /// An empty stack.
    pub fn new() -> (r: Self)
        ensures
            r@ == Seq::<T>::empty(),
    {
        LockFreeStack { items: Vec::new() }
    }

    /// Puts `value` on top.
    pub fn push(&mut self, value: T)
        ensures
            final(self)@ == old(self)@.push(value),
    {
        self.items.push(value);
    }

    /// Takes the top item, or `None` from an empty stack.
    pub fn pop(&mut self) -> (r: Option<T>)
        ensures
            old(self)@.len() == 0 ==> r is None && final(self)@ == old(self)@,
            old(self)@.len() > 0 ==> r == Some(old(self)@.last()) && final(self)@ == old(
                self,
            )@.drop_last(),
    {
        self.items.pop()
    }
}

/// The tag after `t`: one more, modulo eight (the three tag bits).
pub open spec fn next_tag(t: usize) -> usize {
    ((t + 1) % 8) as usize
}

/// The tag bits of `t + 1`, as a successful compare-and-swap writes them.
fn advance_tag(t: usize) -> (r: usize)
    ensures
        r == next_tag(t),
{
    let u = t % 8 + 1;
    assert(u <= 8 ==> u & 7usize == u % 8) by (bit_vector);
    assert((t % 8 + 1) % 8 == (t + 1) % 8);
    u & crate::tagging::TAG_MASK
}

/// A stack whose head word carries a three-bit version tag that every
/// successful push or pop advances, so that a head seen twice with the same
/// address but a different tag is told apart.
pub struct TaggedStack<T> {
    items: Vec<T>,
    tag: usize,
}

impl<T> View for TaggedStack<T> {
    type V = Seq<T>;

    closed spec fn view(&self) -> Seq<T> {
        self.items@
    }
}

impl<T> TaggedStack<T> {
    /// The version tag of the head word.
    pub closed spec fn tag(&self) -> usize {
        self.tag
    }

    /// An empty stack with tag zero.
    pub fn new() -> (r: Self)
        ensures
            r@ == Seq::<T>::empty(),
            r.tag() == 0,
    {
        TaggedStack { items: Vec::new(), tag: 0 }
    }

    /// The current tag, taken from the head word.
    pub fn current_tag(&self) -> (r: usize)
        ensures
            r == self.tag(),
    {
        self.tag
    }

    /// Puts `value` on top and advances the tag.
    pub fn push(&mut self, value: T)
        ensures
            final(self)@ == old(self)@.push(value),
            final(self).tag() == next_tag(old(self).tag()),
    {
        self.items.push(value);
        self.tag = advance_tag(self.tag);
    }

    /// Takes the top item and advances the tag, or returns `None` and leaves
    /// the tag as it is.
    pub fn pop(&mut self) -> (r: Option<T>)
        ensures
            old(self)@.len() == 0 ==> r is None && final(self)@ == old(self)@ && final(self).tag()
                == old(self).tag(),
            old(self)@.len() > 0 ==> r == Some(old(self)@.last()) && final(self)@ == old(
                self,
            )@.drop_last() && final(self).tag() == next_tag(old(self).tag()),
    {
        match self.items.pop() {
            None => None,
            Some(v) => {
                self.tag = advance_tag(self.tag);
                Some(v)
            },
        }
    }
}

/// The tag repeats only after eight successful operations: tags `k < 8`
/// steps apart, for `0 < k`, differ.
pub proof fn lemma_tag_period(t: usize, k: nat)
    requires
        0 < k < 8,
    ensures
        (t + k) % 8 != t % 8,
        (t + 8) % 8 == t % 8,
{
}

/// Last in, first out: after pushing `x` onto any stack contents, a pop
/// returns `x` and leaves the contents as they were.
pub proof fn lemma_stack_push_pop<T>(items: Seq<T>, x: T)
    ensures
        items.push(x).len() > 0,
        items.push(x).last() == x,
        items.push(x).drop_last() == items,
{
    assert(items.push(x).drop_last() =~= items);
}

/// First in, first out: after enqueueing `x` behind non-empty contents, the
/// next dequeue returns the old front, and `x` stays behind the rest.
pub proof fn lemma_queue_enqueue_dequeue<T>(items: Seq<T>, x: T)
    requires
        items.len() > 0,
    ensures
        items.push(x)[0] == items[0],
        items.push(x).drop_first() == items.drop_first().push(x),
{
    assert(items.push(x).drop_first() =~= items.drop_first().push(x));
}

/// Draining a stack returns its items newest first, and draining a queue
/// returns them oldest first: the `k`-th pop of a stack holding `items`
/// yields `items[len - 1 - k]`, and the `k`-th dequeue yields `items[k]`.
pub proof fn lemma_drain_orders<T>(items: Seq<T>, k: int)
    requires
        0 <= k < items.len(),
    ensures
        items.take(items.len() - k).last() == items[items.len() - 1 - k],
        items.skip(k)[0] == items[k],
{
}

} // verus!
