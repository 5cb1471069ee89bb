//! The state guarded by two monitors: an unbounded channel and a bounded
//! queue.
//!
//! A monitor is a mutex, one or more condition variables and the data they
//! protect. The data and every transition on it live here; a caller holds the
//! lock, waits on the matching condition variable while an operation's
//! precondition is false ("not empty" for `recv`/`pop`, "not full" for `push`,
//! "at least `n` items" for `pop_batch`) and signals after the call.
use vstd::prelude::*;
use std::collections::VecDeque;

verus! {

/// The queue protected by an unbounded channel monitor.
pub struct Channel<T> {
    items: Vec<T>,
}

impl<T> View for Channel<T> {
    type V = Seq<T>;

    /// The messages in the channel, oldest first.
    closed spec fn view(&self) -> Seq<T> {
        self.items@
    }
}

impl<T> Channel<T> {
    /// An empty channel.
    pub fn new() -> (r: Self)
        ensures
            r@ == Seq::<T>::empty(),
    {
        Channel { items: Vec::new() }
    }

    /// Appends `msg` behind every message already waiting.
    pub fn send(&mut self, msg: T)
        ensures
            final(self)@ == old(self)@.push(msg),
    {
        self.items.push(msg);
    }

    /// Takes the oldest message. The caller waits while the channel is empty.
    pub fn recv(&mut self) -> (r: T)
        requires
            old(self)@.len() > 0,
        ensures
            r == old(self)@[0],
            final(self)@ == old(self)@.drop_first(),
    {
        self.items.remove(0)
    }

    /// Number of waiting messages.
    pub fn len(&self) -> (r: usize)
        ensures
            r == self@.len(),
    {
        self.items.len()
    }

    /// Whether no message is waiting.
    pub fn is_empty(&self) -> (r: bool)
        ensures
            r == (self@.len() == 0),
    {
        self.items.len() == 0
    }
}

/// The state protected by a bounded-queue monitor: the items and the bound.
pub struct BoundedQueue<T> {
    data: VecDeque<T>,
    cap: usize,
}

impl<T> View for BoundedQueue<T> {
    type V = Seq<T>;

    /// The queued items, oldest first.
    closed spec fn view(&self) -> Seq<T> {
        self.data@
    }
}

impl<T> BoundedQueue<T> {
    /// The bound the queue was made with.
    pub closed spec fn spec_capacity(&self) -> nat {
        self.cap as nat
    }

    /// Well-formed: the bound is positive and not exceeded. `new` makes a
    /// well-formed queue and every operation keeps it so, without changing
    /// the bound.
    pub open spec fn wf(&self) -> bool {
        &&& 0 < self.spec_capacity()
        &&& self@.len() <= self.spec_capacity()
    }

    /// An empty queue that holds at most `capacity` items.
    pub fn new(capacity: usize) -> (r: Self)
        requires
            capacity > 0,
        ensures
            r@ == Seq::<T>::empty(),
            r.spec_capacity() == capacity,
            r.wf(),
    {
        BoundedQueue { data: VecDeque::with_capacity(capacity), cap: capacity }
    }

    /// Appends `item` at the back. The caller waits while the queue is full.
    pub fn push(&mut self, item: T)
        requires
            old(self)@.len() < old(self).spec_capacity(),
        ensures
            final(self)@ == old(self)@.push(item),
            final(self).spec_capacity() == old(self).spec_capacity(),
            final(self).wf(),
    {
        self.data.push_back(item);
    }

    /// Removes the front item. The caller waits while the queue is empty.
    pub fn pop(&mut self) -> (r: T)
        requires
            old(self)@.len() > 0,
        ensures
            r == old(self)@[0],
            final(self)@ == old(self)@.drop_first(),
            final(self).spec_capacity() == old(self).spec_capacity(),
            old(self).wf() ==> final(self).wf(),
    {
        self.data.pop_front().unwrap()
    }

    /// Removes the front item if there is one; leaves an empty queue as it is.
    pub fn try_pop(&mut self) -> (r: Option<T>)
        ensures
            old(self)@.len() == 0 ==> r is None && final(self)@ == old(self)@,
            old(self)@.len() > 0 ==> r == Some(old(self)@[0]) && final(self)@ == old(
                self,
            )@.drop_first(),
            final(self).spec_capacity() == old(self).spec_capacity(),
            old(self).wf() ==> final(self).wf(),
    {
        self.data.pop_front()
    }

    /// Number of queued items.
    pub fn len(&self) -> (r: usize)
        ensures
            r == self@.len(),
    {
        self.data.len()
    }

    /// The bound the queue was made with.
    pub fn capacity(&self) -> (r: usize)
        ensures
            r == self.spec_capacity(),
    {
        self.cap
    }

    /// Removes the `n` front items, in order. The caller waits while fewer
    /// than `n` items are queued.
    pub fn pop_batch(&mut self, n: usize) -> (r: Vec<T>)
        requires
            old(self)@.len() >= n,
        ensures
            r@ == old(self)@.take(n as int),
            final(self)@ == old(self)@.skip(n as int),
            final(self).spec_capacity() == old(self).spec_capacity(),
            old(self).wf() ==> final(self).wf(),
    {
        let mut batch: Vec<T> = Vec::with_capacity(n);
        let ghost start = self.data@;
        let mut i: usize = 0;
        while i < n
            invariant
                0 <= i <= n,
                start.len() >= n,
                batch@ == start.take(i as int),
                self.data@ == start.skip(i as int),
                self.cap == old(self).cap,
            decreases n - i,
        {
            let item = self.data.pop_front();
            match item {
                Some(x) => {
                    batch.push(x);
                },
                None => {
                    assert(false);
                },
            }
            assert(batch@ =~= start.take(i + 1));
            assert(self.data@ =~= start.skip(i + 1));
            i = i + 1;
        }
        batch
    }
}

/// Items leave a queue in the order they entered: appending behind a
/// non-empty sequence does not change which item is at the front, and
/// removing the front commutes with appending at the back.
pub proof fn lemma_fifo<T>(items: Seq<T>, x: T)
    requires
        items.len() > 0,
    ensures
        items.push(x)[0] == items[0],
        items.push(x).drop_first() == items.drop_first().push(x),
{
    assert(items.push(x).drop_first() =~= items.drop_first().push(x));
}

/// A single item sent into an empty channel or queue is the next one out.
pub proof fn lemma_send_then_recv<T>(x: T)
    ensures
        Seq::<T>::empty().push(x)[0] == x,
        Seq::<T>::empty().push(x).drop_first() == Seq::<T>::empty(),
{
    assert(Seq::<T>::empty().push(x).drop_first() =~= Seq::<T>::empty());
}

} // verus!
