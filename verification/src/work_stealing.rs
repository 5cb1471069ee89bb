//! The work-stealing deque of a task scheduler: a growable power-of-two
//! ring buffer indexed by two ever-increasing positions, `top` and `bottom`.
//!
//! The owner pushes and pops at the bottom (last in, first out); thieves steal
//! at the top (first in, first out). The view lists the live items from the
//! top (oldest) to the bottom (newest).
use vstd::prelude::*;
use vstd::arithmetic::power2::{pow2, lemma_pow2_unfold, lemma_pow2_pos};
use crate::ring::{lemma_cap, lemma_mask_index, lemma_mod_injective};
use crate::capstone::{spec_fib, lemma_fib_monotonic};

verus! {

/// Base-two logarithm of a new deque's capacity.
pub const MIN_LOG: usize = 4;

/// Largest base-two logarithm of a capacity.
pub const MAX_LOG: usize = 30;

/// A ring of `2^log_cap` slots.
pub struct Array<T> {
    log_cap: usize,
    data: Vec<Option<T>>,
}

impl<T> Array<T> {
    /// Base-two logarithm of the number of slots.
    pub closed spec fn spec_log_cap(&self) -> nat {
        self.log_cap as nat
    }

    /// Number of slots.
    pub open spec fn spec_cap(&self) -> int {
        pow2(self.spec_log_cap()) as int
    }

    /// The slots' contents.
    pub closed spec fn slots(&self) -> Seq<Option<T>> {
        self.data@
    }

    /// Well-formed: one slot per position of the ring.
    pub open spec fn wf(&self) -> bool {
        &&& self.spec_log_cap() <= MAX_LOG
        &&& self.slots().len() == self.spec_cap()
    }

    /// The slot that position `i` maps to.
    pub open spec fn slot_of(&self, i: int) -> int {
        i % self.spec_cap()
    }

    /// A ring of `2^log_cap` empty slots.
    pub fn new(log_cap: usize) -> (r: Self)
        requires
            log_cap <= MAX_LOG,
        ensures
            r.wf(),
            r.spec_log_cap() == log_cap,
            forall|j: int| 0 <= j < r.spec_cap() ==> #[trigger] r.slots()[j] is None,
    {
        proof {
            lemma_cap(log_cap);
        }
        let cap: usize = 1usize << log_cap;
        let mut data: Vec<Option<T>> = Vec::with_capacity(cap);
        let mut k: usize = 0;
        while k < cap
            invariant
                k <= cap,
                data@.len() == k,
                forall|j: int| 0 <= j < k ==> #[trigger] data@[j] is None,
            decreases cap - k,
        {
            data.push(None);
            k = k + 1;
        }
        Array { log_cap, data }
    }

    /// Number of slots.
    pub fn cap(&self) -> (r: isize)
        requires
            self.wf(),
        ensures
            r == self.spec_cap(),
            0 < r <= 0x4000_0000,
    {
        proof {
            lemma_cap(self.log_cap);
        }
        1isize << self.log_cap
    }

    /// Mask that maps a position to its slot.
    pub fn mask(&self) -> (r: isize)
        requires
            self.wf(),
        ensures
            r == self.spec_cap() - 1,
    {
        self.cap() - 1
    }

    /// Takes the item stored for position `i`.
    pub fn get(&mut self, i: isize) -> (r: T)
        requires
            old(self).wf(),
            i >= 0,
            old(self).slots()[old(self).slot_of(i as int)] is Some,
        ensures
            final(self).wf(),
            final(self).spec_log_cap() == old(self).spec_log_cap(),
            r == old(self).slots()[old(self).slot_of(i as int)]->0,
            final(self).slots() == old(self).slots().update(old(self).slot_of(i as int), None),
    {
        let m = self.mask();
        proof {
            lemma_mask_index(i, self.log_cap, m);
        }
        let idx = (i & m) as usize;
        let mut cell: Option<T> = None;
        std::mem::swap(&mut cell, &mut self.data[idx]);
        cell.unwrap()
    }

    /// Stores `val` for position `i`.
    pub fn set(&mut self, i: isize, val: T)
        requires
            old(self).wf(),
            i >= 0,
        ensures
            final(self).wf(),
            final(self).spec_log_cap() == old(self).spec_log_cap(),
            final(self).slots() == old(self).slots().update(old(self).slot_of(i as int), Some(val)),
    {
        let m = self.mask();
        proof {
            lemma_mask_index(i, self.log_cap, m);
        }
        let idx = (i & m) as usize;
        self.data.set(idx, Some(val));
    }

    /// A ring twice as large holding the items of positions `top..bottom`,
    /// each at its own position; those items leave this ring.
    pub fn grow(&mut self, top: isize, bottom: isize) -> (r: Array<T>)
        requires
            old(self).wf(),
            old(self).spec_log_cap() < MAX_LOG,
            0 <= top <= bottom,
            bottom - top <= old(self).spec_cap(),
            forall|i: int| top <= i < bottom ==> (#[trigger] old(self).slots()[old(self).slot_of(i)]) is Some,
        ensures
            r.wf(),
            r.spec_log_cap() == old(self).spec_log_cap() + 1,
            r.spec_cap() == 2 * old(self).spec_cap(),
            forall|i: int| top <= i < bottom ==> #[trigger] r.slots()[r.slot_of(i)] == old(self).slots()[old(self).slot_of(i)],
    {
        let new_log = self.log_cap + 1;
        let mut new_arr = Array::new(new_log);
        proof {
            lemma_pow2_unfold(new_log as nat);
            lemma_pow2_pos(self.log_cap as nat);
        }
        let ghost pre = *self;
        let mut i = top;
        while i < bottom
            invariant
                self.wf(),
                new_arr.wf(),
                self.spec_log_cap() == pre.spec_log_cap(),
                new_arr.spec_log_cap() == new_log,
                new_log == pre.spec_log_cap() + 1,
                new_arr.spec_cap() == 2 * pre.spec_cap(),
                pre.spec_cap() > 0,
                0 <= top <= i <= bottom,
                bottom - top <= pre.spec_cap(),
                forall|j: int| i <= j < bottom ==> #[trigger] self.slots()[self.slot_of(j)] == pre.slots()[pre.slot_of(j)],
                forall|j: int| top <= j < bottom ==> (#[trigger] pre.slots()[pre.slot_of(j)]) is Some,
                forall|j: int| top <= j < i ==> #[trigger] new_arr.slots()[new_arr.slot_of(j)] == pre.slots()[pre.slot_of(j)],
            decreases bottom - i,
        {
            let ghost before = *self;
            let ghost nbefore = new_arr;
            assert(before.slots()[before.slot_of(i as int)] == pre.slots()[pre.slot_of(i as int)]);
            assert(pre.slots()[pre.slot_of(i as int)] is Some);
            let v = self.get(i);
            new_arr.set(i, v);
            proof {
                let cap = pre.spec_cap();
                let ncap = new_arr.spec_cap();
                assert forall|j: int| i + 1 <= j < bottom implies #[trigger] self.slots()[self.slot_of(j)]
                    == pre.slots()[pre.slot_of(j)] by {
                    vstd::arithmetic::div_mod::lemma_mod_bound(j, cap);
                    assert(before.slots()[before.slot_of(j)] == pre.slots()[pre.slot_of(j)]);
                    if j % cap == (i as int) % cap {
                        lemma_mod_injective(i as int, j, top as int, cap);
                    }
                }
                assert forall|j: int| top <= j < i + 1 implies #[trigger] new_arr.slots()[new_arr.slot_of(j)]
                    == pre.slots()[pre.slot_of(j)] by {
                    vstd::arithmetic::div_mod::lemma_mod_bound(j, ncap);
                    if j < i {
                        assert(nbefore.slots()[nbefore.slot_of(j)] == pre.slots()[pre.slot_of(j)]);
                        if j % ncap == (i as int) % ncap {
                            lemma_mod_injective(i as int, j, top as int, ncap);
                        }
                    }
                }
            }
            i = i + 1;
        }
        new_arr
    }
}

/// The owner's deque of a work-stealing scheduler.
pub struct WorkDeque<T> {
    bottom: isize,
    top: isize,
    array: Array<T>,
}

impl<T> View for WorkDeque<T> {
    type V = Seq<T>;

    /// Live items from the top (oldest) to the bottom (newest).
    closed spec fn view(&self) -> Seq<T> {
        Seq::new(
            (self.bottom - self.top) as nat,
            |k: int| self.array.slots()[self.array.slot_of(self.top + k)]->0,
        )
    }
}

impl<T> WorkDeque<T> {
    /// The bottom position: one past the newest item.
    pub closed spec fn spec_bottom(&self) -> int {
        self.bottom as int
    }

    /// Well-formed: `0 <= top <= bottom`, no more live items than slots, and
    /// a stored item behind every live position.
    pub closed spec fn wf(&self) -> bool {
        &&& self.array.wf()
        &&& 0 <= self.top <= self.bottom
        &&& self.bottom - self.top <= self.array.spec_cap()
        &&& forall|i: int|
            self.top <= i < self.bottom ==> (#[trigger] self.array.slots()[self.array.slot_of(
                i,
            )]) is Some
    }

    /// An empty deque with sixteen slots.
    pub fn new() -> (r: Self)
        ensures
            r.wf(),
            r@ == Seq::<T>::empty(),
            r.spec_bottom() == 0,
    {
        let r = WorkDeque { bottom: 0, top: 0, array: Array::new(MIN_LOG) };
        assert(r@ =~= Seq::<T>::empty());
        r
    }

    /// Owner pushes `task` at the bottom, doubling the ring when it is full.
    pub fn push(&mut self, task: T)
        requires
            old(self).wf(),
            old(self).spec_bottom() < isize::MAX,
            old(self)@.len() < 0x4000_0000,
        ensures
            final(self).wf(),
            final(self)@ == old(self)@.push(task),
            final(self).spec_bottom() == old(self).spec_bottom() + 1,
    {
        let b = self.bottom;
        let t = self.top;
        let ghost old_view = self@;
        if b - t >= self.array.cap() {
            proof {
                lemma_cap(self.array.log_cap);
                if self.array.log_cap >= MAX_LOG {
                    assert(self.array.spec_cap() >= 0x4000_0000) by {
                        vstd::arithmetic::power2::lemma2_to64();
                    }
                }
            }
            let top_snapshot = self.top;
            let new_arr = self.array.grow(top_snapshot, b);
            self.array = new_arr;
            assert(self@ =~= old_view);
        }
        let ghost mid = self.array;
        self.array.set(b, task);
        self.bottom = b + 1;
        proof {
            let cap = self.array.spec_cap();
            assert forall|i: int| t <= i < b implies #[trigger] self.array.slots()[self.array.slot_of(i)]
                == mid.slots()[mid.slot_of(i)] by {
                if i % cap == (b as int) % cap {
                    lemma_mod_injective(i, b as int, t as int, cap);
                }
            }
            assert forall|i: int| t <= i < self.bottom implies (#[trigger] self.array.slots()[self.array.slot_of(
                i,
            )]) is Some by {
                if i < b {
                    if i % cap == (b as int) % cap {
                        lemma_mod_injective(i, b as int, t as int, cap);
                    }
                }
            }
            assert(self@ =~= old_view.push(task));
        }
    }

    /// Owner pops the newest item from the bottom, or `None` when empty.
    pub fn pop(&mut self) -> (r: Option<T>)
        requires
            old(self).wf(),
        ensures
            final(self).wf(),
            old(self)@.len() == 0 ==> r is None && final(self)@ == old(self)@
                && final(self).spec_bottom() == old(self).spec_bottom(),
            old(self)@.len() > 0 ==> r == Some(old(self)@.last()) && final(self)@ == old(
                self,
            )@.drop_last() && final(self).spec_bottom() <= old(self).spec_bottom(),
    {
        let ghost old_view = self@;
        let b = self.bottom - 1;
        self.bottom = b;
        let t = self.top;
        if t <= b {
            let ghost pre = self.array;
            let val = self.array.get(b);
            proof {
                let cap = self.array.spec_cap();
                assert forall|i: int| t <= i < b implies #[trigger] self.array.slots()[self.array.slot_of(
                    i,
                )] == pre.slots()[pre.slot_of(i)] by {
                    if i % cap == (b as int) % cap {
                        lemma_mod_injective(i, b as int, t as int, cap);
                    }
                }
            }
            if t != b {
                assert(self@ =~= old_view.drop_last());
                Some(val)
            } else {
                self.top = t + 1;
                self.bottom = b + 1;
                assert(self@ =~= old_view.drop_last());
                Some(val)
            }
        } else {
            self.bottom = b + 1;
            assert(self@ =~= old_view);
            None
        }
    }

    /// A thief steals the oldest item from the top, or `None` when empty.
    pub fn steal(&mut self) -> (r: Option<T>)
        requires
            old(self).wf(),
        ensures
            final(self).wf(),
            final(self).spec_bottom() == old(self).spec_bottom(),
            old(self)@.len() == 0 ==> r is None && final(self)@ == old(self)@,
            old(self)@.len() > 0 ==> r == Some(old(self)@[0]) && final(self)@ == old(
                self,
            )@.drop_first(),
    {
        let ghost old_view = self@;
        let t = self.top;
        let b = self.bottom;
        if t < b {
            let ghost pre = self.array;
            let val = self.array.get(t);
            self.top = t + 1;
            proof {
                let cap = self.array.spec_cap();
                assert forall|i: int| t + 1 <= i < b implies #[trigger] self.array.slots()[self.array.slot_of(
                    i,
                )] == pre.slots()[pre.slot_of(i)] by {
                    if i % cap == (t as int) % cap {
                        lemma_mod_injective(i, t as int, t as int, cap);
                    }
                }
                assert(self@ =~= old_view.drop_first());
            }
            Some(val)
        } else {
            None
        }
    }

    /// Whether no item is live.
    pub fn is_empty(&self) -> (r: bool)
        requires
            self.wf(),
        ensures
            r == (self@.len() == 0),
    {
        self.bottom <= self.top
    }

    /// Number of live items.
    pub fn len(&self) -> (r: isize)
        requires
            self.wf(),
        ensures
            r == self@.len(),
    {
        self.bottom - self.top
    }
}

/// The `n`-th Fibonacci number, by iteration.
pub fn fib(n: u64) -> (r: u64)
    requires
        spec_fib(n as nat) <= u64::MAX,
    ensures
        r == spec_fib(n as nat),
{
    if n <= 1 {
        return n;
    }
    let mut a: u64 = 0;
    let mut b: u64 = 1;
    let mut i: u64 = 1;
    while i < n
        invariant
            1 <= i <= n,
            spec_fib(n as nat) <= u64::MAX,
            a == spec_fib((i - 1) as nat),
            b == spec_fib(i as nat),
        decreases n - i,
    {
        proof {
            lemma_fib_monotonic((i + 1) as nat, n as nat);
        }
        let c = a + b;
        a = b;
        b = c;
        i = i + 1;
    }
    b
}

/// Taking from either end of a deque loses and duplicates nothing: the
/// items before a pop (or a steal) are the items after it plus the one
/// taken.
pub proof fn lemma_take_conserves<T>(q: Seq<T>)
    requires
        q.len() > 0,
    ensures
        q.to_multiset() == q.drop_last().to_multiset().insert(q.last()),
        q.to_multiset() == q.drop_first().to_multiset().insert(q[0]),
{
    broadcast use vstd::seq_lib::group_to_multiset_ensures;

    assert(q.drop_last().push(q.last()) =~= q);
    assert(q =~= seq![q[0]] + q.drop_first());
    vstd::seq_lib::lemma_multiset_commutative(seq![q[0]], q.drop_first());
    assert(seq![q[0]] =~= Seq::<T>::empty().push(q[0]));
    broadcast use vstd::multiset::group_multiset_axioms;

    assert(seq![q[0]].to_multiset() =~= vstd::multiset::Multiset::<T>::empty().insert(q[0]));
    assert(q.drop_first().to_multiset().insert(q[0]) =~= vstd::multiset::Multiset::<T>::empty().insert(
        q[0],
    ).add(q.drop_first().to_multiset()));
}

} // verus!
