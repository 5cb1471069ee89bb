//! The capstone scheduler's building blocks: a fixed-capacity Chase-Lev
//! deque, the xorshift generator used to pick steal victims, per-worker
//! counters, and the sequential workloads it is benchmarked with (Fibonacci,
//! a wrapping map-and-sum, and a random binary tree).
use vstd::prelude::*;
use crate::ring::lemma_mod_injective;
use vstd::arithmetic::div_mod::lemma_add_mod_noop_right;

verus! {

/// Number of slots of a Chase-Lev deque.
pub const DEQUE_CAPACITY: usize = 4096;

proof fn lemma_slot_4096(b: isize)
    requires
        b >= 0,
    ensures
        ((b as usize) & 4095usize) as int == (b as int) % 4096,
        0 <= ((b as usize) & 4095usize) < 4096,
{
    assert(((b as usize) & 4095usize) == (b as usize) % 4096usize) by (bit_vector)
        requires
            b >= 0,
    ;
    assert(((b as usize) & 4095usize) < 4096usize) by (bit_vector);
}

/// A work-stealing deque over a fixed ring of 4096 slots: the owner pushes
/// and pops at the bottom, thieves steal at the top, and a push onto a full
/// deque is refused.
pub struct ChaseLevDeque<T> {
    top: isize,
    bottom: isize,
    buffer: Vec<Option<T>>,
    capacity: usize,
    mask: usize,
}

impl<T> View for ChaseLevDeque<T> {
    type V = Seq<T>;

    /// Live items from the top (oldest) to the bottom (newest).
    closed spec fn view(&self) -> Seq<T> {
        Seq::new(
            (self.bottom - self.top) as nat,
            |k: int| self.buffer@[(self.top + k) % 4096]->0,
        )
    }
}

impl<T> ChaseLevDeque<T> {
    /// The bottom position: one past the newest item.
    pub closed spec fn spec_bottom(&self) -> int {
        self.bottom as int
    }

    /// Well-formed: 4096 slots, `0 <= top <= bottom <= top + 4096`, and a
    /// stored item behind every live position.
    pub closed spec fn wf(&self) -> bool {
        &&& self.buffer@.len() == 4096
        &&& self.capacity == 4096
        &&& self.mask == 4095
        &&& 0 <= self.top <= self.bottom <= self.top + 4096
        &&& forall|i: int| self.top <= i < self.bottom ==> (#[trigger] self.buffer@[i % 4096]) is Some
    }

    /// An empty deque.
    pub fn new() -> (r: Self)
        ensures
            r.wf(),
            r@ == Seq::<T>::empty(),
            r.spec_bottom() == 0,
    {
        let cap = DEQUE_CAPACITY;
        let mut buf: Vec<Option<T>> = Vec::with_capacity(cap);
        let mut k: usize = 0;
        while k < cap
            invariant
                k <= cap,
                cap == 4096,
                buf@.len() == k,
            decreases cap - k,
        {
            buf.push(None);
            k = k + 1;
        }
        let r = ChaseLevDeque { top: 0, bottom: 0, buffer: buf, capacity: cap, mask: cap - 1 };
        assert(r@ =~= Seq::<T>::empty());
        r
    }

    /// Owner pushes `value` at the bottom; returns `false` and changes
    /// nothing when all 4096 slots are live.
    pub fn push(&mut self, value: T) -> (r: bool)
        requires
            old(self).wf(),
            old(self).spec_bottom() < isize::MAX,
        ensures
            final(self).wf(),
            r == (old(self)@.len() < 4096),
            r ==> final(self)@ == old(self)@.push(value) && final(self).spec_bottom()
                == old(self).spec_bottom() + 1,
            !r ==> final(self)@ == old(self)@ && final(self).spec_bottom() == old(
                self,
            ).spec_bottom(),
    {
        let b = self.bottom;
        let t = self.top;
        if b - t >= self.capacity as isize {
            return false;
        }
        let ghost old_view = self@;
        let ghost pre = self.buffer@;
        proof {
            lemma_slot_4096(b);
        }
        let idx = (b as usize) & self.mask;
        self.buffer.set(idx, Some(value));
        self.bottom = b + 1;
        proof {
            assert forall|i: int| t <= i < b implies #[trigger] self.buffer@[i % 4096] == pre[i
                % 4096] by {
                if i % 4096 == (b as int) % 4096 {
                    lemma_mod_injective(i, b as int, t as int, 4096);
                }
            }
            assert forall|i: int| t <= i < self.bottom implies (#[trigger] self.buffer@[i
                % 4096]) is Some by {
                if i < b && i % 4096 == (b as int) % 4096 {
                    lemma_mod_injective(i, b as int, t as int, 4096);
                }
            }
            assert(self@ =~= old_view.push(value));
        }
        true
    }

    /// Whether a push would be accepted.
    pub fn can_push(&self) -> (r: bool)
        requires
            self.wf(),
        ensures
            r == (self@.len() < 4096),
    {
        let b = self.bottom;
        let t = self.top;
        b - t < self.capacity as isize
    }

    /// Owner pops the newest item from the bottom, or `None` when empty.
    pub fn pop(&mut self) -> (r: Option<T>)
        requires
            old(self).wf(),
        ensures
            final(self).wf(),
            final(self).spec_bottom() <= old(self).spec_bottom(),
            old(self)@.len() == 0 ==> r is None && final(self)@ == old(self)@,
            old(self)@.len() > 0 ==> r == Some(old(self)@.last()) && final(self)@ == old(
                self,
            )@.drop_last(),
    {
        let ghost old_view = self@;
        let b = self.bottom - 1;
        self.bottom = b;
        let t = self.top;
        if t <= b {
            proof {
                lemma_slot_4096(b);
            }
            let idx = (b as usize) & self.mask;
            let ghost pre = self.buffer@;
            let mut cell: Option<T> = None;
            std::mem::swap(&mut cell, &mut self.buffer[idx]);
            let val = cell.unwrap();
            proof {
                assert forall|i: int| t <= i < b implies #[trigger] self.buffer@[i % 4096]
                    == pre[i % 4096] by {
                    if i % 4096 == (b as int) % 4096 {
                        lemma_mod_injective(i, b as int, t as int, 4096);
                    }
                }
            }
            if t == b {
                self.top = t + 1;
                self.bottom = t + 1;
            }
            assert(self@ =~= old_view.drop_last());
            Some(val)
        } else {
            self.bottom = t;
            assert(self@ =~= old_view);
            None
        }
    }

    /// A thief steals the oldest item from the top, or `None` when empty.
    pub fn steal(&mut self) -> (r: Option<T>)
        requires
            old(self).wf(),
        ensures
            final(self).wf(),
            final(self).spec_bottom() == old(self).spec_bottom(),
            old(self)@.len() == 0 ==> r is None && final(self)@ == old(self)@,
            old(self)@.len() > 0 ==> r == Some(old(self)@[0]) && final(self)@ == old(
                self,
            )@.drop_first(),
    {
        let ghost old_view = self@;
        let t = self.top;
        let b = self.bottom;
        if t < b {
            proof {
                lemma_slot_4096(t);
            }
            let idx = (t as usize) & self.mask;
            let ghost pre = self.buffer@;
            let mut cell: Option<T> = None;
            std::mem::swap(&mut cell, &mut self.buffer[idx]);
            let val = cell.unwrap();
            self.top = t + 1;
            proof {
                assert forall|i: int| t + 1 <= i < b implies #[trigger] self.buffer@[i % 4096]
                    == pre[i % 4096] by {
                    if i % 4096 == (t as int) % 4096 {
                        lemma_mod_injective(i, t as int, t as int, 4096);
                    }
                }
                assert(self@ =~= old_view.drop_first());
            }
            Some(val)
        } else {
            None
        }
    }

    /// Whether no item is live.
    pub fn is_empty(&self) -> (r: bool)
        requires
            self.wf(),
        ensures
            r == (self@.len() == 0),
    {
        self.bottom <= self.top
    }

    /// Number of live items.
    pub fn len(&self) -> (r: isize)
        requires
            self.wf(),
        ensures
            r == self@.len(),
    {
        self.bottom - self.top
    }
}

/// One xorshift step with shifts 13, 7 and 17.
pub open spec fn xorshift(x: u64) -> u64 {
    let a = x ^ (x << 13u64);
    let b = a ^ (a >> 7u64);
    b ^ (b << 17u64)
}

/// The state of a xorshift generator seeded with `seed` after `k` steps.
pub open spec fn xs_nth(seed: u64, k: nat) -> u64
    decreases k,
{
    if k == 0 {
        seed
    } else {
        xorshift(xs_nth(seed, (k - 1) as nat))
    }
}

/// Stepping `a` times and then `b` times is stepping `a + b` times.
pub proof fn lemma_xs_nth_add(seed: u64, a: nat, b: nat)
    ensures
        xs_nth(xs_nth(seed, a), b) == xs_nth(seed, a + b),
    decreases b,
{
    if b > 0 {
        lemma_xs_nth_add(seed, a, (b - 1) as nat);
    }
}

/// A non-zero xorshift state never becomes zero.
pub proof fn lemma_xorshift_nonzero(x: u64)
    requires
        x != 0,
    ensures
        xorshift(x) != 0,
{
    let a = x ^ (x << 13u64);
    let b = a ^ (a >> 7u64);
    assert(x != 0 ==> x ^ (x << 13u64) != 0) by (bit_vector);
    assert(a != 0 ==> a ^ (a >> 7u64) != 0) by (bit_vector);
    assert(b != 0 ==> b ^ (b << 17u64) != 0) by (bit_vector);
}

/// The xorshift generator used to choose steal victims.
pub struct XorShift64 {
    state: u64,
}

impl XorShift64 {
    /// The generator's current state.
    pub closed spec fn spec_state(&self) -> u64 {
        self.state
    }

    /// A generator whose state is `seed`.
    pub fn new(seed: u64) -> (r: Self)
        ensures
            r.spec_state() == seed,
    {
        XorShift64 { state: seed }
    }

    /// Advances the state one xorshift step and returns the new state.
    pub fn next_u64(&mut self) -> (r: u64)
        ensures
            r == xorshift(old(self).spec_state()),
            final(self).spec_state() == r,
    {
        let mut x = self.state;
        x ^= x << 13u64;
        x ^= x >> 7u64;
        x ^= x << 17u64;
        self.state = x;
        x
    }

    /// A number below `range` taken from the next step (0, with no step,
    /// when `range` is 0).
    pub fn next_usize(&mut self, range: usize) -> (r: usize)
        ensures
            range == 0 ==> r == 0 && final(self).spec_state() == old(self).spec_state(),
            range > 0 ==> r == (xorshift(old(self).spec_state()) as usize) % range
                && final(self).spec_state() == xorshift(old(self).spec_state()),
            range > 0 ==> r < range,
    {
        if range == 0 {
            return 0;
        }
        (self.next_u64() as usize) % range
    }
}

/// The Fibonacci numbers: 0, 1, 1, 2, 3, 5, ...
pub open spec fn spec_fib(n: nat) -> nat
    decreases n,
{
    if n <= 1 {
        n
    } else {
        spec_fib((n - 1) as nat) + spec_fib((n - 2) as nat)
    }
}

/// Fibonacci is non-decreasing.
pub proof fn lemma_fib_monotonic(i: nat, j: nat)
    requires
        i <= j,
    ensures
        spec_fib(i) <= spec_fib(j),
    decreases j - i,
{
    if i < j {
        lemma_fib_monotonic(i, (j - 1) as nat);
        if j >= 2 {
            assert(spec_fib(j) == spec_fib((j - 1) as nat) + spec_fib((j - 2) as nat));
        }
    }
}

/// The `n`-th Fibonacci number, by naive recursion.
pub fn fib_seq(n: u64) -> (r: u64)
    requires
        spec_fib(n as nat) <= u64::MAX,
    ensures
        r == spec_fib(n as nat),
    decreases n,
{
    if n <= 1 {
        return n;
    }
    fib_seq(n - 1) + fib_seq(n - 2)
}

/// `x * x + 2 * x + 1`, wrapped to 64 bits.
pub open spec fn spec_map_transform(x: u64) -> u64 {
    ((x * x + 2 * x + 1) % 0x1_0000_0000_0000_0000) as u64
}

/// `x * x + 2 * x + 1` with wrapping multiplication and additions; the
/// doubling itself does not wrap, so `x` is at most `u64::MAX / 2`.
pub fn map_transform(x: u64) -> (r: u64)
    requires
        x <= u64::MAX / 2,
    ensures
        r == spec_map_transform(x),
{
    let ghost m: int = 0x1_0000_0000_0000_0000int;
    let sq = x.wrapping_mul(x);
    let a = sq.wrapping_add(2 * x);
    let r = a.wrapping_add(1);
    proof {
        assert(sq as int == (x * x) % m);
        lemma_add_mod_noop_right(2 * x, x * x, m);
        assert(a as int == ((x * x) % m + 2 * x) % m);
        assert(a as int == (x * x + 2 * x) % m);
        lemma_add_mod_noop_right(1, x * x + 2 * x, m);
        assert(r as int == (a + 1) % m);
    }
    r
}

/// Sum of `spec_map_transform` over `s`.
pub open spec fn map_sum(s: Seq<u64>) -> nat
    decreases s.len(),
{
    if s.len() == 0 {
        0
    } else {
        map_sum(s.drop_last()) + spec_map_transform(s.last()) as nat
    }
}

/// A prefix's sum is at most the whole sum.
pub proof fn lemma_map_sum_prefix(s: Seq<u64>, i: int)
    requires
        0 <= i <= s.len(),
    ensures
        map_sum(s.take(i)) <= map_sum(s),
    decreases s.len() - i,
{
    if i < s.len() {
        lemma_map_sum_prefix(s, i + 1);
        assert(s.take(i + 1).drop_last() =~= s.take(i));
    } else {
        assert(s.take(i) =~= s);
    }
}

/// Sum of `map_transform` over `data`; the sum itself must not overflow.
pub fn map_seq(data: &[u64]) -> (r: u64)
    requires
        forall|k: int| 0 <= k < data@.len() ==> #[trigger] data@[k] <= u64::MAX / 2,
        map_sum(data@) <= u64::MAX,
    ensures
        r == map_sum(data@),
{
    let mut total: u64 = 0;
    let mut i: usize = 0;
    while i < data.len()
        invariant
            0 <= i <= data@.len(),
            total == map_sum(data@.take(i as int)),
            map_sum(data@) <= u64::MAX,
            forall|k: int| 0 <= k < data@.len() ==> #[trigger] data@[k] <= u64::MAX / 2,
        decreases data@.len() - i,
    {
        proof {
            lemma_map_sum_prefix(data@, i + 1);
            assert(data@.take(i + 1).drop_last() =~= data@.take(i as int));
        }
        let v = map_transform(data[i]);
        total = total + v;
        i = i + 1;
    }
    proof {
        assert(data@.take(data@.len() as int) =~= data@);
    }
    total
}

/// Number of nodes of a complete binary tree of the given depth.
pub open spec fn full_size(depth: nat) -> nat
    decreases depth,
{
    if depth == 0 {
        1
    } else {
        2 * full_size((depth - 1) as nat) + 1
    }
}

/// A node of a binary tree of small numbers.
pub struct TreeNode {
    pub value: u64,
    pub left: Option<Box<TreeNode>>,
    pub right: Option<Box<TreeNode>>,
}

/// The values of a tree in pre-order: the node, its left subtree, its right
/// subtree.
pub open spec fn preorder(t: TreeNode) -> Seq<u64>
    decreases t,
{
    let l = match t.left {
        Some(b) => preorder(*b),
        None => Seq::empty(),
    };
    let r = match t.right {
        Some(b) => preorder(*b),
        None => Seq::empty(),
    };
    seq![t.value] + l + r
}

/// The sum of a tree's values.
pub open spec fn tree_sum(t: TreeNode) -> nat
    decreases t,
{
    let l = match t.left {
        Some(b) => tree_sum(*b),
        None => 0,
    };
    let r = match t.right {
        Some(b) => tree_sum(*b),
        None => 0,
    };
    t.value as nat + l + r
}

/// The values a tree of `depth` built from a generator in state `seed` holds,
/// in pre-order: each next output of the generator, modulo 100.
pub open spec fn drawn_values(seed: u64, depth: nat) -> Seq<u64> {
    Seq::new(full_size(depth), |k: int| (xs_nth(seed, (k + 1) as nat) % 100) as u64)
}

impl TreeNode {
    /// A complete tree of the given depth filled from a generator seeded with
    /// `seed`.
    pub fn new(depth: u64, seed: u64) -> (r: Self)
        ensures
            preorder(r) == drawn_values(seed, depth as nat),
            tree_sum(r) <= 99 * full_size(depth as nat),
    {
        let mut rng = XorShift64::new(seed);
        Self::build(depth, &mut rng)
    }

    /// A complete tree of the given depth whose values, in pre-order, are the
    /// generator's next outputs modulo 100.
    pub fn build(depth: u64, rng: &mut XorShift64) -> (r: Self)
        ensures
            preorder(r) == drawn_values(old(rng).spec_state(), depth as nat),
            final(rng).spec_state() == xs_nth(old(rng).spec_state(), full_size(depth as nat)),
            tree_sum(r) <= 99 * full_size(depth as nat),
        decreases depth,
    {
        let ghost s0 = rng.spec_state();
        let value = rng.next_u64() % 100;
        assert(xs_nth(s0, 0) == s0);
        assert(xs_nth(s0, 1) == xorshift(s0));
        assert(value == (xs_nth(s0, 1) % 100) as u64);
        if depth == 0 {
            let r = TreeNode { value, left: None, right: None };
            assert(preorder(r) =~= drawn_values(s0, 0));
            r
        } else {
            let ghost s1 = rng.spec_state();
            let left = Self::build(depth - 1, rng);
            let ghost s2 = rng.spec_state();
            let right = Self::build(depth - 1, rng);
            let r = TreeNode { value, left: Some(Box::new(left)), right: Some(Box::new(right)) };
            proof {
                let d = (depth - 1) as nat;
                let n = full_size(d);
                assert(full_size(depth as nat) == 2 * n + 1);
                lemma_xs_nth_add(s0, 1, n);
                lemma_xs_nth_add(s0, 1 + n, n);
                assert forall|k: int| 0 <= k < n implies #[trigger] drawn_values(s1, d)[k]
                    == drawn_values(s0, depth as nat)[1 + k] by {
                    lemma_xs_nth_add(s0, 1, (k + 1) as nat);
                }
                assert forall|k: int| 0 <= k < n implies #[trigger] drawn_values(s2, d)[k]
                    == drawn_values(s0, depth as nat)[1 + n + k] by {
                    lemma_xs_nth_add(s0, 1 + n, (k + 1) as nat);
                }
                assert(preorder(r) =~= drawn_values(s0, depth as nat));
            }
            r
        }
    }

    /// The sum of the tree's values.
    pub fn sum(&self) -> (r: u64)
        requires
            tree_sum(*self) <= u64::MAX,
        ensures
            r == tree_sum(*self),
        decreases *self,
    {
        let mut s = self.value;
        if let Some(ref l) = self.left {
            s += l.sum();
        }
        if let Some(ref r) = self.right {
            s += r.sum();
        }
        s
    }
}

/// Per-worker event counters of the scheduler.
pub struct WorkerStats {
    pub tasks_local: Vec<u64>,
    pub tasks_stolen: Vec<u64>,
    pub tasks_external: Vec<u64>,
    pub steal_attempts: Vec<u64>,
    pub steal_successes: Vec<u64>,
}

/// Adds one to counter `id`, wrapping at 2^64; the others stay.
pub open spec fn bumped(c: Seq<u64>, id: int) -> Seq<u64> {
    c.update(id, c[id].wrapping_add(1))
}

/// The sum of a sequence of counters.
pub open spec fn counter_sum(s: Seq<u64>) -> nat
    decreases s.len(),
{
    if s.len() == 0 {
        0
    } else {
        counter_sum(s.drop_last()) + s.last() as nat
    }
}

proof fn lemma_counter_sum_prefix(s: Seq<u64>, i: int)
    requires
        0 <= i <= s.len(),
    ensures
        counter_sum(s.take(i)) <= counter_sum(s),
    decreases s.len() - i,
{
    if i < s.len() {
        lemma_counter_sum_prefix(s, i + 1);
        assert(s.take(i + 1).drop_last() =~= s.take(i));
    } else {
        assert(s.take(i) =~= s);
    }
}

fn zeros(n: usize) -> (r: Vec<u64>)
    ensures
        r@ == Seq::new(n as nat, |k: int| 0u64),
{
    let mut v: Vec<u64> = Vec::with_capacity(n);
    let mut k: usize = 0;
    while k < n
        invariant
            k <= n,
            v@ == Seq::new(k as nat, |j: int| 0u64),
        decreases n - k,
    {
        v.push(0);
        k = k + 1;
        assert(v@ =~= Seq::new(k as nat, |j: int| 0u64));
    }
    v
}

impl WorkerStats {
    /// Every counter of every field has the same number of workers.
    pub open spec fn wf(&self, n: nat) -> bool {
        &&& self.tasks_local@.len() == n
        &&& self.tasks_stolen@.len() == n
        &&& self.tasks_external@.len() == n
        &&& self.steal_attempts@.len() == n
        &&& self.steal_successes@.len() == n
    }

    /// Zeroed counters for `num_workers` workers.
    pub fn new(num_workers: usize) -> (r: Self)
        ensures
            r.wf(num_workers as nat),
            r.tasks_local@ == Seq::new(num_workers as nat, |k: int| 0u64),
            r.tasks_stolen@ == Seq::new(num_workers as nat, |k: int| 0u64),
            r.tasks_external@ == Seq::new(num_workers as nat, |k: int| 0u64),
            r.steal_attempts@ == Seq::new(num_workers as nat, |k: int| 0u64),
            r.steal_successes@ == Seq::new(num_workers as nat, |k: int| 0u64),
    {
        WorkerStats {
            tasks_local: zeros(num_workers),
            tasks_stolen: zeros(num_workers),
            tasks_external: zeros(num_workers),
            steal_attempts: zeros(num_workers),
            steal_successes: zeros(num_workers),
        }
    }

    /// Counts a task that worker `id` ran from its own deque.
    pub fn record_local(&mut self, id: usize)
        requires
            id < old(self).tasks_local@.len(),
        ensures
            final(self).tasks_local@ == bumped(old(self).tasks_local@, id as int),
            final(self).tasks_stolen@ == old(self).tasks_stolen@,
            final(self).tasks_external@ == old(self).tasks_external@,
            final(self).steal_attempts@ == old(self).steal_attempts@,
            final(self).steal_successes@ == old(self).steal_successes@,
    {
        let v = self.tasks_local[id].wrapping_add(1);
        self.tasks_local.set(id, v);
    }

    /// Counts a task that worker `id` stole.
    pub fn record_stolen(&mut self, id: usize)
        requires
            id < old(self).tasks_stolen@.len(),
        ensures
            final(self).tasks_local@ == old(self).tasks_local@,
            final(self).tasks_stolen@ == bumped(old(self).tasks_stolen@, id as int),
            final(self).tasks_external@ == old(self).tasks_external@,
            final(self).steal_attempts@ == old(self).steal_attempts@,
            final(self).steal_successes@ == old(self).steal_successes@,
    {
        let v = self.tasks_stolen[id].wrapping_add(1);
        self.tasks_stolen.set(id, v);
    }

    /// Counts a task submitted from outside the pool, booked on worker `id`.
    pub fn record_external(&mut self, id: usize)
        requires
            id < old(self).tasks_external@.len(),
        ensures
            final(self).tasks_local@ == old(self).tasks_local@,
            final(self).tasks_stolen@ == old(self).tasks_stolen@,
            final(self).tasks_external@ == bumped(old(self).tasks_external@, id as int),
            final(self).steal_attempts@ == old(self).steal_attempts@,
            final(self).steal_successes@ == old(self).steal_successes@,
    {
        let v = self.tasks_external[id].wrapping_add(1);
        self.tasks_external.set(id, v);
    }

    /// Counts a steal attempt by worker `id`.
    pub fn record_steal_attempt(&mut self, id: usize)
        requires
            id < old(self).steal_attempts@.len(),
        ensures
            final(self).tasks_local@ == old(self).tasks_local@,
            final(self).tasks_stolen@ == old(self).tasks_stolen@,
            final(self).tasks_external@ == old(self).tasks_external@,
            final(self).steal_attempts@ == bumped(old(self).steal_attempts@, id as int),
            final(self).steal_successes@ == old(self).steal_successes@,
    {
        let v = self.steal_attempts[id].wrapping_add(1);
        self.steal_attempts.set(id, v);
    }

    /// Counts a successful steal by worker `id`.
    pub fn record_steal_success(&mut self, id: usize)
        requires
            id < old(self).steal_successes@.len(),
        ensures
            final(self).tasks_local@ == old(self).tasks_local@,
            final(self).tasks_stolen@ == old(self).tasks_stolen@,
            final(self).tasks_external@ == old(self).tasks_external@,
            final(self).steal_attempts@ == old(self).steal_attempts@,
            final(self).steal_successes@ == bumped(old(self).steal_successes@, id as int),
    {
        let v = self.steal_successes[id].wrapping_add(1);
        self.steal_successes.set(id, v);
    }

    /// The sum of one field's counters over all workers.
    pub fn total(&self, field: &[u64]) -> (r: u64)
        requires
            counter_sum(field@) <= u64::MAX,
        ensures
            r == counter_sum(field@),
    {
        let mut t: u64 = 0;
        let mut i: usize = 0;
        while i < field.len()
            invariant
                0 <= i <= field@.len(),
                t == counter_sum(field@.take(i as int)),
                counter_sum(field@) <= u64::MAX,
            decreases field@.len() - i,
        {
            proof {
                lemma_counter_sum_prefix(field@, i + 1);
                assert(field@.take(i + 1).drop_last() =~= field@.take(i as int));
            }
            t = t + field[i];
            i = i + 1;
        }
        proof {
            assert(field@.take(field@.len() as int) =~= field@);
        }
        t
    }
}

/// Where a pool worker looks for its next task.
#[derive(Clone, Copy, Debug, PartialEq, Eq, Structural)]
pub enum Source {
    /// The bottom of its own deque.
    Local,
    /// The shared submission queue.
    External,
    /// The top of another worker's deque.
    Victim(usize),
    /// Nowhere: it checks for work and yields before starting over.
    Idle,
}

/// The search order of worker `id`: after finding a task it starts over at
/// its own deque; after a miss it moves on from its own deque to the
/// submission queue, from there to the victim `drawn` at random (or
/// straight to idling when it drew itself), and from a victim or from
/// idling back to its own deque.
pub open spec fn next_source_spec(tried: Source, found: bool, id: usize, drawn: usize) -> Source {
    if found {
        Source::Local
    } else {
        match tried {
            Source::Local => Source::External,
            Source::External => if drawn != id {
                Source::Victim(drawn)
            } else {
                Source::Idle
            },
            Source::Victim(_) => Source::Idle,
            Source::Idle => Source::Local,
        }
    }
}

/// Where worker `id` looks next, having looked at `tried` and found a task
/// there or not; `drawn` is the random victim, used only after a miss at the
/// submission queue.
pub fn next_source(tried: Source, found: bool, id: usize, drawn: usize) -> (r: Source)
    ensures
        r == next_source_spec(tried, found, id, drawn),
{
    if found {
        return Source::Local;
    }
    match tried {
        Source::Local => Source::External,
        Source::External => if drawn != id {
            Source::Victim(drawn)
        } else {
            Source::Idle
        },
        Source::Victim(_) => Source::Idle,
        Source::Idle => Source::Local,
    }
}

/// A worker that keeps missing visits its own deque again within four
/// looks, and never steals from itself.
pub proof fn lemma_worker_returns_home(id: usize, d1: usize, d2: usize, d3: usize, d4: usize)
    ensures
        ({
            let s1 = next_source_spec(Source::Local, false, id, d1);
            let s2 = next_source_spec(s1, false, id, d2);
            let s3 = next_source_spec(s2, false, id, d3);
            let s4 = next_source_spec(s3, false, id, d4);
            &&& s1 == Source::External
            &&& s2 != Source::Victim(id)
            &&& (s3 == Source::Local || s4 == Source::Local)
        }),
{
}

} // verus!
