//! Spin locks and a ticket lock as state machines.
//!
//! Each lock is a value owned by its caller; `lock` is the step that the
//! spinning loop ends with (a successful compare-and-swap, or the caller's
//! ticket coming up), so it is called on a lock that is free, and `unlock`
//! is the releasing store. The back-off schedule and the ticket arithmetic
//! are exact.
use vstd::prelude::*;

verus! {

/// A test-and-set spin lock.
pub struct SpinLock {
    locked: bool,
}

impl SpinLock {
    /// Whether the lock is held.
    pub closed spec fn is_locked(&self) -> bool {
        self.locked
    }

    /// A free lock.
    pub fn new() -> (r: Self)
        ensures
            !r.is_locked(),
    {
        SpinLock { locked: false }
    }

    /// The compare-and-swap from free to held: succeeds, and takes the lock,
    /// exactly when the lock is free.
    pub fn try_lock(&mut self) -> (r: bool)
        ensures
            r == !old(self).is_locked(),
            final(self).is_locked(),
    {
        if self.locked {
            false
        } else {
            self.locked = true;
            true
        }
    }

    /// Takes a free lock.
    pub fn lock(&mut self)
        requires
            !old(self).is_locked(),
        ensures
            final(self).is_locked(),
    {
        let acquired = self.try_lock();
        assert(acquired);
    }

    /// Releases the lock.
    pub fn unlock(&mut self)
        ensures
            !final(self).is_locked(),
    {
        self.locked = false;
    }
}

/// The longest pause, in spin iterations, between two attempts.
pub const MAX_BACKOFF: u32 = 1024;

/// The pause after a failed attempt that followed a pause of `delay`: twice
/// as long, at most `MAX_BACKOFF`.
pub fn next_backoff(delay: u32) -> (r: u32)
    requires
        delay <= u32::MAX / 2,
    ensures
        r == if 2 * delay < MAX_BACKOFF {
            2 * delay
        } else {
            MAX_BACKOFF as int
        },
{
    let d = delay * 2;
    if d < MAX_BACKOFF {
        d
    } else {
        MAX_BACKOFF
    }
}

/// The pause after `k` failed attempts: `min(2^k, MAX_BACKOFF)`.
pub open spec fn backoff_after(k: nat) -> u32
    decreases k,
{
    if k == 0 {
        1
    } else {
        let d = backoff_after((k - 1) as nat);
        if 2 * d < MAX_BACKOFF {
            (2 * d) as u32
        } else {
            MAX_BACKOFF
        }
    }
}

/// The pause never exceeds `MAX_BACKOFF`, never shrinks, and stops growing
/// once it reaches `MAX_BACKOFF`.
pub proof fn lemma_backoff_bounded(k: nat)
    ensures
        1 <= backoff_after(k) <= MAX_BACKOFF,
        backoff_after(k) <= backoff_after(k + 1),
        k >= 10 ==> backoff_after(k) == MAX_BACKOFF,
    decreases k,
{
    if k > 0 {
        lemma_backoff_bounded((k - 1) as nat);
    }
    if k == 10 {
        reveal_with_fuel(backoff_after, 11);
        assert(backoff_after(10) == MAX_BACKOFF);
    }
}

/// A spin lock that waits longer after each failed attempt.
pub struct BackoffSpinLock {
    locked: bool,
}

impl BackoffSpinLock {
    /// Whether the lock is held.
    pub closed spec fn is_locked(&self) -> bool {
        self.locked
    }

    /// A free lock.
    pub fn new() -> (r: Self)
        ensures
            !r.is_locked(),
    {
        BackoffSpinLock { locked: false }
    }

    /// Takes a free lock.
    pub fn lock(&mut self)
        requires
            !old(self).is_locked(),
        ensures
            final(self).is_locked(),
    {
        self.locked = true;
    }

    /// Releases the lock.
    pub fn unlock(&mut self)
        ensures
            !final(self).is_locked(),
    {
        self.locked = false;
    }
}

/// A first-come-first-served lock: each caller draws the next ticket and
/// enters when the counter of served tickets reaches it.
pub struct TicketLock {
    next: u32,
    serving: u32,
}

/// `v + 1` wrapped into `u32`.
pub open spec fn succ32(v: u32) -> u32 {
    if v == u32::MAX {
        0
    } else {
        (v + 1) as u32
    }
}

impl TicketLock {
    /// The ticket the next caller draws.
    pub closed spec fn next_ticket(&self) -> u32 {
        self.next
    }

    /// The ticket allowed in.
    pub closed spec fn now_serving(&self) -> u32 {
        self.serving
    }

    /// A lock with no ticket drawn.
    pub fn new() -> (r: Self)
        ensures
            r.next_ticket() == 0,
            r.now_serving() == 0,
    {
        TicketLock { next: 0, serving: 0 }
    }

    /// Draws a ticket and enters; the lock must be free, that is, every
    /// ticket drawn so far has been served.
    pub fn lock(&mut self) -> (r: u32)
        requires
            old(self).now_serving() == old(self).next_ticket(),
        ensures
            r == old(self).next_ticket(),
            final(self).next_ticket() == succ32(old(self).next_ticket()),
            final(self).now_serving() == old(self).now_serving(),
    {
        let ticket = self.next;
        self.next = self.next.wrapping_add(1);
        ticket
    }

    /// Lets the next ticket in.
    pub fn unlock(&mut self)
        ensures
            final(self).next_ticket() == old(self).next_ticket(),
            final(self).now_serving() == succ32(old(self).now_serving()),
    {
        self.serving = self.serving.wrapping_add(1);
    }
}

/// Tickets are drawn in order: from a free lock, a `lock` that returns `t`
/// followed by an `unlock` leaves the lock free again, with `t + 1` (wrapping)
/// as the next ticket.
pub proof fn lemma_ticket_order(a: TicketLock, b: TicketLock, c: TicketLock, t: u32)
    requires
        a.now_serving() == a.next_ticket(),
        t == a.next_ticket(),
        b.next_ticket() == succ32(a.next_ticket()),
        b.now_serving() == a.now_serving(),
        c.next_ticket() == b.next_ticket(),
        c.now_serving() == succ32(b.now_serving()),
    ensures
        c.now_serving() == c.next_ticket(),
        c.next_ticket() == succ32(t),
{
}

} // verus!
