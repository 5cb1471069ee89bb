//! The state behind hand-written futures: a one-shot slot that a callback
//! fills and a poller empties, and the scheduling decisions of the toy
//! executor's run loop. Spawning threads, wakers and polling the futures
//! themselves stay with the caller.
use vstd::prelude::*;

verus! {

/// A value that a producer hands over later through a callback.
pub struct ManualFuture<T> {
    value: Option<T>,
}

impl<T> ManualFuture<T> {
    /// What the slot holds.
    pub closed spec fn slot(&self) -> Option<T> {
        self.value
    }

    /// An empty slot, waiting for its producer.
    pub fn pending() -> (r: Self)
        ensures
            r.slot() is None,
    {
        ManualFuture { value: None }
    }

    /// The producer's callback: stores `v`, replacing anything held.
    pub fn complete(&mut self, v: T)
        ensures
            final(self).slot() == Some(v),
    {
        self.value = Some(v);
    }

    /// Whether a value has arrived. This takes the value out of the slot
    /// to look at it, so the value is gone afterwards.
    pub fn is_ready(&mut self) -> (r: bool)
        ensures
            r == old(self).slot() is Some,
            final(self).slot() is None,
    {
        let v = self.value.take();
        v.is_some()
    }

    /// Takes the value out, if it has arrived.
    pub fn take(&mut self) -> (r: Option<T>)
        ensures
            r == old(self).slot(),
            final(self).slot() is None,
    {
        self.value.take()
    }
}

/// What the executor's run loop does next.
#[derive(Clone, Copy, Debug, PartialEq, Eq, Structural)]
pub enum RunStep {
    /// No task is outstanding and none is queued: the loop ends.
    Finish,
    /// Polls the task at the front of the ready queue.
    PollNext,
    /// Sleeps until a waker re-queues a task.
    Park,
}

/// The run loop's decision given the number of spawned tasks not yet
/// finished and the number of tasks in the ready queue.
pub fn run_step(outstanding: u64, queued: usize) -> (r: RunStep)
    ensures
        outstanding == 0 && queued == 0 ==> r == RunStep::Finish,
        queued > 0 ==> r == RunStep::PollNext,
        outstanding > 0 && queued == 0 ==> r == RunStep::Park,
{
    if outstanding == 0 && queued == 0 {
        RunStep::Finish
    } else if queued > 0 {
        RunStep::PollNext
    } else {
        RunStep::Park
    }
}

/// The count of outstanding tasks after a poll: one fewer when the task
/// finished (the atomic decrement wraps), the same when it is pending.
pub fn after_poll(outstanding: u64, ready: bool) -> (r: u64)
    ensures
        ready ==> r == (if outstanding == 0 {
            u64::MAX
        } else {
            (outstanding - 1) as u64
        }),
        !ready ==> r == outstanding,
{
    if ready {
        outstanding.wrapping_sub(1)
    } else {
        outstanding
    }
}

/// The count of outstanding tasks after a spawn (the atomic increment
/// wraps).
pub fn after_spawn(outstanding: u64) -> (r: u64)
    ensures
        r == (if outstanding == u64::MAX {
            0
        } else {
            (outstanding + 1) as u64
        }),
{
    outstanding.wrapping_add(1)
}

} // verus!
