use systems_lab::actors::{counter_step, CounterOp, CounterOutcome, Registry};
use systems_lab::counters::{AtomicCounter, AtomicSnapshot, MutexCounter, WaitFreeCounter};
use systems_lab::futures::{after_poll, after_spawn, run_step, ManualFuture, RunStep};
use systems_lab::lockfree::{
    LockFreeStack, MSQueue, MutexQueue, MutexStack, TaggedStack, TreiberStack,
};
use systems_lab::locks::{next_backoff, BackoffSpinLock, SpinLock, TicketLock, MAX_BACKOFF};
use systems_lab::monitor::{BoundedQueue, Channel};
use systems_lab::transactions::{deposit, transfer, try_pay, withdraw};

#[test]
fn channel_delivers_in_order() {
    let mut ch: Channel<u32> = Channel::new();
    assert!(ch.is_empty());
    ch.send(1);
    ch.send(2);
    ch.send(3);
    assert_eq!(ch.len(), 3);
    assert_eq!(ch.recv(), 1);
    assert_eq!(ch.recv(), 2);
    assert_eq!(ch.len(), 1);
    assert_eq!(ch.recv(), 3);
    assert!(ch.is_empty());
}

#[test]
fn bounded_queue_fifo_and_batches() {
    let mut q: BoundedQueue<u32> = BoundedQueue::new(4);
    assert_eq!(q.capacity(), 4);
    assert_eq!(q.try_pop(), None);
    for v in 10..14 {
        q.push(v);
    }
    assert_eq!(q.len(), 4);
    assert_eq!(q.pop(), 10);
    assert_eq!(q.pop_batch(2), vec![11, 12]);
    assert_eq!(q.try_pop(), Some(13));
    assert_eq!(q.len(), 0);
}

#[test]
fn treiber_stack_is_lifo() {
    let mut s = TreiberStack::new();
    assert!(s.is_empty());
    s.push(1);
    s.push(2);
    s.push(3);
    assert_eq!(s.pop(), Some(3));
    assert_eq!(s.pop(), Some(2));
    s.push(4);
    assert_eq!(s.pop(), Some(4));
    assert_eq!(s.pop(), Some(1));
    assert_eq!(s.pop(), None);
    assert!(s.is_empty());
}

#[test]
fn ms_queue_is_fifo_and_drains() {
    let mut q = MSQueue::new();
    q.enqueue("a");
    q.enqueue("b");
    assert_eq!(q.dequeue(), Some("a"));
    q.enqueue("c");
    assert!(!q.is_empty());
    q.drain();
    assert!(q.is_empty());
    assert_eq!(q.dequeue(), None);
}

#[test]
fn mutex_stack_and_queue_orders() {
    let mut s = MutexStack::new();
    let mut q = MutexQueue::new();
    for v in 0..5 {
        s.push(v);
        q.enqueue(v);
    }
    let popped: Vec<i32> = (0..5).map(|_| s.pop().unwrap()).collect();
    let dequeued: Vec<i32> = (0..5).map(|_| q.dequeue().unwrap()).collect();
    assert_eq!(popped, vec![4, 3, 2, 1, 0]);
    assert_eq!(dequeued, vec![0, 1, 2, 3, 4]);
    assert_eq!(s.pop(), None);
    assert_eq!(q.dequeue(), None);
}

#[test]
fn lock_free_stack_push_pop() {
    let mut s = LockFreeStack::new();
    for i in 0..100 {
        s.push(i);
    }
    let mut count = 0;
    let mut last = 100;
    while let Some(v) = s.pop() {
        assert_eq!(v, last - 1);
        last = v;
        count += 1;
    }
    assert_eq!(count, 100);
}

#[test]
fn tagged_stack_tag_advances_per_success() {
    let mut s = TaggedStack::new();
    assert_eq!(s.current_tag(), 0);
    assert_eq!(s.pop(), None);
    assert_eq!(s.current_tag(), 0);
    for i in 0..5 {
        s.push(i);
    }
    assert_eq!(s.current_tag(), 5);
    assert_eq!(s.pop(), Some(4));
    assert_eq!(s.pop(), Some(3));
    assert_eq!(s.pop(), Some(2));
    assert_eq!(s.current_tag(), 0);
    assert_eq!(s.pop(), Some(1));
    assert_eq!(s.current_tag(), 1);
}

#[test]
fn atomic_counter_returns_previous() {
    let mut c = AtomicCounter::new();
    assert_eq!(c.increment(), 0);
    assert_eq!(c.increment(), 1);
    assert_eq!(c.increment(), 2);
    assert_eq!(c.get(), 3);
}

#[test]
fn mutex_counter_counts() {
    let mut c = MutexCounter::new();
    for _ in 0..1000 {
        c.increment();
    }
    assert_eq!(c.get(), 1000);
}

#[test]
fn wait_free_counter_fetch_add_wraps() {
    let mut c = WaitFreeCounter::new(10);
    assert_eq!(c.fetch_add(5), 10);
    assert_eq!(c.load(), 15);
    let mut w = WaitFreeCounter::new(usize::MAX);
    assert_eq!(w.fetch_add(2), usize::MAX);
    assert_eq!(w.load(), 1);
}

#[test]
fn snapshot_scan_sees_updates() {
    let mut snap = AtomicSnapshot::new(&[1, 2, 3]);
    assert_eq!(snap.len(), 3);
    assert_eq!(snap.scan(), vec![1, 2, 3]);
    snap.update(1, 20);
    snap.update(2, 30);
    snap.update(1, 21);
    assert_eq!(snap.scan(), vec![1, 21, 30]);
}

#[test]
fn spin_lock_excludes_second_acquire() {
    let mut l = SpinLock::new();
    assert!(l.try_lock());
    assert!(!l.try_lock());
    l.unlock();
    l.lock();
    assert!(!l.try_lock());
    l.unlock();
    assert!(l.try_lock());
}

#[test]
fn backoff_doubles_up_to_cap() {
    assert_eq!(next_backoff(1), 2);
    assert_eq!(next_backoff(256), 512);
    assert_eq!(next_backoff(512), 1024);
    assert_eq!(next_backoff(600), MAX_BACKOFF);
    assert_eq!(next_backoff(1024), 1024);
    let mut d = 1;
    for _ in 0..20 {
        d = next_backoff(d);
    }
    assert_eq!(d, 1024);
    let mut l = BackoffSpinLock::new();
    l.lock();
    l.unlock();
    l.lock();
    l.unlock();
}

#[test]
fn ticket_lock_serves_in_order() {
    let mut t = TicketLock::new();
    assert_eq!(t.lock(), 0);
    t.unlock();
    assert_eq!(t.lock(), 1);
    t.unlock();
    assert_eq!(t.lock(), 2);
    t.unlock();
}

#[test]
fn manual_future_is_ready_takes_value() {
    let mut f: ManualFuture<u32> = ManualFuture::pending();
    assert!(!f.is_ready());
    f.complete(7);
    assert!(f.is_ready());
    assert_eq!(f.take(), None);
    f.complete(9);
    assert_eq!(f.take(), Some(9));
    assert_eq!(f.take(), None);
}

#[test]
fn executor_decisions() {
    assert_eq!(run_step(0, 0), RunStep::Finish);
    assert_eq!(run_step(3, 0), RunStep::Park);
    assert_eq!(run_step(0, 2), RunStep::PollNext);
    assert_eq!(run_step(1, 1), RunStep::PollNext);
    assert_eq!(after_poll(3, true), 2);
    assert_eq!(after_poll(3, false), 3);
    assert_eq!(after_poll(0, true), u64::MAX);
    assert_eq!(after_spawn(4), 5);
    assert_eq!(after_spawn(u64::MAX), 0);
}

#[test]
fn counter_actor_steps() {
    assert_eq!(counter_step(10, CounterOp::Increment(5)), CounterOutcome::Continue(15));
    assert_eq!(counter_step(10, CounterOp::Decrement(15)), CounterOutcome::Continue(-5));
    assert_eq!(counter_step(-6, CounterOp::Multiply(7)), CounterOutcome::Continue(-42));
    assert_eq!(counter_step(-7, CounterOp::Divide(2)), CounterOutcome::Continue(-3));
    assert_eq!(counter_step(7, CounterOp::Divide(-2)), CounterOutcome::Continue(-3));
    assert_eq!(counter_step(7, CounterOp::Divide(0)), CounterOutcome::Crash);
    assert_eq!(counter_step(i64::MIN, CounterOp::Divide(-1)), CounterOutcome::Crash);
    assert_eq!(counter_step(i64::MAX, CounterOp::Increment(1)), CounterOutcome::Crash);
    assert_eq!(counter_step(3, CounterOp::SetTo(99)), CounterOutcome::Continue(99));
    assert_eq!(counter_step(3, CounterOp::Get), CounterOutcome::Reply(3));
    assert_eq!(counter_step(3, CounterOp::Status), CounterOutcome::Report(3));
    assert_eq!(counter_step(3, CounterOp::Stop), CounterOutcome::Stopped(3));
}

#[test]
fn registry_register_lookup_unregister() {
    let mut reg = Registry::new();
    assert_eq!(reg.register("alpha".to_string()), Ok(()));
    assert_eq!(reg.register("beta".to_string()), Ok(()));
    assert_eq!(reg.lookup("alpha"), Some("actor:alpha".to_string()));
    assert_eq!(
        reg.register("alpha".to_string()),
        Err("'alpha' already registered".to_string())
    );
    assert_eq!(reg.entries().len(), 2);
    reg.unregister("alpha");
    assert_eq!(reg.lookup("alpha"), None);
    assert_eq!(reg.lookup("beta"), Some("actor:beta".to_string()));
    reg.unregister("gamma");
    assert_eq!(reg.entries(), vec![("beta".to_string(), "actor:beta".to_string())]);
}

#[test]
fn bank_transfers_conserve_money() {
    let (mut alice, mut bob) = (1000i64, 500i64);
    for _ in 0..5 {
        let (a, b) = transfer(alice, bob, 100).unwrap();
        alice = a;
        bob = b;
    }
    assert_eq!((alice, bob), (500, 1000));
    assert_eq!(transfer(50, 0, 100), None);
    assert_eq!(withdraw(50, 100), None);
    assert_eq!(withdraw(150, 100), Some(50));
    assert_eq!(deposit(5, 7), 12);
}

#[test]
fn try_pay_falls_back_to_credit() {
    assert_eq!(try_pay(50, 5000, 100), (50, 4900, true));
    assert_eq!(try_pay(500, 5000, 100), (400, 5000, true));
    assert_eq!(try_pay(10, 20, 100), (10, 20, false));
}
