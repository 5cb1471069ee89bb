use systems_lab::capstone::{
    fib_seq, map_seq, map_transform, next_source, ChaseLevDeque, Source, TreeNode, WorkerStats,
    XorShift64,
};
use systems_lab::scan::{blelloch_exclusive, hillis_steele_inclusive};
use systems_lab::work_stealing::{fib, WorkDeque};

#[test]
fn work_deque_owner_lifo_thief_fifo() {
    let mut d = WorkDeque::new();
    assert!(d.is_empty());
    for i in 0..5 {
        d.push(i);
    }
    assert_eq!(d.len(), 5);
    assert_eq!(d.pop(), Some(4));
    assert_eq!(d.steal(), Some(0));
    assert_eq!(d.steal(), Some(1));
    assert_eq!(d.pop(), Some(3));
    assert_eq!(d.pop(), Some(2));
    assert_eq!(d.pop(), None);
    assert_eq!(d.steal(), None);
    assert!(d.is_empty());
}

#[test]
fn work_deque_grows_past_initial_capacity() {
    let mut d = WorkDeque::new();
    for i in 0..100u32 {
        d.push(i);
    }
    assert_eq!(d.len(), 100);
    let mut stolen = Vec::new();
    while let Some(v) = d.steal() {
        stolen.push(v);
    }
    assert_eq!(stolen, (0..100u32).collect::<Vec<_>>());
}

#[test]
fn fib_values() {
    assert_eq!(fib(0), 0);
    assert_eq!(fib(1), 1);
    assert_eq!(fib(10), 55);
    assert_eq!(fib(25), 75025);
    assert_eq!(fib_seq(20), 6765);
    assert_eq!(fib_seq(1), 1);
}

#[test]
fn chase_lev_deque_ends() {
    let mut d = ChaseLevDeque::new();
    assert!(d.is_empty());
    assert!(d.can_push());
    assert!(d.push(1));
    assert!(d.push(2));
    assert!(d.push(3));
    assert_eq!(d.len(), 3);
    assert_eq!(d.steal(), Some(1));
    assert_eq!(d.pop(), Some(3));
    assert_eq!(d.pop(), Some(2));
    assert_eq!(d.pop(), None);
    assert_eq!(d.steal(), None);
}

#[test]
fn chase_lev_deque_refuses_when_full() {
    let mut d = ChaseLevDeque::new();
    for i in 0..4096 {
        assert!(d.push(i));
    }
    assert!(!d.can_push());
    assert!(!d.push(9999));
    assert_eq!(d.len(), 4096);
    assert_eq!(d.steal(), Some(0));
    assert!(d.push(9999));
    assert_eq!(d.pop(), Some(9999));
}

#[test]
fn xorshift_victims() {
    let mut r = XorShift64::new(42);
    assert_eq!(r.next_usize(10), 4);
    assert_eq!(r.next_usize(10), 1);
    assert_eq!(r.next_usize(10), 4);
    assert_eq!(r.next_usize(0), 0);
    let mut one = XorShift64::new(1);
    assert_eq!(one.next_u64(), 1082269761);
}

#[test]
fn map_transform_values() {
    assert_eq!(map_transform(0), 1);
    assert_eq!(map_transform(1), 4);
    assert_eq!(map_transform(9), 100);
    assert_eq!(map_transform(1u64 << 32), 8589934593);
    assert_eq!(map_seq(&[0, 1, 2, 3]), 1 + 4 + 9 + 16);
}

#[test]
fn tree_sums() {
    assert_eq!(TreeNode::new(0, 42).sum(), 74);
    assert_eq!(TreeNode::new(2, 42).sum(), 399);
    assert_eq!(TreeNode::new(3, 7).sum(), 655);
}

#[test]
fn worker_stats_totals() {
    let mut s = WorkerStats::new(3);
    s.record_local(0);
    s.record_local(2);
    s.record_local(2);
    s.record_stolen(1);
    s.record_external(0);
    s.record_steal_attempt(1);
    s.record_steal_attempt(1);
    s.record_steal_success(1);
    assert_eq!(s.total(&s.tasks_local), 3);
    assert_eq!(s.total(&s.tasks_stolen), 1);
    assert_eq!(s.total(&s.tasks_external), 1);
    assert_eq!(s.total(&s.steal_attempts), 2);
    assert_eq!(s.total(&s.steal_successes), 1);
    assert_eq!(s.tasks_local, vec![1, 0, 2]);
}

fn sequential_scan(input: &[i64]) -> Vec<i64> {
    let mut acc = 0;
    input
        .iter()
        .map(|&x| {
            acc += x;
            acc
        })
        .collect()
}

#[test]
fn hillis_steele_matches_sequential() {
    assert_eq!(hillis_steele_inclusive(&[]), Vec::<i64>::new());
    assert_eq!(hillis_steele_inclusive(&[7]), vec![7]);
    assert_eq!(
        hillis_steele_inclusive(&[1, 2, 3, 4, 5, 6, 7, 8]),
        vec![1, 3, 6, 10, 15, 21, 28, 36]
    );
    assert_eq!(hillis_steele_inclusive(&[3, -1, 4, 1, -5]), vec![3, 2, 6, 7, 2]);
    let input: Vec<i64> = (1..=1000).collect();
    assert_eq!(hillis_steele_inclusive(&input), sequential_scan(&input));
}

#[test]
fn blelloch_matches_sequential() {
    assert_eq!(blelloch_exclusive(&[]), Vec::<i64>::new());
    assert_eq!(blelloch_exclusive(&[7]), vec![0]);
    assert_eq!(
        blelloch_exclusive(&[1, 2, 3, 4, 5, 6, 7, 8]),
        vec![0, 1, 3, 6, 10, 15, 21, 28]
    );
    assert_eq!(blelloch_exclusive(&[3, 1, 4, 1, 5]), vec![0, 3, 4, 8, 9]);
    let input: Vec<i64> = (1..=1000).collect();
    let excl = blelloch_exclusive(&input);
    let incl: Vec<i64> = excl.iter().zip(input.iter()).map(|(p, x)| p + x).collect();
    assert_eq!(incl, sequential_scan(&input));
    assert_eq!(incl, hillis_steele_inclusive(&input));
}

#[test]
fn worker_search_order() {
    assert_eq!(next_source(Source::Local, false, 1, 0), Source::External);
    assert_eq!(next_source(Source::External, false, 1, 3), Source::Victim(3));
    assert_eq!(next_source(Source::External, false, 1, 1), Source::Idle);
    assert_eq!(next_source(Source::Victim(3), false, 1, 0), Source::Idle);
    assert_eq!(next_source(Source::Idle, false, 1, 0), Source::Local);
    for s in [Source::Local, Source::External, Source::Victim(2), Source::Idle] {
        assert_eq!(next_source(s, true, 1, 2), Source::Local);
    }
}
