//! Tail-latency tooling: a power-of-two latency histogram with percentiles,
//! and a circuit breaker that stops calling a failing backend for a while.
//!
//! Times are plain numbers: latencies in microseconds, and the breaker's
//! clock readings `now` in any fixed unit that `open_timeout` shares.
use vstd::prelude::*;
use std::collections::BTreeMap;

verus! {

broadcast use {vstd::std_specs::btree::group_btree_axioms, vstd::laws_cmp::group_laws_cmp};

/// The histogram bucket of exponent `e`: the power of two `2^e`.
pub open spec fn bucket_key(e: nat) -> u64 {
    (1u64 << (e as u64)) as u64
}

/// The least exponent from `e` on whose bucket is at least `us`, stopping at
/// 63.
pub open spec fn least_exp(us: u64, e: nat) -> nat
    decreases 63 - e,
{
    if e >= 63 || bucket_key(e) >= us {
        e
    } else {
        least_exp(us, e + 1)
    }
}

/// The bucket a latency falls in: the least power of two not below it
/// (1 for 0).
pub open spec fn bucket_of(us: u64) -> u64 {
    bucket_key(least_exp(us, 0))
}

/// Number of samples recorded in the bucket of exponent `e`.
pub open spec fn count_in(m: Map<u64, u64>, e: nat) -> nat {
    if m.contains_key(bucket_key(e)) {
        m[bucket_key(e)] as nat
    } else {
        0
    }
}

/// Number of samples in the buckets of exponents below `e`.
pub open spec fn count_below(m: Map<u64, u64>, e: nat) -> nat
    decreases e,
{
    if e == 0 {
        0
    } else {
        count_below(m, (e - 1) as nat) + count_in(m, (e - 1) as nat)
    }
}

/// The rank a percentile `p` asks for among `total` samples: `ceil(total * p / 100)`.
pub open spec fn target_rank(total: u64, p: u64) -> int {
    (total * p + 99) / 100
}

/// Bucket `e` is the answer to a percentile query for `target`: it holds
/// samples and, with the buckets below it, reaches the target rank.
pub open spec fn reaches(m: Map<u64, u64>, e: nat, target: int) -> bool {
    &&& e < 64
    &&& m.contains_key(bucket_key(e))
    &&& count_below(m, e + 1) >= target
}

/// Bucket `e` is the first bucket, in increasing order, that reaches the
/// target rank.
pub open spec fn first_reaching(m: Map<u64, u64>, e: nat, target: int) -> bool {
    &&& reaches(m, e, target)
    &&& forall|j: nat| j < e ==> !reaches(m, j, target)
}

/// Only one bucket is the first to reach a rank.
pub proof fn lemma_first_reaching_unique(m: Map<u64, u64>, e1: nat, e2: nat, target: int)
    requires
        first_reaching(m, e1, target),
        first_reaching(m, e2, target),
    ensures
        e1 == e2,
{
}

/// The `p`-th percentile of a histogram with buckets `m`, `total` samples and
/// maximum `max`: half the first bucket reaching rank `ceil(total * p / 100)`,
/// the maximum when none does, 0 for an empty histogram.
pub open spec fn percentile_of(m: Map<u64, u64>, total: u64, max: u64, p: u64) -> u64 {
    if total == 0 {
        0
    } else {
        let t = target_rank(total, p);
        if exists|e: nat| #[trigger] first_reaching(m, e, t) {
            bucket_key(choose|e: nat| #[trigger] first_reaching(m, e, t)) / 2
        } else {
            max
        }
    }
}

/// A histogram of latencies in power-of-two buckets, with count, sum,
/// minimum and maximum.
pub struct LatencyHistogram {
    buckets: BTreeMap<u64, u64>,
    total: u64,
    sum_us: u64,
    min_us: u64,
    max_us: u64,
}

impl LatencyHistogram {
    /// Samples per bucket, keyed by the bucket's power of two.
    pub closed spec fn spec_buckets(&self) -> Map<u64, u64> {
        self.buckets@
    }

    /// Number of samples.
    pub closed spec fn spec_total(&self) -> u64 {
        self.total
    }

    /// Sum of the samples.
    pub closed spec fn spec_sum(&self) -> u64 {
        self.sum_us
    }

    /// Least sample (`u64::MAX` before the first).
    pub closed spec fn spec_min(&self) -> u64 {
        self.min_us
    }

    /// Greatest sample (0 before the first).
    pub closed spec fn spec_max(&self) -> u64 {
        self.max_us
    }

    /// Well-formed: no bucket counts more samples than the total, and half
    /// of each bucket holding samples is at most the maximum.
    pub open spec fn wf(&self) -> bool {
        &&& forall|k: u64| #[trigger] self.spec_buckets().contains_key(k) ==> self.spec_buckets()[k]
            <= self.spec_total()
        &&& forall|k: u64| #[trigger] self.spec_buckets().contains_key(k) ==> k / 2
            <= self.spec_max()
    }

    /// An empty histogram.
    pub fn new() -> (r: Self)
        ensures
            r.wf(),
            r.spec_buckets() == Map::<u64, u64>::empty(),
            r.spec_total() == 0,
            r.spec_sum() == 0,
            r.spec_min() == u64::MAX,
            r.spec_max() == 0,
    {
        LatencyHistogram { buckets: BTreeMap::new(), total: 0, sum_us: 0, min_us: u64::MAX, max_us: 0 }
    }

    /// Records a latency of `us` microseconds in its power-of-two bucket.
    pub fn record(&mut self, us: u64)
        requires
            old(self).wf(),
            us <= 0x8000_0000_0000_0000,
            old(self).spec_total() < u64::MAX,
            old(self).spec_sum() + us <= u64::MAX,
        ensures
            final(self).wf(),
            final(self).spec_buckets() == old(self).spec_buckets().insert(
                bucket_of(us),
                if old(self).spec_buckets().contains_key(bucket_of(us)) {
                    (old(self).spec_buckets()[bucket_of(us)] + 1) as u64
                } else {
                    1u64
                },
            ),
            final(self).spec_total() == old(self).spec_total() + 1,
            final(self).spec_sum() == old(self).spec_sum() + us,
            final(self).spec_min() == if us < old(self).spec_min() {
                us
            } else {
                old(self).spec_min()
            },
            final(self).spec_max() == if us > old(self).spec_max() {
                us
            } else {
                old(self).spec_max()
            },
    {
        let bucket = bucket_for(us);
        let ghost m0 = self.buckets@;
        let count: u64 = match self.buckets.get(&bucket) {
            Some(c) => {
                assert(self.spec_buckets().contains_key(bucket));
                *c
            },
            None => 0,
        };
        self.buckets.insert(bucket, count + 1);
        proof {
            assert forall|k: u64| #[trigger] self.buckets@.contains_key(k) implies self.buckets@[k]
                <= old(self).total + 1 by {
                if k != bucket {
                    assert(old(self).spec_buckets().contains_key(k));
                }
            }
            lemma_bucket_half(us);
            assert forall|k: u64| #[trigger] self.buckets@.contains_key(k) implies k / 2
                <= if us > old(self).max_us { us } else { old(self).max_us } by {
                if k != bucket {
                    assert(old(self).spec_buckets().contains_key(k));
                }
            }
        }
        self.total = self.total + 1;
        self.sum_us = self.sum_us + us;
        if us < self.min_us {
            self.min_us = us;
        }
        if us > self.max_us {
            self.max_us = us;
        }
    }

    /// The `p`-th percentile (`p` in whole percent): half the bucket that
    /// first brings the running count, over buckets in increasing order, to
    /// `ceil(total * p / 100)`; the maximum if none does; 0 when empty.
    pub fn percentile(&self, p: u64) -> (r: u64)
        requires
            p <= 100,
        ensures
            r == percentile_of(self.spec_buckets(), self.spec_total(), self.spec_max(), p),
    {
        if self.total == 0 {
            return 0;
        }
        let tot: u128 = self.total as u128;
        let pp: u128 = p as u128;
        assert(tot * pp <= 0xffff_ffff_ffff_ffff * 100) by (nonlinear_arith)
            requires
                tot <= 0xffff_ffff_ffff_ffff,
                pp <= 100,
        ;
        let target: u128 = (tot * pp + 99) / 100;
        let ghost m = self.buckets@;
        let ghost t = target_rank(self.total, p);
        assert(target == t);
        let mut cumulative: u128 = 0;
        let mut e: u64 = 0;
        while e < 64
            invariant
                e <= 64,
                self.total > 0,
                m == self.buckets@,
                t == target as int,
                t == target_rank(self.total, p),
                cumulative == count_below(m, e as nat),
                cumulative <= e * 0x1_0000_0000_0000_0000,
                forall|j: nat| j < e ==> !reaches(m, j, t),
            decreases 64 - e,
        {
            let key: u64 = 1u64 << e;
            assert(key == bucket_key(e as nat));
            match self.buckets.get(&key) {
                Some(c) => {
                    cumulative = cumulative + (*c as u128);
                    if cumulative >= target {
                        assert(self.spec_buckets() == m);
                        let r = key / 2;
                        proof {
                            assert(first_reaching(m, e as nat, t));
                            let c = choose|e2: nat| #[trigger] first_reaching(m, e2, t);
                            lemma_first_reaching_unique(m, e as nat, c, t);
                        }
                        return r;
                    }
                    assert(!reaches(m, e as nat, t));
                },
                None => {
                    assert(!reaches(m, e as nat, t));
                },
            }
            e = e + 1;
        }
        assert(forall|j: nat| !reaches(m, j, t));
        assert(forall|j: nat| !first_reaching(m, j, t));
        self.max_us
    }

    /// The number of samples recorded.
    pub fn count(&self) -> (r: u64)
        ensures
            r == self.spec_total(),
    {
        self.total
    }

    /// The sum of the samples recorded.
    pub fn sum(&self) -> (r: u64)
        ensures
            r == self.spec_sum(),
    {
        self.sum_us
    }

    /// The number of samples in the bucket keyed `bucket` (0 for a bucket
    /// that holds none).
    pub fn bucket_count(&self, bucket: u64) -> (r: u64)
        ensures
            r == if self.spec_buckets().contains_key(bucket) {
                self.spec_buckets()[bucket]
            } else {
                0
            },
    {
        match self.buckets.get(&bucket) {
            Some(c) => *c,
            None => 0,
        }
    }

    /// The 50th, 90th, 95th and 99th percentiles, the maximum and the number
    /// of samples; all zero when empty.
    pub fn stats(&self) -> (r: (u64, u64, u64, u64, u64, usize))
        ensures
            self.spec_total() == 0 ==> r == (0u64, 0u64, 0u64, 0u64, 0u64, 0usize),
            self.spec_total() > 0 ==> r == (
                percentile_of(self.spec_buckets(), self.spec_total(), self.spec_max(), 50),
                percentile_of(self.spec_buckets(), self.spec_total(), self.spec_max(), 90),
                percentile_of(self.spec_buckets(), self.spec_total(), self.spec_max(), 95),
                percentile_of(self.spec_buckets(), self.spec_total(), self.spec_max(), 99),
                self.spec_max(),
                self.spec_total() as usize,
            ),
    {
        if self.total == 0 {
            return (0, 0, 0, 0, 0, 0);
        }
        let p50 = self.percentile(50);
        let p90 = self.percentile(90);
        let p95 = self.percentile(95);
        let p99 = self.percentile(99);
        (p50, p90, p95, p99, self.max_us, self.total as usize)
    }
}

proof fn lemma_least_exp_step(us: u64, s: nat)
    requires
        s <= 63,
    ensures
        s <= least_exp(us, s) <= 63,
        least_exp(us, s) == s || bucket_key((least_exp(us, s) - 1) as nat) < us,
    decreases 63 - s,
{
    if !(s >= 63 || bucket_key(s) >= us) {
        lemma_least_exp_step(us, s + 1);
    }
}

/// Half of a latency's bucket is at most the latency.
proof fn lemma_bucket_half(us: u64)
    ensures
        bucket_of(us) / 2 <= us,
{
    lemma_least_exp_step(us, 0);
    let e = least_exp(us, 0);
    if e == 0 {
        assert(bucket_key(0) == 1) by (bit_vector);
    } else {
        let e1 = (e - 1) as u64;
        assert(e1 < 63);
        assert(((1u64 << (e1 + 1)) as u64) / 2 == (1u64 << e1)) by (bit_vector)
            requires
                e1 < 63,
        ;
        assert(bucket_key(e) == (1u64 << (e1 + 1)) as u64);
    }
}

/// A later bucket is at least as large.
proof fn lemma_bucket_key_monotone(a: nat, b: nat)
    requires
        a <= b < 64,
    ensures
        bucket_key(a) <= bucket_key(b),
{
    let (x, y) = (a as u64, b as u64);
    assert((1u64 << x) <= (1u64 << y)) by (bit_vector)
        requires
            x <= y < 64,
    ;
}

/// A bucket that reaches a rank has a first bucket reaching it at or before
/// it.
proof fn lemma_first_reaching_exists(m: Map<u64, u64>, e: nat, t: int)
    requires
        reaches(m, e, t),
    ensures
        exists|f: nat| f <= e && #[trigger] first_reaching(m, f, t),
    decreases e,
{
    if forall|j: nat| j < e ==> !reaches(m, j, t) {
        assert(first_reaching(m, e, t));
    } else {
        let j = choose|j: nat| j < e && reaches(m, j, t);
        lemma_first_reaching_exists(m, j, t);
    }
}

/// Percentiles never decrease as the percent grows: the `p`-th percentile
/// of a histogram is at most its `q`-th for `p <= q <= 100`.
pub proof fn lemma_percentile_monotone(h: LatencyHistogram, p: u64, q: u64)
    requires
        h.wf(),
        p <= q <= 100,
    ensures
        percentile_of(h.spec_buckets(), h.spec_total(), h.spec_max(), p) <= percentile_of(
            h.spec_buckets(),
            h.spec_total(),
            h.spec_max(),
            q,
        ),
{
    let (m, total, max) = (h.spec_buckets(), h.spec_total(), h.spec_max());
    if total > 0 {
        let tp = target_rank(total, p);
        let tq = target_rank(total, q);
        assert(tp <= tq) by (nonlinear_arith)
            requires
                tp == (total * p + 99) / 100,
                tq == (total * q + 99) / 100,
                p <= q,
                total >= 0,
        ;
        if exists|e: nat| #[trigger] first_reaching(m, e, tq) {
            let eq = choose|e: nat| #[trigger] first_reaching(m, e, tq);
            assert(reaches(m, eq, tp));
            lemma_first_reaching_exists(m, eq, tp);
            let ep = choose|e: nat| #[trigger] first_reaching(m, e, tp);
            if eq < ep {
                assert(!reaches(m, eq, tp));
            }
            lemma_bucket_key_monotone(ep, eq);
        } else if exists|e: nat| #[trigger] first_reaching(m, e, tp) {
            let ep = choose|e: nat| #[trigger] first_reaching(m, e, tp);
            assert(m.contains_key(bucket_key(ep)));
        }
    }
}

/// The bucket of a latency: the least power of two not below it.
pub fn bucket_for(us: u64) -> (r: u64)
    requires
        us <= 0x8000_0000_0000_0000,
    ensures
        r == bucket_of(us),
{
    let mut e: u64 = 0;
    while e < 63 && (1u64 << e) < us
        invariant
            e <= 63,
            least_exp(us, e as nat) == least_exp(us, 0),
        decreases 63 - e,
    {
        assert(bucket_key(e as nat) == 1u64 << e);
        e = e + 1;
    }
    assert(bucket_key(e as nat) == 1u64 << e);
    1u64 << e
}

/// The three states of a circuit breaker.
#[derive(Debug, Clone, Copy, PartialEq, Eq, Structural)]
pub enum CircuitState {
    Closed,
    Open,
    HalfOpen,
}

/// What a circuit breaker remembers between calls.
pub struct BreakerModel {
    pub state: CircuitState,
    pub failures: u32,
    pub successes_in_half_open: u32,
    pub last_state_change: u64,
}

/// Time from `since` to `now`, zero if the clock reads earlier.
pub open spec fn elapsed(now: u64, since: u64) -> u64 {
    if now >= since {
        (now - since) as u64
    } else {
        0
    }
}

/// Asking permission at time `now`: a closed circuit allows; an open one
/// allows, half-opening, once more than `timeout` has passed since it
/// opened; a half-open one allows while its probes have not all succeeded.
pub open spec fn allow_step(m: BreakerModel, now: u64, timeout: u64, half_open_max: u32) -> (
    BreakerModel,
    bool,
) {
    match m.state {
        CircuitState::Closed => (m, true),
        CircuitState::Open => {
            if elapsed(now, m.last_state_change) > timeout {
                (
                    BreakerModel {
                        state: CircuitState::HalfOpen,
                        successes_in_half_open: 0,
                        last_state_change: now,
                        ..m
                    },
                    true,
                )
            } else {
                (m, false)
            }
        },
        CircuitState::HalfOpen => (m, m.successes_in_half_open < half_open_max),
    }
}

/// A success at time `now`: failures reset; in the half-open state the
/// success is counted and enough of them close the circuit.
pub open spec fn success_step(m: BreakerModel, now: u64, half_open_max: u32) -> BreakerModel {
    if m.state == CircuitState::HalfOpen {
        let s = (m.successes_in_half_open + 1) as u32;
        if s >= half_open_max {
            BreakerModel {
                state: CircuitState::Closed,
                failures: 0,
                successes_in_half_open: s,
                last_state_change: now,
            }
        } else {
            BreakerModel { failures: 0, successes_in_half_open: s, ..m }
        }
    } else {
        BreakerModel { failures: 0, ..m }
    }
}

/// A failure at time `now`: counted; a half-open circuit reopens, and any
/// other opens (again) once the count reaches the threshold.
pub open spec fn failure_step(m: BreakerModel, now: u64, threshold: u32) -> BreakerModel {
    let f = (m.failures + 1) as u32;
    if m.state == CircuitState::HalfOpen || f >= threshold {
        BreakerModel { state: CircuitState::Open, failures: f, last_state_change: now, ..m }
    } else {
        BreakerModel { failures: f, ..m }
    }
}

/// A circuit breaker with a failure threshold, an open timeout and one
/// half-open probe.
pub struct CircuitBreaker {
    state: CircuitState,
    failures: u32,
    threshold: u32,
    open_timeout: u64,
    last_state_change: u64,
    successes_in_half_open: u32,
    half_open_max: u32,
}

impl CircuitBreaker {
    /// The remembered state.
    pub closed spec fn model(&self) -> BreakerModel {
        BreakerModel {
            state: self.state,
            failures: self.failures,
            successes_in_half_open: self.successes_in_half_open,
            last_state_change: self.last_state_change,
        }
    }

    /// Consecutive failures that open a closed circuit.
    pub closed spec fn spec_threshold(&self) -> u32 {
        self.threshold
    }

    /// How long an open circuit refuses before half-opening.
    pub closed spec fn spec_timeout(&self) -> u64 {
        self.open_timeout
    }

    /// Successful probes that close a half-open circuit.
    pub closed spec fn spec_half_open_max(&self) -> u32 {
        self.half_open_max
    }

    /// Well-formed: one probe, at most one counted success, and none while
    /// half-open.
    pub open spec fn wf(&self) -> bool {
        &&& self.spec_half_open_max() == 1
        &&& self.model().successes_in_half_open <= 1
        &&& self.model().state == CircuitState::HalfOpen ==> self.model().successes_in_half_open == 0
    }

    /// A closed breaker created at time `now`.
    pub fn new(threshold: u32, open_timeout: u64, now: u64) -> (r: Self)
        ensures
            r.wf(),
            r.model() == (BreakerModel {
                state: CircuitState::Closed,
                failures: 0,
                successes_in_half_open: 0,
                last_state_change: now,
            }),
            r.spec_threshold() == threshold,
            r.spec_timeout() == open_timeout,
    {
        CircuitBreaker {
            state: CircuitState::Closed,
            failures: 0,
            threshold,
            open_timeout,
            last_state_change: now,
            successes_in_half_open: 0,
            half_open_max: 1,
        }
    }

    /// Whether a request may go through at time `now`.
    pub fn allow(&mut self, now: u64) -> (r: bool)
        requires
            old(self).wf(),
        ensures
            final(self).wf(),
            (final(self).model(), r) == allow_step(
                old(self).model(),
                now,
                old(self).spec_timeout(),
                old(self).spec_half_open_max(),
            ),
            final(self).spec_threshold() == old(self).spec_threshold(),
            final(self).spec_timeout() == old(self).spec_timeout(),
    {
        match self.state {
            CircuitState::Closed => true,
            CircuitState::Open => {
                let elapsed = if now >= self.last_state_change {
                    now - self.last_state_change
                } else {
                    0
                };
                if elapsed > self.open_timeout {
                    self.state = CircuitState::HalfOpen;
                    self.successes_in_half_open = 0;
                    self.last_state_change = now;
                    true
                } else {
                    false
                }
            },
            CircuitState::HalfOpen => self.successes_in_half_open < self.half_open_max,
        }
    }

    /// Records a successful call at time `now`.
    pub fn record_success(&mut self, now: u64)
        requires
            old(self).wf(),
        ensures
            final(self).wf(),
            final(self).model() == success_step(old(self).model(), now, old(self).spec_half_open_max()),
            final(self).spec_threshold() == old(self).spec_threshold(),
            final(self).spec_timeout() == old(self).spec_timeout(),
    {
        self.failures = 0;
        if self.state == CircuitState::HalfOpen {
            self.successes_in_half_open = self.successes_in_half_open + 1;
            if self.successes_in_half_open >= self.half_open_max {
                self.state = CircuitState::Closed;
                self.last_state_change = now;
            }
        }
    }

    /// Records a failed call at time `now`.
    pub fn record_failure(&mut self, now: u64)
        requires
            old(self).wf(),
            old(self).model().failures < u32::MAX,
        ensures
            final(self).wf(),
            final(self).model() == failure_step(old(self).model(), now, old(self).spec_threshold()),
            final(self).spec_threshold() == old(self).spec_threshold(),
            final(self).spec_timeout() == old(self).spec_timeout(),
    {
        self.failures = self.failures + 1;
        if self.state == CircuitState::HalfOpen {
            self.state = CircuitState::Open;
            self.last_state_change = now;
        } else if self.failures >= self.threshold {
            self.state = CircuitState::Open;
            self.last_state_change = now;
        }
    }

    /// The current state.
    pub fn get_state(&self) -> (r: CircuitState)
        ensures
            r == self.model().state,
    {
        self.state
    }

    /// The number of failures counted since the last reset.
    pub fn failure_count(&self) -> (r: u32)
        ensures
            r == self.model().failures,
    {
        self.failures
    }
}

/// `n` failures in a row at time `now`.
pub open spec fn failures_in_a_row(m: BreakerModel, n: nat, now: u64, threshold: u32) -> BreakerModel
    decreases n,
{
    if n == 0 {
        m
    } else {
        failure_step(failures_in_a_row(m, (n - 1) as nat, now, threshold), now, threshold)
    }
}

/// A closed circuit with no failures stays closed through fewer than
/// `threshold` failures in a row and is open after `threshold` of them.
pub proof fn lemma_threshold_failures_open(m: BreakerModel, n: nat, now: u64, threshold: u32)
    requires
        m.state == CircuitState::Closed,
        m.failures == 0,
        1 <= threshold,
        n <= threshold,
    ensures
        n < threshold ==> failures_in_a_row(m, n, now, threshold).state == CircuitState::Closed,
        failures_in_a_row(m, n, now, threshold).failures == n,
        n == threshold ==> failures_in_a_row(m, n, now, threshold).state == CircuitState::Open,
    decreases n,
{
    if n > 0 {
        lemma_threshold_failures_open(m, (n - 1) as nat, now, threshold);
    }
}

/// An open circuit refuses every request until more than the timeout has
/// passed since it opened, and is left unchanged by the refusal.
pub proof fn lemma_open_refuses_until_timeout(m: BreakerModel, now: u64, timeout: u64, half_open_max: u32)
    requires
        m.state == CircuitState::Open,
        elapsed(now, m.last_state_change) <= timeout,
    ensures
        allow_step(m, now, timeout, half_open_max) == (m, false),
{
}

/// After the timeout an open circuit lets one probe through; the probe's
/// success closes it with no failures, its failure opens it again at that
/// time.
pub proof fn lemma_probe_outcome(m: BreakerModel, now: u64, later: u64, timeout: u64, threshold: u32)
    requires
        m.state == CircuitState::Open,
        elapsed(now, m.last_state_change) > timeout,
        m.failures < u32::MAX,
    ensures
        allow_step(m, now, timeout, 1).1,
        allow_step(m, now, timeout, 1).0.state == CircuitState::HalfOpen,
        success_step(allow_step(m, now, timeout, 1).0, later, 1).state == CircuitState::Closed,
        success_step(allow_step(m, now, timeout, 1).0, later, 1).failures == 0,
        failure_step(allow_step(m, now, timeout, 1).0, later, threshold).state == CircuitState::Open,
        failure_step(allow_step(m, now, timeout, 1).0, later, threshold).last_state_change == later,
{
}

/// Once more than the timeout has passed, an open circuit allows the
/// request and half-opens at that time, with no probe success counted and
/// its failure count kept.
pub proof fn lemma_open_half_opens_after_timeout(
    m: BreakerModel,
    now: u64,
    timeout: u64,
    half_open_max: u32,
)
    requires
        m.state == CircuitState::Open,
        elapsed(now, m.last_state_change) > timeout,
    ensures
        allow_step(m, now, timeout, half_open_max) == (
            BreakerModel {
                state: CircuitState::HalfOpen,
                failures: m.failures,
                successes_in_half_open: 0,
                last_state_change: now,
            },
            true,
        ),
{
}

/// Outside the half-open state a success changes nothing but the failure
/// count, which it clears.
pub proof fn lemma_success_outside_half_open(m: BreakerModel, now: u64, half_open_max: u32)
    requires
        m.state != CircuitState::HalfOpen,
    ensures
        success_step(m, now, half_open_max) == (BreakerModel { failures: 0, ..m }),
{
}

/// A closed circuit allows every request and is left as it was.
pub proof fn lemma_closed_allows(m: BreakerModel, now: u64, timeout: u64, half_open_max: u32)
    requires
        m.state == CircuitState::Closed,
    ensures
        allow_step(m, now, timeout, half_open_max) == (m, true),
{
}

/// A half-open circuit allows requests, unchanged, while its probes have
/// not all succeeded, and refuses them once they have.
pub proof fn lemma_half_open_allows_probes(m: BreakerModel, now: u64, timeout: u64, half_open_max: u32)
    requires
        m.state == CircuitState::HalfOpen,
    ensures
        allow_step(m, now, timeout, half_open_max).0 == m,
        allow_step(m, now, timeout, half_open_max).1 == (m.successes_in_half_open < half_open_max),
{
}

/// Asking never changes the failure count, and a request is allowed exactly
/// when the circuit is not open after asking, for a breaker whose half-open
/// state still has a probe left (as every breaker built by `new` does).
pub proof fn lemma_allowed_iff_not_open(m: BreakerModel, now: u64, timeout: u64, half_open_max: u32)
    requires
        m.state == CircuitState::HalfOpen ==> m.successes_in_half_open < half_open_max,
        half_open_max >= 1,
    ensures
        allow_step(m, now, timeout, half_open_max).0.failures == m.failures,
        allow_step(m, now, timeout, half_open_max).1 == (allow_step(
            m,
            now,
            timeout,
            half_open_max,
        ).0.state != CircuitState::Open),
{
}

/// Asking permission twice at the same time answers the same, the second
/// call changing nothing more: asking is idempotent.
pub proof fn lemma_allow_idempotent(m: BreakerModel, now: u64, timeout: u64, half_open_max: u32)
    requires
        half_open_max >= 1,
        m.state == CircuitState::HalfOpen ==> m.successes_in_half_open < half_open_max,
    ensures
        allow_step(allow_step(m, now, timeout, half_open_max).0, now, timeout, half_open_max) == (
            allow_step(m, now, timeout, half_open_max).0,
            allow_step(m, now, timeout, half_open_max).1,
        ),
{
}

/// A success always clears the failure count, whatever the state.
pub proof fn lemma_success_clears_failures(m: BreakerModel, now: u64, half_open_max: u32)
    ensures
        success_step(m, now, half_open_max).failures == 0,
{
}

} // verus!
