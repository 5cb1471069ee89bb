//! Benchmark workloads: sequential and shuffled data, a
//! xorshift generator, summing loops and binary-search counts.
//!
//! The summing loops panic on overflow in a debug build; their contracts ask
//! that no running sum leaves `i64`.
use vstd::prelude::*;
use crate::capstone::xorshift;

verus! {

broadcast use vstd::seq_lib::group_to_multiset_ensures;

/// A xorshift generator (shifts 13, 7, 17).
pub struct SimpleRng {
    pub state: u64,
}

impl SimpleRng {
    /// A generator whose state is `seed`.
    pub fn new(seed: u64) -> (r: Self)
        ensures
            r.state == seed,
    {
        SimpleRng { state: seed }
    }

    /// Advances the state by one xorshift step and returns it.
    pub fn next(&mut self) -> (r: u64)
        ensures
            r == xorshift(old(self).state),
            final(self).state == r,
    {
        self.state = self.state ^ (self.state << 13u64);
        self.state = self.state ^ (self.state >> 7u64);
        self.state = self.state ^ (self.state << 17u64);
        self.state
    }
}

/// `0, 1, ..., n - 1`.
pub open spec fn iota(n: nat) -> Seq<i64> {
    Seq::new(n, |i: int| i as i64)
}

/// `s` with the elements at `i` and `j` exchanged.
pub open spec fn swap_at<A>(s: Seq<A>, i: int, j: int) -> Seq<A> {
    s.update(i, s[j]).update(j, s[i])
}

/// The Fisher-Yates passes for positions `i, i - 1, ..., 1` applied to `s`,
/// drawing from a xorshift generator in state `state`: position `i` swaps
/// with `next() % (i + 1)`.
pub open spec fn shuffle_down(s: Seq<i64>, state: u64, i: nat) -> Seq<i64>
    decreases i,
{
    if i == 0 {
        s
    } else {
        let st = xorshift(state);
        let j = (st as usize) as int % (i + 1) as int;
        shuffle_down(swap_at(s, i as int, j), st, (i - 1) as nat)
    }
}

/// `0, 1, ..., n - 1` shuffled by Fisher-Yates with a generator seeded by
/// `seed`.
pub open spec fn shuffled(n: nat, seed: u64) -> Seq<i64> {
    if n == 0 {
        iota(0)
    } else {
        shuffle_down(iota(n), seed, (n - 1) as nat)
    }
}

/// Exchanging two elements keeps the multiset of elements.
pub proof fn lemma_swap_permutes<A>(s: Seq<A>, i: int, j: int)
    requires
        0 <= i < s.len(),
        0 <= j < s.len(),
    ensures
        swap_at(s, i, j).to_multiset() == s.to_multiset(),
        swap_at(s, i, j).len() == s.len(),
{
    broadcast use vstd::seq_lib::to_multiset_update;
    broadcast use vstd::multiset::group_multiset_axioms;

    let s1 = s.update(i, s[j]);
    assert(s1[j] == (if i == j { s[j] } else { s[j] }));
    assert(swap_at(s, i, j).to_multiset() =~= s.to_multiset());
}

/// A Fisher-Yates shuffle only reorders: its result holds each element as
/// often as its input.
pub proof fn lemma_shuffle_permutes(s: Seq<i64>, state: u64, i: nat)
    requires
        i < s.len(),
    ensures
        shuffle_down(s, state, i).to_multiset() == s.to_multiset(),
        shuffle_down(s, state, i).len() == s.len(),
    decreases i,
{
    if i > 0 {
        let st = xorshift(state);
        let j = (st as usize) as int % (i + 1) as int;
        lemma_swap_permutes(s, i as int, j);
        lemma_shuffle_permutes(swap_at(s, i as int, j), st, (i - 1) as nat);
    }
}

/// `0, 1, ..., n - 1`.
pub fn make_sequential_data(n: usize) -> (r: Vec<i64>)
    requires
        n <= i64::MAX,
    ensures
        r@ == iota(n as nat),
{
    let mut data: Vec<i64> = Vec::with_capacity(n);
    let mut k: usize = 0;
    while k < n
        invariant
            k <= n <= i64::MAX,
            data@ == iota(k as nat),
        decreases n - k,
    {
        data.push(k as i64);
        k = k + 1;
        assert(data@ =~= iota(k as nat));
    }
    data
}

/// `0, 1, ..., n - 1` in the order of a Fisher-Yates shuffle driven by a
/// xorshift generator seeded with `seed`.
pub fn make_random_data(n: usize, seed: u64) -> (r: Vec<i64>)
    requires
        n <= i64::MAX,
    ensures
        r@ == shuffled(n as nat, seed),
        r@.to_multiset() == iota(n as nat).to_multiset(),
{
    let mut data = make_sequential_data(n);
    if n == 0 {
        return data;
    }
    let mut rng = SimpleRng::new(seed);
    let mut i: usize = n - 1;
    proof {
        lemma_shuffle_permutes(iota(n as nat), seed, (n - 1) as nat);
    }
    while i >= 1
        invariant
            i < n,
            data@.len() == n,
            shuffle_down(data@, rng.state, i as nat) == shuffled(n as nat, seed),
        decreases i,
    {
        let j = (rng.next() as usize) % (i + 1);
        let ghost before = data@;
        let a = data[i];
        let b = data[j];
        data.set(i, b);
        data.set(j, a);
        assert(data@ =~= swap_at(before, i as int, j as int));
        i = i - 1;
    }
    data
}

/// The sum of `s`.
pub open spec fn seq_sum(s: Seq<i64>) -> int
    decreases s.len(),
{
    if s.len() == 0 {
        0
    } else {
        seq_sum(s.drop_last()) + s.last()
    }
}

/// Every running sum of `s`, from the left, fits in `i64`.
pub open spec fn sums_fit(s: Seq<i64>) -> bool {
    forall|k: int| 0 <= k <= s.len() ==> i64::MIN <= #[trigger] seq_sum(s.take(k)) <= i64::MAX
}

/// `data[indices[0]], data[indices[1]], ...`.
pub open spec fn gather(data: Seq<i64>, indices: Seq<i64>) -> Seq<i64> {
    Seq::new(indices.len(), |k: int| data[indices[k] as int])
}

/// Whether `s` is in non-decreasing order.
pub open spec fn is_sorted(s: Seq<i64>) -> bool {
    forall|i: int, j: int| 0 <= i <= j < s.len() ==> s[i] <= s[j]
}

/// How many entries of `targets` occur in `data`.
pub open spec fn count_found(data: Seq<i64>, targets: Seq<i64>) -> int
    decreases targets.len(),
{
    if targets.len() == 0 {
        0
    } else {
        count_found(data, targets.drop_last()) + if data.contains(targets.last()) {
            1int
        } else {
            0
        }
    }
}

/// The sum of two sequences joined is the sum of their sums.
pub proof fn lemma_seq_sum_concat(a: Seq<i64>, b: Seq<i64>)
    ensures
        seq_sum(a + b) == seq_sum(a) + seq_sum(b),
    decreases b.len(),
{
    if b.len() > 0 {
        lemma_seq_sum_concat(a, b.drop_last());
        assert((a + b).drop_last() =~= a + b.drop_last());
    } else {
        assert(a + b =~= a);
    }
}

/// Every target present counts it once: all targets found is a count of
/// all of them, none found a count of zero, and the count of a joined list
/// of targets is the sum of the counts of its parts.
pub proof fn lemma_count_found_counts(data: Seq<i64>, targets: Seq<i64>, more: Seq<i64>)
    ensures
        (forall|k: int| 0 <= k < targets.len() ==> data.contains(#[trigger] targets[k]))
            ==> count_found(data, targets) == targets.len(),
        (forall|k: int| 0 <= k < targets.len() ==> !data.contains(#[trigger] targets[k]))
            ==> count_found(data, targets) == 0,
        count_found(data, targets + more) == count_found(data, targets) + count_found(data, more),
    decreases targets.len() + more.len(),
{
    if more.len() > 0 {
        lemma_count_found_counts(data, targets, more.drop_last());
        assert((targets + more).drop_last() =~= targets + more.drop_last());
    } else {
        assert(targets + more =~= targets);
        if targets.len() > 0 {
            lemma_count_found_counts(data, targets.drop_last(), more);
            let t = targets.drop_last();
            if forall|k: int| 0 <= k < targets.len() ==> data.contains(#[trigger] targets[k]) {
                assert forall|k: int| 0 <= k < t.len() implies data.contains(#[trigger] t[k]) by {
                    assert(t[k] == targets[k]);
                }
                assert(data.contains(targets[targets.len() - 1]));
            }
            if forall|k: int| 0 <= k < targets.len() ==> !data.contains(#[trigger] targets[k]) {
                assert forall|k: int| 0 <= k < t.len() implies !data.contains(#[trigger] t[k]) by {
                    assert(t[k] == targets[k]);
                }
                assert(!data.contains(targets[targets.len() - 1]));
            }
        }
    }
}

proof fn lemma_count_found_bounds(data: Seq<i64>, targets: Seq<i64>)
    ensures
        0 <= count_found(data, targets) <= targets.len(),
    decreases targets.len(),
{
    if targets.len() > 0 {
        lemma_count_found_bounds(data, targets.drop_last());
    }
}

/// `std::hint::black_box`: hands `x` back unchanged while keeping the
/// optimiser from assuming anything about it.
#[verifier::external_body]
fn opaque<T>(x: T) -> (r: T)
    ensures
        r == x,
{
    std::hint::black_box(x)
}

/// The sum of `data`, read front to back.
pub fn bench_sequential_access(data: &[i64]) -> (r: i64)
    requires
        sums_fit(data@),
    ensures
        r == seq_sum(data@),
{
    let mut sum: i64 = 0;
    let mut k: usize = 0;
    while k < data.len()
        invariant
            k <= data@.len(),
            sums_fit(data@),
            sum == seq_sum(data@.take(k as int)),
        decreases data@.len() - k,
    {
        assert(data@.take(k + 1).drop_last() =~= data@.take(k as int));
        assert(i64::MIN <= seq_sum(data@.take(k + 1)) <= i64::MAX);
        sum = sum + opaque(data[k]);
        k = k + 1;
    }
    assert(data@.take(k as int) =~= data@);
    opaque(sum)
}

/// The sum of `data[idx]` over the entries `idx` of `indices`, in order.
pub fn bench_random_access(indices: &[i64], data: &[i64]) -> (r: i64)
    requires
        forall|k: int| 0 <= k < indices@.len() ==> 0 <= #[trigger] indices@[k] < data@.len(),
        sums_fit(gather(data@, indices@)),
    ensures
        r == seq_sum(gather(data@, indices@)),
{
    let ghost g = gather(data@, indices@);
    let mut sum: i64 = 0;
    let mut k: usize = 0;
    while k < indices.len()
        invariant
            k <= indices@.len(),
            g == gather(data@, indices@),
            forall|q: int| 0 <= q < indices@.len() ==> 0 <= #[trigger] indices@[q] < data@.len(),
            sums_fit(g),
            sum == seq_sum(g.take(k as int)),
        decreases indices@.len() - k,
    {
        assert(g.take(k + 1).drop_last() =~= g.take(k as int));
        assert(i64::MIN <= seq_sum(g.take(k + 1)) <= i64::MAX);
        let idx = indices[k];
        sum = sum + opaque(data[idx as usize]);
        k = k + 1;
    }
    assert(g.take(k as int) =~= g);
    opaque(sum)
}

/// `<[i64]>::binary_search`: on a sorted slice, `Ok` with the index of an
/// element equal to `t` when there is one, and otherwise `Err` with the
/// index at which `t` would be inserted. On an unsorted slice nothing is
/// stated.
#[verifier::external_body]
fn search_sorted(data: &[i64], t: i64) -> (r: Result<usize, usize>)
    ensures
        is_sorted(data@) ==> match r {
            Ok(i) => i < data@.len() && data@[i as int] == t,
            Err(i) => i <= data@.len() && !data@.contains(t) && (forall|k: int|
                0 <= k < i ==> data@[k] < t) && (forall|k: int|
                i <= k < data@.len() ==> data@[k] > t),
        },
{
    data.binary_search(&t)
}

/// `<[i64]>::sort`: puts the elements in non-decreasing order.
#[verifier::external_body]
fn sort_values(v: &mut Vec<i64>)
    ensures
        is_sorted(final(v)@),
        final(v)@.to_multiset() == old(v)@.to_multiset(),
{
    v.sort();
}

/// How many of `targets` a binary search finds in `data`: on sorted data,
/// the number of targets that occur in it; on unsorted data, whatever the
/// searches report, at most one per target.
pub fn bench_binary_search_sorted(data: &[i64], targets: &[i64]) -> (r: i64)
    requires
        targets@.len() <= i64::MAX,
    ensures
        is_sorted(data@) ==> r == count_found(data@, targets@),
        0 <= r <= targets@.len(),
{
    let mut found: i64 = 0;
    let mut k: usize = 0;
    while k < targets.len()
        invariant
            k <= targets@.len(),
            targets@.len() <= i64::MAX,
            0 <= found <= k,
            is_sorted(data@) ==> found == count_found(data@, targets@.take(k as int)),
        decreases targets@.len() - k,
    {
        proof {
            assert(targets@.take(k + 1).drop_last() =~= targets@.take(k as int));
            lemma_count_found_bounds(data@, targets@.take(k + 1));
        }
        let t = targets[k];
        let res = search_sorted(data, t);
        if res.is_ok() {
            found = found + 1;
        }
        k = k + 1;
    }
    assert(targets@.take(k as int) =~= targets@);
    opaque(found)
}

/// How many of `targets` occur in `random_data`, found by binary search in
/// a sorted copy.
pub fn bench_binary_search_random(random_data: &[i64], targets: &[i64]) -> (r: i64)
    requires
        targets@.len() <= i64::MAX,
    ensures
        r == count_found(random_data@, targets@),
{
    let mut data_copy: Vec<i64> = Vec::new();
    let mut k: usize = 0;
    while k < random_data.len()
        invariant
            k <= random_data@.len(),
            data_copy@ == random_data@.take(k as int),
        decreases random_data@.len() - k,
    {
        data_copy.push(random_data[k]);
        k = k + 1;
        assert(data_copy@ =~= random_data@.take(k as int));
    }
    assert(data_copy@ =~= random_data@);
    sort_values(&mut data_copy);
    proof {
        assert forall|t: i64| data_copy@.contains(t) == random_data@.contains(t) by {
            assert(data_copy@.contains(t) <==> data_copy@.to_multiset().count(t) > 0);
            assert(random_data@.contains(t) <==> random_data@.to_multiset().count(t) > 0);
        }
        lemma_count_found_same(data_copy@, random_data@, targets@);
    }
    bench_binary_search_sorted(data_copy.as_slice(), targets)
}

proof fn lemma_count_found_same(a: Seq<i64>, b: Seq<i64>, targets: Seq<i64>)
    requires
        forall|t: i64| a.contains(t) == b.contains(t),
    ensures
        count_found(a, targets) == count_found(b, targets),
    decreases targets.len(),
{
    if targets.len() > 0 {
        lemma_count_found_same(a, b, targets.drop_last());
    }
}

} // verus!
