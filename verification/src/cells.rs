//! Interior-mutability and bounds-checking workloads.
//!
//! The counter loops read and bump a counter they are lent; here the loan is
//! a `&mut u64`, which gives the same single-threaded semantics as a `Cell`,
//! a `RefCell` or an `UnsafeCell`. Every loop panics on overflow in a debug
//! build, so the contracts ask that no sum leaves `u64`.
use vstd::prelude::*;
use vstd::utf8::encode_utf8;

verus! {

/// The running total of the counter loop: the counter starts at `start`, and
/// each of `n` rounds bumps it and adds its new value, so the total is
/// `(start + 1) + (start + 2) + ... + (start + n)`.
pub open spec fn tally(start: int, n: nat) -> int
    decreases n,
{
    if n == 0 {
        0
    } else {
        tally(start, (n - 1) as nat) + start + n
    }
}

/// The closed form: `n * start + n * (n + 1) / 2`.
pub proof fn lemma_tally_closed_form(start: int, n: nat)
    ensures
        2 * tally(start, n) == 2 * n * start + n * (n + 1),
    decreases n,
{
    if n > 0 {
        let m = (n - 1) as nat;
        lemma_tally_closed_form(start, m);
        assert(tally(start, n) == tally(start, m) + start + n);
        assert(2 * n * start + n * (n + 1) == 2 * m * start + m * (m + 1) + 2 * start + 2 * n)
            by (nonlinear_arith)
            requires
                m == n - 1,
        ;
    } else {
        assert(2 * n * start + n * (n + 1) == 0) by (nonlinear_arith)
            requires
                n == 0,
        ;
    }
}

proof fn lemma_tally_monotonic(start: int, i: nat, j: nat)
    requires
        start >= 0,
        i <= j,
    ensures
        tally(start, i) <= tally(start, j),
    decreases j - i,
{
    if i < j {
        lemma_tally_monotonic(start, i, (j - 1) as nat);
    }
}

fn counter_rounds(n: u64, counter: &mut u64) -> (r: u64)
    requires
        *old(counter) + n <= u64::MAX,
        tally(*old(counter) as int, n as nat) <= u64::MAX,
    ensures
        *final(counter) == *old(counter) + n,
        r == tally(*old(counter) as int, n as nat),
{
    let ghost start = *counter as int;
    let mut total: u64 = 0;
    let mut i: u64 = 0;
    while i < n
        invariant
            i <= n,
            0 <= start,
            start + n <= u64::MAX,
            tally(start, n as nat) <= u64::MAX,
            *counter == start + i,
            total == tally(start, i as nat),
        decreases n - i,
    {
        proof {
            lemma_tally_monotonic(start, (i + 1) as nat, n as nat);
        }
        *counter = *counter + 1;
        total = total + *counter;
        i = i + 1;
    }
    total
}

/// `n` rounds of bumping the counter through a dynamically checked borrow
/// and adding the new value; returns the total.
pub fn bench_refcell(n: u64, counter: &mut u64) -> (r: u64)
    requires
        *old(counter) + n <= u64::MAX,
        tally(*old(counter) as int, n as nat) <= u64::MAX,
    ensures
        *final(counter) == *old(counter) + n,
        r == tally(*old(counter) as int, n as nat),
{
    counter_rounds(n, counter)
}

/// `n` rounds of bumping the counter by get-and-set and adding the new
/// value; returns the total.
pub fn bench_cell(n: u64, counter: &mut u64) -> (r: u64)
    requires
        *old(counter) + n <= u64::MAX,
        tally(*old(counter) as int, n as nat) <= u64::MAX,
    ensures
        *final(counter) == *old(counter) + n,
        r == tally(*old(counter) as int, n as nat),
{
    counter_rounds(n, counter)
}

/// `n` rounds of bumping the counter through an unchecked pointer and
/// adding the new value; returns the total.
pub fn bench_unsafecell(n: u64, counter: &mut u64) -> (r: u64)
    requires
        *old(counter) + n <= u64::MAX,
        tally(*old(counter) as int, n as nat) <= u64::MAX,
    ensures
        *final(counter) == *old(counter) + n,
        r == tally(*old(counter) as int, n as nat),
{
    counter_rounds(n, counter)
}

/// The sum of `s`.
pub open spec fn sum_u64(s: Seq<u64>) -> int
    decreases s.len(),
{
    if s.len() == 0 {
        0
    } else {
        sum_u64(s.drop_last()) + s.last()
    }
}

proof fn lemma_sum_u64_monotonic(s: Seq<u64>, i: int, j: int)
    requires
        0 <= i <= j <= s.len(),
    ensures
        sum_u64(s.take(i)) <= sum_u64(s.take(j)),
    decreases j - i,
{
    if i < j {
        lemma_sum_u64_monotonic(s, i, j - 1);
        assert(s.take(j).drop_last() =~= s.take(j - 1));
    }
}

fn prefix_sum(vec: &Vec<u64>, len: usize) -> (r: u64)
    requires
        len <= vec@.len(),
        sum_u64(vec@.take(len as int)) <= u64::MAX,
    ensures
        r == sum_u64(vec@.take(len as int)),
{
    let mut total: u64 = 0;
    let mut i: usize = 0;
    while i < len
        invariant
            i <= len <= vec@.len(),
            sum_u64(vec@.take(len as int)) <= u64::MAX,
            total == sum_u64(vec@.take(i as int)),
        decreases len - i,
    {
        proof {
            lemma_sum_u64_monotonic(vec@, i + 1, len as int);
            assert(vec@.take(i + 1).drop_last() =~= vec@.take(i as int));
        }
        total = total + vec[i];
        i = i + 1;
    }
    total
}

/// The sum of the first `len` elements, read with bounds checks.
pub fn safe_sum(vec: &Vec<u64>, len: usize) -> (r: u64)
    requires
        len <= vec@.len(),
        sum_u64(vec@.take(len as int)) <= u64::MAX,
    ensures
        r == sum_u64(vec@.take(len as int)),
{
    prefix_sum(vec, len)
}

/// The sum of the first `len` elements; the bound `len <= vec.len()`, which
/// the unchecked read relies on, is proved here.
pub fn unsafe_sum(vec: &Vec<u64>, len: usize) -> (r: u64)
    requires
        len <= vec@.len(),
        sum_u64(vec@.take(len as int)) <= u64::MAX,
    ensures
        r == sum_u64(vec@.take(len as int)),
{
    prefix_sum(vec, len)
}

/// A string together with the position of its first byte.
pub struct SelfReferential {
    data: String,
}

impl SelfReferential {
    /// The characters held.
    pub closed spec fn text(&self) -> Seq<char> {
        self.data@
    }

    /// Holds a copy of `s`.
    pub fn new(s: &str) -> (r: Self)
        ensures
            r.text() == s@,
    {
        SelfReferential { data: s.to_owned() }
    }

    /// The first byte of the UTF-8 encoding.
    pub fn first_byte(&self) -> (r: u8)
        requires
            self.text().len() > 0,
        ensures
            r == encode_utf8(self.text())[0],
    {
        let bytes = self.data.as_str().as_bytes();
        proof {
            assert(encode_utf8(self.data@).len() > 0) by {
                reveal_with_fuel(vstd::utf8::encode_scalar, 1);
                assert(vstd::utf8::encode_scalar(self.data@[0] as u32).len() > 0);
            }
        }
        bytes[0]
    }

    /// The string held.
    pub fn data(&self) -> (r: &str)
        ensures
            r@ == self.text(),
    {
        self.data.as_str()
    }
}

} // verus!
