//! Parallel prefix sums: the Hillis-Steele inclusive scan and the Blelloch
//! exclusive scan, each round run over the elements in parallel with rayon.
//!
//! Each round's work on one element (or one chunk) is a verified function;
//! a rayon wrapper applies it to every element (or chunk) of the round.
use vstd::prelude::*;
use rayon::iter::{IndexedParallelIterator, IntoParallelRefMutIterator, ParallelIterator};
use rayon::slice::ParallelSliceMut;

verus! {

/// `s[lo] + s[lo + 1] + ... + s[hi - 1]` (zero when `hi <= lo`).
pub open spec fn range_sum(s: Seq<i64>, lo: int, hi: int) -> int
    decreases hi - lo,
{
    if hi <= lo {
        0
    } else {
        range_sum(s, lo, hi - 1) + s[hi - 1]
    }
}

/// Whether `v` fits in an `i64`.
pub open spec fn fits(v: int) -> bool {
    i64::MIN <= v <= i64::MAX
}

/// The inclusive prefix sums: element `i` is `s[0] + ... + s[i]`.
pub open spec fn inclusive_scan(s: Seq<i64>) -> Seq<int> {
    Seq::new(s.len(), |i: int| range_sum(s, 0, i + 1))
}

/// The exclusive prefix sums: element `i` is `s[0] + ... + s[i - 1]`.
pub open spec fn exclusive_scan(s: Seq<i64>) -> Seq<int> {
    Seq::new(s.len(), |i: int| range_sum(s, 0, i))
}

/// `2^k`.
pub open spec fn two_pow(k: nat) -> nat
    decreases k,
{
    if k == 0 {
        1
    } else {
        2 * two_pow((k - 1) as nat)
    }
}

/// The sum of the (at most) `w` elements of `s` ending at `i`.
pub open spec fn window(s: Seq<i64>, i: int, w: int) -> int {
    range_sum(s, if i - w + 1 < 0 {
        0
    } else {
        i - w + 1
    }, i + 1)
}

/// Every window sum a Hillis-Steele scan of `s` computes fits in an `i64`:
/// the windows of widths `1, 2, 4, ...` below twice the length.
pub open spec fn hs_fits(s: Seq<i64>) -> bool {
    forall|k: nat, i: int|
        two_pow(k) < 2 * s.len() && 0 <= i < s.len() ==> fits(#[trigger] window(s, i, two_pow(k) as int))
}

/// Sums over adjacent ranges add up.
pub proof fn lemma_range_sum_split(s: Seq<i64>, lo: int, mid: int, hi: int)
    requires
        lo <= mid <= hi,
    ensures
        range_sum(s, lo, hi) == range_sum(s, lo, mid) + range_sum(s, mid, hi),
    decreases hi - mid,
{
    if hi > mid {
        lemma_range_sum_split(s, lo, mid, hi - 1);
    }
}

/// One Hillis-Steele round doubles the window: the window of width `2d`
/// ending at `i` is the window of width `d` ending there plus, when `i >= d`,
/// the one ending at `i - d`.
proof fn lemma_window_double(s: Seq<i64>, i: int, d: int)
    requires
        0 <= i,
        d >= 1,
    ensures
        window(s, i, 2 * d) == window(s, i, d) + if i >= d {
            window(s, i - d, d)
        } else {
            0
        },
{
    if i >= d {
        let lo = if i - 2 * d + 1 < 0 {
            0
        } else {
            i - 2 * d + 1
        };
        lemma_range_sum_split(s, lo, i - d + 1, i + 1);
    }
}

/// The value of element `i` after the Hillis-Steele round at distance `d`.
pub open spec fn hs_cell_spec(prev: Seq<i64>, d: int, i: int) -> int {
    if i >= d {
        prev[i] + prev[i - d]
    } else {
        prev[i] as int
    }
}

/// Element `i` after the round at distance `d`: `prev[i] + prev[i - d]`,
/// or `prev[i]` for the first `d` elements.
pub fn hs_cell(prev: &Vec<i64>, d: usize, i: usize) -> (r: i64)
    requires
        i < prev@.len(),
        fits(hs_cell_spec(prev@, d as int, i as int)),
    ensures
        r == hs_cell_spec(prev@, d as int, i as int),
{
    if i >= d {
        prev[i] + prev[i - d]
    } else {
        prev[i]
    }
}

/// Runs `par_iter_mut().enumerate().for_each` from rayon over `next`,
/// setting each element from `hs_cell`. Claims what rayon's documentation
/// gives: the closure runs once for each element, with its index, so every
/// element `i` ends up `hs_cell_spec(prev, d, i)`.
#[verifier::external_body]
fn par_hs_round(prev: &Vec<i64>, next: &mut Vec<i64>, d: usize)
    requires
        old(next)@.len() == prev@.len(),
        forall|i: int| 0 <= i < prev@.len() ==> fits(#[trigger] hs_cell_spec(prev@, d as int, i)),
    ensures
        final(next)@.len() == prev@.len(),
        forall|i: int|
            0 <= i < prev@.len() ==> final(next)@[i] == #[trigger] hs_cell_spec(prev@, d as int, i),
{
    next.par_iter_mut().enumerate().for_each(|(i, v)| *v = hs_cell(prev, d, i));
}

fn copy_slice(input: &[i64]) -> (r: Vec<i64>)
    ensures
        r@ == input@,
{
    let mut out: Vec<i64> = Vec::with_capacity(input.len());
    let mut i: usize = 0;
    while i < input.len()
        invariant
            i <= input@.len(),
            out@ == input@.take(i as int),
        decreases input@.len() - i,
    {
        out.push(input[i]);
        i = i + 1;
        assert(out@ =~= input@.take(i as int));
    }
    assert(out@ =~= input@);
    out
}

/// The inclusive prefix sums of `input` by Hillis-Steele: `log n` rounds,
/// round `d = 1, 2, 4, ...` adding to each element the one `d` before it.
pub fn hillis_steele_inclusive(input: &[i64]) -> (r: Vec<i64>)
    requires
        input@.len() <= usize::MAX / 2,
        hs_fits(input@),
    ensures
        r@.len() == input@.len(),
        forall|i: int| 0 <= i < input@.len() ==> r@[i] == #[trigger] inclusive_scan(input@)[i],
{
    let n = input.len();
    let ghost s = input@;
    if n <= 1 {
        let r = copy_slice(input);
        assert forall|i: int| 0 <= i < s.len() implies r@[i] == #[trigger] inclusive_scan(s)[i] by {
            assert(range_sum(s, 0, 1) == range_sum(s, 0, 0) + s[0]);
        }
        return r;
    }
    let mut cur = copy_slice(input);
    let mut next: Vec<i64> = vec![0i64; n];
    let mut d: usize = 1;
    let ghost mut k: nat = 0;
    proof {
        assert forall|i: int| 0 <= i < n implies cur@[i] == #[trigger] window(s, i, d as int) by {
            assert(range_sum(s, i, i + 1) == range_sum(s, i, i) + s[i]);
        }
    }
    while d < n
        invariant
            n == s.len(),
            2 <= n <= usize::MAX / 2,
            hs_fits(s),
            d == two_pow(k),
            1 <= d,
            d < 2 * n,
            cur@.len() == n,
            next@.len() == n,
            forall|i: int| 0 <= i < n ==> cur@[i] == #[trigger] window(s, i, d as int),
        decreases 2 * n - d,
    {
        proof {
            assert(two_pow(k + 1) == 2 * d);
            assert forall|i: int| 0 <= i < n implies fits(
                #[trigger] hs_cell_spec(cur@, d as int, i),
            ) && hs_cell_spec(cur@, d as int, i) == window(s, i, 2 * d) by {
                lemma_window_double(s, i, d as int);
                if i >= d {
                    assert(cur@[i - d] == window(s, i - d, d as int));
                }
                assert(fits(window(s, i, two_pow(k + 1) as int)));
            }
        }
        let ghost prev = cur@;
        par_hs_round(&cur, &mut next, d);
        std::mem::swap(&mut cur, &mut next);
        d = d * 2;
        proof {
            k = k + 1;
            assert forall|i: int| 0 <= i < n implies cur@[i] == #[trigger] window(s, i, d as int) by {
                assert(cur@[i] == hs_cell_spec(prev, (d / 2) as int, i));
            }
        }
    }
    proof {
        assert forall|i: int| 0 <= i < n implies cur@[i] == #[trigger] inclusive_scan(s)[i] by {
            assert(cur@[i] == window(s, i, d as int));
        }
    }
    cur
}

/// `s` followed by zeros up to length `n`.
pub open spec fn padded(s: Seq<i64>, n: int) -> Seq<i64> {
    Seq::new(n as nat, |p: int| if p < s.len() { s[p] } else { 0i64 })
}

/// The smaller of `a` and `b`.
pub open spec fn min(a: int, b: int) -> int {
    if a < b {
        a
    } else {
        b
    }
}

/// The sum of block `j` of width `2^k` of `s`, cut off at the end of `s`.
pub open spec fn block_sum(s: Seq<i64>, k: nat, j: int) -> int {
    range_sum(s, j * two_pow(k), min((j + 1) * two_pow(k), s.len() as int))
}

/// Every sum a Blelloch scan of `s` computes fits in an `i64`: the prefix
/// sums, and the sums of the aligned blocks of power-of-two width.
pub open spec fn bl_fits(s: Seq<i64>) -> bool {
    &&& forall|q: int| 0 <= q <= s.len() ==> fits(#[trigger] range_sum(s, 0, q))
    &&& forall|k: nat, j: int| 0 <= j && j * two_pow(k) < s.len() ==> fits(#[trigger] block_sum(s, k, j))
}

/// The width of the aligned block ending at `p` whose sum the up-sweep has
/// stored at `p` after `lvl` levels: the largest `2^m`, `m <= lvl`, that
/// divides `p + 1`.
pub open spec fn up_width(p: int, lvl: nat) -> int
    decreases lvl,
{
    if lvl == 0 {
        1
    } else if (p + 1) % (two_pow(lvl) as int) == 0 {
        two_pow(lvl) as int
    } else {
        up_width(p, (lvl - 1) as nat)
    }
}

proof fn lemma_two_pow_pos(k: nat)
    ensures
        two_pow(k) >= 1,
    decreases k,
{
    if k > 0 {
        lemma_two_pow_pos((k - 1) as nat);
    }
}

proof fn lemma_two_pow_split(a: nat, b: nat)
    requires
        b <= a,
    ensures
        two_pow(a) == two_pow(b) * two_pow((a - b) as nat),
    decreases a,
{
    if a > b {
        let a1 = (a - 1) as nat;
        let c1 = (a1 - b) as nat;
        let c = (a - b) as nat;
        lemma_two_pow_split(a1, b);
        assert(c1 + 1 == c);
        assert(two_pow(c) == 2 * two_pow(c1));
        assert(two_pow(a) == 2 * two_pow(a1));
        let x = two_pow(b);
        let y = two_pow(c1);
        assert(x * (2 * y) == 2 * (x * y)) by (nonlinear_arith);
    } else {
        assert((a - b) as nat == 0);
        assert(two_pow(0) == 1);
        let x = two_pow(a);
        assert(x == x * 1) by (nonlinear_arith);
    }
}

proof fn lemma_pow_divides_mono(x: int, a: nat, b: nat)
    requires
        b <= a,
        x % (two_pow(a) as int) == 0,
    ensures
        x % (two_pow(b) as int) == 0,
{
    lemma_two_pow_split(a, b);
    lemma_two_pow_pos(a);
    lemma_two_pow_pos(b);
    let pa = two_pow(a) as int;
    let pb = two_pow(b) as int;
    let c = two_pow((a - b) as nat) as int;
    vstd::arithmetic::div_mod::lemma_fundamental_div_mod(x, pa);
    let q = x / pa;
    assert(x == (q * c) * pb) by (nonlinear_arith)
        requires
            x == pa * q + 0,
            pa == pb * c,
    ;
    vstd::arithmetic::div_mod::lemma_mod_multiples_basic(q * c, pb);
}

/// Where a position sits in the chunks of width `2h` that a round works on.
proof fn lemma_chunk_positions(p: int, h: int)
    requires
        p >= 0,
        h >= 1,
    ensures
        ((p + 1) % (2 * h) == 0) <==> (p % (2 * h) == 2 * h - 1),
        p % (2 * h) == 2 * h - 1 ==> (p + 1) % h == 0 && p >= 2 * h - 1 && (p - h) % (2 * h) == h
            - 1,
        p % (2 * h) == h - 1 ==> (p + 1) % h == 0 && (p + 1) % (2 * h) != 0 && (p + h) % (2 * h)
            == 2 * h - 1,
        (p % (2 * h) != h - 1 && p % (2 * h) != 2 * h - 1) ==> (p + 1) % h != 0,
{
    let s = 2 * h;
    vstd::arithmetic::div_mod::lemma_fundamental_div_mod(p, s);
    let q = p / s;
    let r = p % s;
    assert(q >= 0) by (nonlinear_arith)
        requires
            p == s * q + r,
            0 <= r < s,
            p >= 0,
    ;
    assert(s * q == (2 * q) * h) by (nonlinear_arith)
        requires
            s == 2 * h,
    ;
    if r == s - 1 {
        assert(p + 1 == (q + 1) * s + 0 && p + 1 == (2 * q + 2) * h + 0 && p - h == q * s + (h - 1))
            by (nonlinear_arith)
            requires
                p == s * q + r,
                r == s - 1,
                s == 2 * h,
        ;
        vstd::arithmetic::div_mod::lemma_fundamental_div_mod_converse(p + 1, s, q + 1, 0);
        vstd::arithmetic::div_mod::lemma_fundamental_div_mod_converse(p + 1, h, 2 * q + 2, 0);
        vstd::arithmetic::div_mod::lemma_fundamental_div_mod_converse(p - h, s, q, h - 1);
    } else {
        assert(p + 1 == q * s + (r + 1)) by (nonlinear_arith)
            requires
                p == s * q + r,
        ;
        vstd::arithmetic::div_mod::lemma_fundamental_div_mod_converse(p + 1, s, q, r + 1);
        if r == h - 1 {
            assert(p + 1 == (2 * q + 1) * h + 0 && p + h == q * s + (s - 1)) by (nonlinear_arith)
                requires
                    p == s * q + r,
                    r == h - 1,
                    s == 2 * h,
            ;
            vstd::arithmetic::div_mod::lemma_fundamental_div_mod_converse(p + 1, h, 2 * q + 1, 0);
            vstd::arithmetic::div_mod::lemma_fundamental_div_mod_converse(p + h, s, q, s - 1);
        } else if r + 1 < h {
            assert(p + 1 == (2 * q) * h + (r + 1)) by (nonlinear_arith)
                requires
                    p == s * q + r,
                    s == 2 * h,
            ;
            vstd::arithmetic::div_mod::lemma_fundamental_div_mod_converse(p + 1, h, 2 * q, r + 1);
        } else {
            assert(p + 1 == (2 * q + 1) * h + (r + 1 - h)) by (nonlinear_arith)
                requires
                    p == s * q + r,
                    s == 2 * h,
            ;
            vstd::arithmetic::div_mod::lemma_fundamental_div_mod_converse(
                p + 1,
                h,
                2 * q + 1,
                r + 1 - h,
            );
        }
    }
}

/// A left end of a chunk has its right end within the array.
proof fn lemma_left_end_inside(p: int, h: int, n: int)
    requires
        0 <= p < n,
        h >= 1,
        n % (2 * h) == 0,
        p % (2 * h) == h - 1,
    ensures
        p + h < n,
{
    let s = 2 * h;
    vstd::arithmetic::div_mod::lemma_fundamental_div_mod(p, s);
    vstd::arithmetic::div_mod::lemma_fundamental_div_mod(n, s);
    let q = p / s;
    let m = n / s;
    assert(p + h < n) by (nonlinear_arith)
        requires
            p == s * q + (h - 1),
            n == s * m + 0,
            p < n,
            s == 2 * h,
            h >= 1,
    ;
}

/// The up-sweep leaves at `q` the block of width `2^d` when `2^d` is the
/// largest power of two dividing `q + 1`.
proof fn lemma_up_width_exact(q: int, d: nat, lvl: nat)
    requires
        d <= lvl,
        (q + 1) % (two_pow(d) as int) == 0,
        (q + 1) % (two_pow(d + 1) as int) != 0,
    ensures
        up_width(q, lvl) == two_pow(d),
    decreases lvl,
{
    if lvl > d {
        if (q + 1) % (two_pow(lvl) as int) == 0 {
            lemma_pow_divides_mono(q + 1, lvl, d + 1);
        }
        lemma_up_width_exact(q, d, (lvl - 1) as nat);
    }
}

/// Sums over the zero-padded sequence are sums over the original, cut off
/// at its end.
proof fn lemma_padded_sum(s: Seq<i64>, n: int, lo: int, hi: int)
    requires
        0 <= lo <= hi <= n,
        s.len() <= n,
    ensures
        range_sum(padded(s, n), lo, hi) == range_sum(s, min(lo, s.len() as int), min(hi, s.len() as int)),
    decreases hi - lo,
{
    if hi > lo {
        lemma_padded_sum(s, n, lo, hi - 1);
        if hi > s.len() {
            if hi - 1 >= s.len() {
            } else {
            }
        }
    }
}

/// Element `p` after the up-sweep round on chunks of width `2h`: the last
/// element of each chunk adds the last element of the chunk's first half.
pub open spec fn up_step_spec(data: Seq<i64>, h: int, p: int) -> int {
    if p % (2 * h) == 2 * h - 1 {
        data[p] + data[p - h]
    } else {
        data[p] as int
    }
}

/// Element `p` after the down-sweep round on chunks of width `2h`: the last
/// element of each half-chunk pair takes the sum of both, and the last of
/// the first half takes the old last element.
pub open spec fn down_step_spec(data: Seq<i64>, h: int, p: int) -> int {
    if p % (2 * h) == 2 * h - 1 {
        data[p] + data[p - h]
    } else if p % (2 * h) == h - 1 {
        data[p + h] as int
    } else {
        data[p] as int
    }
}

/// The up-sweep on one chunk of width `2 * half`: its last element adds the
/// last element of its first half.
pub fn up_sweep_chunk(chunk: &mut [i64], half: usize)
    requires
        half >= 1,
        old(chunk)@.len() == 2 * half,
        fits(old(chunk)@[2 * half - 1] + old(chunk)@[half - 1]),
    ensures
        final(chunk)@ == old(chunk)@.update(
            2 * half - 1,
            (old(chunk)@[2 * half - 1] + old(chunk)@[half - 1]) as i64,
        ),
{
    let stride = chunk.len();
    let v = chunk[stride - 1] + chunk[half - 1];
    chunk[stride - 1] = v;
}

/// The down-sweep on one chunk of width `2 * half`: the last element of the
/// first half takes the chunk's last element, which becomes the sum of both.
pub fn down_sweep_chunk(chunk: &mut [i64], half: usize)
    requires
        half >= 1,
        old(chunk)@.len() == 2 * half,
        fits(old(chunk)@[2 * half - 1] + old(chunk)@[half - 1]),
    ensures
        final(chunk)@ == old(chunk)@.update(half - 1, old(chunk)@[2 * half - 1]).update(
            2 * half - 1,
            (old(chunk)@[2 * half - 1] + old(chunk)@[half - 1]) as i64,
        ),
{
    let stride = chunk.len();
    let lv = chunk[half - 1];
    let rv = chunk[stride - 1];
    chunk[half - 1] = rv;
    chunk[stride - 1] = rv + lv;
}

/// Runs `par_chunks_mut(stride).for_each` from rayon over `data`, with
/// `stride == 2 * half` (so not zero), calling `up_sweep_chunk` on each
/// chunk. Claims what rayon's documentation gives:
/// the chunks are the consecutive runs of `2 * half` elements from the
/// start (the length being a multiple of that), each passed once to the
/// closure, so every element `p` ends up `up_step_spec(data, half, p)`.
#[verifier::external_body]
fn par_up_sweep(data: &mut Vec<i64>, half: usize, stride: usize)
    requires
        half >= 1,
        stride == 2 * half,
        (old(data)@.len() as int) % (2 * half as int) == 0,
        forall|p: int|
            0 <= p < old(data)@.len() && p % (2 * half as int) == 2 * half - 1 ==> fits(
                #[trigger] up_step_spec(old(data)@, half as int, p),
            ),
    ensures
        final(data)@.len() == old(data)@.len(),
        forall|p: int|
            0 <= p < old(data)@.len() ==> final(data)@[p] == #[trigger] up_step_spec(
                old(data)@,
                half as int,
                p,
            ),
{
    data.par_chunks_mut(stride).for_each(|chunk| up_sweep_chunk(chunk, half));
}

/// Runs `par_chunks_mut(stride).for_each` from rayon over `data`, with
/// `stride == 2 * half` (so not zero), calling `down_sweep_chunk` on each
/// chunk. Claims what rayon's documentation
/// gives: the chunks are the consecutive runs of `2 * half` elements from
/// the start (the length being a multiple of that), each passed once to the
/// closure, so every element `p` ends up `down_step_spec(data, half, p)`.
#[verifier::external_body]
fn par_down_sweep(data: &mut Vec<i64>, half: usize, stride: usize)
    requires
        half >= 1,
        stride == 2 * half,
        (old(data)@.len() as int) % (2 * half as int) == 0,
        forall|p: int|
            0 <= p < old(data)@.len() && p % (2 * half as int) == 2 * half - 1 ==> fits(
                #[trigger] down_step_spec(old(data)@, half as int, p),
            ),
    ensures
        final(data)@.len() == old(data)@.len(),
        forall|p: int|
            0 <= p < old(data)@.len() ==> final(data)@[p] == #[trigger] down_step_spec(
                old(data)@,
                half as int,
                p,
            ),
{
    data.par_chunks_mut(stride).for_each(|chunk| down_sweep_chunk(chunk, half));
}

proof fn lemma_width_divides(n: int, kk: nat, lvl: nat)
    requires
        n == two_pow(kk),
        lvl <= kk,
    ensures
        n % (two_pow(lvl) as int) == 0,
{
    lemma_two_pow_pos(kk);
    vstd::arithmetic::div_mod::lemma_mod_self_0(n);
    lemma_pow_divides_mono(n, kk, lvl);
}

proof fn lemma_two_pow_mono(a: nat, b: nat)
    requires
        b <= a,
    ensures
        two_pow(b) <= two_pow(a),
{
    lemma_two_pow_split(a, b);
    lemma_two_pow_pos((a - b) as nat);
    let x = two_pow(b);
    let y = two_pow((a - b) as nat);
    assert(x <= x * y) by (nonlinear_arith)
        requires
            y >= 1,
    ;
}

/// A prefix sum of the padded input fits.
proof fn lemma_prefix_fits(s: Seq<i64>, n: int, q: int)
    requires
        bl_fits(s),
        s.len() <= n,
        0 <= q <= n,
    ensures
        fits(range_sum(padded(s, n), 0, q)),
{
    lemma_padded_sum(s, n, 0, q);
    assert(fits(range_sum(s, 0, min(q, s.len() as int))));
}

/// An aligned block sum of the padded input fits.
proof fn lemma_block_fits(s: Seq<i64>, n: int, k: nat, j: int)
    requires
        bl_fits(s),
        s.len() <= n,
        0 <= j,
        (j + 1) * two_pow(k) <= n,
    ensures
        fits(range_sum(padded(s, n), j * two_pow(k), (j + 1) * two_pow(k))),
{
    let w = two_pow(k) as int;
    lemma_two_pow_pos(k);
    assert(0 <= j * w <= (j + 1) * w) by (nonlinear_arith)
        requires
            0 <= j,
            w >= 1,
    ;
    lemma_padded_sum(s, n, j * w, (j + 1) * w);
    if j * w < s.len() {
        assert(fits(block_sum(s, k, j)));
    } else {
        assert(min(j * w, s.len() as int) == s.len());
        assert(min((j + 1) * w, s.len() as int) == s.len());
    }
}

/// One up-sweep round: it doubles the stored block at the chunks' last
/// elements, and every sum it forms fits.
proof fn lemma_up_round(s: Seq<i64>, data: Seq<i64>, lvl: nat, h: int, n: int)
    requires
        h == two_pow(lvl),
        n % (2 * h) == 0,
        data.len() == n,
        s.len() <= n,
        bl_fits(s),
        forall|p: int|
            0 <= p < n ==> data[p] == #[trigger] range_sum(
                padded(s, n),
                p + 1 - up_width(p, lvl),
                p + 1,
            ),
    ensures
        forall|p: int|
            0 <= p < n && p % (2 * h) == 2 * h - 1 ==> fits(#[trigger] up_step_spec(data, h, p)),
        forall|p: int|
            0 <= p < n ==> #[trigger] up_step_spec(data, h, p) == range_sum(
                padded(s, n),
                p + 1 - up_width(p, lvl + 1),
                p + 1,
            ),
{
    let pd = padded(s, n);
    lemma_two_pow_pos(lvl);
    assert(two_pow(lvl + 1) == 2 * h);
    assert forall|p: int| 0 <= p < n implies #[trigger] up_step_spec(data, h, p) == range_sum(
        pd,
        p + 1 - up_width(p, lvl + 1),
        p + 1,
    ) && (p % (2 * h) == 2 * h - 1 ==> fits(up_step_spec(data, h, p))) by {
        lemma_chunk_positions(p, h);
        assert(data[p] == range_sum(pd, p + 1 - up_width(p, lvl), p + 1));
        if p % (2 * h) == 2 * h - 1 {
            lemma_chunk_positions(p - h, h);
            assert(up_width(p + 0, lvl + 1) == 2 * h);
            assert(up_width(p, lvl) == h);
            assert(up_width(p - h, lvl) == h);
            assert(data[p - h] == range_sum(pd, p - h + 1 - up_width(p - h, lvl), p - h + 1));
            lemma_range_sum_split(pd, p + 1 - 2 * h, p + 1 - h, p + 1);
            vstd::arithmetic::div_mod::lemma_fundamental_div_mod(p + 1, 2 * h);
            let j = (p + 1) / (2 * h) - 1;
            assert(p + 1 - 2 * h == j * (2 * h) && p + 1 == (j + 1) * (2 * h)) by (nonlinear_arith)
                requires
                    p + 1 == (2 * h) * ((p + 1) / (2 * h)) + 0,
                    j == (p + 1) / (2 * h) - 1,
            ;
            assert(j >= 0) by (nonlinear_arith)
                requires
                    p + 1 - 2 * h == j * (2 * h),
                    p + 1 - 2 * h >= 0,
                    h >= 1,
            ;
            lemma_block_fits(s, n, lvl + 1, j);
            assert(up_step_spec(data, h, p) == range_sum(pd, p + 1 - 2 * h, p + 1));
        } else {
            assert((p + 1) % (two_pow(lvl + 1) as int) != 0);
            assert(up_width(p, lvl + 1) == up_width(p, lvl));
            assert(up_step_spec(data, h, p) == data[p]);
        }
    }
}

/// One down-sweep round: after it, the last element of every chunk of
/// half the width holds the sum of everything before that chunk, and every
/// sum it forms fits.
proof fn lemma_down_round(s: Seq<i64>, data: Seq<i64>, lvl: nat, h: int, n: int, kk: nat)
    requires
        lvl >= 1,
        2 * h == two_pow(lvl),
        h == two_pow((lvl - 1) as nat),
        lvl <= kk,
        n == two_pow(kk),
        data.len() == n,
        s.len() <= n,
        bl_fits(s),
        forall|p: int|
            0 <= p < n ==> #[trigger] data[p] == if (p + 1) % (2 * h) == 0 {
                range_sum(padded(s, n), 0, p + 1 - 2 * h)
            } else {
                range_sum(padded(s, n), p + 1 - up_width(p, kk), p + 1)
            },
    ensures
        forall|p: int|
            0 <= p < n && p % (2 * h) == 2 * h - 1 ==> fits(#[trigger] down_step_spec(data, h, p)),
        forall|p: int|
            0 <= p < n ==> #[trigger] down_step_spec(data, h, p) == if (p + 1) % h == 0 {
                range_sum(padded(s, n), 0, p + 1 - h)
            } else {
                range_sum(padded(s, n), p + 1 - up_width(p, kk), p + 1)
            },
{
    let pd = padded(s, n);
    lemma_two_pow_pos((lvl - 1) as nat);
    lemma_width_divides(n, kk, lvl);
    assert forall|p: int| 0 <= p < n implies #[trigger] down_step_spec(data, h, p) == (if (p + 1)
        % h == 0 {
        range_sum(pd, 0, p + 1 - h)
    } else {
        range_sum(pd, p + 1 - up_width(p, kk), p + 1)
    }) && (p % (2 * h) == 2 * h - 1 ==> fits(down_step_spec(data, h, p))) by {
        lemma_chunk_positions(p, h);
        if p % (2 * h) == 2 * h - 1 {
            let q = p - h;
            lemma_chunk_positions(q, h);
            assert(data[q] == range_sum(pd, q + 1 - up_width(q, kk), q + 1));
            lemma_up_width_exact(q, (lvl - 1) as nat, kk);
            lemma_range_sum_split(pd, 0, p + 1 - 2 * h, p + 1 - h);
            lemma_prefix_fits(s, n, p + 1 - h);
        } else if p % (2 * h) == h - 1 {
            lemma_left_end_inside(p, h, n);
            lemma_chunk_positions(p + h, h);
            assert(data[p + h] == range_sum(pd, 0, p + h + 1 - 2 * h));
        }
    }
}

/// The exclusive prefix sums of `input` by Blelloch's work-efficient scan:
/// pad to a power of two with zeros, sum up a tree of aligned blocks, clear
/// the root, and push the sums back down.
pub fn blelloch_exclusive(input: &[i64]) -> (r: Vec<i64>)
    requires
        input@.len() <= usize::MAX / 2,
        bl_fits(input@),
    ensures
        r@.len() == input@.len(),
        forall|i: int| 0 <= i < input@.len() ==> r@[i] == #[trigger] exclusive_scan(input@)[i],
{
    let len = input.len();
    if len == 0 {
        return Vec::new();
    }
    if len == 1 {
        let r = vec![0i64];
        assert(range_sum(input@, 0, 0) == 0);
        return r;
    }
    let ghost s = input@;
    let mut n: usize = 1;
    let ghost mut kk: nat = 0;
    while n < len
        invariant
            2 <= len <= usize::MAX / 2,
            n == two_pow(kk),
            1 <= n < 2 * len,
        decreases 2 * len - n,
    {
        n = n * 2;
        proof {
            kk = kk + 1;
        }
    }
    let ghost pd = padded(s, n as int);
    let mut data: Vec<i64> = Vec::with_capacity(n);
    let mut i: usize = 0;
    while i < n
        invariant
            len == s.len(),
            len <= n,
            i <= n,
            data@ == pd.take(i as int),
            pd == padded(s, n as int),
            s == input@,
        decreases n - i,
    {
        if i < len {
            data.push(input[i]);
        } else {
            data.push(0);
        }
        i = i + 1;
        assert(data@ =~= pd.take(i as int));
    }
    assert(data@ =~= pd);
    let mut half: usize = 1;
    let ghost mut lvl: nat = 0;
    proof {
        assert forall|p: int| 0 <= p < n implies data@[p] == #[trigger] range_sum(
            pd,
            p + 1 - up_width(p, lvl),
            p + 1,
        ) by {
            assert(range_sum(pd, p, p + 1) == range_sum(pd, p, p) + pd[p]);
        }
    }
    while half < n
        invariant
            len == s.len(),
            2 <= len <= n,
            n == two_pow(kk),
            half == two_pow(lvl),
            1 <= half <= n,
            lvl <= kk,
            data@.len() == n,
            pd == padded(s, n as int),
            bl_fits(s),
            forall|p: int|
                0 <= p < n ==> data@[p] == #[trigger] range_sum(
                    pd,
                    p + 1 - up_width(p, lvl),
                    p + 1,
                ),
        decreases n - half,
    {
        proof {
            if lvl >= kk {
                lemma_two_pow_mono(lvl, kk);
            }
            assert(two_pow(lvl + 1) == 2 * half);
            lemma_two_pow_mono(kk, lvl + 1);
            lemma_width_divides(n as int, kk, lvl + 1);
            lemma_up_round(s, data@, lvl, half as int, n as int);
        }
        let ghost prev = data@;
        let stride = half * 2;
        par_up_sweep(&mut data, half, stride);
        half = stride;
        proof {
            lvl = lvl + 1;
            lemma_two_pow_pos(lvl);
            assert forall|p: int| 0 <= p < n implies data@[p] == #[trigger] range_sum(
                pd,
                p + 1 - up_width(p, lvl),
                p + 1,
            ) by {
                assert(data@[p] == up_step_spec(prev, (half / 2) as int, p));
            }
        }
    }
    proof {
        if lvl < kk {
            lemma_two_pow_mono(kk, lvl + 1);
        }
        assert(lvl == kk);
    }
    let ghost up = data@;
    data.set(n - 1, 0);
    let mut width: usize = n;
    proof {
        lemma_two_pow_pos(kk);
        assert forall|p: int| 0 <= p < n implies #[trigger] data@[p] == if (p + 1) % (width as int)
            == 0 {
            range_sum(pd, 0, p + 1 - width)
        } else {
            range_sum(pd, p + 1 - up_width(p, kk), p + 1)
        } by {
            if p + 1 < n {
                vstd::arithmetic::div_mod::lemma_small_mod((p + 1) as nat, n as nat);
            } else {
                vstd::arithmetic::div_mod::lemma_mod_self_0(n as int);
            }
        }
    }
    let ghost mut wl: nat = kk;
    while width > 1
        invariant
            len == s.len(),
            2 <= len <= n,
            n == two_pow(kk),
            width == two_pow(wl),
            width >= 1,
            wl <= kk,
            data@.len() == n,
            pd == padded(s, n as int),
            bl_fits(s),
            forall|p: int|
                0 <= p < n ==> #[trigger] data@[p] == if (p + 1) % (width as int) == 0 {
                    range_sum(pd, 0, p + 1 - width)
                } else {
                    range_sum(pd, p + 1 - up_width(p, kk), p + 1)
                },
        decreases width,
    {
        let half = width / 2;
        proof {
            assert(wl >= 1);
            assert(two_pow(wl) == 2 * two_pow((wl - 1) as nat));
            lemma_two_pow_pos((wl - 1) as nat);
            lemma_width_divides(n as int, kk, wl);
            lemma_down_round(s, data@, wl, half as int, n as int, kk);
        }
        let ghost prev = data@;
        assert(width == 2 * half);
        par_down_sweep(&mut data, half, width);
        width = half;
        proof {
            wl = (wl - 1) as nat;
            assert forall|p: int| 0 <= p < n implies #[trigger] data@[p] == if (p + 1) % (
            width as int) == 0 {
                range_sum(pd, 0, p + 1 - width)
            } else {
                range_sum(pd, p + 1 - up_width(p, kk), p + 1)
            } by {
                assert(data@[p] == down_step_spec(prev, half as int, p));
            }
        }
    }
    proof {
        assert(width == 1);
        assert forall|p: int| 0 <= p < n implies data@[p] == range_sum(pd, 0, p) by {
            vstd::arithmetic::div_mod::lemma_mod_self_0(1);
            assert((p + 1) % 1 == 0);
        }
    }
    data.truncate(len);
    proof {
        assert forall|i: int| 0 <= i < len implies data@[i] == #[trigger] exclusive_scan(s)[i] by {
            lemma_padded_sum(s, n as int, 0, i);
        }
    }
    data
}

/// The two scans agree: adding each input element to the exclusive scan
/// gives the inclusive scan.
pub proof fn lemma_scans_agree(s: Seq<i64>, i: int)
    requires
        0 <= i < s.len(),
    ensures
        exclusive_scan(s)[i] + s[i] == inclusive_scan(s)[i],
{
}

} // verus!
