//! Arithmetic facts about power-of-two ring buffers: capacities computed by
//! shifting, slots computed by masking, and distinct slots inside a window.
use vstd::prelude::*;
use vstd::arithmetic::power2::{pow2, lemma2_to64, lemma_pow2_strictly_increases, lemma_pow2_pos};
use vstd::bits::{lemma_usize_shl_is_mul, lemma_usize_low_bits_mask_is_mod, lemma_usize_pow2_no_overflow, low_bits_mask};

verus! {

/// A capacity `1 << k` with `k <= 30` is the power of two `2^k`, in
/// `isize` and in `usize` alike.
pub proof fn lemma_cap(k: usize)
    requires
        k <= 30,
    ensures
        (1isize << k) as int == pow2(k as nat),
        (1usize << k) as int == pow2(k as nat),
        0 < pow2(k as nat) <= 0x4000_0000,
{
    lemma_usize_pow2_no_overflow(k as nat);
    lemma_usize_shl_is_mul(1, k);
    assert((1isize << k) as usize == 1usize << k && (1isize << k) > 0) by (bit_vector)
        requires
            k <= 30,
    ;
    lemma2_to64();
    if k < 30 {
        lemma_pow2_strictly_increases(k as nat, 30);
    }
    lemma_pow2_pos(k as nat);
} // verus!

/// Masking a non-negative index with `m = 2^k - 1` gives its remainder
/// modulo `2^k`, a slot inside the ring.
pub proof fn lemma_mask_index(i: isize, k: usize, m: isize)
    requires
        i >= 0,
        k <= 30,
        m == pow2(k as nat) - 1,
    ensures
        ((i & m) as usize) as int == (i as int) % (pow2(k as nat) as int),
        0 <= ((i & m) as usize) < pow2(k as nat),
{
    lemma_cap(k);
    assert(((i & m) as usize) == (i as usize) & (m as usize)) by (bit_vector)
        requires
            i >= 0,
            m >= 0,
    ;
    lemma_usize_low_bits_mask_is_mod(i as usize, k as nat);
    assert(low_bits_mask(k as nat) == pow2(k as nat) - 1);
    vstd::arithmetic::div_mod::lemma_mod_bound(i as int, pow2(k as nat) as int);
}

/// Two positions inside a window no wider than `m` that share a remainder
/// modulo `m` are the same position.
pub proof fn lemma_mod_injective(a: int, b: int, lo: int, m: int)
    requires
        m > 0,
        lo <= a < lo + m,
        lo <= b < lo + m,
        a % m == b % m,
    ensures
        a == b,
{
    vstd::arithmetic::div_mod::lemma_fundamental_div_mod(a, m);
    vstd::arithmetic::div_mod::lemma_fundamental_div_mod(b, m);
    let qa = a / m;
    let qb = b / m;
    assert(a - b == m * (qa - qb)) by (nonlinear_arith)
        requires
            a == m * qa + a % m,
            b == m * qb + b % m,
            a % m == b % m,
    ;
    if qa != qb {
        assert(m * (qa - qb) >= m || m * (qa - qb) <= -m) by (nonlinear_arith)
            requires
                m > 0,
                qa != qb,
        ;
    }
}

} // verus!
