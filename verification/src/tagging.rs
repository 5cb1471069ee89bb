//! Packing a node address together with an ABA-version tag into one word.
//!
//! Two layouts are used by the lock-free structures: a 3-bit tag in the low
//! bits of an 8-byte-aligned address, and a 16-bit tag in the bits above bit 48.
use vstd::prelude::*;

verus! {

/// Number of low bits that hold the tag in the low-bit layout.
pub const TAG_BITS: usize = 3;

/// Mask selecting the tag bits of the low-bit layout.
pub const TAG_MASK: usize = 7;

/// Mask selecting the address bits of the low-bit layout.
pub const PTR_MASK: usize = !7usize;

/// Bit position at which the high tag starts in the high-bit layout.
pub const TAG_SHIFT: u64 = 48;

/// Mask selecting the low 48 address bits of the high-bit layout.
pub const ADDR_MASK: u64 = 0xffff_ffff_ffff;

/// Low-bit layout: keeps the address bits of `ptr` and the low three bits of `tag`.
pub fn pack(ptr: usize, tag: usize) -> (r: usize)
    ensures
        r == (ptr & PTR_MASK) | (tag & TAG_MASK),
{
    (ptr & PTR_MASK) | (tag & TAG_MASK)
}

/// Low-bit layout: splits a word into its address part and its tag part.
pub fn unpack(val: usize) -> (r: (usize, usize))
    ensures
        r.0 == val & PTR_MASK,
        r.1 == val & TAG_MASK,
        r.1 < 8,
        r.0 % 8 == 0,
{
    let ptr = val & PTR_MASK;
    let tag = val & TAG_MASK;
    assert(val & TAG_MASK < 8 && (val & PTR_MASK) % 8 == 0) by (bit_vector);
    (ptr, tag)
}

/// High-bit layout: the address in the low bits, the tag shifted above bit 48.
pub fn pack_ptr_tag(ptr: u64, tag: u64) -> (r: u64)
    ensures
        r == ptr | (tag << 48u64),
{
    ptr | (tag << TAG_SHIFT)
}

/// High-bit layout: the low 48 bits of a packed word.
pub fn unpack_ptr(packed: u64) -> (r: u64)
    ensures
        r == packed & ADDR_MASK,
        r < 0x1_0000_0000_0000,
{
    assert(packed & 0xffff_ffff_ffffu64 < 0x1_0000_0000_0000u64) by (bit_vector);
    packed & ADDR_MASK
}

/// High-bit layout: the bits of a packed word above bit 48.
pub fn unpack_tag(packed: u64) -> (r: u64)
    ensures
        r == packed >> 48u64,
        r < 0x1_0000,
{
    assert(packed >> 48u64 < 0x1_0000u64) by (bit_vector);
    packed >> TAG_SHIFT
}

/// An 8-byte-aligned address and a tag below 8 come back unchanged from
/// `unpack` after `pack`.
pub proof fn lemma_pack_unpack_roundtrip(ptr: usize, tag: usize)
    requires
        ptr % 8 == 0,
        tag < 8,
    ensures
        ((ptr & PTR_MASK) | (tag & TAG_MASK)) & PTR_MASK == ptr,
        ((ptr & PTR_MASK) | (tag & TAG_MASK)) & TAG_MASK == tag,
{
    assert(ptr % 8 == 0 && tag < 8 ==> ((ptr & !7usize) | (tag & 7usize))
        & !7usize == ptr) by (bit_vector);
    assert(ptr % 8 == 0 && tag < 8 ==> ((ptr & !7usize) | (tag & 7usize))
        & 7usize == tag) by (bit_vector);
}

/// Packing a tag into the low bits changes only the tag: the address part of
/// `pack(p, t)` is the address part of `p`, whatever the tag.
pub proof fn lemma_pack_keeps_address(ptr: usize, tag1: usize, tag2: usize)
    ensures
        ((ptr & PTR_MASK) | (tag1 & TAG_MASK)) & PTR_MASK
            == ((ptr & PTR_MASK) | (tag2 & TAG_MASK)) & PTR_MASK,
{
    assert(((ptr & !7usize) | (tag1 & 7usize)) & !7usize
        == ((ptr & !7usize) | (tag2 & 7usize)) & !7usize)
        by (bit_vector);
}

/// An address below 2^48 and a tag below 2^16 come back unchanged from
/// `unpack_ptr` and `unpack_tag` after `pack_ptr_tag`.
pub proof fn lemma_pack_ptr_tag_roundtrip(ptr: u64, tag: u64)
    requires
        ptr < 0x1_0000_0000_0000,
        tag < 0x1_0000,
    ensures
        (ptr | (tag << 48u64)) & ADDR_MASK == ptr,
        (ptr | (tag << 48u64)) >> 48u64 == tag,
{
    assert(ptr < 0x1_0000_0000_0000u64 && tag < 0x1_0000u64 ==> (ptr | (tag << 48u64))
        & 0xffff_ffff_ffffu64 == ptr) by (bit_vector);
    assert(ptr < 0x1_0000_0000_0000u64 && tag < 0x1_0000u64 ==> (ptr | (tag << 48u64))
        >> 48u64 == tag) by (bit_vector);
}

/// Two packed words with the same address and different tags differ: a
/// compare-and-swap on the packed word tells the versions apart.
pub proof fn lemma_tags_distinguish(ptr: u64, tag1: u64, tag2: u64)
    requires
        ptr < 0x1_0000_0000_0000,
        tag1 < 0x1_0000,
        tag2 < 0x1_0000,
        tag1 != tag2,
    ensures
        (ptr | (tag1 << 48u64)) != (ptr | (tag2 << 48u64)),
{
    lemma_pack_ptr_tag_roundtrip(ptr, tag1);
    lemma_pack_ptr_tag_roundtrip(ptr, tag2);
}

} // verus!
