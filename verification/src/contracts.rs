//! Design-by-contract examples: a packet header parser, a balance transfer
//! that keeps money constant, and a monotonic counter.
use vstd::prelude::*;

verus! {

/// Why a packet was refused.
#[derive(Debug, PartialEq, Eq, Structural, Clone, Copy)]
pub enum ParseError {
    TooShort,
    BadMagic,
    BadVersion,
    LengthMismatch,
}

/// What `parse_packet` answers for `data`: the payload after the 4-byte
/// header `'C' 'S' version length`, or the first check that fails.
pub open spec fn packet_result(data: Seq<u8>) -> Result<Seq<u8>, ParseError> {
    if data.len() < 4 {
        Err(ParseError::TooShort)
    } else if data[0] != 67u8 || data[1] != 83u8 {
        Err(ParseError::BadMagic)
    } else if data[2] > 3 {
        Err(ParseError::BadVersion)
    } else if data[3] + 4 != data.len() {
        Err(ParseError::LengthMismatch)
    } else {
        Ok(data.subrange(4, data.len() as int))
    }
}

/// Checks the header of a packet and returns its payload.
pub fn parse_packet(data: &[u8]) -> (r: Result<&[u8], ParseError>)
    ensures
        match (r, packet_result(data@)) {
            (Ok(p), Ok(q)) => p@ == q,
            (Err(e), Err(f)) => e == f,
            _ => false,
        },
{
    if data.len() < 4 {
        return Err(ParseError::TooShort);
    }
    if data[0] != 67u8 || data[1] != 83u8 {
        return Err(ParseError::BadMagic);
    }
    if data[2] > 3 {
        return Err(ParseError::BadVersion);
    }
    let len = data[3] as usize;
    if len + 4 != data.len() {
        return Err(ParseError::LengthMismatch);
    }
    Ok(&data[4..data.len()])
}

/// An accepted packet's payload is exactly as long as its header says.
pub proof fn lemma_payload_length(data: Seq<u8>)
    requires
        packet_result(data) is Ok,
    ensures
        packet_result(data)->Ok_0.len() == data[3],
        data.len() == data[3] + 4,
{
}

/// A packet is accepted exactly when it has a 4-byte header starting with
/// the magic bytes `'C' 'S'`, a version of at most 3 and a length byte equal
/// to the number of bytes after the header; the payload is those bytes.
pub proof fn lemma_accepted_packets(data: Seq<u8>)
    ensures
        (packet_result(data) is Ok) == (data.len() >= 4 && data[0] == 67u8 && data[1] == 83u8
            && data[2] <= 3 && data.len() == data[3] + 4),
        packet_result(data) is Ok ==> packet_result(data)->Ok_0 == data.subrange(
            4,
            data.len() as int,
        ),
{
}

/// A header `'C' 'S' version length` in front of a payload of `length`
/// bytes, with a version of at most 3, parses back to that payload.
pub proof fn lemma_framed_payload_parses(version: u8, payload: Seq<u8>)
    requires
        version <= 3,
        payload.len() <= 255,
    ensures
        packet_result(seq![67u8, 83u8, version, payload.len() as u8] + payload) == Ok::<
            Seq<u8>,
            ParseError,
        >(payload),
{
    let data = seq![67u8, 83u8, version, payload.len() as u8] + payload;
    assert(data.subrange(4, data.len() as int) =~= payload);
}

/// Each refusal names the first check that fails: fewer than 4 bytes is
/// `TooShort`; then a first byte other than `'C'` or a second other than
/// `'S'` is `BadMagic`; then a version above 3 is `BadVersion`; then a length
/// byte that disagrees with the payload is `LengthMismatch`.
pub proof fn lemma_packet_errors(data: Seq<u8>)
    ensures
        data.len() < 4 ==> packet_result(data) == Err::<Seq<u8>, ParseError>(ParseError::TooShort),
        data.len() >= 4 && (data[0] != 67u8 || data[1] != 83u8) ==> packet_result(data) == Err::<
            Seq<u8>,
            ParseError,
        >(ParseError::BadMagic),
        data.len() >= 4 && data[0] == 67u8 && data[1] == 83u8 && data[2] > 3 ==> packet_result(
            data,
        ) == Err::<Seq<u8>, ParseError>(ParseError::BadVersion),
        data.len() >= 4 && data[0] == 67u8 && data[1] == 83u8 && data[2] <= 3 && data.len()
            != data[3] + 4 ==> packet_result(data) == Err::<Seq<u8>, ParseError>(
            ParseError::LengthMismatch,
        ),
{
}

/// Why a transfer was refused.
#[derive(Debug, PartialEq, Eq, Structural, Clone, Copy)]
pub enum TransferError {
    NonPositiveAmount,
    InsufficientFunds,
    InvariantViolation,
}

/// Moves `amount` from the balance `src` to the balance `dst`, refusing a
/// non-positive amount and an amount larger than `src`.
pub fn transfer(src: i64, dst: i64, amount: i64) -> (r: Result<(i64, i64), TransferError>)
    requires
        amount > 0 && src >= amount ==> dst + amount <= i64::MAX && src + dst <= i64::MAX,
    ensures
        amount <= 0 ==> r == Err::<(i64, i64), TransferError>(TransferError::NonPositiveAmount),
        amount > 0 && src < amount ==> r == Err::<(i64, i64), TransferError>(
            TransferError::InsufficientFunds,
        ),
        amount > 0 && src >= amount ==> r == Ok::<(i64, i64), TransferError>(
            ((src - amount) as i64, (dst + amount) as i64),
        ),
{
    if amount <= 0 {
        return Err(TransferError::NonPositiveAmount);
    }
    if src < amount {
        return Err(TransferError::InsufficientFunds);
    }
    let new_src = src - amount;
    let new_dst = dst + amount;
    if new_src < 0 || new_src + new_dst != src + dst {
        return Err(TransferError::InvariantViolation);
    }
    Ok((new_src, new_dst))
}

/// A transfer never reports a broken invariant, and an accepted one keeps the
/// total and leaves the source non-negative.
pub proof fn lemma_transfer_conserves(src: i64, dst: i64, amount: i64)
    requires
        amount > 0,
        src >= amount,
        dst + amount <= i64::MAX,
    ensures
        (src - amount) + (dst + amount) == src + dst,
        src - amount >= 0,
{
}

/// A counter that only goes up.
pub struct LockFreeCounter {
    v: u64,
}

impl LockFreeCounter {
    /// The counter's value.
    pub closed spec fn value(&self) -> u64 {
        self.v
    }

    /// A counter at zero.
    pub fn new() -> (r: Self)
        ensures
            r.value() == 0,
    {
        LockFreeCounter { v: 0 }
    }

    /// Adds one and returns the new value.
    pub fn inc(&mut self) -> (r: u64)
        requires
            old(self).value() < u64::MAX,
        ensures
            r == old(self).value() + 1,
            final(self).value() == r,
    {
        let prev = self.v;
        self.v = prev + 1;
        prev + 1
    }

    /// The current value.
    pub fn get(&self) -> (r: u64)
        ensures
            r == self.value(),
    {
        self.v
    }
}

} // verus!
