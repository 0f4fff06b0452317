//! CRC-32 of a payload, computed in one piece or chunk by chunk.
//!
//! The checksum itself is the work of the `crc32fast` crate. This module gives it
//! a name in contracts, `crc32_ieee`, and proves that feeding a payload in chunks
//! yields the checksum of the whole payload.

use crate::common::joined;
use vstd::prelude::*;

verus! {

/// The state of a running checksum, as `crc32fast` keeps it.
#[verifier::external_type_specification]
#[verifier::external_body]
pub struct ExHasher(crc32fast::Hasher);

/// The CRC-32 of `data` (IEEE 802.3 polynomial, initial value and final
/// complement `0xFFFFFFFF`): what `crc32fast::Hasher::finalize` returns once
/// exactly the bytes of `data` have been fed.
pub uninterp spec fn crc32_ieee(data: Seq<u8>) -> u32;

/// The bytes that a hasher has been fed since it was made, in order.
pub uninterp spec fn hasher_input(hasher: crc32fast::Hasher) -> Seq<u8>;

/// Calls `crc32fast::Hasher::new`. Trusted: a new hasher has been fed nothing.
#[verifier::external_body]
fn hasher_new() -> (hasher: crc32fast::Hasher)
    ensures
        hasher_input(hasher) == Seq::<u8>::empty(),
{
    crc32fast::Hasher::new()
}

/// Calls `crc32fast::Hasher::update`. Trusted: the hasher has then been fed the
/// bytes of `chunk` after what it had been fed before. The crate counts the
/// bytes in a `u64`, so the total must fit one.
#[verifier::external_body]
fn hasher_update(hasher: &mut crc32fast::Hasher, chunk: &[u8])
    requires
        hasher_input(*old(hasher)).len() + chunk.len() <= u64::MAX,
    ensures
        hasher_input(*final(hasher)) == hasher_input(*old(hasher)) + chunk@,
{
    hasher.update(chunk)
}

/// Calls `crc32fast::Hasher::finalize`. Trusted: the result is the CRC-32 of all
/// the bytes that the hasher was fed.
#[verifier::external_body]
fn hasher_finalize(hasher: crc32fast::Hasher) -> (checksum: u32)
    ensures
        checksum == crc32_ieee(hasher_input(hasher)),
{
    hasher.finalize()
}

/// A checksum in progress over a payload that arrives in pieces.
pub struct Crc32 {
    hasher: crc32fast::Hasher,
}

impl Crc32 {
    /// The bytes taken in so far.
    pub closed spec fn input(&self) -> Seq<u8> {
        hasher_input(self.hasher)
    }

    /// Starts a checksum over the empty payload.
    pub fn new() -> (crc: Crc32)
        ensures
            crc.input() == Seq::<u8>::empty(),
    {
        Crc32 { hasher: hasher_new() }
    }

    /// Takes in the next piece of the payload.
    pub fn update(&mut self, chunk: &[u8])
        requires
            old(self).input().len() + chunk.len() <= u64::MAX,
        ensures
            final(self).input() == old(self).input() + chunk@,
    {
        hasher_update(&mut self.hasher, chunk);
    }

    /// The CRC-32 of everything taken in.
    pub fn finalize(self) -> (checksum: u32)
        ensures
            checksum == crc32_ieee(self.input()),
    {
        hasher_finalize(self.hasher)
    }
}

/// CRC-32 of `data`.
pub fn crc32(data: &[u8]) -> (checksum: u32)
    ensures
        checksum == crc32_ieee(data@),
{
    let mut crc = Crc32::new();
    crc.update(data);
    assert(Seq::<u8>::empty() + data@ =~= data@);
    crc.finalize()
}

/// CRC-32 of a payload handed over in chunks: the checksum of the chunks laid
/// end to end, as if the payload had been read as a single stream.
pub fn crc32_chunks(chunks: &Vec<Vec<u8>>) -> (checksum: u32)
    requires
        joined(chunks@, chunks@.len() as int).len() <= u64::MAX,
    ensures
        checksum == crc32_ieee(joined(chunks@, chunks@.len() as int)),
{
    let mut crc = Crc32::new();
    let mut i: usize = 0;
    while i < chunks.len()
        invariant
            i <= chunks.len(),
            crc.input() == joined(chunks@, i as int),
            joined(chunks@, chunks@.len() as int).len() <= u64::MAX,
        decreases chunks.len() - i,
    {
        proof {
            crate::common::lemma_joined_grows(chunks@, i + 1, chunks@.len() as int);
        }
        crc.update(chunks[i].as_slice());
        i += 1;
    }
    crc.finalize()
}

} // verus!
