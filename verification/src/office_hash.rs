//! The legacy rotate-and-xor hash used to score candidate passwords.
//!
//! The hash walks the bytes of the input from last to first; for each byte it
//! xors the byte into a 16-bit accumulator and then rotates the low 15 bits of
//! the accumulator left by one. The final value is the accumulator xored with
//! the byte length of the input and with a fixed constant.

use vstd::prelude::*;
use vstd::string::StringSliceAdditionalSpecFns;

verus! {

/// One step of the accumulator update: xor the byte in, then rotate the low
/// 15 bits left by one (bit 14 wraps around to bit 0).
pub open spec fn office_hash_step(h: u16, byte: u8) -> u16 {
    let x = h ^ (byte as u16);
    (x << 1) | ((x & 0x4000) >> 14)
}

/// The accumulator after feeding `bytes` from last to first into
/// [`office_hash_step`], starting from 0. `bytes[0]` is processed last.
pub open spec fn office_hash_acc(bytes: Seq<u8>) -> u16
    decreases bytes.len(),
{
    if bytes.len() == 0 {
        0u16
    } else {
        office_hash_step(office_hash_acc(bytes.skip(1)), bytes[0])
    }
}

/// The full hash of a byte string: the accumulator over all bytes, xored with
/// the (truncated) byte length and the fixed constant 0xCE4B.
pub open spec fn spec_office_hash(bytes: Seq<u8>) -> u16 {
    office_hash_acc(bytes) ^ (bytes.len() as u16) ^ 0xCE4B
}

/// Calculate the hash based on the algorithm used by MS Office.
/// Basically the algorithm just rotates and xors.
pub fn office_hash(content: &str) -> (r: u16)
    ensures
        r == spec_office_hash(content.spec_bytes()),
{
    let bytes: &[u8] = content.as_bytes();
    let n: usize = bytes.len();
    let mut hash: u16 = 0;
    let mut k: usize = n;
    while k > 0
        invariant
            k <= n,
            n == bytes@.len(),
            hash == office_hash_acc(bytes@.skip(k as int)),
        decreases k,
    {
        k = k - 1;
        let byte: u8 = bytes[k];
        hash = hash ^ (byte as u16);
        let bit_14: u16 = (hash & 0x4000) >> 14;
        hash = (hash << 1) | bit_14;
        proof {
            assert(bytes@.skip(k as int).skip(1) =~= bytes@.skip(k + 1));
        }
    }
    proof {
        assert(bytes@.skip(0) =~= bytes@);
    }
    hash ^ (#[verifier::truncate] (n as u16)) ^ 0xCE4B
}

} // verus!
