//! Digests and their text form.

use ripemd::{Digest, Ripemd256};
use vstd::prelude::*;

use crate::event::EventId;

verus! {

/// The length below which the digest function can count the bits of its input.
pub const DIGEST_LIMIT: u64 = 0x2000_0000_0000_0000;

/// The RIPEMD-256 digest of `data`.
pub uninterp spec fn ripemd256(data: Seq<u8>) -> [u8; 32];

/// Calls `ripemd::Ripemd256`: a new hasher is fed `data` once and finished. What comes out
/// depends on the bytes alone and has 32 bytes. The hasher counts bits in 64 bits, so longer
/// input is left out. Nothing is claimed of which digest belongs to which bytes, nor that
/// different bytes have different digests.
#[verifier::external_body]
pub(crate) fn ripemd256_digest(data: &[u8]) -> (r: EventId)
    requires
        data@.len() < DIGEST_LIMIT,
    ensures
        r == ripemd256(data@),
{
    let mut hasher = Ripemd256::new();
    hasher.update(data);
    hasher.finalize().into()
}

/// The lower-case hexadecimal digit for `n`.
pub open spec fn hex_digit(n: int) -> char {
    if n < 10 {
        ('0' as int + n) as char
    } else {
        ('a' as int + (n - 10)) as char
    }
}

/// `data` in hexadecimal, two digits for each byte, the high one first.
pub open spec fn hex_text(data: Seq<u8>) -> Seq<char> {
    Seq::new(
        2 * data.len(),
        |i: int|
            if i % 2 == 0 {
                hex_digit(data[i / 2] as int / 16)
            } else {
                hex_digit(data[i / 2] as int % 16)
            },
    )
}

/// Calls `hex::encode`, which writes each byte as two lower-case hexadecimal digits, the high one
/// first.
#[verifier::external_body]
pub(crate) fn hex_encode(id: &EventId) -> (r: String)
    ensures
        r@ == hex_text(id@),
{
    hex::encode(id)
}

} // verus!
