//! The codec of the compact GSW demonstration profile, which works over
//! the tiny ciphertext modulus `Q = 64` instead of a machine word: a 4-bit
//! message sits in the top bits of a 6-bit value.

use vstd::prelude::*;

verus! {

/// Plaintext modulus of the compact profile.
const P: u8 = 16;

/// Ciphertext modulus of the compact profile.
const Q: u8 = 64;

/// Encodes a message as a multiple of `Q / P`.
pub fn encode(msg: u8) -> (r: u8)
    requires
        msg < 16,
    ensures
        r == msg * 4,
        r < 64,
{
    msg * (Q / P)
}

/// Decodes by dropping the low bits: the inverse of `encode`, tolerant of
/// small noise.
pub fn decode(mu: u8) -> (r: u8)
    requires
        mu < 64,
    ensures
        r == mu / 4,
{
    assert((mu as u16 * 16) / 64 < 16 && (mu as u16 * 16) / 64 == mu as u16 / 4) by (bit_vector)
        requires
            mu < 64,
    ;
    ((mu as u16 * P as u16) / Q as u16) as u8
}

/// Round trip of the compact codec.
pub proof fn lemma_compact_codec_round_trip(msg: u8)
    requires
        msg < 16,
    ensures
        (4 * msg) / 4 == msg,
{
}

} // verus!
