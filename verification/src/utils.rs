//! Encoding and decoding of 4-bit messages in the top bits of a `u32` word,
//! and the rounding step shared by the key-switching gadget decomposition.

use vstd::prelude::*;

verus! {

/// `encode` places the message in the top `log2(P) = 4` bits of the word.
pub open spec fn encode_spec(msg: u8) -> u32 {
    (msg as u32) << 28
}

/// `decode` rounds to the nearest multiple of `2^28` (ties upward) and
/// returns the top 4 bits.
pub open spec fn decode_spec(mu: u32) -> u8 {
    (((((mu >> 27) + 1) as u32) >> 1) % 16) as u8
}

pub open spec fn decode_bootstrapped_spec(mu: u32) -> u8 {
    if mu >> 31 == 1 {
        decode_spec(!mu) % 8
    } else {
        decode_spec(mu) % 8
    }
}

/// Rounds a word to its top 28 bits, half upward: the result is the nearest
/// integer to `val / 16`, with ties rounded away from zero.
pub open spec fn round_value_spec(val: u32) -> u32 {
    (((val >> 3) + ((val >> 3) & 1)) as u32) >> 1
}

pub fn encode(msg: u8) -> (r: u32)
    ensures
        r == encode_spec(msg),
{
    (msg as u32) << 28
}

pub fn decode(mu: u32) -> (r: u8)
    ensures
        r == decode_spec(mu),
{
    assert(mu >> 27 < 32) by (bit_vector);
    ((((mu >> 27) + 1) >> 1) % 16) as u8
}

pub fn decode_bootstrapped(mu: u32) -> (r: u8)
    ensures
        r == decode_bootstrapped_spec(mu),
{
    if (mu >> 31) == 1 {
        decode(!mu) % 8
    } else {
        decode(mu) % 8
    }
}

pub fn round_value(val: u32) -> (r: u32)
    ensures
        r == round_value_spec(val),
{
    assert((val >> 3) + ((val >> 3) & 1) < 0x40000000) by (bit_vector);
    let mut rounded_val = val >> 3;
    rounded_val += rounded_val & 1;
    rounded_val >>= 1;
    rounded_val
}

/// The rounded value is within half a gadget step of the word it rounds:
/// scaled back up by `2^4`, it differs from `val` by at most `2^3`.
pub proof fn lemma_round_value_close(val: u32)
    ensures
        16 * round_value_spec(val) >= val - 8,
        16 * round_value_spec(val) <= val + 8,
        round_value_spec(val) <= 0x10000000,
{
    assert(16 * ((((val >> 3) + ((val >> 3) & 1)) as u32) >> 1) >= val - 8
        && 16 * ((((val >> 3) + ((val >> 3) & 1)) as u32) >> 1) <= val + 8
        && ((((val >> 3) + ((val >> 3) & 1)) as u32) >> 1) <= 0x10000000) by (bit_vector);
}

/// A message below 16 decodes to itself after encoding, even when the
/// encoded word is perturbed by any noise of magnitude at most `2^26`.
pub proof fn lemma_decode_noisy(msg: u8, e: int)
    requires
        msg < 16,
        -0x4000000 <= e <= 0x4000000,
    ensures
        decode_spec(((encode_spec(msg) + e) % 0x100000000) as u32) == msg,
{
    let enc = encode_spec(msg);
    assert((msg as u32) << 28 <= 0xF0000000) by (bit_vector)
        requires
            msg < 16,
    ;
    let mu = ((enc + e) % 0x100000000) as u32;
    if e >= 0 {
        let eu = e as u32;
        assert(enc + eu < 0x100000000);
        vstd::arithmetic::div_mod::lemma_small_mod((enc + eu) as nat, 0x100000000);
        assert(((((mu >> 27) + 1) as u32) >> 1) % 16 == msg) by (bit_vector)
            requires
                msg < 16 && eu <= 0x4000000 && mu == ((msg as u32) << 28) + eu,
        ;
    } else {
        let eu = (-e) as u32;
        if enc >= eu {
            vstd::arithmetic::div_mod::lemma_small_mod((enc - eu) as nat, 0x100000000);
            assert(((((mu >> 27) + 1) as u32) >> 1) % 16 == msg) by (bit_vector)
                requires
                    msg < 16 && 1 <= eu <= 0x4000000 && (msg as u32) << 28 >= eu && mu == ((msg as u32) << 28) - eu,
            ;
        } else {
            assert(msg == 0 && (msg as u32) << 28 == 0) by (bit_vector)
                requires
                    msg < 16 && ((msg as u32) << 28) < 0x4000000,
            ;
            assert((0 - eu) % 0x100000000 == 0x100000000 - eu) by {
                vstd::arithmetic::div_mod::lemma_mod_sub_multiples_vanish(0 - eu, 0x100000000);
                vstd::arithmetic::div_mod::lemma_small_mod((0x100000000 - eu) as nat, 0x100000000);
            }
            assert(((((mu >> 27) + 1) as u32) >> 1) % 16 == 0) by (bit_vector)
                requires
                    1 <= eu <= 0x4000000 && mu == 0x100000000 - eu,
            ;
        }
    }
}

/// The sum of two encoded messages, under bounded noise, decodes to the
/// sum of the messages modulo 16: the encodings of the message space add
/// homomorphically because `16 * 2^28` vanishes modulo `2^32`.
pub proof fn lemma_sum_decodes(m1: u8, m2: u8, e: int)
    requires
        m1 < 16,
        m2 < 16,
        -0x4000000 <= e <= 0x4000000,
    ensures
        decode_spec(
            ((encode_spec(m1) + encode_spec(m2) + e) % 0x100000000) as u32,
        ) as int == (m1 + m2) % 16,
{
    let m = ((m1 + m2) % 16) as u8;
    assert(((m1 as u32) << 28) + ((m2 as u32) << 28) == ((m as u32) << 28) || ((m1 as u32) << 28)
        + ((m2 as u32) << 28) == ((m as u32) << 28) + 0x100000000) by (bit_vector)
        requires
            m1 < 16 && m2 < 16 && m == (m1 + m2) % 16,
    ;
    if encode_spec(m1) + encode_spec(m2) == encode_spec(m) {
    } else {
        vstd::arithmetic::div_mod::lemma_mod_add_multiples_vanish(
            encode_spec(m) + e,
            0x100000000,
        );
    }
    lemma_decode_noisy(m, e);
}

/// The difference of two encoded messages, under bounded noise, decodes to
/// the difference of the messages modulo 16.
pub proof fn lemma_diff_decodes(m1: u8, m2: u8, e: int)
    requires
        m1 < 16,
        m2 < 16,
        -0x4000000 <= e <= 0x4000000,
    ensures
        decode_spec(
            ((encode_spec(m1) - encode_spec(m2) + e) % 0x100000000) as u32,
        ) as int == (m1 - m2) % 16,
{
    let m = ((m1 + 16 - m2) % 16) as u8;
    assert(((m1 as u32) << 28) - ((m2 as u32) << 28) == ((m as u32) << 28) || ((m1 as u32) << 28)
        - ((m2 as u32) << 28) == ((m as u32) << 28) - 0x100000000) by (bit_vector)
        requires
            m1 < 16 && m2 < 16 && m == (m1 + 16 - m2) % 16,
    ;
    vstd::arithmetic::div_mod::lemma_mod_add_multiples_vanish(m1 - m2, 16);
    if encode_spec(m1) - encode_spec(m2) == encode_spec(m) {
    } else {
        vstd::arithmetic::div_mod::lemma_mod_sub_multiples_vanish(
            encode_spec(m) + e,
            0x100000000,
        );
    }
    lemma_decode_noisy(m, e);
}

/// Round trip of the codec: decoding an encoded message returns it.
pub proof fn lemma_codec_round_trip(msg: u8)
    requires
        msg < 16,
    ensures
        decode_spec(encode_spec(msg)) == msg,
{
    lemma_decode_noisy(msg, 0);
    vstd::arithmetic::div_mod::lemma_small_mod(encode_spec(msg) as nat, 0x100000000);
}

} // verus!
