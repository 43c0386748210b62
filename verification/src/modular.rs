//! Arithmetic in `Z_q` for the ciphertext modulus `q = 2^32`: wrapping
//! operations on `u32` words, and the congruence lemmas the contracts build
//! on.

use vstd::prelude::*;

verus! {

/// The image of an unbounded integer in `Z_{2^32}`.
pub open spec fn w32(x: int) -> u32 {
    (x % 0x100000000) as u32
}

pub open spec fn wadd(a: u32, b: u32) -> u32 {
    w32(a + b)
}

pub open spec fn wsub(a: u32, b: u32) -> u32 {
    w32(a - b)
}

pub open spec fn wmul(a: u32, b: u32) -> u32 {
    w32(a * b)
}

/// A word and the integer it reduces are congruent modulo `2^32`.
pub broadcast proof fn lemma_w32_mod(x: int)
    ensures
        (#[trigger] w32(x)) as int % 0x100000000 == x % 0x100000000,
{
    vstd::arithmetic::div_mod::lemma_small_mod((x % 0x100000000) as nat, 0x100000000);
}

/// Congruent integers reduce to the same word.
pub proof fn lemma_w32_eq(x: int, y: int)
    requires
        x % 0x100000000 == y % 0x100000000,
    ensures
        w32(x) == w32(y),
{
}

/// The executable wrapping addition computes the reduction of the sum.
pub broadcast proof fn lemma_wrapping_add_is_wadd(a: u32, b: u32)
    ensures
        #[trigger] vstd::wrapping::u32_specs::wrapping_add(a, b) == wadd(a, b),
{
    if a + b > u32::MAX {
        vstd::arithmetic::div_mod::lemma_mod_sub_multiples_vanish(a + b, 0x100000000);
        vstd::arithmetic::div_mod::lemma_small_mod((a + b - 0x100000000) as nat, 0x100000000);
    } else {
        vstd::arithmetic::div_mod::lemma_small_mod((a + b) as nat, 0x100000000);
    }
}

/// The executable wrapping subtraction computes the reduction of the
/// difference.
pub broadcast proof fn lemma_wrapping_sub_is_wsub(a: u32, b: u32)
    ensures
        #[trigger] vstd::wrapping::u32_specs::wrapping_sub(a, b) == wsub(a, b),
{
    if a - b < 0 {
        vstd::arithmetic::div_mod::lemma_mod_add_multiples_vanish(a - b, 0x100000000);
        vstd::arithmetic::div_mod::lemma_small_mod((a - b + 0x100000000) as nat, 0x100000000);
    } else {
        vstd::arithmetic::div_mod::lemma_small_mod((a - b) as nat, 0x100000000);
    }
}

/// The executable wrapping multiplication computes the reduction of the
/// product.
pub broadcast proof fn lemma_wrapping_mul_is_wmul(a: u32, b: u32)
    ensures
        #[trigger] vstd::wrapping::u32_specs::wrapping_mul(a, b) == wmul(a, b),
{
    vstd::arithmetic::mul::lemma_mul_nonnegative(a as int, b as int);
}

/// A word is already reduced.
pub proof fn lemma_w32_small(a: u32)
    ensures
        w32(a as int) == a,
{
    vstd::arithmetic::div_mod::lemma_small_mod(a as nat, 0x100000000);
}

/// The executable wrapping addition of a signed word computes the reduction
/// of the sum.
pub broadcast proof fn lemma_wrapping_add_signed_is_w32(a: u32, b: i32)
    ensures
        #[trigger] vstd::wrapping::u32_specs::wrapping_add_signed(a, b) == w32(a + b),
{
    if a + b > u32::MAX {
        vstd::arithmetic::div_mod::lemma_mod_sub_multiples_vanish(a + b, 0x100000000);
        vstd::arithmetic::div_mod::lemma_small_mod((a + b - 0x100000000) as nat, 0x100000000);
    } else if a + b < 0 {
        vstd::arithmetic::div_mod::lemma_mod_add_multiples_vanish(a + b, 0x100000000);
        vstd::arithmetic::div_mod::lemma_small_mod((a + b + 0x100000000) as nat, 0x100000000);
    } else {
        vstd::arithmetic::div_mod::lemma_small_mod((a + b) as nat, 0x100000000);
    }
}

/// Replacing one addend by a congruent integer leaves the reduced sum
/// unchanged.
pub proof fn lemma_w32_congruent_add(a: int, x: int, y: int)
    requires
        a % 0x100000000 == x % 0x100000000,
    ensures
        w32(a + y) == w32(x + y),
{
    vstd::arithmetic::div_mod::lemma_add_mod_noop(a, y, 0x100000000);
    vstd::arithmetic::div_mod::lemma_add_mod_noop(x, y, 0x100000000);
}

/// Replacing the minuend by a congruent integer leaves the reduced
/// difference unchanged.
pub proof fn lemma_w32_congruent_sub(a: int, x: int, y: int)
    requires
        a % 0x100000000 == x % 0x100000000,
    ensures
        w32(a - y) == w32(x - y),
{
    vstd::arithmetic::div_mod::lemma_sub_mod_noop(a, y, 0x100000000);
    vstd::arithmetic::div_mod::lemma_sub_mod_noop(x, y, 0x100000000);
}

/// Replacing the subtrahend by a congruent integer leaves the reduced
/// difference unchanged.
pub proof fn lemma_w32_congruent_sub_right(a: int, x: int, y: int)
    requires
        a % 0x100000000 == x % 0x100000000,
    ensures
        w32(y - a) == w32(y - x),
{
    vstd::arithmetic::div_mod::lemma_sub_mod_noop(y, a, 0x100000000);
    vstd::arithmetic::div_mod::lemma_sub_mod_noop(y, x, 0x100000000);
}

/// Reduction commutes with addition.
pub proof fn lemma_w32_add(x: int, y: int)
    ensures
        wadd(w32(x), w32(y)) == w32(x + y),
{
    broadcast use lemma_w32_mod;

    vstd::arithmetic::div_mod::lemma_add_mod_noop(x, y, 0x100000000);
}

/// Reduction commutes with subtraction.
pub proof fn lemma_w32_sub(x: int, y: int)
    ensures
        wsub(w32(x), w32(y)) == w32(x - y),
{
    broadcast use lemma_w32_mod;

    vstd::arithmetic::div_mod::lemma_sub_mod_noop(x, y, 0x100000000);
}

/// Reduction commutes with multiplication.
pub proof fn lemma_w32_mul(x: int, y: int)
    ensures
        wmul(w32(x), w32(y)) == w32(x * y),
{
    broadcast use lemma_w32_mod;

    vstd::arithmetic::div_mod::lemma_mul_mod_noop_general(x, y, 0x100000000);
}

} // verus!
