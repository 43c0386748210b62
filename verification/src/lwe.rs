//! LWE ciphertexts over `Z_q^n`: encryption, decryption, homomorphic
//! addition and subtraction, modulus switching to `2N`, and key switching
//! through a gadget-decomposed key-switching key.

use crate::modular::{w32, wadd, wmul, wsub};
use crate::utils::round_value_spec;
use crate::{LWE_DIM, N};
use vstd::prelude::*;

verus! {

broadcast use
    crate::modular::lemma_wrapping_add_is_wadd,
    crate::modular::lemma_wrapping_sub_is_wsub,
    crate::modular::lemma_wrapping_mul_is_wmul,
    crate::modular::lemma_wrapping_add_signed_is_w32,
    crate::modular::lemma_w32_mod;

pub type LweSecretKey = Vec<u32>;

pub type KeySwitchingKey = Vec<LweCiphertext>;

pub struct LweCiphertext {
    pub mask: Vec<u32>,
    pub body: u32,
}

/// Whether `sk` is a binary secret key of dimension `n`.
pub open spec fn sk_wf(sk: Seq<u32>, n: nat) -> bool {
    &&& sk.len() == n
    &&& forall|i: int| 0 <= i < sk.len() ==> sk[i] <= 1
}

/// The sum, over the unbounded integers, of the mask entries at the
/// positions where the key bit is set: the dot product `<mask, sk>` for a
/// binary key.
pub open spec fn masked_sum(mask: Seq<u32>, sk: Seq<u32>, n: int) -> int
    decreases n,
{
    if n <= 0 {
        0
    } else {
        masked_sum(mask, sk, n - 1) + if sk[n - 1] == 1 {
            mask[n - 1] as int
        } else {
            0
        }
    }
}

impl LweCiphertext {
    /// The mask always holds exactly `LWE_DIM` words.
    pub open spec fn wf(&self) -> bool {
        self.mask.len() == LWE_DIM
    }

    /// The phase `body - <mask, sk>` of the ciphertext under a key: what
    /// decryption returns, and, for a fresh encryption, the noisy
    /// plaintext `mu + e`.
    pub open spec fn phase(&self, sk: Seq<u32>) -> u32 {
        w32(self.body - masked_sum(self.mask@, sk, LWE_DIM as int))
    }

    /// Encrypts `mu` under `sk`: a uniformly random mask, and the body
    /// `<mask, sk> + mu + noise`. The caller supplies the (rounded
    /// Gaussian) noise sample.
    #[verifier::rlimit(100)]
    pub fn encrypt(mu: u32, sk: &LweSecretKey, noise: i32) -> (r: LweCiphertext)
        requires
            sk_wf(sk@, LWE_DIM as nat),
        ensures
            r.wf(),
            r.phase(sk@) == w32(mu + noise),
    {
        let mu_star = mu.wrapping_add_signed(noise);

        let mut mask: Vec<u32> = Vec::new();
        for i in 0..LWE_DIM
            invariant
                mask.len() == i,
        {
            mask.push(crate::sampling::random_word());
        }

        let mut body = 0u32;
        for i in 0..LWE_DIM
            invariant
                sk_wf(sk@, LWE_DIM as nat),
                mask.len() == LWE_DIM,
                body == w32(masked_sum(mask@, sk@, i as int)),
        {
            if sk[i] == 1 {
                proof {
                    crate::modular::lemma_w32_congruent_add(
                        body as int,
                        masked_sum(mask@, sk@, i as int),
                        mask@[i as int] as int,
                    );
                }
                body = body.wrapping_add(mask[i]);
            }
        }

        let ghost ms = masked_sum(mask@, sk@, LWE_DIM as int);
        proof {
            crate::modular::lemma_w32_congruent_add(body as int, ms, mu_star as int);
            crate::modular::lemma_w32_congruent_add(mu_star as int, mu + noise, ms);
        }
        body = body.wrapping_add(mu_star);

        let r = LweCiphertext { mask, body };
        proof {
            crate::modular::lemma_w32_congruent_sub(r.body as int, ms + mu + noise, ms);
        }
        r
    }

    /// Decryption: the phase `body - <mask, sk>`, the noisy plaintext.
    pub fn decrypt(self, sk: &LweSecretKey) -> (r: u32)
        requires
            self.wf(),
            sk.len() == LWE_DIM,
        ensures
            r == self.phase(sk@),
    {
        let mut body = 0u32;
        for i in 0..sk.len()
            invariant
                self.wf(),
                sk.len() == LWE_DIM,
                body == w32(masked_sum(self.mask@, sk@, i as int)),
        {
            if sk[i] == 1 {
                proof {
                    crate::modular::lemma_w32_congruent_add(
                        body as int,
                        masked_sum(self.mask@, sk@, i as int),
                        self.mask@[i as int] as int,
                    );
                }
                body = body.wrapping_add(self.mask[i]);
            }
        }

        proof {
            crate::modular::lemma_w32_congruent_sub_right(
                body as int,
                masked_sum(self.mask@, sk@, LWE_DIM as int),
                self.body as int,
            );
        }
        self.body.wrapping_sub(body)
    }

    /// Decryption of a modulus-switched ciphertext, with the dot product
    /// reduced modulo `2N`.
    pub fn decrypt_modswitched(self, sk: &LweSecretKey) -> (r: u32)
        requires
            self.wf(),
            sk.len() == LWE_DIM,
            forall|i: int| 0 <= i < LWE_DIM ==> self.mask@[i] <= 2048,
        ensures
            r == (self.body - masked_sum(self.mask@, sk@, LWE_DIM as int)) % 2048,
    {
        let mut dot_prod = 0u32;
        for i in 0..LWE_DIM
            invariant
                self.wf(),
                sk.len() == LWE_DIM,
                forall|t: int| 0 <= t < LWE_DIM ==> self.mask@[t] <= 2048,
                dot_prod == masked_sum(self.mask@, sk@, i as int) % 2048,
        {
            if sk[i] == 1 {
                proof {
                    vstd::arithmetic::div_mod::lemma_add_mod_noop(
                        masked_sum(self.mask@, sk@, i as int),
                        self.mask@[i as int] as int,
                        2048,
                    );
                    vstd::arithmetic::div_mod::lemma_small_mod(
                        (self.mask@[i as int] as int % 2048) as nat,
                        2048,
                    );
                    vstd::arithmetic::div_mod::lemma_mod_twice(self.mask@[i as int] as int, 2048);
                }
                dot_prod = (dot_prod + self.mask[i]) % (2 * (LWE_DIM as u32));
            }
        }

        let r = self.body.wrapping_sub(dot_prod) % (2 * (LWE_DIM as u32));
        proof {
            let ms = masked_sum(self.mask@, sk@, LWE_DIM as int);
            // reducing modulo 2^32 first does not change the value modulo 2048
            vstd::arithmetic::div_mod::lemma_mod_mod(self.body - (ms % 2048), 2048, 2097152);
            vstd::arithmetic::div_mod::lemma_sub_mod_noop_right(
                self.body as int,
                ms % 2048,
                2048,
            );
            vstd::arithmetic::div_mod::lemma_mod_twice(ms, 2048);
            vstd::arithmetic::div_mod::lemma_sub_mod_noop_right(self.body as int, ms, 2048);
        }
        r
    }

    pub fn add(self, rhs: Self) -> (r: Self)
        requires
            self.wf(),
            rhs.wf(),
        ensures
            r.wf(),
            forall|i: int| 0 <= i < LWE_DIM ==> r.mask@[i] == wadd(self.mask@[i], rhs.mask@[i]),
            r.body == wadd(self.body, rhs.body),
    {
        let mut mask: Vec<u32> = Vec::new();
        for i in 0..LWE_DIM
            invariant
                self.wf(),
                rhs.wf(),
                mask.len() == i,
                forall|t: int| 0 <= t < i ==> mask@[t] == wadd(self.mask@[t], rhs.mask@[t]),
        {
            mask.push(self.mask[i].wrapping_add(rhs.mask[i]));
        }

        let body = self.body.wrapping_add(rhs.body);

        LweCiphertext { mask, body }
    }

    pub fn sub(self, rhs: &Self) -> (r: Self)
        requires
            self.wf(),
            rhs.wf(),
        ensures
            r.wf(),
            forall|i: int| 0 <= i < LWE_DIM ==> r.mask@[i] == wsub(self.mask@[i], rhs.mask@[i]),
            r.body == wsub(self.body, rhs.body),
    {
        let mut mask: Vec<u32> = Vec::new();
        for i in 0..LWE_DIM
            invariant
                self.wf(),
                rhs.wf(),
                mask.len() == i,
                forall|t: int| 0 <= t < i ==> mask@[t] == wsub(self.mask@[t], rhs.mask@[t]),
        {
            mask.push(self.mask[i].wrapping_sub(rhs.mask[i]));
        }

        let body = self.body.wrapping_sub(rhs.body);

        LweCiphertext { mask, body }
    }

    /// Scales the mask and the body by a constant, wrapping.
    pub fn multiply_constant_assign(&mut self, constant: u32)
        requires
            old(self).wf(),
        ensures
            final(self).wf(),
            forall|i: int| 0 <= i < LWE_DIM
                ==> final(self).mask@[i] == wmul(old(self).mask@[i], constant),
            final(self).body == wmul(old(self).body, constant),
    {
        for i in 0..LWE_DIM
            invariant
                self.wf(),
                old(self).wf(),
                forall|t: int| 0 <= t < i ==> self.mask@[t] == wmul(old(self).mask@[t], constant),
                forall|t: int| i <= t < LWE_DIM ==> self.mask@[t] == old(self).mask@[t],
                self.body == old(self).body,
        {
            let ghost prev = self.mask@;
            self.mask[i] = self.mask[i].wrapping_mul(constant);
            proof {
                assert(forall|t: int| 0 <= t < LWE_DIM && t != i ==> self.mask@[t] == prev[t]);
            }
        }

        self.body = self.body.wrapping_mul(constant);
    }
}

/// The coefficient-wise rounding of the modulus switch from `q = 2^32`
/// down to `2N = 2^11`: the nearest integer to `x / 2^21`, ties upward.
pub open spec fn msround(x: u32) -> u32 {
    (((x >> 20) + 1) as u32) >> 1
}

fn msround_exec(x: u32) -> (r: u32)
    ensures
        r == msround(x),
        r <= 2048,
{
    assert(x >> 20 < 4096 && (((x >> 20) + 1) as u32) >> 1 <= 2048) by (bit_vector);
    ((x >> 20) + 1) >> 1
}

/// Scaled back up by `2^21`, the rounded word differs from the original by
/// at most `2^20`.
pub proof fn lemma_msround_close(x: u32)
    ensures
        0x200000 * msround(x) >= x - 0x100000,
        0x200000 * msround(x) <= x + 0x100000,
        msround(x) <= 2048,
{
    assert(0x200000 * ((((x >> 20) + 1) as u32) >> 1) >= x - 0x100000
        && 0x200000 * ((((x >> 20) + 1) as u32) >> 1) <= x + 0x100000
        && (((x >> 20) + 1) as u32) >> 1 <= 2048) by (bit_vector);
}

impl LweCiphertext {
    /// Switches the ciphertext modulus from `2^32` to `2N = 2048` by
    /// rounding every word to its top 11 bits.
    pub fn modswitch(&self) -> (r: Self)
        requires
            self.wf(),
        ensures
            r.wf(),
            forall|i: int| 0 <= i < LWE_DIM ==> r.mask@[i] == msround(self.mask@[i]),
            forall|i: int| 0 <= i < LWE_DIM ==> r.mask@[i] <= 2048,
            r.body == msround(self.body),
    {
        let mut mask: Vec<u32> = Vec::new();
        for i in 0..LWE_DIM
            invariant
                self.wf(),
                mask.len() == i,
                forall|t: int| 0 <= t < i ==> mask@[t] == msround(self.mask@[t]),
                forall|t: int| 0 <= t < i ==> mask@[t] <= 2048,
        {
            mask.push(msround_exec(self.mask[i]));
        }

        let body = msround_exec(self.body);

        LweCiphertext { mask, body }
    }
}

impl Default for LweCiphertext {
    /// The all-zero ciphertext.
    fn default() -> (r: LweCiphertext)
        ensures
            r.wf(),
            forall|i: int| 0 <= i < LWE_DIM ==> r.mask@[i] == 0u32,
            r.body == 0u32,
    {
        LweCiphertext { mask: crate::poly::zero_vec(LWE_DIM), body: 0u32 }
    }
}

/// A fresh LWE secret key: `LWE_DIM` uniformly random bits.
pub fn lwe_keygen() -> (r: LweSecretKey)
    ensures
        sk_wf(r@, LWE_DIM as nat),
{
    let mut sk: Vec<u32> = Vec::new();
    for i in 0..LWE_DIM
        invariant
            sk.len() == i,
            forall|t: int| 0 <= t < i ==> sk@[t] <= 1,
    {
        sk.push(crate::sampling::random_bit());
    }
    sk
}

proof fn lemma_masked_sum_zero(mask: Seq<u32>, sk: Seq<u32>, n: int)
    requires
        forall|i: int| 0 <= i < n ==> mask[i] == 0,
    ensures
        masked_sum(mask, sk, n) == 0,
    decreases n,
{
    if n > 0 {
        lemma_masked_sum_zero(mask, sk, n - 1);
    }
}

proof fn lemma_masked_sum_add(
    m1: Seq<u32>,
    m2: Seq<u32>,
    mr: Seq<u32>,
    sk: Seq<u32>,
    n: int,
)
    requires
        forall|i: int| 0 <= i < n ==> mr[i] == wadd(m1[i], m2[i]),
    ensures
        masked_sum(mr, sk, n) % 0x100000000 == (masked_sum(m1, sk, n) + masked_sum(m2, sk, n))
            % 0x100000000,
    decreases n,
{
    broadcast use crate::modular::lemma_w32_mod;

    if n > 0 {
        lemma_masked_sum_add(m1, m2, mr, sk, n - 1);
        let t1 = if sk[n - 1] == 1 { m1[n - 1] as int } else { 0 };
        let t2 = if sk[n - 1] == 1 { m2[n - 1] as int } else { 0 };
        let tr = if sk[n - 1] == 1 { mr[n - 1] as int } else { 0 };
        assert(tr % 0x100000000 == (t1 + t2) % 0x100000000) by {
            if sk[n - 1] == 1 {
            } else {
                vstd::arithmetic::div_mod::lemma_small_mod(0, 0x100000000);
            }
        }
        vstd::arithmetic::div_mod::lemma_add_mod_noop(
            masked_sum(mr, sk, n - 1),
            tr,
            0x100000000,
        );
        vstd::arithmetic::div_mod::lemma_add_mod_noop(
            masked_sum(m1, sk, n - 1) + masked_sum(m2, sk, n - 1),
            t1 + t2,
            0x100000000,
        );
    }
}

proof fn lemma_masked_sum_sub(
    m1: Seq<u32>,
    m2: Seq<u32>,
    mr: Seq<u32>,
    sk: Seq<u32>,
    n: int,
)
    requires
        forall|i: int| 0 <= i < n ==> mr[i] == wsub(m1[i], m2[i]),
    ensures
        masked_sum(mr, sk, n) % 0x100000000 == (masked_sum(m1, sk, n) - masked_sum(m2, sk, n))
            % 0x100000000,
    decreases n,
{
    broadcast use crate::modular::lemma_w32_mod;

    if n > 0 {
        lemma_masked_sum_sub(m1, m2, mr, sk, n - 1);
        let t1 = if sk[n - 1] == 1 { m1[n - 1] as int } else { 0 };
        let t2 = if sk[n - 1] == 1 { m2[n - 1] as int } else { 0 };
        let tr = if sk[n - 1] == 1 { mr[n - 1] as int } else { 0 };
        assert(tr % 0x100000000 == (t1 - t2) % 0x100000000) by {
            if sk[n - 1] == 1 {
            } else {
                vstd::arithmetic::div_mod::lemma_small_mod(0, 0x100000000);
            }
        }
        vstd::arithmetic::div_mod::lemma_add_mod_noop(
            masked_sum(mr, sk, n - 1),
            tr,
            0x100000000,
        );
        vstd::arithmetic::div_mod::lemma_add_mod_noop(
            masked_sum(m1, sk, n - 1) - masked_sum(m2, sk, n - 1),
            t1 - t2,
            0x100000000,
        );
    }
}

proof fn lemma_masked_sum_scale(m: Seq<u32>, mr: Seq<u32>, c: u32, sk: Seq<u32>, n: int)
    requires
        forall|i: int| 0 <= i < n ==> mr[i] == wmul(m[i], c),
    ensures
        masked_sum(mr, sk, n) % 0x100000000 == (c * masked_sum(m, sk, n)) % 0x100000000,
    decreases n,
{
    broadcast use crate::modular::lemma_w32_mod;

    if n > 0 {
        lemma_masked_sum_scale(m, mr, c, sk, n - 1);
        let t = if sk[n - 1] == 1 { m[n - 1] as int } else { 0 };
        let tr = if sk[n - 1] == 1 { mr[n - 1] as int } else { 0 };
        assert(tr % 0x100000000 == (c * t) % 0x100000000) by {
            if sk[n - 1] == 1 {
                vstd::arithmetic::mul::lemma_mul_is_commutative(m[n - 1] as int, c as int);
            } else {
                assert(c * 0 == 0);
                vstd::arithmetic::div_mod::lemma_small_mod(0, 0x100000000);
            }
        }
        vstd::arithmetic::div_mod::lemma_add_mod_noop(
            masked_sum(mr, sk, n - 1),
            tr,
            0x100000000,
        );
        vstd::arithmetic::div_mod::lemma_add_mod_noop(
            c * masked_sum(m, sk, n - 1),
            c * t,
            0x100000000,
        );
        vstd::arithmetic::mul::lemma_mul_is_distributive_add(
            c as int,
            masked_sum(m, sk, n - 1),
            t,
        );
    }
}

/// The `j`-th base-16 digit of a rounded word, before carry propagation.
pub open spec fn nib(r: u32, j: nat) -> int {
    ((r >> ((4 * j) as u32)) & 0xF) as int
}

/// The carry flowing into digit `j` of the balanced decomposition: digit
/// `j - 1` emits a carry exactly when its raw value lies in `[8, 15]` and
/// is therefore rewritten as a negative digit.
pub open spec fn decomp_carry(r: u32, j: nat) -> int
    decreases j,
{
    if j == 0 {
        0
    } else {
        if 8 <= nib(r, (j - 1) as nat) + decomp_carry(r, (j - 1) as nat) && nib(
            r,
            (j - 1) as nat,
        ) + decomp_carry(r, (j - 1) as nat) <= 15 {
            1
        } else {
            0
        }
    }
}

/// The signed value of digit `j` of the balanced base-16 decomposition.
pub open spec fn decomp_digit(r: u32, j: nat) -> int {
    nib(r, j) + decomp_carry(r, j) - 16 * decomp_carry(r, (j + 1) as nat)
}

/// The value of the first `j` balanced digits, weighted by their base-16
/// positions.
pub open spec fn digits_sum(r: u32, j: nat) -> int
    decreases j,
{
    if j == 0 {
        0
    } else {
        digits_sum(r, (j - 1) as nat) + decomp_digit(r, (j - 1) as nat) * vstd::arithmetic::power2::pow2(
            (4 * (j - 1)) as nat,
        )
    }
}

proof fn lemma_nib_bound(r: u32, j: nat)
    ensures
        0 <= nib(r, j) <= 15,
{
    let sh = (4 * j) as u32;
    assert((r >> sh) & 0xF < 16) by (bit_vector);
}

proof fn lemma_carry_bound(r: u32, j: nat)
    ensures
        0 <= decomp_carry(r, j) <= 1,
    decreases j,
{
    if j != 0 {
        lemma_carry_bound(r, (j - 1) as nat);
    }
}

/// The first `j` balanced digits reconstruct the low `4j` bits of the
/// rounded word, short of the outgoing carry.
proof fn lemma_digits_sum(r: u32, j: nat)
    requires
        j <= 7,
    ensures
        digits_sum(r, j) == (r as int) % (vstd::arithmetic::power2::pow2((4 * j) as nat) as int)
            - decomp_carry(r, j) * vstd::arithmetic::power2::pow2((4 * j) as nat),
    decreases j,
{
    vstd::arithmetic::power2::lemma2_to64();
    if j == 0 {
        assert((r as int) % 1 == 0) by {
            vstd::arithmetic::div_mod::lemma_mod_self_0(1);
            vstd::arithmetic::div_mod::lemma_mod_twice(r as int, 1);
            vstd::arithmetic::div_mod::lemma_mod_bound(r as int, 1);
        }
    } else {
        let jm = (j - 1) as nat;
        lemma_digits_sum(r, jm);
        let p = vstd::arithmetic::power2::pow2((4 * jm) as nat) as int;
        let p4 = vstd::arithmetic::power2::pow2((4 * j) as nat) as int;
        vstd::arithmetic::power2::lemma_pow2_adds((4 * jm) as nat, 4);
        assert(p4 == p * 16);
        let sh = (4 * jm) as u32;
        vstd::bits::lemma_u32_shr_is_div(r, sh);
        vstd::bits::lemma_u32_low_bits_mask_is_mod(r >> sh, 4);
        vstd::bits::lemma_low_bits_mask_values();
        vstd::arithmetic::power2::lemma_pow2_pos((4 * jm) as nat);
        assert(nib(r, jm) == (r as int / p) % 16);
        vstd::arithmetic::div_mod::lemma_mod_breakdown(r as int, p, 16);
        assert((r as int) % p4 == p * ((r as int / p) % 16) + (r as int) % p);
        let c = decomp_carry(r, jm);
        let c1 = decomp_carry(r, j);
        assert(decomp_digit(r, jm) == nib(r, jm) + c - 16 * c1);
        let nb = nib(r, jm);
        assert(decomp_digit(r, jm) * p == nb * p + c * p - 16 * (c1 * p)) by (nonlinear_arith)
            requires
                decomp_digit(r, jm) == nb + c - 16 * c1,
        ;
        assert(c1 * p4 == 16 * (c1 * p)) by (nonlinear_arith)
            requires
                p4 == p * 16,
        ;
        assert(nb * p == p * nb) by (nonlinear_arith);
        assert(digits_sum(r, j) == (r as int) % p4 - c1 * p4);
    }
}

/// Scaled into place at the top of the word, the balanced digits are
/// congruent to sixteen times the rounded value they decompose.
pub proof fn lemma_digits_reconstruct(r: u32)
    ensures
        (16 * digits_sum(r, 7)) % 0x100000000 == (16 * r) % 0x100000000,
{
    vstd::arithmetic::power2::lemma2_to64();
    lemma_digits_sum(r, 7);
    let c = decomp_carry(r, 7);
    assert(digits_sum(r, 7) == (r as int) % 0x10000000 - c * 0x10000000);
    assert(16 * digits_sum(r, 7) == 16 * ((r as int) % 0x10000000) + (0 - c) * 0x100000000)
        by (nonlinear_arith)
        requires
            digits_sum(r, 7) == (r as int) % 0x10000000 - c * 0x10000000,
    ;
    vstd::arithmetic::div_mod::lemma_mod_multiples_vanish(
        0 - c,
        16 * ((r as int) % 0x10000000),
        0x100000000,
    );
    // 16 * (r % 2^28) and 16 * r differ by a multiple of 2^32
    vstd::arithmetic::div_mod::lemma_fundamental_div_mod(r as int, 0x10000000);
    let q = r as int / 0x10000000;
    assert(16 * r == q * 0x100000000 + 16 * ((r as int) % 0x10000000));
    vstd::arithmetic::div_mod::lemma_mod_multiples_vanish(
        q,
        16 * ((r as int) % 0x10000000),
        0x100000000,
    );
}

/// The balanced base-16 digits of a rounded word, lowest first: each raw
/// base-16 digit in `[8, 15]` is replaced by its value less sixteen, and
/// the carry moves into the next digit.
fn balanced_digits(rounded: u32, ell: usize) -> (r: Vec<u32>)
    requires
        ell <= 7,
    ensures
        r.len() == ell,
        forall|j: int| 0 <= j < ell ==> r@[j] == w32(decomp_digit(rounded, j as nat)),
{
    let mut ret: Vec<u32> = Vec::new();
    let mut carry = 0u32;
    for i in 0..ell
        invariant
            ell <= 7,
            ret.len() == i,
            carry == decomp_carry(rounded, i as nat),
            forall|t: int| 0 <= t < i ==> ret@[t] == w32(decomp_digit(rounded, t as nat)),
    {
        proof {
            lemma_nib_bound(rounded, i as nat);
            lemma_carry_bound(rounded, i as nat);
        }
        let sh = (4 * i) as u32;
        let nb = (rounded >> sh) & 0x0F;
        proof {
            assert((rounded >> sh) & 0x0F < 16) by (bit_vector);
            assert(nb == nib(rounded, i as nat));
        }
        let res = nb + carry;
        let carry_bit = res & 8;
        proof {
            assert(((res & 8 == 8) == (8 <= res && res <= 15)) && ((res & 8) << 1 == (
            if 8 <= res && res <= 15 {
                16u32
            } else {
                0u32
            })) && ((res & 8) >> 3 == (
            if 8 <= res && res <= 15 {
                1u32
            } else {
                0u32
            }))) by (bit_vector)
                requires
                    res <= 16,
            ;
        }
        let digit = res.wrapping_sub(carry_bit << 1);
        proof {
            assert(digit == w32(decomp_digit(rounded, i as nat)));
        }
        ret.push(digit);
        carry = carry_bit >> 3;
    }
    ret
}

/// Approximate signed decomposition for the key switch: `lg(B) = 4` and
/// `ell = 7`. The word is rounded to its top 28 bits, which are then
/// rewritten as seven balanced base-16 digits, lowest first, each handed
/// back in its two's-complement reading.
pub fn decomposition_4_7(val: u32) -> (r: Vec<u32>)
    ensures
        r.len() == 7,
        forall|j: int| 0 <= j < 7
            ==> r@[j] == w32(decomp_digit(crate::utils::round_value_spec(val), j as nat)),
{
    let rounded_val = crate::utils::round_value(val);
    balanced_digits(rounded_val, 7)
}

/// The rounding of a word to its top 16 bits, half upward.
pub open spec fn round_high16_spec(val: u32) -> u32 {
    (((val >> 15) + ((val >> 15) & 1)) as u32) >> 1
}

/// Approximate signed decomposition with `lg(B) = 4` and `ell = 4`: the
/// top 16 bits of the word, rewritten as four balanced base-16 digits,
/// lowest first, in their two's-complement reading.
pub fn decomposition_4_4(val: u32) -> (r: Vec<u32>)
    ensures
        r.len() == 4,
        forall|j: int| 0 <= j < 4 ==> r@[j] == w32(decomp_digit(round_high16_spec(val), j as nat)),
{
    assert((val >> 15) + ((val >> 15) & 1) < 0x40000) by (bit_vector);
    let mut rounded_val = val >> 15;
    rounded_val += rounded_val & 1;
    rounded_val >>= 1;
    balanced_digits(rounded_val, 4)
}

/// Adding ciphertexts adds their phases: the homomorphic property of the
/// scheme, for every key.
#[verifier::rlimit(50)]
pub proof fn lemma_phase_add(c1: LweCiphertext, c2: LweCiphertext, r: LweCiphertext, sk: Seq<u32>)
    requires
        c1.wf(),
        c2.wf(),
        r.wf(),
        forall|i: int| 0 <= i < LWE_DIM ==> r.mask@[i] == wadd(c1.mask@[i], c2.mask@[i]),
        r.body == wadd(c1.body, c2.body),
    ensures
        r.phase(sk) == wadd(c1.phase(sk), c2.phase(sk)),
{
    broadcast use crate::modular::lemma_w32_mod;

    let n = LWE_DIM as int;
    let ms1 = masked_sum(c1.mask@, sk, n);
    let ms2 = masked_sum(c2.mask@, sk, n);
    let msr = masked_sum(r.mask@, sk, n);
    lemma_masked_sum_add(c1.mask@, c2.mask@, r.mask@, sk, n);
    crate::modular::lemma_w32_congruent_sub(r.body as int, c1.body + c2.body, msr);
    assert(r.phase(sk) == w32(c1.body + c2.body - msr));
    crate::modular::lemma_w32_congruent_sub_right(msr, ms1 + ms2, c1.body + c2.body);
    assert(r.phase(sk) == w32(c1.body - ms1 + (c2.body - ms2)));
    crate::modular::lemma_w32_congruent_add(
        (c1.phase(sk)) as int,
        c1.body - ms1,
        (c2.phase(sk)) as int,
    );
    assert(wadd(c1.phase(sk), c2.phase(sk)) == w32(c1.body - ms1 + c2.phase(sk)));
    crate::modular::lemma_w32_congruent_add(
        (c2.phase(sk)) as int,
        c2.body - ms2,
        c1.body - ms1,
    );
}

/// Subtracting ciphertexts subtracts their phases, for every key.
#[verifier::rlimit(50)]
pub proof fn lemma_phase_sub(c1: LweCiphertext, c2: LweCiphertext, r: LweCiphertext, sk: Seq<u32>)
    requires
        c1.wf(),
        c2.wf(),
        r.wf(),
        forall|i: int| 0 <= i < LWE_DIM ==> r.mask@[i] == wsub(c1.mask@[i], c2.mask@[i]),
        r.body == wsub(c1.body, c2.body),
    ensures
        r.phase(sk) == wsub(c1.phase(sk), c2.phase(sk)),
{
    broadcast use crate::modular::lemma_w32_mod;

    let n = LWE_DIM as int;
    let ms1 = masked_sum(c1.mask@, sk, n);
    let ms2 = masked_sum(c2.mask@, sk, n);
    let msr = masked_sum(r.mask@, sk, n);
    lemma_masked_sum_sub(c1.mask@, c2.mask@, r.mask@, sk, n);
    crate::modular::lemma_w32_congruent_sub(r.body as int, c1.body - c2.body, msr);
    assert(r.phase(sk) == w32(c1.body - c2.body - msr));
    crate::modular::lemma_w32_congruent_sub_right(msr, ms1 - ms2, c1.body - c2.body);
    assert(r.phase(sk) == w32(c1.body - ms1 - (c2.body - ms2)));
    crate::modular::lemma_w32_congruent_sub(
        (c1.phase(sk)) as int,
        c1.body - ms1,
        (c2.phase(sk)) as int,
    );
    assert(wsub(c1.phase(sk), c2.phase(sk)) == w32(c1.body - ms1 - c2.phase(sk)));
    crate::modular::lemma_w32_congruent_sub_right(
        (c2.phase(sk)) as int,
        c2.body - ms2,
        c1.body - ms1,
    );
}

/// Scaling a ciphertext scales its phase, for every key.
#[verifier::rlimit(50)]
pub proof fn lemma_phase_scale(c: LweCiphertext, r: LweCiphertext, d: u32, sk: Seq<u32>)
    requires
        c.wf(),
        r.wf(),
        forall|i: int| 0 <= i < LWE_DIM ==> r.mask@[i] == wmul(c.mask@[i], d),
        r.body == wmul(c.body, d),
    ensures
        r.phase(sk) == w32(d * c.phase(sk)),
{
    broadcast use crate::modular::lemma_w32_mod;

    let n = LWE_DIM as int;
    let ms = masked_sum(c.mask@, sk, n);
    let msr = masked_sum(r.mask@, sk, n);
    lemma_masked_sum_scale(c.mask@, r.mask@, d, sk, n);
    vstd::arithmetic::mul::lemma_mul_is_commutative(c.body as int, d as int);
    crate::modular::lemma_w32_congruent_sub(r.body as int, d * c.body, msr);
    crate::modular::lemma_w32_congruent_sub_right(msr, d * ms, d * c.body);
    vstd::arithmetic::mul::lemma_mul_is_distributive_sub(d as int, c.body as int, ms);
    vstd::arithmetic::div_mod::lemma_mul_mod_noop_right(
        d as int,
        c.body - ms,
        0x100000000,
    );
    vstd::arithmetic::div_mod::lemma_mul_mod_noop_right(
        d as int,
        w32(c.body - ms) as int,
        0x100000000,
    );
}

/// Round trip of LWE: a ciphertext whose phase under a key is an encoded
/// message perturbed by noise of magnitude at most `2^26` decrypts and
/// decodes to that message.
pub proof fn lemma_lwe_round_trip(c: LweCiphertext, sk: Seq<u32>, msg: u8, e: int)
    requires
        msg < 16,
        -0x4000000 <= e <= 0x4000000,
        c.phase(sk) == w32(crate::utils::encode_spec(msg) + e),
    ensures
        crate::utils::decode_spec(c.phase(sk)) == msg,
{
    crate::utils::lemma_decode_noisy(msg, e);
}

/// Homomorphic addition of LWE: the sum of two fresh encryptions decrypts
/// and decodes to the sum of the messages modulo 16, as long as the two
/// noise terms together stay within the decoding margin.
pub proof fn lemma_lwe_add_decodes(
    c1: LweCiphertext,
    c2: LweCiphertext,
    r: LweCiphertext,
    sk: Seq<u32>,
    m1: u8,
    m2: u8,
    e1: int,
    e2: int,
)
    requires
        c1.wf(),
        c2.wf(),
        r.wf(),
        m1 < 16,
        m2 < 16,
        -0x4000000 <= e1 + e2 <= 0x4000000,
        forall|i: int| 0 <= i < LWE_DIM ==> r.mask@[i] == wadd(c1.mask@[i], c2.mask@[i]),
        r.body == wadd(c1.body, c2.body),
        c1.phase(sk) == w32(crate::utils::encode_spec(m1) + e1),
        c2.phase(sk) == w32(crate::utils::encode_spec(m2) + e2),
    ensures
        crate::utils::decode_spec(r.phase(sk)) as int == (m1 + m2) % 16,
{
    lemma_phase_add(c1, c2, r, sk);
    crate::modular::lemma_w32_add(
        crate::utils::encode_spec(m1) + e1,
        crate::utils::encode_spec(m2) + e2,
    );
    crate::utils::lemma_sum_decodes(m1, m2, e1 + e2);
}

/// Homomorphic subtraction of LWE: the difference of two fresh encryptions
/// decrypts and decodes to the difference of the messages modulo 16.
pub proof fn lemma_lwe_sub_decodes(
    c1: LweCiphertext,
    c2: LweCiphertext,
    r: LweCiphertext,
    sk: Seq<u32>,
    m1: u8,
    m2: u8,
    e1: int,
    e2: int,
)
    requires
        c1.wf(),
        c2.wf(),
        r.wf(),
        m1 < 16,
        m2 < 16,
        -0x4000000 <= e1 - e2 <= 0x4000000,
        forall|i: int| 0 <= i < LWE_DIM ==> r.mask@[i] == wsub(c1.mask@[i], c2.mask@[i]),
        r.body == wsub(c1.body, c2.body),
        c1.phase(sk) == w32(crate::utils::encode_spec(m1) + e1),
        c2.phase(sk) == w32(crate::utils::encode_spec(m2) + e2),
    ensures
        crate::utils::decode_spec(r.phase(sk)) as int == (m1 - m2) % 16,
{
    lemma_phase_sub(c1, c2, r, sk);
    crate::modular::lemma_w32_sub(
        crate::utils::encode_spec(m1) + e1,
        crate::utils::encode_spec(m2) + e2,
    );
    crate::utils::lemma_diff_decodes(m1, m2, e1 - e2);
}

/// The accumulated drift of the selected mask entries under the modulus
/// switch: each rounded word, scaled back up by `2^21`, differs from the
/// original by at most `2^20`, and only the positions where the key bit is
/// set contribute.
pub open spec fn ms_mask_dev(mask: Seq<u32>, sk: Seq<u32>, n: int) -> int
    decreases n,
{
    if n <= 0 {
        0
    } else {
        ms_mask_dev(mask, sk, n - 1) + if sk[n - 1] == 1 {
            0x200000 * msround(mask[n - 1]) - mask[n - 1]
        } else {
            0
        }
    }
}

/// The total rounding drift of a modulus switch under a key: the body's
/// drift less the selected mask entries' drift.
pub open spec fn ms_deviation(c: LweCiphertext, sk: Seq<u32>) -> int {
    (0x200000 * msround(c.body) - c.body) - ms_mask_dev(c.mask@, sk, LWE_DIM as int)
}

proof fn lemma_ms_masked_sum(mask: Seq<u32>, msmask: Seq<u32>, sk: Seq<u32>, n: int)
    requires
        forall|i: int| 0 <= i < n ==> msmask[i] == msround(mask[i]),
    ensures
        0x200000 * masked_sum(msmask, sk, n) == masked_sum(mask, sk, n) + ms_mask_dev(
            mask,
            sk,
            n,
        ),
    decreases n,
{
    if n > 0 {
        lemma_ms_masked_sum(mask, msmask, sk, n - 1);
    }
}

/// Modulus switching preserves the plaintext: after rounding every word to
/// eleven bits, decrypting modulo `2N` and reading the result back at full
/// scale decodes to the original message, as long as the encryption noise
/// and the accumulated rounding drift together stay within the decoding
/// margin.
#[verifier::rlimit(100)]
pub proof fn lemma_modswitch_decodes(
    c: LweCiphertext,
    ms: LweCiphertext,
    sk: Seq<u32>,
    msg: u8,
    e: int,
)
    requires
        c.wf(),
        ms.wf(),
        sk.len() == LWE_DIM,
        forall|i: int| 0 <= i < LWE_DIM ==> ms.mask@[i] == msround(c.mask@[i]),
        ms.body == msround(c.body),
        msg < 16,
        c.phase(sk) == w32(crate::utils::encode_spec(msg) + e),
        -0x4000000 <= e + ms_deviation(c, sk) <= 0x4000000,
    ensures
        crate::utils::decode_spec(
            w32(((ms.body - masked_sum(ms.mask@, sk, LWE_DIM as int)) % 2048) * 0x200000),
        ) == msg,
{
    broadcast use crate::modular::lemma_w32_mod;

    let n = LWE_DIM as int;
    let x = ms.body - masked_sum(ms.mask@, sk, n);
    let d = x % 2048;
    let base = c.body - masked_sum(c.mask@, sk, n);
    let dev = ms_deviation(c, sk);
    lemma_ms_masked_sum(c.mask@, ms.mask@, sk, n);
    assert(0x200000 * x == base + dev);
    vstd::arithmetic::div_mod::lemma_fundamental_div_mod(x, 2048);
    let q = x / 2048;
    assert(0x200000 * d == 0x200000 * x + (0 - q) * 0x100000000) by (nonlinear_arith)
        requires
            x == 2048 * q + d,
    ;
    vstd::arithmetic::div_mod::lemma_mod_multiples_vanish(
        0 - q,
        0x200000 * x,
        0x100000000,
    );
    assert(d * 0x200000 == 0x200000 * d);
    crate::modular::lemma_w32_eq(d * 0x200000, 0x200000 * x);
    crate::modular::lemma_w32_congruent_add(
        base,
        crate::utils::encode_spec(msg) + e,
        dev,
    );
    crate::utils::lemma_decode_noisy(msg, e + dev);
    assert(w32(d * 0x200000) == w32(crate::utils::encode_spec(msg) + (e + dev)));
}

/// A copy of the ciphertext with mask and body scaled by a constant,
/// wrapping.
fn scaled_copy(c: &LweCiphertext, constant: u32) -> (r: LweCiphertext)
    requires
        c.wf(),
    ensures
        r.wf(),
        forall|i: int| 0 <= i < LWE_DIM ==> r.mask@[i] == wmul(c.mask@[i], constant),
        r.body == wmul(c.body, constant),
{
    let mut mask: Vec<u32> = Vec::new();
    for i in 0..LWE_DIM
        invariant
            c.wf(),
            mask.len() == i,
            forall|t: int| 0 <= t < i ==> mask@[t] == wmul(c.mask@[t], constant),
    {
        mask.push(c.mask[i].wrapping_mul(constant));
    }
    LweCiphertext { mask, body: c.body.wrapping_mul(constant) }
}

/// The weighted sum of key-switching-key phases that the key switch
/// subtracts: entry `7 pos + j` of the key, scaled by digit `j` of the
/// decomposition of mask entry `pos`.
pub open spec fn ks_sum(mask: Seq<u32>, ksk: Seq<LweCiphertext>, sk: Seq<u32>, n: int) -> int
    decreases n,
{
    if n <= 0 {
        0
    } else {
        ks_sum(mask, ksk, sk, n - 1) + decomp_digit(
            round_value_spec(mask[(n - 1) / 7]),
            ((n - 1) % 7) as nat,
        ) * ksk[n - 1].phase(sk)
    }
}

impl LweCiphertext {
    /// Switches the ciphertext to the key that `ksk` encrypts: starting
    /// from the body alone, subtracts every key-switching-key entry scaled
    /// by the matching balanced digit of the mask. For every key, the
    /// resulting phase is the body less the digit-weighted sum of the key
    /// entries' phases.
    #[verifier::rlimit(100)]
    pub fn keyswitch(&self, ksk: &KeySwitchingKey) -> (r: Self)
        requires
            self.wf(),
            ksk.len() == 7 * N,
            forall|i: int| 0 <= i < 7 * N ==> (#[trigger] ksk@[i]).wf(),
        ensures
            r.wf(),
            forall|sk: Seq<u32>| sk.len() == LWE_DIM ==> #[trigger] r.phase(sk) == w32(
                self.body - ks_sum(self.mask@, ksk@, sk, (7 * N) as int),
            ),
    {
        let mut keyswitched = LweCiphertext { mask: crate::poly::zero_vec(LWE_DIM), body: self.body };
        proof {
            assert forall|sk: Seq<u32>| sk.len() == LWE_DIM implies #[trigger] keyswitched.phase(
                sk,
            ) == w32(self.body - ks_sum(self.mask@, ksk@, sk, 0)) by {
                lemma_masked_sum_zero(keyswitched.mask@, sk, LWE_DIM as int);
            }
        }
        for i in 0..N
            invariant
                self.wf(),
                ksk.len() == 7 * N,
                forall|t: int| 0 <= t < 7 * N ==> (#[trigger] ksk@[t]).wf(),
                keyswitched.wf(),
                forall|sk: Seq<u32>| sk.len() == LWE_DIM ==> #[trigger] keyswitched.phase(sk)
                    == w32(self.body - ks_sum(self.mask@, ksk@, sk, 7 * i)),
        {
            let decomp = decomposition_4_7(self.mask[i]);
            for j in 0..7
                invariant
                    self.wf(),
                    i < N,
                    ksk.len() == 7 * N,
                    forall|t: int| 0 <= t < 7 * N ==> (#[trigger] ksk@[t]).wf(),
                    decomp.len() == 7,
                    forall|t: int| 0 <= t < 7 ==> decomp@[t] == w32(
                        decomp_digit(round_value_spec(self.mask@[i as int]), t as nat),
                    ),
                    keyswitched.wf(),
                    forall|sk: Seq<u32>| sk.len() == LWE_DIM ==> #[trigger] keyswitched.phase(sk)
                        == w32(self.body - ks_sum(self.mask@, ksk@, sk, 7 * i + j)),
            {
                let idx = 7 * i + j;
                let scaled = scaled_copy(&ksk[idx], decomp[j]);
                let ghost prevct = keyswitched;
                keyswitched = keyswitched.sub(&scaled);
                proof {
                    let idxi = idx as int;
                    let digit = decomp_digit(round_value_spec(self.mask@[i as int]), j as nat);
                    let dstored = decomp@[j as int];
                    assert(idxi / 7 == i && idxi % 7 == j) by {
                        vstd::arithmetic::div_mod::lemma_fundamental_div_mod_converse(
                            idxi,
                            7,
                            i as int,
                            j as int,
                        );
                    }
                    assert forall|sk: Seq<u32>| sk.len() == LWE_DIM implies
                        #[trigger] keyswitched.phase(sk) == w32(
                        self.body - ks_sum(self.mask@, ksk@, sk, idxi + 1),
                    ) by {
                        lemma_phase_sub(prevct, scaled, keyswitched, sk);
                        lemma_phase_scale(ksk@[idxi], scaled, dstored, sk);
                        let p = ksk@[idxi].phase(sk) as int;
                        vstd::arithmetic::div_mod::lemma_mul_mod_noop_left(
                            dstored as int,
                            p,
                            0x100000000,
                        );
                        vstd::arithmetic::div_mod::lemma_mul_mod_noop_left(digit, p, 0x100000000);
                        // the subtracted term is congruent to digit * phase
                        crate::modular::lemma_w32_congruent_sub_right(
                            scaled.phase(sk) as int,
                            digit * p,
                            prevct.phase(sk) as int,
                        );
                        crate::modular::lemma_w32_congruent_sub(
                            prevct.phase(sk) as int,
                            self.body - ks_sum(self.mask@, ksk@, sk, idxi),
                            digit * p,
                        );
                        assert(ks_sum(self.mask@, ksk@, sk, idxi + 1) == ks_sum(
                            self.mask@,
                            ksk@,
                            sk,
                            idxi,
                        ) + digit * p);
                    }
                }
            }
        }
        keyswitched
    }
}

/// The key-switching key: for each position `pos` of `sk1` and each digit
/// level `j`, an encryption under `sk2` of `sk1[pos]` shifted into the
/// `j`-th gadget slot. The caller supplies one noise sample per entry.
pub fn compute_ksk(sk1: &LweSecretKey, sk2: &LweSecretKey, noises: &Vec<i32>) -> (r: KeySwitchingKey)
    requires
        sk1.len() == N,
        sk_wf(sk2@, LWE_DIM as nat),
        noises.len() == 7 * N,
    ensures
        r.len() == 7 * N,
        forall|idx: int| 0 <= idx < 7 * N ==> (#[trigger] r@[idx]).wf(),
        forall|idx: int| 0 <= idx < 7 * N ==> (#[trigger] r@[idx]).phase(sk2@) == w32(
            (sk1@[idx / 7] << ((4 + 4 * (idx % 7)) as u32)) + noises@[idx],
        ),
{
    let mut ksk: Vec<LweCiphertext> = Vec::new();
    for pos in 0..N
        invariant
            sk1.len() == N,
            sk_wf(sk2@, LWE_DIM as nat),
            noises.len() == 7 * N,
            ksk.len() == 7 * pos,
            forall|idx: int| 0 <= idx < 7 * pos ==> (#[trigger] ksk@[idx]).wf(),
            forall|idx: int| 0 <= idx < 7 * pos ==> (#[trigger] ksk@[idx]).phase(sk2@) == w32(
                (sk1@[idx / 7] << ((4 + 4 * (idx % 7)) as u32)) + noises@[idx],
            ),
    {
        for j in 0..7
            invariant
                sk1.len() == N,
                sk_wf(sk2@, LWE_DIM as nat),
                noises.len() == 7 * N,
                pos < N,
                ksk.len() == 7 * pos + j,
                forall|idx: int| 0 <= idx < 7 * pos + j ==> (#[trigger] ksk@[idx]).wf(),
                forall|idx: int| 0 <= idx < 7 * pos + j ==> (#[trigger] ksk@[idx]).phase(sk2@)
                    == w32((sk1@[idx / 7] << ((4 + 4 * (idx % 7)) as u32)) + noises@[idx]),
        {
            let mu = sk1[pos] << ((4 + 4 * j) as u32);
            let ct = LweCiphertext::encrypt(mu, sk2, noises[7 * pos + j]);
            ksk.push(ct);
            proof {
                let idxi = (7 * pos + j) as int;
                assert(idxi / 7 == pos && idxi % 7 == j) by {
                    vstd::arithmetic::div_mod::lemma_fundamental_div_mod_converse(
                        idxi,
                        7,
                        pos as int,
                        j as int,
                    );
                }
            }
        }
    }
    ksk
}

/// The noise the key switch picks up from the key-switching key itself:
/// each entry's noise sample, weighted by the digit that scales the entry.
pub open spec fn ks_noise_sum(mask: Seq<u32>, noises: Seq<i32>, n: int) -> int
    decreases n,
{
    if n <= 0 {
        0
    } else {
        ks_noise_sum(mask, noises, n - 1) + decomp_digit(
            round_value_spec(mask[(n - 1) / 7]),
            ((n - 1) % 7) as nat,
        ) * noises[n - 1]
    }
}

/// The rounding drift of the key switch: for each selected key position,
/// how far `16` times the rounded mask entry sits from the entry itself —
/// at most `2^3` per position.
pub open spec fn ks_round_dev(mask: Seq<u32>, sk1: Seq<u32>, p: int) -> int
    decreases p,
{
    if p <= 0 {
        0
    } else {
        ks_round_dev(mask, sk1, p - 1) + if sk1[p - 1] == 1 {
            16 * round_value_spec(mask[p - 1]) - mask[p - 1]
        } else {
            0
        }
    }
}

/// Whether the key-switching key is a well-formed encryption of `sk1`
/// under `sk2` with the given noise samples: what `compute_ksk` builds.
pub open spec fn ksk_wf(
    ksk: Seq<LweCiphertext>,
    sk1: Seq<u32>,
    sk2: Seq<u32>,
    noises: Seq<i32>,
) -> bool {
    &&& ksk.len() == 7 * N
    &&& noises.len() == 7 * N
    &&& forall|idx: int| 0 <= idx < 7 * N ==> (#[trigger] ksk[idx]).wf()
    &&& forall|idx: int| 0 <= idx < 7 * N ==> (#[trigger] ksk[idx]).phase(sk2) == w32(
        (sk1[idx / 7] << ((4 + 4 * (idx % 7)) as u32)) + noises[idx],
    )
}

#[verifier::rlimit(100)]
proof fn lemma_ks_sum_inner(
    mask: Seq<u32>,
    ksk: Seq<LweCiphertext>,
    sk1: Seq<u32>,
    sk2: Seq<u32>,
    noises: Seq<i32>,
    pos: int,
    jn: int,
)
    requires
        mask.len() == N,
        sk_wf(sk1, LWE_DIM as nat),
        ksk_wf(ksk, sk1, sk2, noises),
        0 <= pos < N,
        0 <= jn <= 7,
    ensures
        ks_sum(mask, ksk, sk2, 7 * pos + jn) % 0x100000000 == (ks_sum(mask, ksk, sk2, 7 * pos)
            + sk1[pos] * (16 * digits_sum(round_value_spec(mask[pos]), jn as nat)) + (
        ks_noise_sum(mask, noises, 7 * pos + jn) - ks_noise_sum(mask, noises, 7 * pos)))
            % 0x100000000,
    decreases jn,
{
    broadcast use crate::modular::lemma_w32_mod;

    vstd::arithmetic::power2::lemma2_to64();
    if jn == 0 {
        assert(sk1[pos] * (16 * 0) == 0) by (nonlinear_arith);
    } else {
        lemma_ks_sum_inner(mask, ksk, sk1, sk2, noises, pos, jn - 1);
        let idx = 7 * pos + jn - 1;
        assert(idx / 7 == pos && idx % 7 == jn - 1) by {
            vstd::arithmetic::div_mod::lemma_fundamental_div_mod_converse(
                idx,
                7,
                pos,
                jn - 1,
            );
        }
        let rv = round_value_spec(mask[pos]);
        let d = decomp_digit(rv, (jn - 1) as nat);
        let sh = 4 + 4 * (jn - 1);
        let p2 = vstd::arithmetic::power2::pow2(sh as nat) as int;
        // the gadget entry is the key bit scaled into its slot
        assert((sk1[pos] << (sh as u32)) == sk1[pos] * p2) by {
            vstd::bits::lemma_u32_shl_is_mul(sk1[pos], sh as u32);
            vstd::arithmetic::power2::lemma_pow2_strictly_increases(sh as nat, 29);
            assert(sk1[pos] * p2 <= p2) by (nonlinear_arith)
                requires
                    sk1[pos] <= 1 && p2 >= 0,
            ;
        }
        let mu = sk1[pos] * p2;
        let e = noises[idx] as int;
        // one step of the weighted sum, with the phase reduced modulo 2^32
        assert(ks_sum(mask, ksk, sk2, idx + 1) == ks_sum(mask, ksk, sk2, idx) + d * (ksk[idx].phase(
            sk2,
        ) as int));
        vstd::arithmetic::div_mod::lemma_mul_mod_noop_right(
            d,
            ksk[idx].phase(sk2) as int,
            0x100000000,
        );
        vstd::arithmetic::div_mod::lemma_mul_mod_noop_right(d, mu + e, 0x100000000);
        assert((d * (ksk[idx].phase(sk2) as int)) % 0x100000000 == (d * (mu + e)) % 0x100000000);
        vstd::arithmetic::div_mod::lemma_add_mod_noop(
            ks_sum(mask, ksk, sk2, idx),
            d * (ksk[idx].phase(sk2) as int),
            0x100000000,
        );
        vstd::arithmetic::div_mod::lemma_add_mod_noop(
            ks_sum(mask, ksk, sk2, idx),
            d * (mu + e),
            0x100000000,
        );
        // split the step into its gadget part and its noise part
        assert(p2 == 16 * vstd::arithmetic::power2::pow2((4 * (jn - 1)) as nat)) by {
            vstd::arithmetic::power2::lemma_pow2_adds((4 * (jn - 1)) as nat, 4);
            vstd::arithmetic::mul::lemma_mul_is_commutative(
                vstd::arithmetic::power2::pow2((4 * (jn - 1)) as nat) as int,
                16,
            );
        }
        assert(d * (mu + e) == sk1[pos] * (d * (16 * vstd::arithmetic::power2::pow2(
            (4 * (jn - 1)) as nat,
        ))) + d * e) by (nonlinear_arith)
            requires
                mu == sk1[pos] * p2 && p2 == 16 * vstd::arithmetic::power2::pow2(
                    (4 * (jn - 1)) as nat,
                ),
        ;
        assert(digits_sum(rv, jn as nat) == digits_sum(rv, (jn - 1) as nat) + d
            * vstd::arithmetic::power2::pow2((4 * (jn - 1)) as nat));
        assert(sk1[pos] * (16 * digits_sum(rv, jn as nat)) == sk1[pos] * (16 * digits_sum(
            rv,
            (jn - 1) as nat,
        )) + sk1[pos] * (d * (16 * vstd::arithmetic::power2::pow2((4 * (jn - 1)) as nat))))
            by (nonlinear_arith)
            requires
                digits_sum(rv, jn as nat) == digits_sum(rv, (jn - 1) as nat) + d
                    * vstd::arithmetic::power2::pow2((4 * (jn - 1)) as nat),
        ;
        assert(ks_noise_sum(mask, noises, idx + 1) == ks_noise_sum(mask, noises, idx) + d * e);
        vstd::arithmetic::div_mod::lemma_add_mod_noop(
            ks_sum(mask, ksk, sk2, 7 * pos) + sk1[pos] * (16 * digits_sum(rv, (jn - 1) as nat))
                + (ks_noise_sum(mask, noises, idx) - ks_noise_sum(mask, noises, 7 * pos)),
            d * (mu + e),
            0x100000000,
        );
    }
}

#[verifier::rlimit(100)]
proof fn lemma_ks_sum_value(
    mask: Seq<u32>,
    ksk: Seq<LweCiphertext>,
    sk1: Seq<u32>,
    sk2: Seq<u32>,
    noises: Seq<i32>,
    p: int,
)
    requires
        mask.len() == N,
        sk_wf(sk1, LWE_DIM as nat),
        ksk_wf(ksk, sk1, sk2, noises),
        0 <= p <= N,
    ensures
        ks_sum(mask, ksk, sk2, 7 * p) % 0x100000000 == (masked_sum(mask, sk1, p) + ks_round_dev(
            mask,
            sk1,
            p,
        ) + ks_noise_sum(mask, noises, 7 * p)) % 0x100000000,
    decreases p,
{
    if p == 0 {
    } else {
        lemma_ks_sum_value(mask, ksk, sk1, sk2, noises, p - 1);
        lemma_ks_sum_inner(mask, ksk, sk1, sk2, noises, p - 1, 7);
        let rv = round_value_spec(mask[p - 1]);
        // the seven digits of one position reconstruct sixteen times its
        // rounded mask entry, modulo 2^32
        lemma_digits_reconstruct(rv);
        let a = 16 * digits_sum(rv, 7);
        let b = 16 * (rv as int);
        assert((sk1[p - 1] * a) % 0x100000000 == (sk1[p - 1] * b) % 0x100000000) by {
            vstd::arithmetic::div_mod::lemma_mul_mod_noop_right(
                sk1[p - 1] as int,
                a,
                0x100000000,
            );
            vstd::arithmetic::div_mod::lemma_mul_mod_noop_right(
                sk1[p - 1] as int,
                b,
                0x100000000,
            );
        }
        // the selected gadget value is the mask entry plus its rounding drift
        let sel = if sk1[p - 1] == 1 {
            mask[p - 1] as int
        } else {
            0
        };
        let dev = if sk1[p - 1] == 1 {
            16 * round_value_spec(mask[p - 1]) - mask[p - 1]
        } else {
            0
        };
        assert(sk1[p - 1] * b == sel + dev) by {
            if sk1[p - 1] == 1 {
                assert(1 * b == b) by (nonlinear_arith);
            } else {
                assert(0 * b == 0) by (nonlinear_arith);
            }
        }
        let prev = masked_sum(mask, sk1, p - 1) + ks_round_dev(mask, sk1, p - 1) + ks_noise_sum(
            mask,
            noises,
            7 * (p - 1),
        );
        let dn = ks_noise_sum(mask, noises, 7 * p) - ks_noise_sum(mask, noises, 7 * (p - 1));
        vstd::arithmetic::div_mod::lemma_add_mod_noop(
            ks_sum(mask, ksk, sk2, 7 * (p - 1)),
            sk1[p - 1] * a + dn,
            0x100000000,
        );
        vstd::arithmetic::div_mod::lemma_add_mod_noop(prev, sk1[p - 1] * a + dn, 0x100000000);
        vstd::arithmetic::div_mod::lemma_add_mod_noop(
            sk1[p - 1] * a,
            prev + dn,
            0x100000000,
        );
        vstd::arithmetic::div_mod::lemma_add_mod_noop(
            sk1[p - 1] * b,
            prev + dn,
            0x100000000,
        );
    }
}

/// Every balanced digit lies in `[-8, 16]`: the raw values `[8, 15]` are
/// rewritten as negatives, and only a saturated nibble with an incoming
/// carry reaches sixteen.
pub proof fn lemma_decomp_digit_bound(r: u32, j: nat)
    ensures
        -8 <= decomp_digit(r, j) <= 16,
{
    lemma_nib_bound(r, j);
    lemma_carry_bound(r, j);
    lemma_carry_bound(r, (j + 1) as nat);
}

/// The rounding drift of the key switch grows by at most `2^3` per key
/// position.
pub proof fn lemma_ks_round_dev_bound(mask: Seq<u32>, sk1: Seq<u32>, p: int)
    requires
        p >= 0,
    ensures
        -8 * p <= ks_round_dev(mask, sk1, p) <= 8 * p,
    decreases p,
{
    if p > 0 {
        lemma_ks_round_dev_bound(mask, sk1, p - 1);
        crate::utils::lemma_round_value_close(mask[p - 1]);
    }
}

/// The rounding drift of the modulus switch grows by at most `2^20` per
/// selected mask entry.
pub proof fn lemma_ms_mask_dev_bound(mask: Seq<u32>, sk: Seq<u32>, n: int)
    requires
        n >= 0,
    ensures
        -0x100000 * n <= ms_mask_dev(mask, sk, n) <= 0x100000 * n,
    decreases n,
{
    if n > 0 {
        lemma_ms_mask_dev_bound(mask, sk, n - 1);
        lemma_msround_close(mask[n - 1]);
    }
}

/// Key switching preserves the plaintext: a ciphertext under the first key
/// becomes one under the second, and it still decodes to the message as
/// long as the encryption noise, the rounding drift of the decomposition,
/// and the digit-weighted key noise together stay within the decoding
/// margin.
#[verifier::rlimit(100)]
pub proof fn lemma_keyswitch_decodes(
    c: LweCiphertext,
    r: LweCiphertext,
    ksk: Seq<LweCiphertext>,
    sk1: Seq<u32>,
    sk2: Seq<u32>,
    noises: Seq<i32>,
    msg: u8,
    e0: int,
)
    requires
        c.wf(),
        sk_wf(sk1, LWE_DIM as nat),
        ksk_wf(ksk, sk1, sk2, noises),
        msg < 16,
        c.phase(sk1) == w32(crate::utils::encode_spec(msg) + e0),
        r.phase(sk2) == w32(c.body - ks_sum(c.mask@, ksk, sk2, (7 * N) as int)),
        -0x4000000 <= e0 - ks_round_dev(c.mask@, sk1, N as int) - ks_noise_sum(
            c.mask@,
            noises,
            (7 * N) as int,
        ) <= 0x4000000,
    ensures
        crate::utils::decode_spec(r.phase(sk2)) == msg,
{
    broadcast use crate::modular::lemma_w32_mod;

    let n = N as int;
    lemma_ks_sum_value(c.mask@, ksk, sk1, sk2, noises, n);
    let ms = masked_sum(c.mask@, sk1, n);
    let dev = ks_round_dev(c.mask@, sk1, n);
    let noise = ks_noise_sum(c.mask@, noises, 7 * n);
    crate::modular::lemma_w32_congruent_sub_right(
        ks_sum(c.mask@, ksk, sk2, 7 * n),
        ms + dev + noise,
        c.body as int,
    );
    assert(r.phase(sk2) == w32(c.body - ms - (dev + noise)));
    crate::modular::lemma_w32_congruent_sub(
        (c.phase(sk1)) as int,
        c.body - ms,
        dev + noise,
    );
    crate::modular::lemma_w32_congruent_sub(
        (c.phase(sk1)) as int,
        crate::utils::encode_spec(msg) + e0,
        dev + noise,
    );
    assert(r.phase(sk2) == w32(crate::utils::encode_spec(msg) + e0 - (dev + noise)));
    crate::utils::lemma_decode_noisy(msg, e0 - dev - noise);
}

} // verus!
