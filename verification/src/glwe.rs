//! GLWE ciphertexts over `Z_q[X]/(X^N + 1)`: polynomial-form encryption,
//! homomorphic addition and subtraction, sample extraction into an LWE
//! ciphertext, and recoding of the secret key.

use crate::lwe::{masked_sum, sk_wf, LweCiphertext, LweSecretKey};
use crate::modular::{w32, wadd, wsub};
use crate::poly::{conv, conv_term, conv_upto, ResiduePoly};
use crate::{k, LWE_DIM, N};
use vstd::prelude::*;

verus! {

broadcast use
    crate::modular::lemma_wrapping_add_is_wadd,
    crate::modular::lemma_wrapping_sub_is_wsub,
    crate::modular::lemma_wrapping_add_signed_is_w32,
    crate::modular::lemma_w32_mod;

pub struct GlweCiphertext {
    pub mask: Vec<ResiduePoly>,
    pub body: ResiduePoly,
}

/// The GLWE secret key: `k` polynomials with binary coefficients.
pub struct SecretKey {
    pub polys: Vec<ResiduePoly>,
}

impl SecretKey {
    pub open spec fn wf(&self) -> bool {
        &&& self.polys.len() == k
        &&& forall|i: int| 0 <= i < k ==> (#[trigger] self.polys@[i]).wf()
        &&& forall|i: int, t: int|
            0 <= i < k && 0 <= t < N ==> #[trigger] self.polys@[i]@[t] <= 1
    }
}

/// Coefficient `t` of `sum_{j < jn} mask[j] * polys[j]` in the negacyclic
/// ring, over the unbounded integers.
pub open spec fn mask_dot(mask: Seq<ResiduePoly>, polys: Seq<ResiduePoly>, jn: int, t: int) -> int
    decreases jn,
{
    if jn <= 0 {
        0
    } else {
        mask_dot(mask, polys, jn - 1, t) + conv(mask[jn - 1]@, polys[jn - 1]@, t) - conv(
            mask[jn - 1]@,
            polys[jn - 1]@,
            t + N,
        )
    }
}

impl GlweCiphertext {
    pub open spec fn wf(&self) -> bool {
        &&& self.mask.len() == k
        &&& forall|i: int| 0 <= i < k ==> (#[trigger] self.mask@[i]).wf()
        &&& self.body.wf()
    }

    /// Coefficient `t` of the phase polynomial `body - sum mask[j] *
    /// sk[j]`: what decryption reads at `t = 0`, and, for a fresh
    /// encryption, the noisy plaintext there and zero elsewhere.
    pub open spec fn phase(&self, sk: SecretKey, t: int) -> u32 {
        w32(self.body@[t] - mask_dot(self.mask@, sk.polys@, k as int, t))
    }

    /// Encrypts `mu` under `sk`: uniformly random mask polynomials, and
    /// the body `sum mask[j] * sk[j] + (mu + noise) * X^0`. The caller
    /// supplies the (rounded Gaussian) noise sample.
    pub fn encrypt(mu: u32, sk: &SecretKey, noise: i32) -> (r: GlweCiphertext)
        requires
            sk.wf(),
        ensures
            r.wf(),
            r.phase(*sk, 0) == w32(mu + noise),
            forall|t: int| 1 <= t < N ==> #[trigger] r.phase(*sk, t) == 0,
    {
        let mut mask: Vec<ResiduePoly> = Vec::new();
        for i in 0..k
            invariant
                mask.len() == i,
                forall|j: int| 0 <= j < i ==> (#[trigger] mask@[j]).wf(),
        {
            mask.push(ResiduePoly::get_random());
        }

        let mut body = ResiduePoly::new();
        for i in 0..k
            invariant
                sk.wf(),
                mask.len() == k,
                forall|j: int| 0 <= j < k ==> (#[trigger] mask@[j]).wf(),
                body.wf(),
                forall|t: int| 0 <= t < N ==> #[trigger] body@[t] == w32(
                    mask_dot(mask@, sk.polys@, i as int, t),
                ),
        {
            let prod = mask[i].mul(&sk.polys[i]);
            let ghost prev = body;
            body.add_assign(&prod);
            proof {
                assert forall|t: int| 0 <= t < N implies #[trigger] body@[t] == w32(
                    mask_dot(mask@, sk.polys@, i + 1, t),
                ) by {
                    crate::modular::lemma_w32_congruent_add(
                        prev@[t] as int,
                        mask_dot(mask@, sk.polys@, i as int, t),
                        prod@[t] as int,
                    );
                    crate::modular::lemma_w32_congruent_add(
                        prod@[t] as int,
                        conv(mask@[i as int]@, sk.polys@[i as int]@, t) - conv(
                            mask@[i as int]@,
                            sk.polys@[i as int]@,
                            t + N,
                        ),
                        mask_dot(mask@, sk.polys@, i as int, t),
                    );
                }
            }
        }

        let mu_star = mu.wrapping_add_signed(noise);
        let ghost before = body;
        body.add_constant_assign(mu_star);

        let r = GlweCiphertext { mask, body };
        proof {
            let dot0 = mask_dot(r.mask@, sk.polys@, k as int, 0);
            crate::modular::lemma_w32_congruent_add(before@[0] as int, dot0, mu_star as int);
            crate::modular::lemma_w32_congruent_add(mu_star as int, mu + noise, dot0);
            crate::modular::lemma_w32_congruent_sub(r.body@[0] as int, dot0 + mu + noise, dot0);
            assert forall|t: int| 1 <= t < N implies #[trigger] r.phase(*sk, t) == 0 by {
                let dott = mask_dot(r.mask@, sk.polys@, k as int, t);
                crate::modular::lemma_w32_congruent_sub(r.body@[t] as int, dott, dott);
            }
        }
        r
    }

    /// Decryption: coefficient zero of the phase polynomial.
    pub fn decrypt(self, sk: &SecretKey) -> (r: u32)
        requires
            self.wf(),
            sk.wf(),
        ensures
            r == self.phase(*sk, 0),
    {
        let mut body = ResiduePoly::new();
        for i in 0..k
            invariant
                self.wf(),
                sk.wf(),
                body.wf(),
                forall|t: int| 0 <= t < N ==> #[trigger] body@[t] == w32(
                    mask_dot(self.mask@, sk.polys@, i as int, t),
                ),
        {
            let prod = self.mask[i].mul(&sk.polys[i]);
            let ghost prev = body;
            body.add_assign(&prod);
            proof {
                assert forall|t: int| 0 <= t < N implies #[trigger] body@[t] == w32(
                    mask_dot(self.mask@, sk.polys@, i + 1, t),
                ) by {
                    crate::modular::lemma_w32_congruent_add(
                        prev@[t] as int,
                        mask_dot(self.mask@, sk.polys@, i as int, t),
                        prod@[t] as int,
                    );
                    crate::modular::lemma_w32_congruent_add(
                        prod@[t] as int,
                        conv(self.mask@[i as int]@, sk.polys@[i as int]@, t) - conv(
                            self.mask@[i as int]@,
                            sk.polys@[i as int]@,
                            t + N,
                        ),
                        mask_dot(self.mask@, sk.polys@, i as int, t),
                    );
                }
            }
        }

        let mu_star = self.body.sub(&body);
        proof {
            let dot = mask_dot(self.mask@, sk.polys@, k as int, 0);
            assert(body@[0] == w32(dot));
            crate::modular::lemma_w32_congruent_sub_right(
                body@[0] as int,
                dot,
                self.body@[0] as int,
            );
            assert(mu_star@[0] == wsub(self.body@[0], body@[0]));
            assert(mu_star@[0] == w32(self.body@[0] - dot));
        }
        mu_star.coefs[0]
    }

    pub fn add(&self, rhs: &Self) -> (r: Self)
        requires
            self.wf(),
            rhs.wf(),
        ensures
            r.wf(),
            forall|j: int, t: int| 0 <= j < k && 0 <= t < N
                ==> #[trigger] r.mask@[j]@[t] == wadd(self.mask@[j]@[t], rhs.mask@[j]@[t]),
            forall|t: int| 0 <= t < N ==> #[trigger] r.body@[t] == wadd(
                self.body@[t],
                rhs.body@[t],
            ),
    {
        let mut mask: Vec<ResiduePoly> = Vec::new();
        for j in 0..k
            invariant
                self.wf(),
                rhs.wf(),
                mask.len() == j,
                forall|jj: int| 0 <= jj < j ==> (#[trigger] mask@[jj]).wf(),
                forall|jj: int, t: int| 0 <= jj < j && 0 <= t < N
                    ==> #[trigger] mask@[jj]@[t] == wadd(self.mask@[jj]@[t], rhs.mask@[jj]@[t]),
        {
            mask.push(self.mask[j].add(&rhs.mask[j]));
        }
        let body = self.body.add(&rhs.body);
        GlweCiphertext { mask, body }
    }

    pub fn sub(&self, rhs: &Self) -> (r: Self)
        requires
            self.wf(),
            rhs.wf(),
        ensures
            r.wf(),
            forall|j: int, t: int| 0 <= j < k && 0 <= t < N
                ==> #[trigger] r.mask@[j]@[t] == wsub(self.mask@[j]@[t], rhs.mask@[j]@[t]),
            forall|t: int| 0 <= t < N ==> #[trigger] r.body@[t] == wsub(
                self.body@[t],
                rhs.body@[t],
            ),
    {
        let mut mask: Vec<ResiduePoly> = Vec::new();
        for j in 0..k
            invariant
                self.wf(),
                rhs.wf(),
                mask.len() == j,
                forall|jj: int| 0 <= jj < j ==> (#[trigger] mask@[jj]).wf(),
                forall|jj: int, t: int| 0 <= jj < j && 0 <= t < N
                    ==> #[trigger] mask@[jj]@[t] == wsub(self.mask@[jj]@[t], rhs.mask@[jj]@[t]),
        {
            mask.push(self.mask[j].sub(&rhs.mask[j]));
        }
        let body = self.body.sub(&rhs.body);
        GlweCiphertext { mask, body }
    }

    /// Rewrites the GLWE ciphertext as an LWE ciphertext under the recoded
    /// key: the LWE mask takes the first mask polynomial's constant term,
    /// then its remaining coefficients reversed and negated, and the LWE
    /// body is the body's constant term.
    pub fn sample_extract(self) -> (r: LweCiphertext)
        requires
            self.wf(),
        ensures
            r.wf(),
            r.mask@[0] == self.mask@[0]@[0],
            forall|i: int| 1 <= i < LWE_DIM ==> #[trigger] r.mask@[i] == wsub(
                0,
                self.mask@[0]@[N - i],
            ),
            r.body == self.body@[0],
    {
        let mut mask: Vec<u32> = Vec::new();
        mask.push(self.mask[0].coefs[0]);
        for i in 1..LWE_DIM
            invariant
                self.wf(),
                mask.len() == i,
                mask@[0] == self.mask@[0]@[0],
                forall|t: int| 1 <= t < i ==> #[trigger] mask@[t] == wsub(
                    0,
                    self.mask@[0]@[N - t],
                ),
        {
            mask.push(0u32.wrapping_sub(self.mask[0].coefs[LWE_DIM - i]));
        }

        let body = self.body.coefs[0];

        LweCiphertext { mask, body }
    }
}

impl SecretKey {
    /// The LWE reading of the GLWE key: the coefficient vector of its
    /// single polynomial.
    pub fn recode(self) -> (r: LweSecretKey)
        requires
            self.wf(),
        ensures
            r@ == self.polys@[0]@,
            sk_wf(r@, LWE_DIM as nat),
    {
        let mut polys = self.polys;
        let first = polys.remove(0);
        let r = first.coefs;
        proof {
            assert(r@ == self.polys@[0]@);
            assert forall|i: int| 0 <= i < r@.len() implies r@[i] <= 1 by {
                assert(self.polys@[0]@[i] <= 1);
            }
        }
        r
    }
}

impl Default for GlweCiphertext {
    /// The all-zero ciphertext.
    fn default() -> (r: GlweCiphertext)
        ensures
            r.wf(),
            forall|j: int, t: int| 0 <= j < k && 0 <= t < N ==> #[trigger] r.mask@[j]@[t] == 0u32,
            forall|t: int| 0 <= t < N ==> #[trigger] r.body@[t] == 0u32,
    {
        let mut mask: Vec<ResiduePoly> = Vec::new();
        for j in 0..k
            invariant
                mask.len() == j,
                forall|jj: int| 0 <= jj < j ==> (#[trigger] mask@[jj]).wf(),
                forall|jj: int, t: int| 0 <= jj < j && 0 <= t < N ==> #[trigger] mask@[jj]@[t]
                    == 0u32,
        {
            mask.push(ResiduePoly::new());
        }
        GlweCiphertext { mask, body: ResiduePoly::new() }
    }
}

/// A fresh GLWE secret key: `k` polynomials of uniformly random bits.
pub fn keygen() -> (r: SecretKey)
    ensures
        r.wf(),
{
    let mut polys: Vec<ResiduePoly> = Vec::new();
    for i in 0..k
        invariant
            polys.len() == i,
            forall|j: int| 0 <= j < i ==> (#[trigger] polys@[j]).wf(),
            forall|j: int, t: int| 0 <= j < i && 0 <= t < N ==> #[trigger] polys@[j]@[t] <= 1,
    {
        polys.push(ResiduePoly::get_random_bin());
    }
    SecretKey { polys }
}

/// Adding GLWE ciphertexts adds their phase polynomials coefficient-wise.
#[verifier::rlimit(100)]
pub proof fn lemma_glwe_phase_add(
    c1: GlweCiphertext,
    c2: GlweCiphertext,
    r: GlweCiphertext,
    sk: SecretKey,
    t: int,
)
    requires
        c1.wf(),
        c2.wf(),
        r.wf(),
        sk.wf(),
        0 <= t < N,
        forall|j: int, tt: int| 0 <= j < k && 0 <= tt < N
            ==> #[trigger] r.mask@[j]@[tt] == wadd(c1.mask@[j]@[tt], c2.mask@[j]@[tt]),
        forall|tt: int| 0 <= tt < N ==> #[trigger] r.body@[tt] == wadd(
            c1.body@[tt],
            c2.body@[tt],
        ),
    ensures
        r.phase(sk, t) == wadd(c1.phase(sk, t), c2.phase(sk, t)),
{
    broadcast use crate::modular::lemma_w32_mod;

    let s = sk.polys@[0]@;
    let ma = c1.mask@[0]@;
    let mb = c2.mask@[0]@;
    let mr = r.mask@[0]@;
    crate::poly::lemma_conv_padd_left(mr, ma, mb, s, t);
    crate::poly::lemma_conv_padd_left(mr, ma, mb, s, t + N);
    let da = conv(ma, s, t) - conv(ma, s, t + N);
    let db = conv(mb, s, t) - conv(mb, s, t + N);
    let dr = mask_dot(r.mask@, sk.polys@, k as int, t);
    assert(mask_dot(r.mask@, sk.polys@, 0, t) == 0);
    assert(mask_dot(c1.mask@, sk.polys@, 0, t) == 0);
    assert(mask_dot(c2.mask@, sk.polys@, 0, t) == 0);
    assert(dr == conv(mr, s, t) - conv(mr, s, t + N));
    assert(mask_dot(c1.mask@, sk.polys@, k as int, t) == da);
    assert(mask_dot(c2.mask@, sk.polys@, k as int, t) == db);
    vstd::arithmetic::div_mod::lemma_sub_mod_noop(
        conv(mr, s, t),
        conv(mr, s, t + N),
        0x100000000,
    );
    vstd::arithmetic::div_mod::lemma_sub_mod_noop(
        conv(ma, s, t) + conv(mb, s, t),
        conv(ma, s, t + N) + conv(mb, s, t + N),
        0x100000000,
    );
    assert(dr % 0x100000000 == (da + db) % 0x100000000);
    crate::modular::lemma_w32_congruent_sub(
        r.body@[t] as int,
        c1.body@[t] + c2.body@[t],
        dr,
    );
    crate::modular::lemma_w32_congruent_sub_right(
        dr,
        da + db,
        c1.body@[t] + c2.body@[t],
    );
    crate::modular::lemma_w32_congruent_add(
        (c1.phase(sk, t)) as int,
        c1.body@[t] - da,
        (c2.phase(sk, t)) as int,
    );
    crate::modular::lemma_w32_congruent_add(
        (c2.phase(sk, t)) as int,
        c2.body@[t] - db,
        c1.body@[t] - da,
    );
}

/// Subtracting GLWE ciphertexts subtracts their phase polynomials
/// coefficient-wise.
#[verifier::rlimit(100)]
pub proof fn lemma_glwe_phase_sub(
    c1: GlweCiphertext,
    c2: GlweCiphertext,
    r: GlweCiphertext,
    sk: SecretKey,
    t: int,
)
    requires
        c1.wf(),
        c2.wf(),
        r.wf(),
        sk.wf(),
        0 <= t < N,
        forall|j: int, tt: int| 0 <= j < k && 0 <= tt < N
            ==> #[trigger] r.mask@[j]@[tt] == wsub(c1.mask@[j]@[tt], c2.mask@[j]@[tt]),
        forall|tt: int| 0 <= tt < N ==> #[trigger] r.body@[tt] == wsub(
            c1.body@[tt],
            c2.body@[tt],
        ),
    ensures
        r.phase(sk, t) == wsub(c1.phase(sk, t), c2.phase(sk, t)),
{
    broadcast use crate::modular::lemma_w32_mod;

    let s = sk.polys@[0]@;
    let ma = c1.mask@[0]@;
    let mb = c2.mask@[0]@;
    let mr = r.mask@[0]@;
    crate::poly::lemma_conv_psub_left(mr, ma, mb, s, t);
    crate::poly::lemma_conv_psub_left(mr, ma, mb, s, t + N);
    let da = conv(ma, s, t) - conv(ma, s, t + N);
    let db = conv(mb, s, t) - conv(mb, s, t + N);
    let dr = mask_dot(r.mask@, sk.polys@, k as int, t);
    assert(mask_dot(r.mask@, sk.polys@, 0, t) == 0);
    assert(mask_dot(c1.mask@, sk.polys@, 0, t) == 0);
    assert(mask_dot(c2.mask@, sk.polys@, 0, t) == 0);
    assert(dr == conv(mr, s, t) - conv(mr, s, t + N));
    assert(mask_dot(c1.mask@, sk.polys@, k as int, t) == da);
    assert(mask_dot(c2.mask@, sk.polys@, k as int, t) == db);
    vstd::arithmetic::div_mod::lemma_sub_mod_noop(
        conv(mr, s, t),
        conv(mr, s, t + N),
        0x100000000,
    );
    vstd::arithmetic::div_mod::lemma_sub_mod_noop(
        conv(ma, s, t) - conv(mb, s, t),
        conv(ma, s, t + N) - conv(mb, s, t + N),
        0x100000000,
    );
    assert(dr % 0x100000000 == (da - db) % 0x100000000);
    crate::modular::lemma_w32_congruent_sub(
        r.body@[t] as int,
        c1.body@[t] - c2.body@[t],
        dr,
    );
    crate::modular::lemma_w32_congruent_sub_right(
        dr,
        da - db,
        c1.body@[t] - c2.body@[t],
    );
    crate::modular::lemma_w32_congruent_sub(
        (c1.phase(sk, t)) as int,
        c1.body@[t] - da,
        (c2.phase(sk, t)) as int,
    );
    crate::modular::lemma_w32_congruent_sub_right(
        (c2.phase(sk, t)) as int,
        c2.body@[t] - db,
        c1.body@[t] - da,
    );
}

/// Round trip of GLWE: a ciphertext whose phase carries an encoded message
/// with noise of magnitude at most `2^26` in its constant coefficient
/// decrypts and decodes to the message.
pub proof fn lemma_glwe_round_trip(c: GlweCiphertext, sk: SecretKey, msg: u8, e: int)
    requires
        msg < 16,
        -0x4000000 <= e <= 0x4000000,
        c.phase(sk, 0) == w32(crate::utils::encode_spec(msg) + e),
    ensures
        crate::utils::decode_spec(c.phase(sk, 0)) == msg,
{
    crate::utils::lemma_decode_noisy(msg, e);
}

/// Homomorphic addition of GLWE: the sum of two fresh encryptions decrypts
/// and decodes to the sum of the messages modulo 16.
pub proof fn lemma_glwe_add_decodes(
    c1: GlweCiphertext,
    c2: GlweCiphertext,
    r: GlweCiphertext,
    sk: SecretKey,
    m1: u8,
    m2: u8,
    e1: int,
    e2: int,
)
    requires
        c1.wf(),
        c2.wf(),
        r.wf(),
        sk.wf(),
        m1 < 16,
        m2 < 16,
        -0x4000000 <= e1 + e2 <= 0x4000000,
        forall|j: int, tt: int| 0 <= j < k && 0 <= tt < N
            ==> #[trigger] r.mask@[j]@[tt] == wadd(c1.mask@[j]@[tt], c2.mask@[j]@[tt]),
        forall|tt: int| 0 <= tt < N ==> #[trigger] r.body@[tt] == wadd(
            c1.body@[tt],
            c2.body@[tt],
        ),
        c1.phase(sk, 0) == w32(crate::utils::encode_spec(m1) + e1),
        c2.phase(sk, 0) == w32(crate::utils::encode_spec(m2) + e2),
    ensures
        crate::utils::decode_spec(r.phase(sk, 0)) as int == (m1 + m2) % 16,
{
    lemma_glwe_phase_add(c1, c2, r, sk, 0);
    crate::modular::lemma_w32_add(
        crate::utils::encode_spec(m1) + e1,
        crate::utils::encode_spec(m2) + e2,
    );
    crate::utils::lemma_sum_decodes(m1, m2, e1 + e2);
}

/// Homomorphic subtraction of GLWE: the difference of two fresh
/// encryptions decrypts and decodes to the difference of the messages
/// modulo 16.
pub proof fn lemma_glwe_sub_decodes(
    c1: GlweCiphertext,
    c2: GlweCiphertext,
    r: GlweCiphertext,
    sk: SecretKey,
    m1: u8,
    m2: u8,
    e1: int,
    e2: int,
)
    requires
        c1.wf(),
        c2.wf(),
        r.wf(),
        sk.wf(),
        m1 < 16,
        m2 < 16,
        -0x4000000 <= e1 - e2 <= 0x4000000,
        forall|j: int, tt: int| 0 <= j < k && 0 <= tt < N
            ==> #[trigger] r.mask@[j]@[tt] == wsub(c1.mask@[j]@[tt], c2.mask@[j]@[tt]),
        forall|tt: int| 0 <= tt < N ==> #[trigger] r.body@[tt] == wsub(
            c1.body@[tt],
            c2.body@[tt],
        ),
        c1.phase(sk, 0) == w32(crate::utils::encode_spec(m1) + e1),
        c2.phase(sk, 0) == w32(crate::utils::encode_spec(m2) + e2),
    ensures
        crate::utils::decode_spec(r.phase(sk, 0)) as int == (m1 - m2) % 16,
{
    lemma_glwe_phase_sub(c1, c2, r, sk, 0);
    crate::modular::lemma_w32_sub(
        crate::utils::encode_spec(m1) + e1,
        crate::utils::encode_spec(m2) + e2,
    );
    crate::utils::lemma_diff_decodes(m1, m2, e1 - e2);
}

proof fn lemma_conv_upto_at0(m: Seq<u32>, s: Seq<u32>, n: int)
    requires
        m.len() > 0,
        s.len() > 0,
    ensures
        conv_upto(m, s, 0, n) == if n >= 1 {
            m[0] * s[0]
        } else {
            0
        },
    decreases n,
{
    if n > 0 {
        lemma_conv_upto_at0(m, s, n - 1);
        if n - 1 >= 1 {
            assert(conv_term(m, s, 0, n - 1) == 0);
        }
    }
}

#[verifier::rlimit(100)]
proof fn lemma_extract_sum(m: Seq<u32>, s: Seq<u32>, ext: Seq<u32>, n: int)
    requires
        m.len() == N,
        s.len() == N,
        ext.len() == N,
        forall|i: int| 0 <= i < N ==> s[i] <= 1,
        ext[0] == m[0],
        forall|i: int| 1 <= i < N ==> ext[i] == wsub(0, m[N - i]),
        1 <= n <= N,
    ensures
        masked_sum(ext, s, n) % 0x100000000 == ((if s[0] == 1 {
            m[0] as int
        } else {
            0
        }) - (conv(m, s, N as int) - conv_upto(m, s, N as int, N - n + 1))) % 0x100000000,
    decreases n,
{
    broadcast use crate::modular::lemma_w32_mod;

    if n == 1 {
        assert(masked_sum(ext, s, 0) == 0);
        assert(conv(m, s, N as int) == conv_upto(m, s, N as int, N as int));
        vstd::arithmetic::div_mod::lemma_small_mod(0, 0x100000000);
        if s[0] == 1 {
            vstd::arithmetic::div_mod::lemma_small_mod(m[0] as nat, 0x100000000);
        }
    } else {
        lemma_extract_sum(m, s, ext, n - 1);
        let head = if s[0] == 1 {
            m[0] as int
        } else {
            0
        };
        let j = N - n + 1;
        assert(conv_upto(m, s, N as int, j + 1) == conv_upto(m, s, N as int, j) + conv_term(
            m,
            s,
            N as int,
            j,
        ));
        assert(conv_term(m, s, N as int, j) == m[j] * s[n - 1]);
        let tail = if s[n - 1] == 1 {
            ext[n - 1] as int
        } else {
            0
        };
        assert(tail % 0x100000000 == (0 - m[j] * s[n - 1]) % 0x100000000) by {
            if s[n - 1] == 1 {
                assert(ext[n - 1] == wsub(0, m[N - (n - 1)]));
                assert(N - (n - 1) == j);
                assert(m[j] * 1 == m[j]);
            } else {
                assert(m[j] * 0 == 0);
                vstd::arithmetic::div_mod::lemma_small_mod(0, 0x100000000);
            }
        }
        vstd::arithmetic::div_mod::lemma_add_mod_noop(
            masked_sum(ext, s, n - 1),
            tail,
            0x100000000,
        );
        vstd::arithmetic::div_mod::lemma_add_mod_noop(
            head - (conv(m, s, N as int) - conv_upto(m, s, N as int, j - 1 + 1)),
            0 - m[j] * s[n - 1],
            0x100000000,
        );
    }
}

/// Sample extraction preserves the plaintext exactly: the extracted LWE
/// ciphertext's phase under the recoded key equals the constant
/// coefficient of the GLWE ciphertext's phase.
#[verifier::rlimit(100)]
pub proof fn lemma_sample_extract_phase(c: GlweCiphertext, lwe: LweCiphertext, sk: SecretKey)
    requires
        c.wf(),
        lwe.wf(),
        sk.wf(),
        lwe.mask@[0] == c.mask@[0]@[0],
        forall|i: int| 1 <= i < LWE_DIM ==> #[trigger] lwe.mask@[i] == wsub(
            0,
            c.mask@[0]@[N - i],
        ),
        lwe.body == c.body@[0],
    ensures
        lwe.phase(sk.polys@[0]@) == c.phase(sk, 0),
{
    broadcast use crate::modular::lemma_w32_mod;

    let m = c.mask@[0]@;
    let s = sk.polys@[0]@;
    lemma_extract_sum(m, s, lwe.mask@, N as int);
    assert(conv_upto(m, s, N as int, 0) == 0);
    assert(conv_upto(m, s, N as int, 1) == conv_term(m, s, N as int, 0));
    assert(conv_term(m, s, N as int, 0) == 0);
    lemma_conv_upto_at0(m, s, N as int);
    assert(conv(m, s, 0) == m[0] * s[0]);
    let head = if s[0] == 1 {
        m[0] as int
    } else {
        0
    };
    assert(head == m[0] * s[0]) by {
        if s[0] == 1 {
            assert(m[0] * 1 == m[0]);
        } else {
            assert(m[0] * 0 == 0);
        }
    }
    assert(mask_dot(c.mask@, sk.polys@, 0, 0) == 0);
    assert(mask_dot(c.mask@, sk.polys@, k as int, 0) == conv(m, s, 0) - conv(m, s, N as int));
    crate::modular::lemma_w32_congruent_sub_right(
        masked_sum(lwe.mask@, s, LWE_DIM as int),
        conv(m, s, 0) - conv(m, s, N as int),
        lwe.body as int,
    );
}

} // verus!
