//! GGSW ciphertexts: a stack of GLWE encryptions of zero carrying the
//! message against the gadget `(q/B, q/B^2)`, the external product with a
//! GLWE ciphertext, and through it the homomorphic multiplexer.

use crate::glwe::{lemma_glwe_phase_add, mask_dot, GlweCiphertext, SecretKey};
use crate::lwe::round_high16_spec;
use crate::modular::{w32, wadd};
use crate::poly::{conv, conv_term, conv_upto, lemma_conv_bump0, lemma_conv_padd_left, ResiduePoly};
use crate::{k, ELL, N};
use vstd::prelude::*;

verus! {

broadcast use
    crate::modular::lemma_wrapping_add_is_wadd,
    crate::modular::lemma_wrapping_sub_is_wsub,
    crate::modular::lemma_w32_mod;

/// The signed low byte of a rounded word: the low-order digit of its
/// balanced base-256 decomposition.
pub open spec fn g_lo(rr: u32) -> int {
    if rr % 256 >= 128 {
        rr % 256 - 256
    } else {
        (rr % 256) as int
    }
}

/// The signed high digit: the second base-256 digit plus the carry from
/// the low one, read as a signed byte.
pub open spec fn g_hi(rr: u32) -> int {
    let h = ((rr / 256) + if rr % 256 >= 128 {
        1int
    } else {
        0int
    }) % 256;
    if h >= 128 {
        h - 256
    } else {
        h
    }
}

/// The two balanced digits reconstruct the rounded word modulo `2^16`.
pub proof fn lemma_g_digits_reconstruct(rr: u32)
    requires
        rr <= 0x10000,
    ensures
        (g_lo(rr) + 256 * g_hi(rr)) % 0x10000 == (rr as int) % 0x10000,
{
    let lo = g_lo(rr);
    let c = if rr % 256 >= 128 {
        1int
    } else {
        0int
    };
    let h0 = (rr / 256) + c;
    let h = h0 % 256;
    vstd::arithmetic::div_mod::lemma_fundamental_div_mod(rr as int, 256);
    // lo + 256 * (h0 % 256) is congruent to lo + 256 * h0 modulo 2^16
    vstd::arithmetic::div_mod::lemma_fundamental_div_mod(h0, 256);
    let q = h0 / 256;
    assert(256 * h0 == 256 * (256 * q + h)) by (nonlinear_arith)
        requires
            h0 == 256 * q + h,
    ;
    assert(256 * (256 * q + h) == 0x10000 * q + 256 * h) by (nonlinear_arith);
    if g_hi(rr) == h {
        vstd::arithmetic::div_mod::lemma_mod_multiples_vanish(q, lo + 256 * h, 0x10000);
        vstd::arithmetic::div_mod::lemma_mod_multiples_vanish(0, rr as int, 0x10000);
    } else {
        // the high digit wrapped: it differs from h by 256, worth 2^16
        vstd::arithmetic::div_mod::lemma_mod_multiples_vanish(
            q - 1,
            lo + 256 * g_hi(rr) + 0x10000,
            0x10000,
        );
        assert(lo + 256 * h + 0x10000 * q == lo + 256 * g_hi(rr) + 0x10000 * (q + 1));
        vstd::arithmetic::div_mod::lemma_mod_multiples_vanish(
            q + 1,
            lo + 256 * g_hi(rr),
            0x10000,
        );
        vstd::arithmetic::div_mod::lemma_mod_multiples_vanish(0, rr as int, 0x10000);
    }
    assert(lo + 256 * c + 256 * (rr as int / 256) == rr % 256 + 256 * (rr as int / 256));
}

/// Scaled back up by `2^16`, the rounded word differs from the original
/// by at most `2^15`.
pub proof fn lemma_round_high16_close(val: u32)
    ensures
        0x10000 * round_high16_spec(val) >= val - 0x8000,
        0x10000 * round_high16_spec(val) <= val + 0x8000,
        round_high16_spec(val) <= 0x10000,
{
    assert(0x10000 * ((((val >> 15) + ((val >> 15) & 1)) as u32) >> 1) >= val - 0x8000
        && 0x10000 * ((((val >> 15) + ((val >> 15) & 1)) as u32) >> 1) <= val + 0x8000 && ((((val
        >> 15) + ((val >> 15) & 1)) as u32) >> 1) <= 0x10000) by (bit_vector);
}

/// The decomposition contract of the external-product profile: the two
/// signed digits, written back into their byte slots at the top of the
/// word, reconstruct sixteen-bit rounding of the word modulo `2^32` — and
/// that rounding sits within `2^15` of the word itself.
pub proof fn lemma_gadget_close(val: u32)
    ensures
        (0x1000000 * g_hi(round_high16_spec(val)) + 0x10000 * g_lo(round_high16_spec(val)))
            % 0x100000000 == (0x10000 * round_high16_spec(val)) % 0x100000000,
        0x10000 * round_high16_spec(val) >= val - 0x8000,
        0x10000 * round_high16_spec(val) <= val + 0x8000,
{
    let rr = round_high16_spec(val);
    lemma_round_high16_close(val);
    lemma_g_digits_reconstruct(rr);
    let s = g_lo(rr) + 256 * g_hi(rr);
    // the reconstruction differs from the rounded word by a multiple of 2^16
    vstd::arithmetic::div_mod::lemma_sub_mod_noop(s, rr as int, 0x10000);
    assert((s - rr) % 0x10000 == 0);
    vstd::arithmetic::div_mod::lemma_fundamental_div_mod(s - rr, 0x10000);
    let t = (s - rr) / 0x10000;
    assert(0x10000 * s == 0x10000 * rr + 0x100000000 * t) by (nonlinear_arith)
        requires
            s - rr == 0x10000 * t,
    ;
    vstd::arithmetic::div_mod::lemma_mod_multiples_vanish(t, 0x10000 * rr, 0x100000000);
    assert(0x10000 * s == 0x1000000 * g_hi(rr) + 0x10000 * g_lo(rr)) by (nonlinear_arith)
        requires
            s == g_lo(rr) + 256 * g_hi(rr),
    ;
}

/// Approximate decomposition with `B = 256` and `ell = 2`: rounds the word
/// to its top 16 bits and splits them into two signed bytes, low digit
/// first.
fn decomposition(val: u32) -> (r: (i8, i8))
    ensures
        r.0 as int == g_lo(round_high16_spec(val)),
        r.1 as int == g_hi(round_high16_spec(val)),
{
    assert((val >> 15) + ((val >> 15) & 1) < 0x40000) by (bit_vector);
    let mut rounded_val = val >> 15;
    rounded_val += rounded_val & 1;
    rounded_val = rounded_val >> 1;
    proof {
        assert(rounded_val == round_high16_spec(val));
        assert((((val >> 15) + ((val >> 15) & 1)) as u32) >> 1 <= 0x10000) by (bit_vector);
    }
    let lo: i8 = #[verifier::truncate] (rounded_val as i8);
    proof {
        assert(lo as int == (if rounded_val % 256 >= 128 {
            rounded_val % 256 - 256
        } else {
            (rounded_val % 256) as int
        })) by (bit_vector)
            requires
                lo == #[verifier::truncate] (rounded_val as i8),
        ;
    }
    assert(rounded_val >> 8 < 0x1000000) by (bit_vector);
    let hi: i8;
    if rounded_val & 128 == 128 {
        hi = #[verifier::truncate] (((rounded_val >> 8) + 1) as i8);
        proof {
            assert(hi as int == (if ((rounded_val / 256) + 1) % 256 >= 128 {
                ((rounded_val / 256) + 1) % 256 - 256
            } else {
                ((rounded_val / 256) + 1) % 256
            }) && (rounded_val % 256 >= 128)) by (bit_vector)
                requires
                    hi == #[verifier::truncate] (((rounded_val >> 8) + 1) as i8) && rounded_val
                        & 128 == 128 && rounded_val <= 0x10000,
            ;
        }
    } else {
        hi = #[verifier::truncate] ((rounded_val >> 8) as i8);
        proof {
            assert(hi as int == (if ((rounded_val / 256) + 0) % 256 >= 128 {
                ((rounded_val / 256) + 0) % 256 - 256
            } else {
                ((rounded_val / 256) + 0) % 256
            }) && !(rounded_val % 256 >= 128)) by (bit_vector)
                requires
                    hi == #[verifier::truncate] ((rounded_val >> 8) as i8) && rounded_val & 128
                        != 128 && rounded_val <= 0x10000,
            ;
        }
    }
    (lo, hi)
}

/// The word stored for a signed digit: its two's-complement reading.
fn sign_extend(x: i8) -> (r: u32)
    ensures
        r == w32(x as int),
{
    let r = #[verifier::truncate] (x as u32);
    proof {
        assert((x >= 0 ==> r == x as int) && (x < 0 ==> r == x + 0x100000000)) by (bit_vector)
            requires
                r == #[verifier::truncate] (x as u32),
        ;
        if x >= 0 {
            vstd::arithmetic::div_mod::lemma_small_mod((x as int) as nat, 0x100000000);
        } else {
            vstd::arithmetic::div_mod::lemma_mod_add_multiples_vanish(x as int, 0x100000000);
            vstd::arithmetic::div_mod::lemma_small_mod((x + 0x100000000) as nat, 0x100000000);
        }
    }
    r
}

/// The digit that row `row` of the gadget-decomposed ciphertext holds at
/// coefficient `i`: the high then the low digit of each mask polynomial,
/// then of the body.
pub open spec fn g_inv_coef(ct: GlweCiphertext, row: int, i: int) -> u32 {
    if row < k * ELL {
        if row % 2 == 0 {
            w32(g_hi(round_high16_spec(ct.mask@[row / 2]@[i])))
        } else {
            w32(g_lo(round_high16_spec(ct.mask@[row / 2]@[i])))
        }
    } else {
        if row % 2 == 0 {
            w32(g_hi(round_high16_spec(ct.body@[i])))
        } else {
            w32(g_lo(round_high16_spec(ct.body@[i])))
        }
    }
}

/// The gadget decomposition of a whole GLWE ciphertext: `(k + 1) * ELL`
/// polynomials of signed digits, ready to be paired with the GGSW rows.
fn apply_g_inverse(ct: &GlweCiphertext) -> (r: Vec<ResiduePoly>)
    requires
        ct.wf(),
    ensures
        r.len() == (k + 1) * ELL,
        forall|row: int| 0 <= row < (k + 1) * ELL ==> (#[trigger] r@[row]).wf(),
        forall|row: int, i: int| 0 <= row < (k + 1) * ELL && 0 <= i < N
            ==> #[trigger] r@[row]@[i] == g_inv_coef(*ct, row, i),
{
    let mut r: Vec<ResiduePoly> = Vec::new();

    for j in 0..k
        invariant
            ct.wf(),
            r.len() == 2 * j,
            forall|row: int| 0 <= row < 2 * j ==> (#[trigger] r@[row]).wf(),
            forall|row: int, i: int| 0 <= row < 2 * j && 0 <= i < N
                ==> #[trigger] r@[row]@[i] == g_inv_coef(*ct, row, i),
    {
        let mut hi_coefs: Vec<u32> = Vec::new();
        let mut lo_coefs: Vec<u32> = Vec::new();
        for i in 0..N
            invariant
                ct.wf(),
                j < k,
                hi_coefs.len() == i,
                lo_coefs.len() == i,
                forall|t: int| 0 <= t < i ==> #[trigger] hi_coefs@[t] == w32(
                    g_hi(round_high16_spec(ct.mask@[j as int]@[t])),
                ),
                forall|t: int| 0 <= t < i ==> #[trigger] lo_coefs@[t] == w32(
                    g_lo(round_high16_spec(ct.mask@[j as int]@[t])),
                ),
        {
            let (nu_2, nu_1) = decomposition(ct.mask[j].coefs[i]);
            hi_coefs.push(sign_extend(nu_1));
            lo_coefs.push(sign_extend(nu_2));
        }
        r.push(ResiduePoly { coefs: hi_coefs });
        r.push(ResiduePoly { coefs: lo_coefs });
        proof {
            assert forall|row: int, i: int| 0 <= row < 2 * (j + 1) && 0 <= i < N implies
                #[trigger] r@[row]@[i] == g_inv_coef(*ct, row, i) by {
                if row < 2 * j {
                } else {
                    assert(row / 2 == j as int) by {
                        vstd::arithmetic::div_mod::lemma_fundamental_div_mod_converse(
                            row,
                            2,
                            j as int,
                            row - 2 * j,
                        );
                    }
                }
            }
        }
    }

    let mut hi_coefs: Vec<u32> = Vec::new();
    let mut lo_coefs: Vec<u32> = Vec::new();
    for i in 0..N
        invariant
            ct.wf(),
            hi_coefs.len() == i,
            lo_coefs.len() == i,
            forall|t: int| 0 <= t < i ==> #[trigger] hi_coefs@[t] == w32(
                g_hi(round_high16_spec(ct.body@[t])),
            ),
            forall|t: int| 0 <= t < i ==> #[trigger] lo_coefs@[t] == w32(
                g_lo(round_high16_spec(ct.body@[t])),
            ),
    {
        let (nu_2, nu_1) = decomposition(ct.body.coefs[i]);
        hi_coefs.push(sign_extend(nu_1));
        lo_coefs.push(sign_extend(nu_2));
    }
    let ghost before = r@;
    r.push(ResiduePoly { coefs: hi_coefs });
    r.push(ResiduePoly { coefs: lo_coefs });
    proof {
        assert forall|row: int, i: int| 0 <= row < (k + 1) * ELL && 0 <= i < N implies
            #[trigger] r@[row]@[i] == g_inv_coef(*ct, row, i) by {
            if row < k * ELL {
                assert(r@[row] == before[row]);
            } else {
                assert(row == k * ELL || row == k * ELL + 1);
                assert(row % 2 == (if row == k * ELL {
                    0int
                } else {
                    1int
                }));
            }
        }
    }
    r
}

/// The gadget entry for row `i`: the message scaled into the byte slot
/// that row's digit level addresses.
pub open spec fn gadget_factor(msg: u8, i: int) -> u32 {
    if i % 2 == 0 {
        (msg as u32) << 24
    } else {
        (msg as u32) << 16
    }
}

/// What holds of row `i` of a fresh GGSW encryption: a GLWE encryption of
/// zero whose phase additionally carries the gadget entry, against the
/// matching key polynomial for the mask rows and directly for the body
/// rows.
pub open spec fn ggsw_row_ok(
    rows: Seq<GlweCiphertext>,
    msg: u8,
    sk: SecretKey,
    noises: Seq<i32>,
    i: int,
) -> bool {
    &&& rows[i].wf()
    &&& forall|t: int| 0 <= t < N ==> #[trigger] rows[i].phase(sk, t) == w32(
        (if t == 0 {
            noises[i] as int
        } else {
            0
        }) + (if i >= k * ELL && t == 0 {
            gadget_factor(msg, i) as int
        } else {
            0
        }) - (if i < k * ELL {
            gadget_factor(msg, i) * sk.polys@[i / (ELL as int)]@[t]
        } else {
            0
        }),
    )
}

pub struct GgswCiphertext {
    pub z_m_gt: Vec<GlweCiphertext>,
}

impl GgswCiphertext {
    pub open spec fn wf(&self) -> bool {
        &&& self.z_m_gt.len() == (k + 1) * ELL
        &&& forall|i: int| 0 <= i < (k + 1) * ELL ==> (#[trigger] self.z_m_gt@[i]).wf()
    }

    /// Encrypts a 4-bit message: `(k + 1) * ELL` fresh GLWE encryptions
    /// of zero, with the scaled message added to the constant term of the
    /// mask polynomials in the first `k * ELL` rows and to the body's in
    /// the rest. The caller supplies one noise sample per row.
    #[verifier::rlimit(100)]
    pub fn encrypt(msg: u8, sk: &SecretKey, noises: &Vec<i32>) -> (r: Self)
        requires
            sk.wf(),
            noises.len() == (k + 1) * ELL,
        ensures
            r.wf(),
            forall|i: int| 0 <= i < (k + 1) * ELL
                ==> #[trigger] ggsw_row_ok(r.z_m_gt@, msg, *sk, noises@, i),
    {
        let mut z_m_gt: Vec<GlweCiphertext> = Vec::new();

        for i in 0..(k + 1) * ELL
            invariant
                sk.wf(),
                noises.len() == (k + 1) * ELL,
                z_m_gt.len() == i,
                forall|r: int| 0 <= r < i ==> #[trigger] ggsw_row_ok(z_m_gt@, msg, *sk, noises@, r),
        {
            let ghost old_rows = z_m_gt@;
            let row = GlweCiphertext::encrypt(0u32, sk, noises[i]);
            let mg = if i % ELL == 0 {
                (msg as u32) << 24
            } else {
                (msg as u32) << 16
            };
            let bumped: GlweCiphertext;
            if i < k * ELL {
                let mut mask: Vec<ResiduePoly> = Vec::new();
                for j in 0..k
                    invariant
                        row.wf(),
                        mask.len() == j,
                        forall|jj: int| 0 <= jj < j ==> (#[trigger] mask@[jj]).wf(),
                        forall|jj: int| 0 <= jj < j ==> #[trigger] mask@[jj]@[0] == wadd(
                            row.mask@[jj]@[0],
                            mg,
                        ),
                        forall|jj: int, t: int| 0 <= jj < j && 1 <= t < N
                            ==> #[trigger] mask@[jj]@[t] == row.mask@[jj]@[t],
                {
                    mask.push(row.mask[j].add_constant(mg));
                }
                bumped = GlweCiphertext { mask, body: row.body };
                proof {
                    lemma_bump_mask_phase(row, bumped, *sk, mg);
                }
            } else {
                let mut body = row.body;
                body.add_constant_assign(mg);
                bumped = GlweCiphertext { mask: row.mask, body };
                proof {
                    lemma_bump_body_phase(row, bumped, *sk, mg);
                }
            }
            z_m_gt.push(bumped);
            proof {
                let gi = i as int;
                assert forall|r: int| 0 <= r < gi + 1 implies #[trigger] ggsw_row_ok(
                    z_m_gt@,
                    msg,
                    *sk,
                    noises@,
                    r,
                ) by {
                    if r < gi {
                        assert(z_m_gt@[r] == old_rows[r]);
                        assert(ggsw_row_ok(old_rows, msg, *sk, noises@, r));
                    } else {
                        assert(z_m_gt@[gi] == bumped);
                        assert(gadget_factor(msg, gi) == mg);
                        assert forall|t: int| 0 <= t < N implies #[trigger] bumped.phase(*sk, t)
                            == w32(
                            (if t == 0 {
                                noises@[gi] as int
                            } else {
                                0
                            }) + (if gi >= k * ELL && t == 0 {
                                mg as int
                            } else {
                                0
                            }) - (if gi < k * ELL {
                                mg * sk.polys@[gi / (ELL as int)]@[t]
                            } else {
                                0
                            }),
                        ) by {
                            let base = if t == 0 {
                                noises@[gi] as int
                            } else {
                                0
                            };
                            if gi < k * ELL {
                                assert(gi / (ELL as int) == 0);
                                let s = sk.polys@[0]@;
                                crate::modular::lemma_w32_congruent_sub(
                                    (row.phase(*sk, t)) as int,
                                    base,
                                    mg * s[t],
                                );
                            } else {
                                if t == 0 {
                                    crate::modular::lemma_w32_congruent_add(
                                        (row.phase(*sk, 0)) as int,
                                        base,
                                        mg as int,
                                    );
                                } else {
                                    assert(bumped.phase(*sk, t) == row.phase(*sk, t));
                                    assert(row.phase(*sk, t) == 0u32);
                                    assert(w32(0) == 0u32);
                                }
                            }
                        }
                    }
                }
            }
        }

        let r = GgswCiphertext { z_m_gt };
        proof {
            assert forall|i: int| 0 <= i < (k + 1) * ELL implies (#[trigger] r.z_m_gt@[i]).wf() by {
                assert(ggsw_row_ok(r.z_m_gt@, msg, *sk, noises@, i));
            }
        }
        r
    }

    /// Decryption: reads the last row, whose body carries
    /// `msg * 2^16`, and rounds its phase to the top four of its sixteen
    /// gadget bits.
    pub fn decrypt(self, sk: &SecretKey) -> (r: u8)
        requires
            self.wf(),
            sk.wf(),
        ensures
            r as int == ((((self.z_m_gt@[(k + 1) * ELL - 1].phase(*sk, 0) >> 15) + 1) as u32 >> 1)
                % 16) as int,
    {
        let mut rows = self.z_m_gt;
        let last = rows.pop().unwrap();
        let pt = last.decrypt(sk);
        assert(pt >> 15 < 0x20000) by (bit_vector);
        ((((pt >> 15) + 1) >> 1) % 16) as u8
    }

    /// The external product: decomposes the GLWE ciphertext against the
    /// gadget and takes the dot product with the GGSW rows, polynomial by
    /// polynomial.
    #[verifier::rlimit(100)]
    pub fn external_product(&self, ct: &GlweCiphertext) -> (r: GlweCiphertext)
        requires
            self.wf(),
            ct.wf(),
        ensures
            r.wf(),
            forall|j: int, t: int| 0 <= j < k && 0 <= t < N ==> #[trigger] r.mask@[j]@[t] == w32(
                ext_mask_sum(*ct, self.z_m_gt@, j, ((k + 1) * ELL) as int, t),
            ),
            forall|t: int| 0 <= t < N ==> #[trigger] r.body@[t] == w32(
                ext_body_sum(*ct, self.z_m_gt@, ((k + 1) * ELL) as int, t),
            ),
    {
        let g_inverse_ct = apply_g_inverse(ct);
        proof {
            assert forall|row: int| 0 <= row < (k + 1) * ELL implies #[trigger] g_inverse_ct@[row]@
                == g_inv_poly(*ct, row) by {
                assert(g_inverse_ct@[row]@ =~= g_inv_poly(*ct, row));
            }
        }

        let mut mask: Vec<ResiduePoly> = Vec::new();
        for j in 0..k
            invariant
                self.wf(),
                ct.wf(),
                g_inverse_ct.len() == (k + 1) * ELL,
                forall|row: int| 0 <= row < (k + 1) * ELL ==> (#[trigger] g_inverse_ct@[row]).wf(),
                forall|row: int| 0 <= row < (k + 1) * ELL ==> #[trigger] g_inverse_ct@[row]@
                    == g_inv_poly(*ct, row),
                mask.len() == j,
                forall|jj: int| 0 <= jj < j ==> (#[trigger] mask@[jj]).wf(),
                forall|jj: int, t: int| 0 <= jj < j && 0 <= t < N
                    ==> #[trigger] mask@[jj]@[t] == w32(
                    ext_mask_sum(*ct, self.z_m_gt@, jj, ((k + 1) * ELL) as int, t),
                ),
        {
            let mut acc = ResiduePoly::new();
            for i in 0..(k + 1) * ELL
                invariant
                    self.wf(),
                    ct.wf(),
                    j < k,
                    g_inverse_ct.len() == (k + 1) * ELL,
                    forall|row: int| 0 <= row < (k + 1) * ELL
                        ==> (#[trigger] g_inverse_ct@[row]).wf(),
                    forall|row: int| 0 <= row < (k + 1) * ELL ==> #[trigger] g_inverse_ct@[row]@
                        == g_inv_poly(*ct, row),
                    acc.wf(),
                    forall|t: int| 0 <= t < N ==> #[trigger] acc@[t] == w32(
                        ext_mask_sum(*ct, self.z_m_gt@, j as int, i as int, t),
                    ),
            {
                let prod = g_inverse_ct[i].mul(&self.z_m_gt[i].mask[j]);
                let ghost prev = acc;
                acc.add_assign(&prod);
                proof {
                    assert forall|t: int| 0 <= t < N implies #[trigger] acc@[t] == w32(
                        ext_mask_sum(*ct, self.z_m_gt@, j as int, i + 1, t),
                    ) by {
                        crate::modular::lemma_w32_congruent_add(
                            prev@[t] as int,
                            ext_mask_sum(*ct, self.z_m_gt@, j as int, i as int, t),
                            prod@[t] as int,
                        );
                        crate::modular::lemma_w32_congruent_add(
                            prod@[t] as int,
                            conv(g_inv_poly(*ct, i as int), self.z_m_gt@[i as int].mask@[j as int]@, t)
                                - conv(
                                g_inv_poly(*ct, i as int),
                                self.z_m_gt@[i as int].mask@[j as int]@,
                                t + N,
                            ),
                            ext_mask_sum(*ct, self.z_m_gt@, j as int, i as int, t),
                        );
                    }
                }
            }
            mask.push(acc);
        }

        let mut body = ResiduePoly::new();
        for i in 0..(k + 1) * ELL
            invariant
                self.wf(),
                ct.wf(),
                g_inverse_ct.len() == (k + 1) * ELL,
                forall|row: int| 0 <= row < (k + 1) * ELL ==> (#[trigger] g_inverse_ct@[row]).wf(),
                forall|row: int| 0 <= row < (k + 1) * ELL ==> #[trigger] g_inverse_ct@[row]@
                    == g_inv_poly(*ct, row),
                body.wf(),
                forall|t: int| 0 <= t < N ==> #[trigger] body@[t] == w32(
                    ext_body_sum(*ct, self.z_m_gt@, i as int, t),
                ),
        {
            let prod = g_inverse_ct[i].mul(&self.z_m_gt[i].body);
            let ghost prev = body;
            body.add_assign(&prod);
            proof {
                assert forall|t: int| 0 <= t < N implies #[trigger] body@[t] == w32(
                    ext_body_sum(*ct, self.z_m_gt@, i + 1, t),
                ) by {
                    crate::modular::lemma_w32_congruent_add(
                        prev@[t] as int,
                        ext_body_sum(*ct, self.z_m_gt@, i as int, t),
                        prod@[t] as int,
                    );
                    crate::modular::lemma_w32_congruent_add(
                        prod@[t] as int,
                        conv(g_inv_poly(*ct, i as int), self.z_m_gt@[i as int].body@, t) - conv(
                            g_inv_poly(*ct, i as int),
                            self.z_m_gt@[i as int].body@,
                            t + N,
                        ),
                        ext_body_sum(*ct, self.z_m_gt@, i as int, t),
                    );
                }
            }
        }

        GlweCiphertext { mask, body }
    }
}

/// The digit polynomial of row `row` of the gadget decomposition, as a
/// sequence.
pub open spec fn g_inv_poly(ct: GlweCiphertext, row: int) -> Seq<u32> {
    Seq::new(N as nat, |i: int| g_inv_coef(ct, row, i))
}

/// Coefficient `t` of `sum_{i < n} G[i] * rows[i].mask[j]` in the
/// negacyclic ring, where `G` is the gadget decomposition of `ct`.
pub open spec fn ext_mask_sum(
    ct: GlweCiphertext,
    rows: Seq<GlweCiphertext>,
    j: int,
    n: int,
    t: int,
) -> int
    decreases n,
{
    if n <= 0 {
        0
    } else {
        ext_mask_sum(ct, rows, j, n - 1, t) + conv(g_inv_poly(ct, n - 1), rows[n - 1].mask@[j]@, t)
            - conv(g_inv_poly(ct, n - 1), rows[n - 1].mask@[j]@, t + N)
    }
}

/// Coefficient `t` of `sum_{i < n} G[i] * rows[i].body` in the negacyclic
/// ring.
pub open spec fn ext_body_sum(ct: GlweCiphertext, rows: Seq<GlweCiphertext>, n: int, t: int) -> int
    decreases n,
{
    if n <= 0 {
        0
    } else {
        ext_body_sum(ct, rows, n - 1, t) + conv(g_inv_poly(ct, n - 1), rows[n - 1].body@, t) - conv(
            g_inv_poly(ct, n - 1),
            rows[n - 1].body@,
            t + N,
        )
    }
}

/// A message placed in the sixteen-bit gadget slot survives rounding to
/// the top four of those bits under noise of magnitude at most `2^14`.
proof fn lemma_decode16_noisy(msg: u8, e: int)
    requires
        msg < 16,
        -0x4000 <= e <= 0x4000,
    ensures
        (((((((((msg as u32) << 16) + e) % 0x100000000) as u32) >> 15) + 1) as u32 >> 1) % 16)
            as int == msg,
{
    let enc = (msg as u32) << 16;
    assert((msg as u32) << 16 <= 0xF0000) by (bit_vector)
        requires
            msg < 16,
    ;
    let mu = ((enc + e) % 0x100000000) as u32;
    if e >= 0 {
        let eu = e as u32;
        vstd::arithmetic::div_mod::lemma_small_mod((enc + eu) as nat, 0x100000000);
        assert(((((mu >> 15) + 1) as u32) >> 1) % 16 == msg) by (bit_vector)
            requires
                msg < 16 && eu <= 0x4000 && mu == ((msg as u32) << 16) + eu,
        ;
    } else {
        let eu = (-e) as u32;
        if enc >= eu {
            vstd::arithmetic::div_mod::lemma_small_mod((enc - eu) as nat, 0x100000000);
            assert(((((mu >> 15) + 1) as u32) >> 1) % 16 == msg) by (bit_vector)
                requires
                    msg < 16 && 1 <= eu <= 0x4000 && (msg as u32) << 16 >= eu && mu == ((msg
                        as u32) << 16) - eu,
            ;
        } else {
            assert(msg == 0 && (msg as u32) << 16 == 0) by (bit_vector)
                requires
                    msg < 16 && ((msg as u32) << 16) < 0x4000,
            ;
            assert((0 - eu) % 0x100000000 == 0x100000000 - eu) by {
                vstd::arithmetic::div_mod::lemma_mod_add_multiples_vanish(
                    0 - eu,
                    0x100000000,
                );
                vstd::arithmetic::div_mod::lemma_small_mod(
                    (0x100000000 - eu) as nat,
                    0x100000000,
                );
            }
            assert(((((mu >> 15) + 1) as u32) >> 1) % 16 == 0) by (bit_vector)
                requires
                    1 <= eu <= 0x4000 && mu == 0x100000000 - eu,
            ;
        }
    }
}

/// GGSW decryption returns the message: the last row's phase carries
/// `msg * 2^16` plus its own noise sample, and rounding to the top four
/// gadget bits recovers `msg` whenever that sample stays below `2^14`.
pub proof fn lemma_ggsw_decrypt(
    rows: Seq<GlweCiphertext>,
    msg: u8,
    sk: SecretKey,
    noises: Seq<i32>,
)
    requires
        msg < 16,
        rows.len() == (k + 1) * ELL,
        noises.len() == (k + 1) * ELL,
        ggsw_row_ok(rows, msg, sk, noises, ((k + 1) * ELL - 1) as int),
        -0x4000 <= noises[((k + 1) * ELL - 1) as int] <= 0x4000,
    ensures
        ((((rows[((k + 1) * ELL - 1) as int].phase(sk, 0) >> 15) + 1) as u32 >> 1) % 16) as int
            == msg,
{
    let i = ((k + 1) * ELL - 1) as int;
    let e = noises[i] as int;
    assert(rows[i].phase(sk, 0) == w32(e + gadget_factor(msg, i)));
    assert(gadget_factor(msg, i) == (msg as u32) << 16);
    crate::modular::lemma_w32_eq(e + ((msg as u32) << 16), ((msg as u32) << 16) + e);
    lemma_decode16_noisy(msg, e);
}

proof fn lemma_conv_upto_left_single(a: Seq<u32>, b: Seq<u32>, d: int, n: int)
    requires
        a.len() > 0,
        forall|j: int| 1 <= j < a.len() ==> a[j] == 0,
    ensures
        conv_upto(a, b, d, n) == if n >= 1 && 0 <= d < b.len() {
            a[0] * b[d]
        } else {
            0
        },
    decreases n,
{
    if n > 0 {
        lemma_conv_upto_left_single(a, b, d, n - 1);
        if n - 1 >= 1 {
            if 0 <= n - 1 < a.len() && 0 <= d - (n - 1) < b.len() {
                assert(conv_term(a, b, d, n - 1) == 0 * b[d - (n - 1)]);
            }
            assert(conv_term(a, b, d, n - 1) == 0);
        }
    }
}

/// Convolving with a polynomial whose only nonzero coefficient is its
/// constant term scales the other factor.
proof fn lemma_conv_left_single(a: Seq<u32>, b: Seq<u32>, d: int)
    requires
        a.len() > 0,
        forall|j: int| 1 <= j < a.len() ==> a[j] == 0,
    ensures
        conv(a, b, d) == if 0 <= d < b.len() {
            a[0] * b[d]
        } else {
            0
        },
{
    lemma_conv_upto_left_single(a, b, d, a.len() as int);
}

proof fn lemma_conv_upto_scale_left(
    u: Seq<u32>,
    m: Seq<u32>,
    c: u32,
    b: Seq<u32>,
    d: int,
    n: int,
)
    requires
        u.len() == m.len(),
        forall|x: int| 0 <= x < u.len() ==> u[x] == crate::modular::wmul(c, m[x]),
    ensures
        conv_upto(u, b, d, n) % 0x100000000 == (c * conv_upto(m, b, d, n)) % 0x100000000,
    decreases n,
{
    broadcast use crate::modular::lemma_w32_mod;

    if n <= 0 {
        assert(c * 0 == 0);
        vstd::arithmetic::div_mod::lemma_small_mod(0, 0x100000000);
    } else {
        lemma_conv_upto_scale_left(u, m, c, b, d, n - 1);
        let j = n - 1;
        if 0 <= j < u.len() && 0 <= d - j < b.len() {
            vstd::arithmetic::div_mod::lemma_mul_mod_noop_left(
                u[j] as int,
                b[d - j] as int,
                0x100000000,
            );
            vstd::arithmetic::div_mod::lemma_mul_mod_noop_left(
                c * m[j],
                b[d - j] as int,
                0x100000000,
            );
            assert((c * m[j]) * b[d - j] == c * conv_term(m, b, d, j)) by (nonlinear_arith)
                requires
                    conv_term(m, b, d, j) == m[j] * b[d - j],
            ;
            assert(conv_term(u, b, d, j) % 0x100000000 == (c * conv_term(m, b, d, j))
                % 0x100000000);
        } else {
            assert(conv_term(u, b, d, j) == 0 && conv_term(m, b, d, j) == 0);
            assert(c * 0 == 0);
        }
        vstd::arithmetic::div_mod::lemma_add_mod_noop(
            conv_upto(u, b, d, n - 1),
            conv_term(u, b, d, j),
            0x100000000,
        );
        vstd::arithmetic::div_mod::lemma_add_mod_noop(
            c * conv_upto(m, b, d, n - 1),
            c * conv_term(m, b, d, j),
            0x100000000,
        );
        assert(c * conv_upto(m, b, d, n) == c * conv_upto(m, b, d, n - 1) + c * conv_term(
            m,
            b,
            d,
            j,
        )) by (nonlinear_arith)
            requires
                conv_upto(m, b, d, n) == conv_upto(m, b, d, n - 1) + conv_term(m, b, d, j),
        ;
    }
}

/// Convolving a coefficient-wise scaled polynomial scales the
/// convolution, modulo `2^32`.
proof fn lemma_conv_scale_left(u: Seq<u32>, m: Seq<u32>, c: u32, b: Seq<u32>, d: int)
    requires
        u.len() == m.len(),
        forall|x: int| 0 <= x < u.len() ==> u[x] == crate::modular::wmul(c, m[x]),
    ensures
        conv(u, b, d) % 0x100000000 == (c * conv(m, b, d)) % 0x100000000,
{
    lemma_conv_upto_scale_left(u, m, c, b, d, u.len() as int);
}

/// The error that an external product with a trivial operand leaves in
/// the plaintext: the message times the gadget's rounding drift, plus the
/// two body rows' noise samples weighted by their digits.
pub open spec fn trivial_product_err(m1: u8, m2: u8, noises: Seq<i32>) -> int {
    let rr = round_high16_spec(crate::utils::encode_spec(m2));
    m1 * (0x10000 * rr - crate::utils::encode_spec(m2)) + g_hi(rr) * noises[(k * ELL) as int]
        + g_lo(rr) * noises[(k * ELL + 1) as int]
}

/// External product against a trivial operand: when the GLWE ciphertext is
/// the noiseless embedding of an encoded message (zero mask, the encoding
/// alone in the body's constant term), the product of a GGSW encryption of
/// `m1` with it carries `m1 * m2` modulo 16, and decodes to it. Only the
/// two body rows contribute: their digits reconstruct the encoding up to
/// the gadget's rounding, and the accumulated error stays within the
/// decoding margin for row noise of magnitude at most `2^17`.
#[verifier::rlimit(100)]
pub proof fn lemma_external_product_trivial(
    rows: Seq<GlweCiphertext>,
    d: GlweCiphertext,
    r: GlweCiphertext,
    sk: SecretKey,
    m1: u8,
    m2: u8,
    noises: Seq<i32>,
)
    requires
        sk.wf(),
        d.wf(),
        r.wf(),
        m1 < 16,
        m2 < 16,
        rows.len() == (k + 1) * ELL,
        noises.len() == (k + 1) * ELL,
        forall|i: int| 0 <= i < (k + 1) * ELL ==> #[trigger] ggsw_row_ok(rows, m1, sk, noises, i),
        -0x20000 <= noises[(k * ELL) as int] <= 0x20000,
        -0x20000 <= noises[(k * ELL + 1) as int] <= 0x20000,
        forall|x: int| 0 <= x < N ==> #[trigger] d.mask@[0]@[x] == 0u32,
        d.body@[0] == crate::utils::encode_spec(m2),
        forall|x: int| 1 <= x < N ==> #[trigger] d.body@[x] == 0u32,
        forall|t: int| 0 <= t < N ==> #[trigger] r.mask@[0]@[t] == w32(
            ext_mask_sum(d, rows, 0, ((k + 1) * ELL) as int, t),
        ),
        forall|t: int| 0 <= t < N ==> #[trigger] r.body@[t] == w32(
            ext_body_sum(d, rows, ((k + 1) * ELL) as int, t),
        ),
    ensures
        r.phase(sk, 0) == w32(
            crate::utils::encode_spec(((m1 * m2) % 16) as u8) + trivial_product_err(
                m1,
                m2,
                noises,
            ),
        ),
        -0x4000000 <= trivial_product_err(m1, m2, noises) <= 0x4000000,
        crate::utils::decode_spec(r.phase(sk, 0)) as int == (m1 * m2) % 16,
{
    broadcast use crate::modular::lemma_w32_mod;

    let s = sk.polys@[0]@;
    let m2p = rows[2].mask@[0]@;
    let m3p = rows[3].mask@[0]@;
    let b2 = rows[2].body@;
    let b3 = rows[3].body@;
    let enc = crate::utils::encode_spec(m2) as int;
    let rr = round_high16_spec(crate::utils::encode_spec(m2));

    assert(ggsw_row_ok(rows, m1, sk, noises, 2) && ggsw_row_ok(rows, m1, sk, noises, 3));
    assert(rows[2].wf() && rows[3].wf());

    // the digit polynomials of the trivial operand
    assert(round_high16_spec(0u32) == 0) by (bit_vector);
    assert(g_hi(0) == 0 && g_lo(0) == 0);
    assert(w32(0) == 0u32) by {
        vstd::arithmetic::div_mod::lemma_small_mod(0, 0x100000000);
    }
    let chiu = w32(g_hi(rr));
    let clou = w32(g_lo(rr));
    let g0 = g_inv_poly(d, 0);
    let g1 = g_inv_poly(d, 1);
    let g2 = g_inv_poly(d, 2);
    let g3 = g_inv_poly(d, 3);
    assert forall|x: int| 0 <= x < N implies #[trigger] g0[x] == 0u32 by {
        assert(d.mask@[0]@[x] == 0u32);
    }
    assert forall|x: int| 0 <= x < N implies #[trigger] g1[x] == 0u32 by {
        assert(d.mask@[0]@[x] == 0u32);
    }
    assert(g2[0] == chiu && g3[0] == clou);
    assert forall|x: int| 1 <= x < N implies #[trigger] g2[x] == 0u32 by {
        assert(d.body@[x] == 0u32);
    }
    assert forall|x: int| 1 <= x < N implies #[trigger] g3[x] == 0u32 by {
        assert(d.body@[x] == 0u32);
    }

    // the digit values are small
    let hi = g_hi(rr);
    let lo = g_lo(rr);
    assert(-128 <= hi <= 127 && -128 <= lo <= 127);

    // row sums collapse to the two body rows
    assert forall|t: int| 0 <= t < N implies ext_mask_sum(d, rows, 0, 4, t) == chiu * m2p[t]
        + clou * m3p[t] by {
        lemma_conv_left_single(g0, rows[0].mask@[0]@, t);
        lemma_conv_left_single(g0, rows[0].mask@[0]@, t + N);
        lemma_conv_left_single(g1, rows[1].mask@[0]@, t);
        lemma_conv_left_single(g1, rows[1].mask@[0]@, t + N);
        lemma_conv_left_single(g2, m2p, t);
        lemma_conv_left_single(g2, m2p, t + N);
        lemma_conv_left_single(g3, m3p, t);
        lemma_conv_left_single(g3, m3p, t + N);
        assert(ggsw_row_ok(rows, m1, sk, noises, 0) && ggsw_row_ok(rows, m1, sk, noises, 1));
        assert(rows[0].wf() && rows[1].wf());
        assert(ext_mask_sum(d, rows, 0, 0, t) == 0);
        assert(ext_mask_sum(d, rows, 0, 1, t) == conv(g0, rows[0].mask@[0]@, t) - conv(
            g0,
            rows[0].mask@[0]@,
            t + N,
        ));
        assert(ext_mask_sum(d, rows, 0, 2, t) == ext_mask_sum(d, rows, 0, 1, t) + conv(
            g1,
            rows[1].mask@[0]@,
            t,
        ) - conv(g1, rows[1].mask@[0]@, t + N));
        assert(ext_mask_sum(d, rows, 0, 3, t) == ext_mask_sum(d, rows, 0, 2, t) + conv(
            g2,
            m2p,
            t,
        ) - conv(g2, m2p, t + N));
        assert(ext_mask_sum(d, rows, 0, 4, t) == ext_mask_sum(d, rows, 0, 3, t) + conv(
            g3,
            m3p,
            t,
        ) - conv(g3, m3p, t + N));
        assert(0u32 * rows[0].mask@[0]@[t] == 0 && 0u32 * rows[1].mask@[0]@[t] == 0);
    }
    assert(ext_body_sum(d, rows, 4, 0) == chiu * b2[0] + clou * b3[0]) by {
        lemma_conv_left_single(g0, rows[0].body@, 0);
        lemma_conv_left_single(g0, rows[0].body@, N as int);
        lemma_conv_left_single(g1, rows[1].body@, 0);
        lemma_conv_left_single(g1, rows[1].body@, N as int);
        lemma_conv_left_single(g2, b2, 0);
        lemma_conv_left_single(g2, b2, N as int);
        lemma_conv_left_single(g3, b3, 0);
        lemma_conv_left_single(g3, b3, N as int);
        assert(ggsw_row_ok(rows, m1, sk, noises, 0) && ggsw_row_ok(rows, m1, sk, noises, 1));
        assert(rows[0].wf() && rows[1].wf());
        assert(ext_body_sum(d, rows, 0, 0) == 0);
        assert(ext_body_sum(d, rows, 1, 0) == conv(g0, rows[0].body@, 0) - conv(
            g0,
            rows[0].body@,
            N as int,
        ));
        assert(ext_body_sum(d, rows, 2, 0) == ext_body_sum(d, rows, 1, 0) + conv(
            g1,
            rows[1].body@,
            0,
        ) - conv(g1, rows[1].body@, N as int));
        assert(ext_body_sum(d, rows, 3, 0) == ext_body_sum(d, rows, 2, 0) + conv(g2, b2, 0)
            - conv(g2, b2, N as int));
        assert(ext_body_sum(d, rows, 4, 0) == ext_body_sum(d, rows, 3, 0) + conv(g3, b3, 0)
            - conv(g3, b3, N as int));
        assert(0u32 * rows[0].body@[0] == 0 && 0u32 * rows[1].body@[0] == 0);
    }

    // the product's mask is the scaled sum of the two body rows' masks
    let u2 = Seq::new(N as nat, |x: int| crate::modular::wmul(chiu, m2p[x]));
    let u3 = Seq::new(N as nat, |x: int| crate::modular::wmul(clou, m3p[x]));
    assert forall|t: int| 0 <= t < N implies #[trigger] r.mask@[0]@[t] == wadd(u2[t], u3[t]) by {
        crate::modular::lemma_w32_add(chiu * m2p[t], clou * m3p[t]);
    }

    let dot2 = conv(m2p, s, 0) - conv(m2p, s, N as int);
    let dot3 = conv(m3p, s, 0) - conv(m3p, s, N as int);
    let resm = r.mask@[0]@;
    let dotr = mask_dot(r.mask@, sk.polys@, k as int, 0);
    assert(mask_dot(r.mask@, sk.polys@, 0, 0) == 0);
    assert(dotr == conv(resm, s, 0) - conv(resm, s, N as int));
    lemma_conv_padd_left(resm, u2, u3, s, 0);
    lemma_conv_padd_left(resm, u2, u3, s, N as int);
    lemma_conv_scale_left(u2, m2p, chiu, s, 0);
    lemma_conv_scale_left(u2, m2p, chiu, s, N as int);
    lemma_conv_scale_left(u3, m3p, clou, s, 0);
    lemma_conv_scale_left(u3, m3p, clou, s, N as int);
    assert(conv(resm, s, 0) % 0x100000000 == (chiu * conv(m2p, s, 0) + clou * conv(m3p, s, 0))
        % 0x100000000) by {
        vstd::arithmetic::div_mod::lemma_add_mod_noop(
            conv(u2, s, 0),
            conv(u3, s, 0),
            0x100000000,
        );
        vstd::arithmetic::div_mod::lemma_add_mod_noop(
            chiu * conv(m2p, s, 0),
            clou * conv(m3p, s, 0),
            0x100000000,
        );
    }
    assert(conv(resm, s, N as int) % 0x100000000 == (chiu * conv(m2p, s, N as int) + clou * conv(
        m3p,
        s,
        N as int,
    )) % 0x100000000) by {
        vstd::arithmetic::div_mod::lemma_add_mod_noop(
            conv(u2, s, N as int),
            conv(u3, s, N as int),
            0x100000000,
        );
        vstd::arithmetic::div_mod::lemma_add_mod_noop(
            chiu * conv(m2p, s, N as int),
            clou * conv(m3p, s, N as int),
            0x100000000,
        );
    }
    assert(dotr % 0x100000000 == (chiu * dot2 + clou * dot3) % 0x100000000) by {
        vstd::arithmetic::div_mod::lemma_sub_mod_noop(
            conv(resm, s, 0),
            conv(resm, s, N as int),
            0x100000000,
        );
        vstd::arithmetic::div_mod::lemma_sub_mod_noop(
            chiu * conv(m2p, s, 0) + clou * conv(m3p, s, 0),
            chiu * conv(m2p, s, N as int) + clou * conv(m3p, s, N as int),
            0x100000000,
        );
        assert(chiu * conv(m2p, s, 0) + clou * conv(m3p, s, 0) - (chiu * conv(m2p, s, N as int)
            + clou * conv(m3p, s, N as int)) == chiu * dot2 + clou * dot3) by (nonlinear_arith)
            requires
                dot2 == conv(m2p, s, 0) - conv(m2p, s, N as int) && dot3 == conv(m3p, s, 0)
                    - conv(m3p, s, N as int),
        ;
    }

    // the phase of the product is the digit-weighted sum of the two body
    // rows' phases
    let p2 = rows[2].phase(sk, 0) as int;
    let p3 = rows[3].phase(sk, 0) as int;
    assert(mask_dot(rows[2].mask@, sk.polys@, 0, 0) == 0);
    assert(mask_dot(rows[3].mask@, sk.polys@, 0, 0) == 0);
    assert(mask_dot(rows[2].mask@, sk.polys@, k as int, 0) == dot2);
    assert(mask_dot(rows[3].mask@, sk.polys@, k as int, 0) == dot3);
    assert(p2 % 0x100000000 == (b2[0] - dot2) % 0x100000000);
    assert(p3 % 0x100000000 == (b3[0] - dot3) % 0x100000000);

    let phase = r.phase(sk, 0);
    assert(phase == w32(r.body@[0] - dotr));
    crate::modular::lemma_w32_congruent_sub(
        r.body@[0] as int,
        chiu * b2[0] + clou * b3[0],
        dotr,
    );
    crate::modular::lemma_w32_congruent_sub_right(
        dotr,
        chiu * dot2 + clou * dot3,
        chiu * b2[0] + clou * b3[0],
    );
    assert(phase == w32(chiu * (b2[0] - dot2) + clou * (b3[0] - dot3))) by {
        assert(chiu * b2[0] + clou * b3[0] - (chiu * dot2 + clou * dot3) == chiu * (b2[0] - dot2)
            + clou * (b3[0] - dot3)) by (nonlinear_arith);
    }
    // swap the stored digits for their signed values, and the rows'
    // phases for their known contents
    let e2 = noises[2] as int;
    let e3 = noises[3] as int;
    assert(gadget_factor(m1, 2) == (m1 as u32) << 24 && gadget_factor(m1, 3) == (m1 as u32)
        << 16);
    vstd::arithmetic::power2::lemma2_to64();
    vstd::bits::lemma_u32_shl_is_mul(m1 as u32, 24);
    vstd::bits::lemma_u32_shl_is_mul(m1 as u32, 16);
    vstd::bits::lemma_u32_shl_is_mul(m2 as u32, 28);
    let q2 = e2 + m1 * 0x1000000;
    let q3 = e3 + m1 * 0x10000;
    assert(p2 % 0x100000000 == q2 % 0x100000000 && p3 % 0x100000000 == q3 % 0x100000000);
    assert((chiu * (b2[0] - dot2)) % 0x100000000 == (hi * q2) % 0x100000000) by {
        vstd::arithmetic::div_mod::lemma_mul_mod_noop_general(
            chiu as int,
            b2[0] - dot2,
            0x100000000,
        );
        vstd::arithmetic::div_mod::lemma_mul_mod_noop_general(hi, q2, 0x100000000);
        assert((chiu as int) % 0x100000000 == hi % 0x100000000);
        assert((b2[0] - dot2) % 0x100000000 == q2 % 0x100000000) by {
            vstd::arithmetic::div_mod::lemma_mod_twice(b2[0] - dot2, 0x100000000);
            vstd::arithmetic::div_mod::lemma_mod_twice(q2, 0x100000000);
        }
    }
    assert((clou * (b3[0] - dot3)) % 0x100000000 == (lo * q3) % 0x100000000) by {
        vstd::arithmetic::div_mod::lemma_mul_mod_noop_general(
            clou as int,
            b3[0] - dot3,
            0x100000000,
        );
        vstd::arithmetic::div_mod::lemma_mul_mod_noop_general(lo, q3, 0x100000000);
        assert((clou as int) % 0x100000000 == lo % 0x100000000);
        assert((b3[0] - dot3) % 0x100000000 == q3 % 0x100000000) by {
            vstd::arithmetic::div_mod::lemma_mod_twice(b3[0] - dot3, 0x100000000);
            vstd::arithmetic::div_mod::lemma_mod_twice(q3, 0x100000000);
        }
    }
    assert(phase == w32(hi * q2 + lo * q3)) by {
        vstd::arithmetic::div_mod::lemma_add_mod_noop(
            chiu * (b2[0] - dot2),
            clou * (b3[0] - dot3),
            0x100000000,
        );
        vstd::arithmetic::div_mod::lemma_add_mod_noop(hi * q2, lo * q3, 0x100000000);
    }

    // regroup: the message times the reconstructed gadget entry, plus the
    // digit-weighted noise
    let noise = hi * e2 + lo * e3;
    assert(hi * q2 + lo * q3 == m1 * (0x1000000 * hi + 0x10000 * lo) + noise)
        by (nonlinear_arith)
        requires
            q2 == e2 + m1 * 0x1000000 && q3 == e3 + m1 * 0x10000 && noise == hi * e2 + lo * e3,
    ;

    // the two digits reconstruct the rounded encoding
    lemma_gadget_close(crate::utils::encode_spec(m2));
    let rho = 0x10000 * rr - enc;
    assert((m1 * (0x1000000 * hi + 0x10000 * lo)) % 0x100000000 == (m1 * (enc + rho))
        % 0x100000000) by {
        vstd::arithmetic::div_mod::lemma_mul_mod_noop_right(
            m1 as int,
            0x1000000 * hi + 0x10000 * lo,
            0x100000000,
        );
        vstd::arithmetic::div_mod::lemma_mul_mod_noop_right(m1 as int, enc + rho, 0x100000000);
        assert(0x10000 * rr == enc + rho);
    }
    crate::modular::lemma_w32_congruent_add(
        m1 * (0x1000000 * hi + 0x10000 * lo),
        m1 * (enc + rho),
        noise,
    );
    assert(phase == w32(m1 * (enc + rho) + noise));

    // the product of the encodings is the encoding of the product
    let mp = (m1 * m2) % 16;
    vstd::arithmetic::div_mod::lemma_fundamental_div_mod(m1 * m2, 16);
    let qq = (m1 * m2) / 16;
    assert(m1 * enc == mp * 0x10000000 + qq * 0x100000000) by (nonlinear_arith)
        requires
            enc == m2 * 0x10000000 && m1 * m2 == 16 * qq + mp,
    ;
    assert(m1 * (enc + rho) + noise == mp * 0x10000000 + (m1 * rho + noise) + qq * 0x100000000)
        by (nonlinear_arith)
        requires
            m1 * enc == mp * 0x10000000 + qq * 0x100000000,
    ;
    let err = m1 * rho + noise;
    vstd::arithmetic::div_mod::lemma_mod_multiples_vanish(
        qq,
        mp * 0x10000000 + err,
        0x100000000,
    );
    crate::modular::lemma_w32_eq(m1 * (enc + rho) + noise, mp * 0x10000000 + err);

    // the accumulated error stays inside the decoding margin
    assert(-0x8000 <= rho <= 0x8000);
    assert(-15 * 0x8000 <= m1 * rho <= 15 * 0x8000) by (nonlinear_arith)
        requires
            0 <= m1 < 16 && -0x8000 <= rho <= 0x8000,
    ;
    assert(-128 * 0x20000 <= hi * e2 <= 128 * 0x20000) by (nonlinear_arith)
        requires
            -128 <= hi <= 127 && -0x20000 <= e2 <= 0x20000,
    ;
    assert(-128 * 0x20000 <= lo * e3 <= 128 * 0x20000) by (nonlinear_arith)
        requires
            -128 <= lo <= 127 && -0x20000 <= e3 <= 0x20000,
    ;
    assert(-0x4000000 <= err <= 0x4000000);

    vstd::bits::lemma_u32_shl_is_mul((mp as u8) as u32, 28);
    assert(crate::utils::encode_spec(mp as u8) == mp * 0x10000000);
    crate::utils::lemma_decode_noisy((mp as u8), err);
    assert(err == trivial_product_err(m1, m2, noises));
}

/// The phase of a trivial ciphertext is its body's constant term.
proof fn lemma_trivial_phase(d: GlweCiphertext, sk: SecretKey, v: u32)
    requires
        d.wf(),
        sk.wf(),
        forall|x: int| 0 <= x < N ==> #[trigger] d.mask@[0]@[x] == 0u32,
        d.body@[0] == v,
    ensures
        d.phase(sk, 0) == v,
{
    broadcast use crate::modular::lemma_w32_mod;

    let s = sk.polys@[0]@;
    lemma_conv_left_single(d.mask@[0]@, s, 0);
    lemma_conv_left_single(d.mask@[0]@, s, N as int);
    assert(mask_dot(d.mask@, sk.polys@, 0, 0) == 0);
    assert(d.mask@[0]@[0] * s[0] == 0);
    assert(mask_dot(d.mask@, sk.polys@, k as int, 0) == 0);
    vstd::arithmetic::div_mod::lemma_small_mod(v as nat, 0x100000000);
}

/// The homomorphic multiplexer on trivial operands: selecting between the
/// noiseless embeddings of two messages under a GGSW encryption of a bit
/// yields a ciphertext that decodes to the first message for a zero bit
/// and to the second for a one bit. The multiplexer is built exactly as
/// its callers build it: the external product of the selector with the
/// operands' difference, added back to the first operand.
#[verifier::rlimit(100)]
pub proof fn lemma_cmux_trivial(
    rows: Seq<GlweCiphertext>,
    d0: GlweCiphertext,
    d1: GlweCiphertext,
    dsub: GlweCiphertext,
    e: GlweCiphertext,
    r: GlweCiphertext,
    sk: SecretKey,
    b: u8,
    m1: u8,
    m2: u8,
    noises: Seq<i32>,
)
    requires
        sk.wf(),
        d0.wf(),
        d1.wf(),
        dsub.wf(),
        e.wf(),
        r.wf(),
        b <= 1,
        m1 < 16,
        m2 < 16,
        rows.len() == (k + 1) * ELL,
        noises.len() == (k + 1) * ELL,
        forall|i: int| 0 <= i < (k + 1) * ELL ==> #[trigger] ggsw_row_ok(rows, b, sk, noises, i),
        -0x20000 <= noises[(k * ELL) as int] <= 0x20000,
        -0x20000 <= noises[(k * ELL + 1) as int] <= 0x20000,
        forall|x: int| 0 <= x < N ==> #[trigger] d0.mask@[0]@[x] == 0u32,
        d0.body@[0] == crate::utils::encode_spec(m1),
        forall|x: int| 1 <= x < N ==> #[trigger] d0.body@[x] == 0u32,
        forall|x: int| 0 <= x < N ==> #[trigger] d1.mask@[0]@[x] == 0u32,
        d1.body@[0] == crate::utils::encode_spec(m2),
        forall|x: int| 1 <= x < N ==> #[trigger] d1.body@[x] == 0u32,
        forall|j: int, t: int| 0 <= j < k && 0 <= t < N
            ==> #[trigger] dsub.mask@[j]@[t] == crate::modular::wsub(
            d1.mask@[j]@[t],
            d0.mask@[j]@[t],
        ),
        forall|t: int| 0 <= t < N ==> #[trigger] dsub.body@[t] == crate::modular::wsub(
            d1.body@[t],
            d0.body@[t],
        ),
        forall|t: int| 0 <= t < N ==> #[trigger] e.mask@[0]@[t] == w32(
            ext_mask_sum(dsub, rows, 0, ((k + 1) * ELL) as int, t),
        ),
        forall|t: int| 0 <= t < N ==> #[trigger] e.body@[t] == w32(
            ext_body_sum(dsub, rows, ((k + 1) * ELL) as int, t),
        ),
        forall|j: int, t: int| 0 <= j < k && 0 <= t < N ==> #[trigger] r.mask@[j]@[t] == wadd(
            e.mask@[j]@[t],
            d0.mask@[j]@[t],
        ),
        forall|t: int| 0 <= t < N ==> #[trigger] r.body@[t] == wadd(e.body@[t], d0.body@[t]),
    ensures
        crate::utils::decode_spec(r.phase(sk, 0)) == (if b == 0 {
            m1
        } else {
            m2
        }),
{
    broadcast use crate::modular::lemma_w32_mod;

    let md = ((m2 + 16 - m1) % 16) as u8;
    // the difference of the two trivial operands embeds the difference of
    // the messages
    assert forall|x: int| 0 <= x < N implies #[trigger] dsub.mask@[0]@[x] == 0u32 by {
        assert(dsub.mask@[0]@[x] == crate::modular::wsub(0u32, 0u32));
        vstd::arithmetic::div_mod::lemma_small_mod(0, 0x100000000);
    }
    assert forall|x: int| 1 <= x < N implies #[trigger] dsub.body@[x] == 0u32 by {
        assert(dsub.body@[x] == crate::modular::wsub(0u32, 0u32));
        vstd::arithmetic::div_mod::lemma_small_mod(0, 0x100000000);
    }
    assert(dsub.body@[0] == crate::utils::encode_spec(md)) by {
        assert(((m2 as u32) << 28) - ((m1 as u32) << 28) == ((md as u32) << 28) || ((m2 as u32)
            << 28) - ((m1 as u32) << 28) == ((md as u32) << 28) - 0x100000000) by (bit_vector)
            requires
                m1 < 16 && m2 < 16 && md == (m2 + 16 - m1) % 16,
        ;
        if crate::utils::encode_spec(m2) - crate::utils::encode_spec(m1)
            == crate::utils::encode_spec(md) {
            vstd::arithmetic::div_mod::lemma_small_mod(
                crate::utils::encode_spec(md) as nat,
                0x100000000,
            );
        } else {
            vstd::arithmetic::div_mod::lemma_mod_add_multiples_vanish(
                crate::utils::encode_spec(md) - 0x100000000,
                0x100000000,
            );
            vstd::arithmetic::div_mod::lemma_small_mod(
                crate::utils::encode_spec(md) as nat,
                0x100000000,
            );
        }
    }

    // the external product carries the selected difference
    lemma_external_product_trivial(rows, dsub, e, sk, b, md, noises);
    let err = trivial_product_err(b, md, noises);
    let bm = ((b * md) % 16) as u8;

    // adding the first operand back shifts the plaintext by its message
    lemma_glwe_phase_add(e, d0, r, sk, 0);
    lemma_trivial_phase(d0, sk, crate::utils::encode_spec(m1));
    crate::modular::lemma_w32_congruent_add(
        e.phase(sk, 0) as int,
        crate::utils::encode_spec(bm) + err,
        crate::utils::encode_spec(m1) as int,
    );
    crate::utils::lemma_sum_decodes(bm, m1, err);
    assert(r.phase(sk, 0) == w32(
        crate::utils::encode_spec(bm) + crate::utils::encode_spec(m1) + err,
    ));

    // the selected message comes back out
    if b == 0 {
        assert(bm == 0);
        vstd::arithmetic::div_mod::lemma_small_mod(m1 as nat, 16);
    } else {
        assert(b * md == md);
        vstd::arithmetic::div_mod::lemma_small_mod(md as nat, 16);
        assert(bm == md);
        vstd::arithmetic::div_mod::lemma_add_mod_noop(m2 + 16 - m1, m1 as int, 16);
        vstd::arithmetic::div_mod::lemma_small_mod(m1 as nat, 16);
        vstd::arithmetic::div_mod::lemma_mod_add_multiples_vanish(m2 as int, 16);
        vstd::arithmetic::div_mod::lemma_small_mod(m2 as nat, 16);
        assert((bm + m1) % 16 == m2);
    }
}

/// Adding a constant to the constant term of every mask polynomial lowers
/// the phase by the constant times the matching key polynomial.
proof fn lemma_bump_mask_phase(row: GlweCiphertext, bumped: GlweCiphertext, sk: SecretKey, mg: u32)
    requires
        row.wf(),
        bumped.wf(),
        sk.wf(),
        bumped.body == row.body,
        forall|jj: int| 0 <= jj < k ==> #[trigger] bumped.mask@[jj]@[0] == wadd(
            row.mask@[jj]@[0],
            mg,
        ),
        forall|jj: int, t: int| 0 <= jj < k && 1 <= t < N ==> #[trigger] bumped.mask@[jj]@[t]
            == row.mask@[jj]@[t],
    ensures
        forall|t: int| 0 <= t < N ==> #[trigger] bumped.phase(sk, t) == w32(
            row.phase(sk, t) - mg * sk.polys@[0]@[t],
        ),
{
    broadcast use crate::modular::lemma_w32_mod;

    assert forall|t: int| 0 <= t < N implies #[trigger] bumped.phase(sk, t) == w32(
        row.phase(sk, t) - mg * sk.polys@[0]@[t],
    ) by {
        let m = row.mask@[0]@;
        let m2 = bumped.mask@[0]@;
        let s = sk.polys@[0]@;
        lemma_conv_bump0(m, m2, s, mg, t);
        lemma_conv_bump0(m, m2, s, mg, t + N);
        assert(conv(m2, s, t + N) % 0x100000000 == conv(m, s, t + N) % 0x100000000);
        let d2 = mask_dot(bumped.mask@, sk.polys@, k as int, t);
        let d1 = mask_dot(row.mask@, sk.polys@, k as int, t);
        assert(mask_dot(bumped.mask@, sk.polys@, 0, t) == 0);
        assert(mask_dot(row.mask@, sk.polys@, 0, t) == 0);
        assert(d2 == conv(m2, s, t) - conv(m2, s, t + N));
        assert(d1 == conv(m, s, t) - conv(m, s, t + N));
        vstd::arithmetic::div_mod::lemma_sub_mod_noop(
            conv(m2, s, t),
            conv(m2, s, t + N),
            0x100000000,
        );
        vstd::arithmetic::div_mod::lemma_sub_mod_noop(
            conv(m, s, t) + mg * s[t],
            conv(m, s, t + N),
            0x100000000,
        );
        assert(d2 % 0x100000000 == (d1 + mg * s[t]) % 0x100000000);
        crate::modular::lemma_w32_congruent_sub_right(
            d2,
            d1 + mg * s[t],
            bumped.body@[t] as int,
        );
        crate::modular::lemma_w32_congruent_sub(
            (row.phase(sk, t)) as int,
            row.body@[t] - d1,
            mg * s[t],
        );
    }
}

/// Adding a constant to the body's constant term raises the phase's
/// constant coefficient by the constant.
proof fn lemma_bump_body_phase(row: GlweCiphertext, bumped: GlweCiphertext, sk: SecretKey, mg: u32)
    requires
        row.wf(),
        bumped.wf(),
        sk.wf(),
        bumped.mask == row.mask,
        bumped.body@[0] == wadd(row.body@[0], mg),
        forall|t: int| 1 <= t < N ==> #[trigger] bumped.body@[t] == row.body@[t],
    ensures
        bumped.phase(sk, 0) == w32(row.phase(sk, 0) + mg),
        forall|t: int| 1 <= t < N ==> #[trigger] bumped.phase(sk, t) == row.phase(sk, t),
{
    broadcast use crate::modular::lemma_w32_mod;

    let d0 = mask_dot(row.mask@, sk.polys@, k as int, 0);
    crate::modular::lemma_w32_congruent_sub(
        bumped.body@[0] as int,
        row.body@[0] + mg,
        d0,
    );
    crate::modular::lemma_w32_congruent_add(
        (row.phase(sk, 0)) as int,
        row.body@[0] - d0,
        mg as int,
    );
    assert(bumped.phase(sk, 0) == w32(row.body@[0] + mg - d0));
    assert(w32(row.phase(sk, 0) + mg) == w32(row.body@[0] - d0 + mg));
}

} // verus!
