use rand::rngs::StdRng;
use rand::{Rng, SeedableRng};
use rand_distr::{Distribution, Normal};
use tfhe_core::ggsw::GgswCiphertext;
use tfhe_core::glwe::{GlweCiphertext, SecretKey};
use tfhe_core::lwe::{LweCiphertext, LweSecretKey};
use tfhe_core::poly::ResiduePoly;
use tfhe_core::utils::{decode, encode};
use tfhe_core::N;

fn seeded_lwe_key(rng: &mut StdRng) -> LweSecretKey {
    (0..1024).map(|_| rng.gen_range(0..=1u32)).collect()
}

fn seeded_glwe_key(rng: &mut StdRng) -> SecretKey {
    let coefs: Vec<u32> = (0..N).map(|_| rng.gen_range(0..=1u32)).collect();
    SecretKey {
        polys: vec![ResiduePoly { coefs }],
    }
}

fn seeded_gaussian(rng: &mut StdRng, sigma: f64) -> i32 {
    Normal::new(0.0, sigma).unwrap().sample(rng).round() as i32
}

fn seeded_row_noises(rng: &mut StdRng, sigma: f64) -> Vec<i32> {
    (0..4).map(|_| seeded_gaussian(rng, sigma)).collect()
}

#[test]
fn test_scenario_lwe_enc_dec() {
    let mut rng = StdRng::seed_from_u64(7);
    let sk = seeded_lwe_key(&mut rng);
    let ct = LweCiphertext::encrypt(encode(5), &sk, seeded_gaussian(&mut rng, 131072.0));
    let pt = decode(ct.decrypt(&sk));
    assert_eq!(pt, 5);
}

#[test]
fn test_scenario_glwe_add_wraps() {
    let mut rng = StdRng::seed_from_u64(8);
    let sk = seeded_glwe_key(&mut rng);
    let ct1 = GlweCiphertext::encrypt(encode(7), &sk, seeded_gaussian(&mut rng, 131072.0));
    let ct2 = GlweCiphertext::encrypt(encode(9), &sk, seeded_gaussian(&mut rng, 131072.0));
    let res = ct1.add(&ct2);
    let pt = decode(res.decrypt(&sk));
    assert_eq!(pt, 0);
}

#[test]
fn test_scenario_external_product() {
    let mut rng = StdRng::seed_from_u64(9);
    let sk = seeded_glwe_key(&mut rng);
    let ct1 = GgswCiphertext::encrypt(3, &sk, &seeded_row_noises(&mut rng, 1024.0));
    let ct2 = GlweCiphertext::encrypt(encode(4), &sk, seeded_gaussian(&mut rng, 1024.0));
    let res = ct1.external_product(&ct2);
    let pt = decode(res.decrypt(&sk));
    assert_eq!(pt, 12);
}

fn cmux_once(rng: &mut StdRng, b: u8, m1: u8, m2: u8) -> u8 {
    let sk = seeded_glwe_key(rng);
    let ct1 = GlweCiphertext::encrypt(encode(m1), &sk, seeded_gaussian(rng, 1024.0));
    let ct2 = GlweCiphertext::encrypt(encode(m2), &sk, seeded_gaussian(rng, 1024.0));
    let ctb = GgswCiphertext::encrypt(b, &sk, &seeded_row_noises(rng, 1024.0));
    let temp = ct2.sub(&ct1);
    let temp = ctb.external_product(&temp);
    let res = temp.add(&ct1);
    decode(res.decrypt(&sk))
}

#[test]
fn test_scenario_cmux() {
    let mut rng = StdRng::seed_from_u64(10);
    assert_eq!(cmux_once(&mut rng, 1, 2, 10), 10);
    assert_eq!(cmux_once(&mut rng, 0, 2, 10), 2);
}

#[test]
fn test_scenario_monomial() {
    let mut coefs = vec![0u32; N];
    coefs[0] = 1;
    coefs[1] = 2;
    coefs[2] = 3;
    let p = ResiduePoly { coefs };

    let rotated = p.multiply_by_monomial(N);
    assert_eq!(rotated.coefs[0], 1u32.wrapping_neg());
    assert_eq!(rotated.coefs[1], 2u32.wrapping_neg());
    assert_eq!(rotated.coefs[2], 3u32.wrapping_neg());
    for i in 3..N {
        assert_eq!(rotated.coefs[i], 0);
    }

    let mut monomial_coefs = vec![0u32; N];
    monomial_coefs[0] = 1u32.wrapping_neg();
    let monomial = ResiduePoly {
        coefs: monomial_coefs,
    };
    let full = p.mul(&monomial);
    assert_eq!(full.coefs, rotated.coefs);
}

#[test]
fn test_scenario_modswitch() {
    let mut rng = StdRng::seed_from_u64(11);
    let sk = seeded_lwe_key(&mut rng);
    let ct = LweCiphertext::encrypt(encode(11), &sk, seeded_gaussian(&mut rng, 131072.0));
    let switched = ct.modswitch();
    let pt_ms = switched.decrypt_modswitched(&sk);
    let pt = decode(pt_ms << 21);
    assert_eq!(pt, 11);
}
