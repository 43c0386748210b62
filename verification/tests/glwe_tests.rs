use rand::{thread_rng, Rng};
use rand_distr::{Distribution, Normal};
use tfhe_core::glwe::{keygen, GlweCiphertext, SecretKey};
use tfhe_core::lwe::{LweCiphertext, LweSecretKey};
use tfhe_core::utils::{decode, encode};

fn gaussian(sigma: f64) -> i32 {
    Normal::new(0.0, sigma)
        .unwrap()
        .sample(&mut thread_rng())
        .round() as i32
}

#[test]
fn glwe_test_keygen_enc_dec() {
    let sk = keygen();
    for _ in 0..100 {
        let msg: u8 = thread_rng().gen_range(0..16);
        let ct = GlweCiphertext::encrypt(encode(msg), &sk, gaussian(131072.0));
        let pt = decode(ct.decrypt(&sk));
        assert_eq!(pt, msg);
    }
}

#[test]
fn glwe_test_add() {
    let sk = keygen();
    for _ in 0..100 {
        let msg1: u8 = thread_rng().gen_range(0..16);
        let msg2: u8 = thread_rng().gen_range(0..16);
        let ct1 = GlweCiphertext::encrypt(encode(msg1), &sk, gaussian(131072.0));
        let ct2 = GlweCiphertext::encrypt(encode(msg2), &sk, gaussian(131072.0));
        let res = ct1.add(&ct2);
        let pt = decode(res.decrypt(&sk));
        assert_eq!(pt, (msg1 + msg2) % 16);
    }
}

#[test]
fn glwe_test_sub() {
    let sk = keygen();
    for _ in 0..100 {
        let msg1: u8 = thread_rng().gen_range(0..16);
        let msg2: u8 = thread_rng().gen_range(0..16);
        let ct1 = GlweCiphertext::encrypt(encode(msg1), &sk, gaussian(131072.0));
        let ct2 = GlweCiphertext::encrypt(encode(msg2), &sk, gaussian(131072.0));
        let res = ct1.sub(&ct2);
        let pt = decode(res.decrypt(&sk));
        assert_eq!(pt, (msg1.wrapping_sub(msg2)) % 16);
    }
}

#[test]
fn test_sample_extract() {
    let sk = keygen();
    let msg: u8 = thread_rng().gen_range(0..16);
    let ct = GlweCiphertext::encrypt(encode(msg), &sk, gaussian(131072.0));

    let sample_extracted: LweCiphertext = ct.sample_extract();
    let recoded_sk: LweSecretKey = sk.recode();

    let pt = decode(sample_extracted.decrypt(&recoded_sk));
    println!("msg: {}, pt: {}", msg, pt)
}

#[test]
fn test_sample_extract_round_trip() {
    let sk = keygen();
    let recoded_sk = SecretKey { polys: vec![sk.polys[0].clone_poly()] }.recode();
    for _ in 0..20 {
        let msg: u8 = thread_rng().gen_range(0..16);
        let ct = GlweCiphertext::encrypt(encode(msg), &sk, gaussian(131072.0));
        let sample_extracted = ct.sample_extract();
        let pt = decode(sample_extracted.decrypt(&recoded_sk));
        assert_eq!(pt, msg);
    }
}
