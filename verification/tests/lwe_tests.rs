use rand::{thread_rng, Rng};
use rand_distr::{Distribution, Normal};
use tfhe_core::lwe::{compute_ksk, lwe_keygen, LweCiphertext};
use tfhe_core::utils::{decode, encode};

fn gaussian(sigma: f64) -> i32 {
    Normal::new(0.0, sigma)
        .unwrap()
        .sample(&mut thread_rng())
        .round() as i32
}

#[test]
fn lwe_test_keygen_enc_dec() {
    let sk = lwe_keygen();
    for _ in 0..100 {
        let msg: u8 = thread_rng().gen_range(0..16);
        let ct = LweCiphertext::encrypt(encode(msg), &sk, gaussian(131072.0));
        let pt = decode(ct.decrypt(&sk));
        assert_eq!(pt, msg);
    }
}

#[test]
fn lwe_test_add() {
    let sk = lwe_keygen();
    for _ in 0..100 {
        let msg1: u8 = thread_rng().gen_range(0..16);
        let msg2: u8 = thread_rng().gen_range(0..16);
        let ct1 = LweCiphertext::encrypt(encode(msg1), &sk, gaussian(131072.0));
        let ct2 = LweCiphertext::encrypt(encode(msg2), &sk, gaussian(131072.0));
        let res = ct1.add(ct2);
        let pt = decode(res.decrypt(&sk));
        assert_eq!(pt, (msg1 + msg2) % 16);
    }
}

#[test]
fn lwe_test_sub() {
    let sk = lwe_keygen();
    for _ in 0..100 {
        let msg1: u8 = thread_rng().gen_range(0..16);
        let msg2: u8 = thread_rng().gen_range(0..16);
        let ct1 = LweCiphertext::encrypt(encode(msg1), &sk, gaussian(131072.0));
        let ct2 = LweCiphertext::encrypt(encode(msg2), &sk, gaussian(131072.0));
        let res = ct1.sub(&ct2);
        let pt = decode(res.decrypt(&sk));
        assert_eq!(pt, (msg1.wrapping_sub(msg2)) % 16);
    }
}

#[test]
fn test_keygen_bits_are_binary() {
    let sk = lwe_keygen();
    assert_eq!(sk.len(), 1024);
    for bit in sk {
        assert!(bit <= 1);
    }
}

#[test]
fn test_modswitch_decrypts() {
    let sk = lwe_keygen();
    for _ in 0..20 {
        let msg: u8 = thread_rng().gen_range(0..16);
        let ct = LweCiphertext::encrypt(encode(msg), &sk, gaussian(131072.0));
        let switched = ct.modswitch();
        let pt_ms = switched.decrypt_modswitched(&sk);
        assert!(pt_ms < 2048);
        let pt = decode(pt_ms << 21);
        assert_eq!(pt, msg);
    }
}

#[test]
fn test_keyswitch_decrypts() {
    let sk1 = lwe_keygen();
    let sk2 = lwe_keygen();
    let mut ksk_noises: Vec<i32> = Vec::with_capacity(7 * 1024);
    for _ in 0..7 * 1024 {
        ksk_noises.push(gaussian(256.0));
    }
    let ksk = compute_ksk(&sk1, &sk2, &ksk_noises);
    for _ in 0..3 {
        let msg: u8 = thread_rng().gen_range(0..16);
        let ct = LweCiphertext::encrypt(encode(msg), &sk1, gaussian(131072.0));
        let switched = ct.keyswitch(&ksk);
        let pt = decode(switched.decrypt(&sk2));
        assert_eq!(pt, msg);
    }
}

#[test]
fn test_multiply_constant_assign() {
    let sk = lwe_keygen();
    // 3 * encode(2) encodes 6: scaling a noiseless encryption scales the plaintext
    let mut ct = LweCiphertext::encrypt(encode(2), &sk, gaussian(4096.0));
    ct.multiply_constant_assign(3);
    let pt = decode(ct.decrypt(&sk));
    assert_eq!(pt, 6);
}
