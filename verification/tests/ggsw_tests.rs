use rand::{thread_rng, Rng};
use rand_distr::{Distribution, Normal};
use tfhe_core::ggsw::GgswCiphertext;
use tfhe_core::glwe::{keygen, GlweCiphertext};
use tfhe_core::poly::ResiduePoly;
use tfhe_core::utils::{decode, encode};

fn gaussian(sigma: f64) -> i32 {
    Normal::new(0.0, sigma)
        .unwrap()
        .sample(&mut thread_rng())
        .round() as i32
}

fn row_noises(sigma: f64) -> Vec<i32> {
    let mut noises = Vec::with_capacity(4);
    for _ in 0..4 {
        noises.push(gaussian(sigma));
    }
    noises
}

#[test]
fn ggsw_test_keygen_enc_dec() {
    let sk = keygen();
    for _ in 0..100 {
        let msg: u8 = thread_rng().gen_range(0..16);
        let ct = GgswCiphertext::encrypt(msg, &sk, &row_noises(1024.0));
        let pt = ct.decrypt(&sk);
        assert!(msg == pt as u8);
    }
}

#[test]
fn test_external_product() {
    let sk = keygen();
    for _ in 0..100 {
        let msg1: u8 = thread_rng().gen_range(0..16);
        let msg2: u8 = thread_rng().gen_range(0..16);
        let ct1 = GgswCiphertext::encrypt(msg1, &sk, &row_noises(1024.0));
        let ct2 = GlweCiphertext::encrypt(encode(msg2), &sk, gaussian(1024.0));
        let res = ct1.external_product(&ct2);
        let pt = decode(res.decrypt(&sk));
        let expected: u8 = msg1 * msg2 % 16;
        assert_eq!(expected, pt);
    }
}

#[test]
fn test_external_product_trivial_operand() {
    // the operand embeds the encoded message without mask or noise
    let sk = keygen();
    for msg1 in 0..16u8 {
        for msg2 in [0u8, 1, 7, 15] {
            let ct1 = GgswCiphertext::encrypt(msg1, &sk, &row_noises(1024.0));
            let trivial = GlweCiphertext {
                mask: vec![ResiduePoly::new()],
                body: ResiduePoly::new().add_constant(encode(msg2)),
            };
            let res = ct1.external_product(&trivial);
            let pt = decode(res.decrypt(&sk));
            assert_eq!(pt, msg1 * msg2 % 16);
        }
    }
}

#[test]
fn test_cmux_trivial_operands() {
    let sk = keygen();
    for b in 0..2u8 {
        let trivial = |m: u8| GlweCiphertext {
            mask: vec![ResiduePoly::new()],
            body: ResiduePoly::new().add_constant(encode(m)),
        };
        let ct1 = trivial(2);
        let ct2 = trivial(10);
        let ctb = GgswCiphertext::encrypt(b, &sk, &row_noises(1024.0));
        let temp = ct2.sub(&ct1);
        let temp = ctb.external_product(&temp);
        let res = temp.add(&ct1);
        let pt = decode(res.decrypt(&sk));
        assert_eq!(pt, if b == 0 { 2 } else { 10 });
    }
}

#[test]
fn test_cmux() {
    for _ in 0..100 {
        let sk = keygen();
        let msg1: u8 = thread_rng().gen_range(0..16);
        let msg2: u8 = thread_rng().gen_range(0..16);
        let b: u8 = thread_rng().gen_range(0..2);
        let ct1 = GlweCiphertext::encrypt(encode(msg1), &sk, gaussian(1024.0));
        let ct2 = GlweCiphertext::encrypt(encode(msg2), &sk, gaussian(1024.0));
        let ctb = GgswCiphertext::encrypt(b, &sk, &row_noises(1024.0));
        let temp = ct2.sub(&ct1);
        let temp = ctb.external_product(&temp);
        let res = temp.add(&ct1);
        let pt = decode(res.decrypt(&sk));
        assert_eq!(pt, (1 - b) * msg1 + b * msg2);
    }
}
