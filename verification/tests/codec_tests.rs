use tfhe_core::gsw;
use tfhe_core::lwe::{decomposition_4_4, decomposition_4_7};
use tfhe_core::utils::{decode, decode_bootstrapped, encode, round_value};

#[test]
fn test_codec() {
    for i in 0..16 {
        assert!(i == gsw::decode(gsw::encode(i)));
    }
}

#[test]
fn test_approx_dec() {
    assert!(gsw::decode(17) == 4);
}

#[test]
fn test_word_codec_round_trip() {
    for m in 0..16u8 {
        assert_eq!(decode(encode(m)), m);
    }
}

#[test]
fn test_word_codec_tolerates_noise() {
    assert_eq!(decode(encode(5).wrapping_add(0x3FFFFFF)), 5);
    assert_eq!(decode(encode(5).wrapping_sub(0x4000000)), 5);
    assert_eq!(decode(encode(0).wrapping_sub(123456)), 0);
}

#[test]
fn test_decode_bootstrapped() {
    // top bit clear: an ordinary decode reduced modulo 8
    assert_eq!(decode_bootstrapped(encode(3)), 3);
    // top bit set: the complement decodes
    assert_eq!(decode_bootstrapped(encode(9)), decode(!encode(9)) % 8);
}

#[test]
fn test_round_value() {
    // rounding keeps the top 28 bits: scaled back up, off by at most 8
    assert_eq!(round_value(0), 0);
    assert_eq!(round_value(16), 1);
    assert_eq!(round_value(24), 2);
    assert_eq!(round_value(0xFFFFFFFF), 0x10000000);
    let v = 0x12345678u32;
    let r = round_value(v);
    let back = (r as u64) * 16;
    assert!(back as i64 - v as i64 <= 8 && v as i64 - back as i64 <= 8);
}

fn digit_value(d: u32) -> i64 {
    if d > 0x80000000 {
        d as i64 - 0x100000000
    } else {
        d as i64
    }
}

#[test]
fn test_decomposition_4_7_reconstructs() {
    for &v in &[0u32, 1, 0xFFFFFFFF, 0x12345678, 0x80000000, 0x7FF8FFFF] {
        let digits = decomposition_4_7(v);
        assert_eq!(digits.len(), 7);
        let mut acc: i64 = 0;
        for (j, &d) in digits.iter().enumerate() {
            acc += digit_value(d) << (4 * j + 4);
        }
        let err = (acc - v as i64).rem_euclid(1 << 32);
        let err = if err > 1 << 31 { err - (1 << 32) } else { err };
        assert!(err.abs() <= 8, "v={v:#x} err={err}");
    }
}

#[test]
fn test_decomposition_4_4_reconstructs() {
    for &v in &[0u32, 1, 0xFFFFFFFF, 0x12345678, 0x80000000] {
        let digits = decomposition_4_4(v);
        assert_eq!(digits.len(), 4);
        let mut acc: i64 = 0;
        for (j, &d) in digits.iter().enumerate() {
            acc += digit_value(d) << (4 * j + 16);
        }
        let err = (acc - v as i64).rem_euclid(1 << 32);
        let err = if err > 1 << 31 { err - (1 << 32) } else { err };
        assert!(err.abs() <= 1 << 15, "v={v:#x} err={err}");
    }
}
