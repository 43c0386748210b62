use rand::{thread_rng, Rng};
use tfhe_core::poly::{
    slice_wrapping_add, slice_wrapping_add_assign, slice_wrapping_sub, slice_wrapping_sub_assign,
    ResiduePoly,
};
use tfhe_core::N;

#[test]
fn test_monomial_mult() {
    for _ in 0..1000 {
        let mut monomial_coefs = vec![0u32; N];
        let monomial_non_null_term = thread_rng().gen_range(0..2 * N);

        if monomial_non_null_term < 1024 {
            monomial_coefs[monomial_non_null_term] = 1;
        } else {
            monomial_coefs[monomial_non_null_term % 1024] = 1u32.wrapping_neg();
        }

        let monomial = ResiduePoly {
            coefs: monomial_coefs,
        };

        let polynomial = ResiduePoly::get_random();

        let res_mul = polynomial.mul(&monomial);
        let res_monomial_mul = polynomial.multiply_by_monomial(monomial_non_null_term);

        assert_eq!(res_mul.coefs, res_monomial_mul.coefs);
    }
}

#[test]
fn test_mul_small_polynomials() {
    // (1 + 2X) * (3 + X) = 3 + 7X + 2X^2 in the negacyclic ring
    let mut a = ResiduePoly::new();
    a.coefs[0] = 1;
    a.coefs[1] = 2;
    let mut b = ResiduePoly::new();
    b.coefs[0] = 3;
    b.coefs[1] = 1;
    let r = a.mul(&b);
    assert_eq!(r.coefs[0], 3);
    assert_eq!(r.coefs[1], 7);
    assert_eq!(r.coefs[2], 2);
    for i in 3..N {
        assert_eq!(r.coefs[i], 0);
    }
}

#[test]
fn test_mul_negacyclic_wraparound() {
    // X^(N-1) * X = X^N = -1
    let mut a = ResiduePoly::new();
    a.coefs[N - 1] = 1;
    let mut b = ResiduePoly::new();
    b.coefs[1] = 1;
    let r = a.mul(&b);
    assert_eq!(r.coefs[0], 0u32.wrapping_sub(1));
    for i in 1..N {
        assert_eq!(r.coefs[i], 0);
    }
}

#[test]
fn test_add_sub_round_trip() {
    let a = ResiduePoly::get_random();
    let b = ResiduePoly::get_random();
    let s = a.add(&b);
    let d = s.sub(&b);
    for i in 0..N {
        assert_eq!(d.coefs[i], a.coefs[i]);
    }
}

#[test]
fn test_add_constant() {
    let a = ResiduePoly::get_random();
    let b = a.add_constant(7);
    assert_eq!(b.coefs[0], a.coefs[0].wrapping_add(7));
    for i in 1..N {
        assert_eq!(b.coefs[i], a.coefs[i]);
    }
}

#[test]
fn test_slice_ops() {
    let lhs = vec![1u32, u32::MAX, 5];
    let rhs = vec![2u32, 1, 7];
    let mut out = vec![0u32; 3];
    slice_wrapping_add(&mut out, &lhs, &rhs);
    assert_eq!(out, vec![3u32, 0, 12]);
    slice_wrapping_sub(&mut out, &lhs, &rhs);
    assert_eq!(out, vec![u32::MAX, u32::MAX - 1, u32::MAX - 1]);
    let mut acc = vec![10u32, 20, 30];
    slice_wrapping_add_assign(&mut acc, &rhs);
    assert_eq!(acc, vec![12u32, 21, 37]);
    slice_wrapping_sub_assign(&mut acc, &rhs);
    assert_eq!(acc, vec![10u32, 20, 30]);
}
