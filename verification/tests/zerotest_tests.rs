use lib::zerotest::{
    coeffs_from_flat, degree, eval_poly, flatten_coeffs, hash_point, root_first_coeffs,
    root_first_hash_residual, search_relaxed_random, verify_zerotest, verify_zerotest_relaxed,
    verify_zerotest_relaxed_rp, verify_zerotest_rp, zerotest_residual, Fp2, ZT_COEFF_LEN, ZT_D,
    ZT_RF, ZT_T,
};
use lib::{Poseidon1, P};

fn sample_cofactor() -> [Fp2; 7] {
    let mut cofactor = [Fp2::zero(); ZT_D];
    for (j, slot) in cofactor.iter_mut().enumerate() {
        *slot = Fp2::new((17 + 31 * j) as u32, (99 + 43 * j) as u32);
    }
    cofactor
}

#[test]
fn sqrt3_squared_is_three() {
    let sqrt3 = Fp2::new(0, 1);
    assert_eq!(sqrt3.mul(sqrt3), Fp2::new(3, 0));
}

#[test]
fn fp2_distributes() {
    let a = Fp2::new(11, 7);
    let b = Fp2::new(19, 5);
    let c = Fp2::new(23, 29);
    assert_eq!(a.mul(b.add(c)), a.mul(b).add(a.mul(c)));
}

#[test]
fn fp2_basic_ops() {
    let a = Fp2::new(P + 1, 2 * P + 5);
    assert_eq!(a, Fp2 { c0: 1, c1: 5 });
    assert_eq!(a.neg().add(a), Fp2::zero());
    assert_eq!(a.sub(a), Fp2::zero());
    assert_eq!(a.mul(Fp2::one()), a);
    assert!(Fp2::zero().is_zero());
    assert!(!Fp2::one().is_zero());
    assert_eq!(Fp2::zero().neg(), Fp2::zero());
}

#[test]
fn root_first_vanishes_at_root() {
    let root = Fp2::new(12345, 67890);
    let cofactor = sample_cofactor();
    let coeffs = root_first_coeffs(root, &cofactor);
    assert!(eval_poly(&coeffs, root).is_zero());
    assert_eq!(degree(&coeffs), 7);
    assert!(!eval_poly(&coeffs, Fp2::new(1, 0)).is_zero());
}

#[test]
fn flat_round_trip() {
    let coeffs = root_first_coeffs(Fp2::new(3, 4), &sample_cofactor());
    let flat = flatten_coeffs(&coeffs);
    assert_eq!(flat.len(), ZT_COEFF_LEN);
    assert_eq!(coeffs_from_flat(&flat), Some(coeffs));
    assert_eq!(coeffs_from_flat(&flat[..15]), None);
}

#[test]
fn verifier_gates() {
    let pos = Poseidon1::new_canonical(3, ZT_T, ZT_RF, 6);
    let zero = [0u32; 16];
    assert!(!verify_zerotest(&pos, &zero));
    let mut constant = [0u32; 16];
    constant[0] = 5;
    assert!(!verify_zerotest(&pos, &constant));
    assert!(!verify_zerotest(&pos, &zero[..15]));
    assert_eq!(zerotest_residual(&pos, &zero), None);
    assert_eq!(hash_point(&pos, &zero[..3]), None);
}

#[test]
fn relaxed_k0_accepts_valid_degree() {
    let pos = Poseidon1::new_canonical(3, ZT_T, ZT_RF, 6);
    let root = Fp2::new(12345, 67890);
    let coeffs = root_first_coeffs(root, &sample_cofactor());
    let p_hat = flatten_coeffs(&coeffs);
    assert!(zerotest_residual(&pos, &p_hat).is_some());
    assert!(verify_zerotest_relaxed(&pos, &p_hat, 0));
    assert!(verify_zerotest_relaxed_rp(6, &p_hat, 0));
    assert_eq!(verify_zerotest_rp(6, &p_hat), verify_zerotest(&pos, &p_hat));
}

#[test]
fn root_first_hash_residual_is_hash_minus_root() {
    let pos = Poseidon1::new_canonical(3, ZT_T, ZT_RF, 6);
    let root = Fp2::new(12345, 67890);
    let cofactor = sample_cofactor();
    let p_hat = flatten_coeffs(&root_first_coeffs(root, &cofactor));
    let hr = root_first_hash_residual(&pos, root, &cofactor);
    assert_eq!(hr, hash_point(&pos, &p_hat).unwrap().sub(root));
}

#[test]
fn relaxed_search_finds_confirmed_hit() {
    let pos = Poseidon1::new_canonical(3, ZT_T, ZT_RF, 6);
    let k = 4;
    let hit = search_relaxed_random(&pos, k, 50_000, 20260602).expect("a hit");
    assert!(verify_zerotest_relaxed(&pos, &hit.p_hat, k));
    assert_eq!(zerotest_residual(&pos, &hit.p_hat), Some(hit.residual));
    assert!(hit.degree >= 1 && hit.degree <= 7);
    assert!(hit.attempt >= 1);
    assert!(search_relaxed_random(&pos, k, 0, 1).is_none());
}

#[test]
fn root_first_polynomial_is_the_product_at_every_point() {
    let root = Fp2::new(123456, 654321);
    let g = sample_cofactor();
    let p = root_first_coeffs(root, &g);
    for k in 0..12u32 {
        let z = Fp2::new(1000 + 7919 * k, 31 * k + 5);
        let lhs = eval_poly(&p, z);
        let rhs = z.sub(root).mul(eval_poly(&g, z));
        assert_eq!((lhs.c0, lhs.c1), (rhs.c0, rhs.c1));
    }
    let at_root = eval_poly(&p, root);
    assert_eq!((at_root.c0, at_root.c1), (0, 0));
}
