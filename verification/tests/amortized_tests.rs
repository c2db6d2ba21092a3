use lib::amortized::{
    amortized_rootvar, cofactor_bi, compression_hash_bi, fp2_bi_const, fp2_bi_neg, fp2_bi_sub, permutation_bi,
    residual_bi, root_first_state_bi, root_mul_bi,
};
use lib::bipoly;
use lib::poly as pl;
use lib::rootvar::{
    compression_hash_poly, fixed_cofactor, fixed_root, residual_polys_at_x, root_first_state_at_x, scout_seed,
};
use lib::zerotest::{flatten_coeffs, root_first_coeffs, verify_zerotest, Fp2};
use lib::{Poseidon1, P};

#[test]
fn fp2_bivariate_helpers() {
    let c = fp2_bi_const(Fp2::new(3, 0));
    assert_eq!(c.0, vec![vec![3]]);
    assert!(c.1.is_empty());
    let n = fp2_bi_neg(&c);
    assert_eq!(n.0, vec![vec![P - 3]]);
    let d = fp2_bi_sub(&c, &c);
    assert!(d.0.is_empty() && d.1.is_empty());
    // (2 + 3s)(X + Y s) = (2X + 9Y) + (3X + 2Y) s
    let g = (bipoly::var_x(), bipoly::var_y());
    let r = root_mul_bi(Fp2::new(2, 3), &g);
    assert_eq!(bipoly::eval_x(&r.0, 5), vec![10, 9]);
    assert_eq!(bipoly::eval_x(&r.1, 5), vec![15, 2]);
}

#[test]
fn bivariate_state_specialises_to_the_line_state() {
    let seed = scout_seed(2, 1, 0);
    let root = fixed_root(seed);
    let base = fixed_cofactor(seed);
    let state_bi = root_first_state_bi(root, &cofactor_bi(&base, 0));
    for x in [1u32, 17, 100_000] {
        let line = root_first_state_at_x(root, &base, 0, x);
        for i in 0..16 {
            assert_eq!(bipoly::eval_x(&state_bi[i], x), pl::trim(&line[i]));
        }
    }
}

#[test]
fn bivariate_hash_specialises() {
    let pos = Poseidon1::new_canonical(3, 16, 2, 1);
    let seed = scout_seed(2, 1, 0);
    let root = fixed_root(seed);
    let base = fixed_cofactor(seed);
    let state_bi = root_first_state_bi(root, &cofactor_bi(&base, 0));
    let out_bi = compression_hash_bi(&pos, &state_bi);
    let perm_bi = permutation_bi(&pos, &state_bi);
    assert_eq!(perm_bi.len(), 16);
    let x = 9;
    let line = root_first_state_at_x(root, &base, 0, x);
    let out = compression_hash_poly(&pos, &line);
    for i in 0..16 {
        assert_eq!(bipoly::eval_x(&out_bi[i], x), out[i]);
    }
}

#[test]
fn residual_built_once_matches_residual_built_per_x() {
    let pos = Poseidon1::new_canonical(3, 16, 2, 1);
    let seed = scout_seed(2, 1, 0);
    let root = fixed_root(seed);
    let base = fixed_cofactor(seed);
    let (f0_bi, f1_bi) = residual_bi(&pos, root, &base, 0);
    for x in [1u32, 2, 243, 1_000_000] {
        let (f0, f1) = residual_polys_at_x(&pos, root, &base, 0, x);
        assert_eq!(bipoly::eval_x(&f0_bi, x), f0);
        assert_eq!(bipoly::eval_x(&f1_bi, x), f1);
    }
}

#[test]
fn amortized_run_matches_the_oracle() {
    let pos = Poseidon1::new_canonical(3, 16, 2, 1);
    let rep = amortized_rootvar(2, 1, 0);
    assert_eq!(rep.seed, scout_seed(2, 1, 0));
    assert_eq!(rep.n_points, 244);
    assert!(rep.matches_oracle);
    assert!(rep.deg_r <= 243);
    if let Some((x, y)) = rep.witness {
        let mut g = rep.base;
        g[0] = Fp2::new(x, y);
        let p_hat = flatten_coeffs(&root_first_coeffs(rep.root, &g));
        assert!(verify_zerotest(&pos, &p_hat));
    }
}
