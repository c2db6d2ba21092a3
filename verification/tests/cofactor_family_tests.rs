use lib::cofactor_family::{
    back_substitute, cofactor, eliminant, family_seed, gcd_usize, measure_grid_degree, guards_stable, peel_to_linear_quotient, poly_shape, probe, Family,
};
use lib::poly as pl;
use lib::rootgrid::{full_cofactor, resultant_at_x};
use lib::zerotest::{flatten_coeffs, root_first_coeffs, verify_zerotest, Fp2};
use lib::{Poseidon1, P};

fn zero(a: Fp2) -> bool {
    a.c0 == 0 && a.c1 == 0
}

#[test]
fn families_have_their_shapes() {
    let one = Fp2::new(1, 0);
    assert_eq!(cofactor(Family::Full, 11), full_cofactor(11));
    assert!(cofactor(Family::Real, 2).iter().all(|g| g.c1 == 0 && g.c0 != 0));
    assert!(cofactor(Family::Imag, 2).iter().all(|g| g.c0 == 0 && g.c1 != 0));
    let monic = cofactor(Family::Monic, 3);
    assert_eq!(monic[6], one);
    assert!(monic[..6].iter().all(|g| !zero(*g)));
    let c = cofactor(Family::Constant, 4);
    assert!(!zero(c[0]) && c[1..].iter().all(|g| zero(*g)));
    let l = cofactor(Family::Linear, 4);
    assert!(!zero(l[0]) && !zero(l[1]) && l[2..].iter().all(|g| zero(*g)));
    let t = cofactor(Family::Top, 4);
    assert!(!zero(t[6]) && t[..6].iter().all(|g| zero(*g)));
    let e = cofactor(Family::Edges, 4);
    assert!(!zero(e[0]) && !zero(e[6]) && e[1..6].iter().all(|g| zero(*g)));
    let geo = cofactor(Family::Geometric, 5);
    let q = geo[1];
    let a = geo[0];
    // g[1] = a q, g[2] = a q^2: g[2] a = g[1]^2
    assert_eq!(geo[2].mul(a), q.mul(q));
    assert_eq!(geo[3].mul(geo[1]), geo[2].mul(geo[2]));
    assert!(cofactor(Family::Ones, 0).iter().all(|g| *g == one));
}

#[test]
fn gcd_and_support_shape() {
    assert_eq!(gcd_usize(12, 18), 6);
    assert_eq!(gcd_usize(0, 5), 5);
    assert_eq!(gcd_usize(7, 0), 7);
    let s = poly_shape(&[0, 0, 5, 0, 7, 0, 9]);
    assert_eq!((s.nonzero, s.valuation, s.support_gcd), (3, 2, 2));
    let s = poly_shape(&[1, 0, 0, 3, 0, 0, 6]);
    assert_eq!((s.nonzero, s.valuation, s.support_gcd), (3, 0, 3));
    let s = poly_shape(&[0, 0, 0]);
    assert_eq!((s.nonzero, s.valuation, s.support_gcd), (0, 0, 0));
    let s = poly_shape(&[0, 4]);
    assert_eq!((s.nonzero, s.valuation, s.support_gcd), (1, 1, 0));
}

#[test]
fn peeling_stops_at_a_linear_quotient() {
    // (x^4 + 1) and (x^2 + 1): quotient length 3, then remainder 2 of (x^2+1)
    let a = vec![1u32, 0, 0, 0, 1];
    let b = vec![1u32, 0, 1];
    let (x, y, k) = peel_to_linear_quotient(&a, &b).expect("no zero remainder");
    assert_eq!(k, 1);
    assert_eq!(x, b);
    assert_eq!(y, vec![2]);
    // order does not matter
    assert_eq!(peel_to_linear_quotient(&b, &a), Some((b.clone(), vec![2], 1)));
    // already a linear quotient
    let c = vec![1u32, 2, 3];
    let d = vec![5u32, 1];
    assert_eq!(peel_to_linear_quotient(&c, &d), Some((c.clone(), d.clone(), 0)));
    // a zero input or an exact division yields nothing
    assert_eq!(peel_to_linear_quotient(&[0, 0], &b), None);
    let prod = pl::mul(&b, &b);
    assert_eq!(peel_to_linear_quotient(&prod, &b), None);
}

#[test]
fn probe_matches_its_phases() {
    let pos = Poseidon1::new_canonical(3, 16, 2, 1);
    let g = cofactor(Family::Edges, 1);
    let deg = 243;
    let e = eliminant(&pos, &g, deg);
    assert!(pl::deg(&e) <= deg as i64);
    assert_eq!(pl::eval(&e, 3), resultant_at_x(&pos, &g, 3));
    let stable = guards_stable(&pos, &g, &e, deg + 2, 4);
    let rep = probe(&pos, &g, deg);
    assert_eq!(rep.stable, stable);
    assert_eq!(rep.elim_degree, pl::deg(&e));
    assert_eq!(rep.shape, poly_shape(&e));
    let roots = pl::roots(&e);
    assert_eq!(rep.x_roots, roots.len());
    let (accepted, first) = back_substitute(&pos, &g, &roots);
    assert_eq!(rep.accepted, accepted);
    if let Some((root, p_hat)) = first {
        assert!(verify_zerotest(&pos, &p_hat));
        assert_eq!(p_hat, flatten_coeffs(&root_first_coeffs(root, &g)));
        assert_eq!(rep.first_root, Some(root));
        assert!(root.c0 < P && root.c1 < P);
    }
}

#[test]
fn family_seed_layout() {
    assert_eq!(family_seed(2, 3, Family::Full, 0), 0xC0FA_0000 + (2u64 << 24) + (3u64 << 16));
    assert_eq!(family_seed(4, 1, Family::Edges, 5), 0xC0FA_0000 + (4u64 << 24) + (1u64 << 16) + (7u64 << 8) + 5);
    assert_eq!(family_seed(0, 0, Family::Ones, 1), 0xC0FA_0000 + (9u64 << 8) + 1);
}

#[test]
fn degree_measurement_stabilises_on_the_eliminant() {
    let pos = Poseidon1::new_canonical(3, 16, 1, 1);
    let g = full_cofactor(3);
    let r = measure_grid_degree(&pos, &g, 2000);
    assert!(r.stable);
    assert!(r.deg >= 0 && r.deg < r.nodes as i64);
    // the interpolant through the first `nodes` samples has that degree
    let e = eliminant(&pos, &g, r.nodes - 1);
    assert_eq!(pl::deg(&e), r.deg);
    // a cap of zero nodes reports no interpolant
    let z = measure_grid_degree(&pos, &g, 0);
    assert_eq!((z.nodes, z.deg), (0, -1));
}
