use lib::{
    cauchy_mds, cico_residual, circulant_mds, from_mont, grain_round_constants, mont_add,
    mont_cube, mont_mul, mont_sub, to_mont, verify_cico, verify_collision, GrainLfsr, Poseidon1,
    P,
};

const PU64: u64 = P as u64;

#[test]
fn mont_round_trip_small_values() {
    for a in 0u32..1000 {
        assert_eq!(from_mont(to_mont(a)), a);
    }
}

#[test]
fn mont_round_trip_reduces_large_values() {
    for a in [P, P + 1, u32::MAX, P - 1] {
        assert_eq!(from_mont(to_mont(a)), a % P);
    }
}

#[test]
fn mont_mul_matches_normal_product() {
    let a = 123456789u64;
    let b = 987654321u64;
    let want = (a * b % PU64) as u32;
    assert_eq!(from_mont(mont_mul(to_mont(a as u32), to_mont(b as u32))), want);
}

#[test]
fn mont_cube_matches_cube() {
    let a = 1234567u32;
    let want = ((a as u64).pow(3) % PU64) as u32;
    assert_eq!(from_mont(mont_cube(to_mont(a))), want);
}

#[test]
fn mont_add_sub_wrap() {
    assert_eq!(mont_add(P - 1, 5), 4);
    assert_eq!(mont_sub(3, 5), P - 2);
    assert_eq!(mont_sub(5, 3), 2);
    assert_eq!(mont_add(0, 0), 0);
}

#[test]
fn to_mont_exact_value() {
    // 1 * 2^32 mod P
    assert_eq!(to_mont(1) as u64, (1u64 << 32) % PU64);
    assert_eq!(from_mont(1) as u64, 1057030144);
}

#[test]
fn grain_constants_are_reduced_and_counted() {
    let rc = grain_round_constants(3, 16, 8, 20);
    assert_eq!(rc.len(), (8 + 20) * 16);
    assert!(rc.iter().all(|&c| c < P));
}

#[test]
fn grain_lfsr_is_deterministic() {
    let mut a = GrainLfsr::new(31, 3, 16, 8, 20);
    let mut b = GrainLfsr::new(31, 3, 16, 8, 20);
    for _ in 0..8 {
        let x = a.field_element();
        assert!(x < P);
        assert_eq!(x, b.field_element());
    }
    let rc = grain_round_constants(3, 16, 8, 20);
    let mut c = GrainLfsr::new(31, 3, 16, 8, 20);
    assert_eq!(c.field_element(), rc[0]);
    assert_eq!(c.field_element(), rc[1]);
}

#[test]
fn cauchy_entries_are_inverses() {
    let t = 16usize;
    let m = cauchy_mds(t);
    assert_eq!(m.len(), t);
    for i in 0..t {
        assert_eq!(m[i].len(), t);
        for j in 0..t {
            let diff = ((i as i64) - (t as i64) - (j as i64)).rem_euclid(PU64 as i64) as u64;
            assert_eq!(diff * m[i][j] as u64 % PU64, 1);
        }
    }
    // Toeplitz in i - j
    assert_eq!(m[3][1], m[4][2]);
}

#[test]
fn circulant_rows_rotate() {
    let row: Vec<u32> = (1u32..=16).collect();
    let m = circulant_mds(&row);
    for i in 0..16 {
        for j in 0..16 {
            assert_eq!(m[i][j], row[(j + 16 - i) % 16]);
        }
    }
    let big = circulant_mds(&[P + 2, 1]);
    assert_eq!(big[0][0], 2);
    assert_eq!(big[1][0], 1);
}

#[test]
fn canonical_permutation_golden() {
    let pos = Poseidon1::new_canonical(3, 16, 8, 20);
    let z = pos.permutation(&[0u32; 16]);
    assert_eq!(z[0], 1393439926);
}

#[test]
fn permutation_reduces_inputs() {
    let pos = Poseidon1::new_canonical(3, 16, 2, 2);
    let mut a = [0u32; 16];
    let mut b = [0u32; 16];
    for i in 0..16 {
        a[i] = i as u32;
        b[i] = i as u32 + P;
    }
    assert_eq!(pos.permutation(&a), pos.permutation(&b));
}

#[test]
fn compression_hash_is_perm_plus_input() {
    let pos = Poseidon1::new_canonical(3, 16, 4, 3);
    let mut inp = [0u32; 16];
    for i in 0..16 {
        inp[i] = 1000 + 7 * i as u32;
    }
    let perm = pos.permutation(&inp);
    let h = pos.compression_mode_hash(&inp, 5);
    assert_eq!(h.len(), 5);
    for i in 0..5 {
        assert_eq!(h[i] as u64, (perm[i] as u64 + inp[i] as u64) % PU64);
    }
}

#[test]
fn permutation_plus_linear_differs_from_plain() {
    let pos = Poseidon1::new_canonical(3, 16, 2, 1);
    let inp = [5u32; 16];
    assert_ne!(pos.permutation(&inp), pos.permutation_plus_linear(&inp));
}

#[test]
fn from_parts_round_trips_tables() {
    let rc: Vec<u32> = (0..(2 + 1) * 16).map(|i| i as u32 + P).collect();
    let mds = circulant_mds(&(1u32..=16).collect::<Vec<_>>());
    let pos = Poseidon1::from_parts(3, 16, 2, 1, &rc, &mds);
    assert_eq!(pos.rc_n.len(), 3);
    assert_eq!(pos.rc_n[1][2], (16 + 2) as u32);
    assert_eq!(pos.mds_n[2][5], mds[2][5]);
    assert_eq!(pos.rc[0][0], to_mont(P));
}

#[test]
fn published_partial_collision_t3() {
    let pos = Poseidon1::new_canonical(3, 16, 8, 20);
    let x: [u32; 15] = [146101246, 585745660, 1080651781, 0, 0, 0, 0, 0, 0, 0, 0, 0, 0, 0, 0];
    let y: [u32; 15] = [310195439, 1632272689, 97247552, 0, 0, 0, 0, 0, 0, 0, 0, 0, 0, 0, 0];
    assert!(verify_collision(&pos, &x, &y, 3));
    assert!(!verify_collision(&pos, &x, &y, 4));
    assert!(!verify_collision(&pos, &x, &x, 3));
}

#[test]
fn collision_rejects_equal_after_reduction() {
    let pos = Poseidon1::new_canonical(3, 16, 8, 20);
    let x: [u32; 15] = [1, 2, 3, 0, 0, 0, 0, 0, 0, 0, 0, 0, 0, 0, 0];
    let mut y = x;
    y[0] = 1 + P;
    assert!(!verify_collision(&pos, &x, &y, 0));
    // equal words are rejected before the digest length is looked at
    assert!(!verify_collision(&pos, &x, &y, 40));
    let mut z = x;
    z[1] = 9;
    // zero words to compare: distinct inputs always collide
    assert!(verify_collision(&pos, &x, &z, 0));
}

#[test]
fn cico_random_input_rejected_and_residual_agrees() {
    for rp in [6usize, 8, 10] {
        let posc = Poseidon1::new_canonical(3, 16, 6, rp);
        let free: Vec<u32> = (2u32..16).collect();
        let is_sol = verify_cico(&posc, &free);
        let (r0, r1) = cico_residual(&posc, &free);
        assert!(!is_sol);
        assert_eq!((r0 == 0 && r1 == 0), is_sol);
        assert!(r0 < P && r1 < P);
    }
}

#[test]
fn cico_residual_matches_permutation_plus_linear() {
    let pos = Poseidon1::new_canonical(3, 16, 6, 6);
    let free: Vec<u32> = (0u32..14).map(|i| i * 1000 + P).collect();
    let mut st = [0u32; 16];
    st[0] = lib::CICO_C1;
    st[1] = lib::CICO_C2;
    for i in 0..14 {
        st[2 + i] = free[i] % P;
    }
    let out = pos.permutation_plus_linear(&st);
    assert_eq!(cico_residual(&pos, &free), (out[0], out[1]));
}

#[test]
fn permutation_plus_linear_is_the_permutation_after_one_linear_layer() {
    let pos = Poseidon1::new_canonical(3, 16, 4, 3);
    let inp: [u32; 16] = core::array::from_fn(|i| (i as u32 * 2_654_435_761u32) ^ 0x1234_5678);
    let p = lib::P as u64;
    let mut lin = [0u32; 16];
    for (i, slot) in lin.iter_mut().enumerate() {
        let mut acc = 0u64;
        for j in 0..16 {
            acc = (acc + pos.mds_n[i][j] as u64 * (inp[j] as u64 % p)) % p;
        }
        *slot = acc as u32;
    }
    assert_eq!(pos.permutation_plus_linear(&inp), pos.permutation(&lin));
}
