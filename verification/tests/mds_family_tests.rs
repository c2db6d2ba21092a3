use lib::mds_family::{
    cauchy_variant, fnv_fingerprint, matrix_for, matrix_metrics, plonky3_first_row, pow3, random_circulant,
    sparse_plus_dense, support_counts, MdsFamily, MDS_T,
};
use lib::{cauchy_mds, circulant_mds, P};

fn fmul(a: u32, b: u32) -> u32 {
    ((a as u64 * b as u64) % P as u64) as u32
}

#[test]
fn cauchy_variant_entries_are_inverses() {
    for seed in [0u64, 7, 12345] {
        let m = cauchy_variant(seed);
        let offset = 19 + (seed % 10_000) as u32 * 37;
        assert_eq!(m.len(), MDS_T);
        for i in 0..MDS_T {
            for j in 0..MDS_T {
                let x = 1 + 2 * i as u32;
                let y = offset + 3 * j as u32 + 1000;
                let d = x + P - y;
                assert_eq!(fmul(d, m[i][j]), 1);
            }
        }
    }
}

#[test]
fn circulant_seed_zero_is_plonky3() {
    let row = plonky3_first_row();
    assert_eq!(row, vec![1, 1, 51, 1, 11, 17, 2, 1, 101, 63, 15, 2, 67, 22, 13, 3]);
    assert_eq!(random_circulant(0), circulant_mds(&row));
    assert_eq!(matrix_for(MdsFamily::Plonky3Circulant, 99), circulant_mds(&row));
    let m = random_circulant(5);
    for i in 0..MDS_T {
        for j in 0..MDS_T {
            assert_eq!(m[i][j], m[0][(j + MDS_T - i) % MDS_T]);
            assert!(m[i][j] >= 1 && m[i][j] < P);
        }
    }
}

#[test]
fn sparse_plus_dense_is_rank_one_off_the_diagonal() {
    let m = sparse_plus_dense(3);
    // off-diagonal 2x2 minors of u v^T vanish
    let (a, b, c, d) = (m[0][1], m[0][2], m[3][1], m[3][2]);
    assert_eq!(fmul(a, d), fmul(b, c));
    assert_eq!(matrix_for(MdsFamily::SparsePlusDense, 3), m);
    assert_eq!(matrix_for(MdsFamily::CauchyDefault, 0), cauchy_mds(16));
    assert_eq!(matrix_for(MdsFamily::CauchyVariant, 4), cauchy_variant(4));
    assert_eq!(matrix_for(MdsFamily::Circulant, 4), random_circulant(4));
}

#[test]
fn metrics_count_rows_and_columns() {
    let mut m = vec![vec![0u32; 16]; 16];
    for i in 0..16 {
        m[i][i] = 1;
    }
    m[0][5] = 9;
    m[0][6] = 9;
    let r = matrix_metrics(&m);
    assert_eq!(r.nonzero, 18);
    assert_eq!(r.row_min, 1);
    assert_eq!(r.row_max, 3);
    assert_eq!(r.col_min, 1);
    assert_eq!(r.col_max, 2);
    let dense = cauchy_mds(16);
    let r = matrix_metrics(&dense);
    assert_eq!((r.nonzero, r.row_min, r.row_max, r.col_min, r.col_max), (256, 16, 16, 16, 16));
}

#[test]
fn support_spreads_through_the_layers() {
    // a shift: word j feeds word j + 1
    let mut m = vec![vec![0u32; 16]; 16];
    for i in 0..16 {
        m[i][i] = 1;
        if i > 0 {
            m[i][i - 1] = 1;
        }
    }
    assert_eq!(support_counts(&m, 4), vec![2, 3, 4, 5]);
    assert_eq!(support_counts(&cauchy_mds(16), 2), vec![16, 16]);
    assert!(support_counts(&[], 0).is_empty());
}

#[test]
fn fingerprint_and_powers() {
    assert_eq!(fnv_fingerprint(&[vec![1, 2, 3], vec![4, 5]]), 0x0f66dcbf4f6b7d88);
    assert_eq!(fnv_fingerprint(&[]), 0xcbf29ce484222325);
    assert_eq!(pow3(0), 1);
    assert_eq!(pow3(5), 243);
    assert_eq!(pow3(80), 3u128.pow(80));
}
