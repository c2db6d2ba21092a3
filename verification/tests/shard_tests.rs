use lib::rootvar::{fixed_root, scout_seed};
use lib::shard::check_shard;

fn chars(s: &str) -> Vec<char> {
    s.chars().collect()
}

#[test]
fn shard_metadata_mismatch_fails_before_any_row() {
    let content = chars("# rf=4 rp=5 seed=1 root_c0=2 root_c1=3\nx,res\n1,5\n");
    let r = check_shard(&content, 1);
    assert!(!r.meta_ok);
    assert!(!r.pass);
    assert_eq!(r.checked, 0);
    assert!(r.rows.is_empty());
}

#[test]
fn shard_metadata_naming_the_derived_seed_and_root_is_accepted() {
    let seed = scout_seed(4, 5, 0);
    let root = fixed_root(seed);
    let text = format!("# seed_idx=0 seed={} root_c0={} root_c1={}\nx,res\n# only comments\n\n", seed, root.c0, root.c1);
    let r = check_shard(&chars(&text), 1);
    assert!(r.meta_ok);
    // no data rows: too few rows, nothing recomputed
    assert_eq!(r.checked, 0);
    assert!(!r.pass);
}

#[test]
fn shard_without_metadata_or_rows_fails_on_row_count() {
    let content = chars("x,res\n  \n#c\nnot,a number\n+,1\n1\n");
    let r = check_shard(&content, 2);
    assert!(r.meta_ok);
    assert_eq!(r.checked, 0);
    assert_eq!(r.mismatches, 0);
    assert!(!r.pass);
}
