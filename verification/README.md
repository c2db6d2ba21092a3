# KoalaBear / Poseidon1 verified core

A Verus library for the KoalaBear field (p = 2^31 - 2^24 + 1), the Poseidon1
permutation over it (t = 16, alpha = 3), polynomial arithmetic over F_p, and
the algebraic attacks built on them (CICO-2, the zero test, fixed-root and
fixed-cofactor eliminations, half-GCD resultants).

Layout:

- `src/lib.rs` — Montgomery arithmetic, Grain round constants, MDS matrices,
  the permutation, the hash and the verification predicates; `poseidon_spec.rs`
  holds their mathematical models.
- `src/poly*.rs`, `src/field.rs`, `src/ntt_spec.rs` — polynomials over F_p:
  arithmetic, NTT multiplication, division, gcd, resultants, roots,
  interpolation, with their algebra; `poly_gcd.rs` characterises the gcd
  and carries Bezout cofactors, `newton_interp.rs` shows that Newton
  interpolation passes through its nodes.
- `src/bipoly.rs` — bivariate polynomials.
- `src/cico.rs`, `src/zerotest.rs` — the CICO-2 and zero-test attacks.
- `src/rootvar.rs`, `src/rootgrid.rs`, `src/amortized.rs`,
  `src/cofactor_family.rs`, `src/samples.rs` — the root-first eliminations,
  their sample files, and the bivariate variant.
- `src/fast_resultant.rs` — the half-GCD resultant and gcd; `src/hgcd_chain.rs`
  shows when a run of division matrices is a run of Euclidean divisions.
- `src/mds_family.rs` — candidate MDS families and their sparsity facts.
- `tests/` — tests of the library.
- `app/` — the command-line drivers (file I/O, timing, printing).
