//! Bookkeeping for sampled resultants `(x, Res_Y at x)`: sorting, merging
//! duplicate rows, coverage of the interpolation grid.
use vstd::prelude::*;

use crate::P;

verus! {

/// Pushing onto the merged prefix of either run keeps the multiset equation.
proof fn lemma_merge_step(out: Seq<(u32, u32)>, pa: Seq<(u32, u32)>, pb: Seq<(u32, u32)>, x: (u32, u32))
    requires
        out.to_multiset() == pa.to_multiset().add(pb.to_multiset()),
    ensures
        out.push(x).to_multiset() == pa.push(x).to_multiset().add(pb.to_multiset()),
        out.push(x).to_multiset() == pa.to_multiset().add(pb.push(x).to_multiset()),
{
    broadcast use vstd::seq_lib::group_to_multiset_ensures, vstd::multiset::group_multiset_axioms;

    assert(out.push(x).to_multiset() =~= pa.push(x).to_multiset().add(pb.to_multiset()));
    assert(out.push(x).to_multiset() =~= pa.to_multiset().add(pb.push(x).to_multiset()));
}

proof fn lemma_empty_ms()
    ensures
        Seq::<(u32, u32)>::empty().to_multiset() == Seq::<(u32, u32)>::empty().to_multiset().add(Seq::<(u32, u32)>::empty().to_multiset()),
{
    broadcast use vstd::seq_lib::group_to_multiset_ensures, vstd::multiset::group_multiset_axioms;

    assert(Seq::<(u32, u32)>::empty().to_multiset() =~= Seq::<(u32, u32)>::empty().to_multiset().add(Seq::<(u32, u32)>::empty().to_multiset()));
}

/// `a` comes before or with `b` in the order by `x`, then by value.
pub open spec fn lex_le(a: (u32, u32), b: (u32, u32)) -> bool {
    a.0 < b.0 || (a.0 == b.0 && a.1 <= b.1)
}

/// The pairs are sorted by `x`, then by value.
pub open spec fn sorted_pairs(v: Seq<(u32, u32)>) -> bool {
    forall|i: int, j: int| 0 <= i < j < v.len() ==> lex_le(#[trigger] v[i], #[trigger] v[j])
}

/// Merges two sorted runs.
fn merge(a: &[(u32, u32)], b: &[(u32, u32)]) -> (out: Vec<(u32, u32)>)
    requires
        sorted_pairs(a@),
        sorted_pairs(b@),
    ensures
        sorted_pairs(out@),
        out@.to_multiset() == a@.to_multiset().add(b@.to_multiset()),
        out.len() == a.len() + b.len(),
{
    let mut out: Vec<(u32, u32)> = Vec::new();
    let mut i: usize = 0;
    let mut j: usize = 0;
    proof {
        assert(a@.subrange(0, 0) =~= Seq::<(u32, u32)>::empty());
        assert(b@.subrange(0, 0) =~= Seq::<(u32, u32)>::empty());
        assert(out@ =~= Seq::<(u32, u32)>::empty());
        lemma_empty_ms();
    }
    while i < a.len() || j < b.len()
        invariant
            sorted_pairs(a@),
            sorted_pairs(b@),
            i <= a.len(),
            j <= b.len(),
            out.len() == i + j,
            sorted_pairs(out@),
            out@.to_multiset() == a@.subrange(0, i as int).to_multiset().add(b@.subrange(0, j as int).to_multiset()),
            out.len() > 0 && i < a.len() ==> lex_le(out@.last(), a@[i as int]),
            out.len() > 0 && j < b.len() ==> lex_le(out@.last(), b@[j as int]),
        decreases a.len() + b.len() - i - j,
    {
        let take_a = if i < a.len() && j < b.len() {
            let x = a[i];
            let y = b[j];
            x.0 < y.0 || (x.0 == y.0 && x.1 <= y.1)
        } else {
            i < a.len()
        };
        let ghost old_out = out@;
        if take_a {
            let x = a[i];
            proof {
                lemma_merge_step(old_out, a@.subrange(0, i as int), b@.subrange(0, j as int), x);
            }
            out.push(x);
            proof {
                assert(a@.subrange(0, i + 1) =~= a@.subrange(0, i as int).push(x));
                if i + 1 < a.len() {
                    assert(lex_le(a@[i as int], a@[i + 1]));
                }
                assert forall|p: int, q: int| 0 <= p < q < out@.len() implies lex_le(#[trigger] out@[p], #[trigger] out@[q]) by {
                    if q == out@.len() - 1 && p < q {
                        assert(lex_le(old_out[p], old_out.last()));
                    }
                }
            }
            i += 1;
        } else {
            let y = b[j];
            proof {
                lemma_merge_step(old_out, a@.subrange(0, i as int), b@.subrange(0, j as int), y);
            }
            out.push(y);
            proof {
                assert(b@.subrange(0, j + 1) =~= b@.subrange(0, j as int).push(y));
                if j + 1 < b.len() {
                    assert(lex_le(b@[j as int], b@[j + 1]));
                }
                assert forall|p: int, q: int| 0 <= p < q < out@.len() implies lex_le(#[trigger] out@[p], #[trigger] out@[q]) by {
                    if q == out@.len() - 1 && p < q {
                        assert(lex_le(old_out[p], old_out.last()));
                    }
                }
            }
            j += 1;
        }
    }
    proof {
        assert(a@.subrange(0, a.len() as int) =~= a@);
        assert(b@.subrange(0, b.len() as int) =~= b@);
    }
    out
}

/// The pairs sorted by `x`, then by value.
pub fn sort_samples(v: &[(u32, u32)]) -> (out: Vec<(u32, u32)>)
    ensures
        sorted_pairs(out@),
        out@.to_multiset() == v@.to_multiset(),
        out.len() == v.len(),
    decreases v.len(),
{
    if v.len() <= 1 {
        let mut out: Vec<(u32, u32)> = Vec::new();
        if v.len() == 1 {
            out.push(v[0]);
        }
        proof {
            assert(out@ =~= v@);
        }
        return out;
    }
    let mid = v.len() / 2;
    let left = sort_samples(vstd::slice::slice_subrange(v, 0, mid));
    let right = sort_samples(vstd::slice::slice_subrange(v, mid, v.len()));
    let out = merge(&left, &right);
    proof {
        broadcast use vstd::multiset::group_multiset_axioms;
        vstd::seq_lib::lemma_multiset_commutative(v@.subrange(0, mid as int), v@.subrange(mid as int, v.len() as int));
        assert(v@.subrange(0, mid as int) + v@.subrange(mid as int, v.len() as int) =~= v@);
    }
    out
}

/// Some position of `(xs, ys)` holds the row `s`.
pub open spec fn row_kept(xs: Seq<u32>, ys: Seq<u32>, s: (u32, u32)) -> bool {
    exists|k: int| 0 <= k < xs.len() && xs[k] == s.0 && ys[k] == s.1
}

/// Two rows give different values at the same `x`.
pub open spec fn conflicting(s: Seq<(u32, u32)>) -> bool {
    exists|i: int, j: int| 0 <= i < s.len() && 0 <= j < s.len() && (#[trigger] s[i]).0 == (#[trigger] s[j]).0 && s[i].1 != s[j].1
}

proof fn lemma_sorted_contains(sorted: Seq<(u32, u32)>, v: Seq<(u32, u32)>, t: int)
    requires
        sorted.to_multiset() == v.to_multiset(),
        0 <= t < sorted.len(),
    ensures
        v.contains(sorted[t]),
{
    broadcast use vstd::seq_lib::group_to_multiset_ensures;

    assert(sorted.contains(sorted[t]));
    assert(sorted.to_multiset().count(sorted[t]) > 0);
}

proof fn lemma_v_in_sorted(sorted: Seq<(u32, u32)>, v: Seq<(u32, u32)>, i: int)
    requires
        sorted.to_multiset() == v.to_multiset(),
        0 <= i < v.len(),
    ensures
        sorted.contains(v[i]),
{
    broadcast use vstd::seq_lib::group_to_multiset_ensures;

    assert(v.contains(v[i]));
    assert(v.to_multiset().count(v[i]) > 0);
}

/// The samples sorted by `x` with duplicate rows merged; `None` when two
/// rows give different values at the same `x`.
pub fn sorted_unique_samples(samples: Vec<(u32, u32)>) -> (r: Option<(Vec<u32>, Vec<u32>)>)
    ensures
        r.is_none() <==> conflicting(samples@),
        r matches Some((xs, ys)) ==> {
            &&& xs.len() == ys.len()
            &&& crate::poly::strictly_increasing(xs@)
            &&& forall|k: int| 0 <= k < xs.len() ==> samples@.contains((#[trigger] xs@[k], ys@[k]))
            &&& forall|i: int| 0 <= i < samples.len() ==> #[trigger] row_kept(xs@, ys@, samples@[i])
        },
{
    let sorted = sort_samples(&samples);
    let mut xs: Vec<u32> = Vec::new();
    let mut ys: Vec<u32> = Vec::new();
    let ghost mut kmap: Seq<int> = Seq::empty();
    let ghost mut tmap: Seq<int> = Seq::empty();
    let mut idx: usize = 0;
    while idx < sorted.len()
        invariant
            sorted_pairs(sorted@),
            sorted@.to_multiset() == samples@.to_multiset(),
            idx <= sorted.len(),
            xs.len() == ys.len(),
            crate::poly::strictly_increasing(xs@),
            tmap.len() == xs.len(),
            forall|k: int| 0 <= k < xs.len() ==> 0 <= #[trigger] tmap[k] < idx && sorted@[tmap[k]] == (xs@[k], ys@[k]),
            kmap.len() == idx,
            forall|t: int| 0 <= t < idx ==> 0 <= #[trigger] kmap[t] < xs.len() && xs@[kmap[t]] == sorted@[t].0 && ys@[kmap[t]] == sorted@[t].1,
            xs.len() > 0 ==> idx > 0 && xs@.last() == sorted@[idx - 1].0 && ys@.last() == sorted@[idx - 1].1,
            xs.len() == 0 ==> idx == 0,
        decreases sorted.len() - idx,
    {
        let (x, y) = sorted[idx];
        if xs.len() > 0 && xs[xs.len() - 1] == x {
            let prev = ys[ys.len() - 1];
            if prev != y {
                proof {
                    lemma_conflict_found(sorted@, samples@, idx - 1, idx as int);
                }
                return None;
            }
            proof {
                kmap = kmap.push((xs.len() - 1) as int);
            }
        } else {
            proof {
                if xs.len() > 0 {
                    assert(lex_le(sorted@[idx - 1], sorted@[idx as int]));
                }
            }
            xs.push(x);
            ys.push(y);
            proof {
                kmap = kmap.push((xs.len() - 1) as int);
                tmap = tmap.push(idx as int);
            }
        }
        idx += 1;
    }
    proof {
        lemma_unique_result(sorted@, samples@, xs@, ys@, kmap, tmap);
    }
    Some((xs, ys))
}

proof fn lemma_conflict_found(sorted: Seq<(u32, u32)>, samples: Seq<(u32, u32)>, a: int, b: int)
    requires
        sorted.to_multiset() == samples.to_multiset(),
        0 <= a < sorted.len(),
        0 <= b < sorted.len(),
        sorted[a].0 == sorted[b].0,
        sorted[a].1 != sorted[b].1,
    ensures
        conflicting(samples),
{
    lemma_sorted_contains(sorted, samples, a);
    lemma_sorted_contains(sorted, samples, b);
    let i = choose|i: int| 0 <= i < samples.len() && samples[i] == sorted[a];
    let j = choose|j: int| 0 <= j < samples.len() && samples[j] == sorted[b];
    assert(samples[i].0 == samples[j].0 && samples[i].1 != samples[j].1);
}

proof fn lemma_sample_found(
    sorted: Seq<(u32, u32)>,
    samples: Seq<(u32, u32)>,
    xs: Seq<u32>,
    ys: Seq<u32>,
    kmap: Seq<int>,
    i: int,
) -> (k: int)
    requires
        sorted.to_multiset() == samples.to_multiset(),
        kmap.len() == sorted.len(),
        forall|t: int| 0 <= t < sorted.len() ==> 0 <= #[trigger] kmap[t] < xs.len() && xs[kmap[t]] == sorted[t].0 && ys[kmap[t]] == sorted[t].1,
        0 <= i < samples.len(),
    ensures
        0 <= k < xs.len(),
        xs[k] == samples[i].0,
        ys[k] == samples[i].1,
{
    lemma_v_in_sorted(sorted, samples, i);
    let t = choose|t: int| 0 <= t < sorted.len() && sorted[t] == samples[i];
    kmap[t]
}

proof fn lemma_unique_result(
    sorted: Seq<(u32, u32)>,
    samples: Seq<(u32, u32)>,
    xs: Seq<u32>,
    ys: Seq<u32>,
    kmap: Seq<int>,
    tmap: Seq<int>,
)
    requires
        sorted.to_multiset() == samples.to_multiset(),
        xs.len() == ys.len(),
        crate::poly::strictly_increasing(xs),
        tmap.len() == xs.len(),
        forall|k: int| 0 <= k < xs.len() ==> 0 <= #[trigger] tmap[k] < sorted.len() && sorted[tmap[k]] == (xs[k], ys[k]),
        kmap.len() == sorted.len(),
        forall|t: int| 0 <= t < sorted.len() ==> 0 <= #[trigger] kmap[t] < xs.len() && xs[kmap[t]] == sorted[t].0 && ys[kmap[t]] == sorted[t].1,
    ensures
        !conflicting(samples),
        forall|k: int| 0 <= k < xs.len() ==> samples.contains((#[trigger] xs[k], ys[k])),
        forall|i: int| 0 <= i < samples.len() ==> #[trigger] row_kept(xs, ys, samples[i]),
{
    assert forall|k: int| 0 <= k < xs.len() implies samples.contains((#[trigger] xs[k], ys[k])) by {
        lemma_sorted_contains(sorted, samples, tmap[k]);
    }
    assert forall|i: int| 0 <= i < samples.len() implies #[trigger] row_kept(xs, ys, samples[i]) by {
        let k = lemma_sample_found(sorted, samples, xs, ys, kmap, i);
        assert(0 <= k < xs.len() && xs[k] == samples[i].0 && ys[k] == samples[i].1);
    }
    if conflicting(samples) {
        let (i, j) = choose|i: int, j: int| 0 <= i < samples.len() && 0 <= j < samples.len() && (#[trigger] samples[i]).0 == (#[trigger] samples[j]).0 && samples[i].1 != samples[j].1;
        lemma_v_in_sorted(sorted, samples, i);
        lemma_v_in_sorted(sorted, samples, j);
        let ti = choose|t: int| 0 <= t < sorted.len() && sorted[t] == samples[i];
        let tj = choose|t: int| 0 <= t < sorted.len() && sorted[t] == samples[j];
        let ki = kmap[ti];
        let kj = kmap[tj];
        if ki < kj {
            assert(xs[ki] < xs[kj]);
        } else if kj < ki {
            assert(xs[kj] < xs[ki]);
        }
    }
}

/// Two rows at `x` give different values.
pub open spec fn x_conflict(s: Seq<(u32, u32)>, x: u32) -> bool {
    exists|i: int, j: int| 0 <= i < s.len() && 0 <= j < s.len() && (#[trigger] s[i]).0 == x && (#[trigger] s[j]).0 == x && s[i].1 != s[j].1
}

/// Some row at `x` has value zero.
pub open spec fn x_zero(s: Seq<(u32, u32)>, x: u32) -> bool {
    exists|i: int| 0 <= i < s.len() && #[trigger] s[i] == (x, 0u32)
}

/// Some row is at `x`.
pub open spec fn x_present(s: Seq<(u32, u32)>, x: u32) -> bool {
    exists|i: int| 0 <= i < s.len() && (#[trigger] s[i]).0 == x
}

/// How many of `xs[0..n]` have a conflict in `s`.
pub open spec fn count_conflicts(s: Seq<(u32, u32)>, xs: Seq<u32>, n: int) -> int
    decreases n,
{
    if n <= 0 {
        0
    } else {
        count_conflicts(s, xs, n - 1) + (if x_conflict(s, xs[n - 1]) { 1int } else { 0int })
    }
}

/// How many of `xs[0..n]` have a zero row in `s`.
pub open spec fn count_zeros(s: Seq<(u32, u32)>, xs: Seq<u32>, n: int) -> int
    decreases n,
{
    if n <= 0 {
        0
    } else {
        count_zeros(s, xs, n - 1) + (if x_zero(s, xs[n - 1]) { 1int } else { 0int })
    }
}

/// The distinct `x` values of the samples, the number of rows beyond the
/// first at each `x`, the number of `x` with conflicting rows, and the
/// number of `x` with a zero row.
pub fn summarize_status_samples(samples: Vec<(u32, u32)>) -> (r: (Vec<u32>, usize, usize, usize))
    ensures
        crate::poly::strictly_increasing(r.0@),
        forall|k: int| 0 <= k < r.0.len() ==> x_present(samples@, #[trigger] r.0@[k]),
        forall|i: int| 0 <= i < samples.len() ==> #[trigger] r.0@.contains(samples@[i].0),
        r.1 == samples.len() - r.0.len(),
        r.2 == count_conflicts(samples@, r.0@, r.0.len() as int),
        r.3 == count_zeros(samples@, r.0@, r.0.len() as int),
{
    let sorted = sort_samples(&samples);
    let mut xs: Vec<u32> = Vec::new();
    let mut duplicate_rows: usize = 0;
    let mut conflicting_xs: usize = 0;
    let mut zero_resultants: usize = 0;
    let mut i: usize = 0;
    while i < sorted.len()
        invariant
            sorted_pairs(sorted@),
            sorted@.to_multiset() == samples@.to_multiset(),
            sorted.len() == samples.len(),
            i <= sorted.len(),
            xs.len() <= i,
            i > 0 ==> xs.len() > 0 && xs@.last() == sorted@[i - 1].0,
            i == 0 ==> xs.len() == 0,
            i < sorted.len() && i > 0 ==> sorted@[i - 1].0 < sorted@[i as int].0,
            crate::poly::strictly_increasing(xs@),
            forall|k: int| 0 <= k < xs.len() ==> x_present(samples@, #[trigger] xs@[k]),
            forall|t: int| 0 <= t < i ==> #[trigger] xs@.contains(sorted@[t].0),
            duplicate_rows == i - xs.len(),
            conflicting_xs == count_conflicts(samples@, xs@, xs.len() as int),
            zero_resultants == count_zeros(samples@, xs@, xs.len() as int),
            conflicting_xs <= xs.len(),
            zero_resultants <= xs.len(),
        decreases sorted.len() - i,
    {
        let x = sorted[i].0;
        let y0 = sorted[i].1;
        let mut has_conflict = false;
        let mut has_zero = y0 == 0;
        let mut j = i + 1;
        while j < sorted.len() && sorted[j].0 == x
            invariant
                sorted_pairs(sorted@),
                i < j <= sorted.len(),
                x == sorted@[i as int].0,
                y0 == sorted@[i as int].1,
                forall|t: int| i <= t < j ==> (#[trigger] sorted@[t]).0 == x,
                has_conflict == (exists|t: int| i <= t < j && (#[trigger] sorted@[t]).1 != y0),
                has_zero == (exists|t: int| i <= t < j && (#[trigger] sorted@[t]).1 == 0),
            decreases sorted.len() - j,
        {
            if sorted[j].1 != y0 {
                has_conflict = true;
            }
            if sorted[j].1 == 0 {
                has_zero = true;
            }
            proof {
                assert(sorted@[j as int].0 == x);
            }
            j += 1;
        }
        proof {
            lemma_run_facts(sorted@, samples@, i as int, j as int, x, y0);
            if xs.len() > 0 {
                assert(xs@.last() < x);
            }
        }
        let ghost old_xs = xs@;
        proof {
            assert forall|t: int| 0 <= t < i implies #[trigger] old_xs.contains(sorted@[t].0) by {
                assert(xs@.contains(sorted@[t].0));
            }
        }
        xs.push(x);
        proof {
            assert(x_present(samples@, x));
            assert forall|k: int| 0 <= k < xs.len() implies x_present(samples@, #[trigger] xs@[k]) by {
                if k < old_xs.len() {
                    assert(xs@[k] == old_xs[k]);
                }
            }
            assert forall|t: int| 0 <= t < j implies #[trigger] xs@.contains(sorted@[t].0) by {
                if t >= i {
                    assert(xs@[xs.len() - 1] == sorted@[t].0);
                } else {
                    assert(old_xs.contains(sorted@[t].0));
                    let k = choose|k: int| 0 <= k < old_xs.len() && old_xs[k] == sorted@[t].0;
                    assert(xs@[k] == sorted@[t].0);
                }
            }
            assert(xs@.subrange(0, old_xs.len() as int) =~= old_xs);
            lemma_counts_push(samples@, old_xs, x);
        }
        duplicate_rows = duplicate_rows + (j - i - 1);
        if has_conflict {
            conflicting_xs += 1;
        }
        if has_zero {
            zero_resultants += 1;
        }
        i = j;
    }
    proof {
        assert forall|t: int| 0 <= t < samples.len() implies #[trigger] xs@.contains(samples@[t].0) by {
            lemma_v_in_sorted(sorted@, samples@, t);
            let u = choose|u: int| 0 <= u < sorted@.len() && sorted@[u] == samples@[t];
            assert(xs@.contains(sorted@[u].0));
        }
    }
    (xs, duplicate_rows, conflicting_xs, zero_resultants)
}

proof fn lemma_counts_push(s: Seq<(u32, u32)>, xs: Seq<u32>, x: u32)
    ensures
        count_conflicts(s, xs.push(x), xs.len() + 1int) == count_conflicts(s, xs, xs.len() as int) + (if x_conflict(s, x) { 1int } else { 0int }),
        count_zeros(s, xs.push(x), xs.len() + 1int) == count_zeros(s, xs, xs.len() as int) + (if x_zero(s, x) { 1int } else { 0int }),
{
    lemma_counts_prefix(s, xs, x, xs.len() as int);
}

proof fn lemma_counts_prefix(s: Seq<(u32, u32)>, xs: Seq<u32>, x: u32, n: int)
    requires
        0 <= n <= xs.len(),
    ensures
        count_conflicts(s, xs.push(x), n) == count_conflicts(s, xs, n),
        count_zeros(s, xs.push(x), n) == count_zeros(s, xs, n),
    decreases n,
{
    if n > 0 {
        lemma_counts_prefix(s, xs, x, n - 1);
        assert(xs.push(x)[n - 1] == xs[n - 1]);
    }
}

/// The run `sorted[i..j)` holds every row at `x`: its conflicts and zeros are
/// those of the samples.
proof fn lemma_run_facts(sorted: Seq<(u32, u32)>, samples: Seq<(u32, u32)>, i: int, j: int, x: u32, y0: u32)
    requires
        sorted_pairs(sorted),
        sorted.to_multiset() == samples.to_multiset(),
        0 <= i < j <= sorted.len(),
        i > 0 ==> sorted[i - 1].0 < sorted[i].0,
        j < sorted.len() ==> sorted[j].0 != x,
        x == sorted[i].0,
        y0 == sorted[i].1,
        forall|t: int| i <= t < j ==> (#[trigger] sorted[t]).0 == x,
    ensures
        (exists|t: int| i <= t < j && (#[trigger] sorted[t]).1 != y0) == x_conflict(samples, x),
        (exists|t: int| i <= t < j && (#[trigger] sorted[t]).1 == 0) == x_zero(samples, x),
        x_present(samples, x),
        j < sorted.len() ==> x < sorted[j].0,
{
    lemma_sorted_contains(sorted, samples, i);
    let w = choose|w: int| 0 <= w < samples.len() && samples[w] == sorted[i];
    assert(samples[w].0 == x);
    if j < sorted.len() {
        assert(lex_le(sorted[j - 1], sorted[j]));
    }
    // every row at x sits in the run
    assert forall|u: int| 0 <= u < sorted.len() && sorted[u].0 == x implies i <= u < j by {
        if u < i {
            assert(lex_le(sorted[u], sorted[i - 1]) || u == i - 1);
        } else if u >= j {
            assert(lex_le(sorted[j], sorted[u]) || u == j);
        }
    }
    if exists|t: int| i <= t < j && (#[trigger] sorted[t]).1 != y0 {
        let t = choose|t: int| i <= t < j && (#[trigger] sorted[t]).1 != y0;
        lemma_conflict_found(sorted, samples, i, t);
        let (a, b) = choose|a: int, b: int| 0 <= a < samples.len() && 0 <= b < samples.len() && (#[trigger] samples[a]).0 == (#[trigger] samples[b]).0 && samples[a].1 != samples[b].1;
        lemma_sorted_contains(sorted, samples, t);
        let ws = choose|ws: int| 0 <= ws < samples.len() && samples[ws] == sorted[t];
        assert(samples[w].0 == x && samples[ws].0 == x && samples[w].1 != samples[ws].1);
    }
    if x_conflict(samples, x) {
        let (a, b) = choose|a: int, b: int| 0 <= a < samples.len() && 0 <= b < samples.len() && (#[trigger] samples[a]).0 == x && (#[trigger] samples[b]).0 == x && samples[a].1 != samples[b].1;
        lemma_v_in_sorted(sorted, samples, a);
        lemma_v_in_sorted(sorted, samples, b);
        let ta = choose|t: int| 0 <= t < sorted.len() && sorted[t] == samples[a];
        let tb = choose|t: int| 0 <= t < sorted.len() && sorted[t] == samples[b];
        assert(i <= ta < j && i <= tb < j);
        if sorted[ta].1 != y0 {
            assert(i <= ta < j && sorted[ta].1 != y0);
        } else {
            assert(i <= tb < j && sorted[tb].1 != y0);
        }
    }
    if exists|t: int| i <= t < j && (#[trigger] sorted[t]).1 == 0 {
        let t = choose|t: int| i <= t < j && (#[trigger] sorted[t]).1 == 0;
        lemma_sorted_contains(sorted, samples, t);
        let ws = choose|ws: int| 0 <= ws < samples.len() && samples[ws] == sorted[t];
        assert(samples[ws] == (x, 0u32));
    }
    if x_zero(samples, x) {
        let a = choose|a: int| 0 <= a < samples.len() && #[trigger] samples[a] == (x, 0u32);
        lemma_v_in_sorted(sorted, samples, a);
        let ta = choose|t: int| 0 <= t < sorted.len() && sorted[t] == samples[a];
        assert(i <= ta < j && sorted[ta].1 == 0);
    }
}

/// Number of `false` entries in `c[0..n]`.
pub open spec fn count_false(c: Seq<bool>, n: int) -> int
    decreases n,
{
    if n <= 0 {
        0
    } else {
        count_false(c, n - 1) + (if c[n - 1] { 0int } else { 1int })
    }
}

/// `(start, len)` is a maximal run of `false` entries, `start` counted from one.
pub open spec fn maximal_gap(c: Seq<bool>, start: int, len: int) -> bool {
    &&& 1 <= start
    &&& len >= 1
    &&& start - 1 + len <= c.len()
    &&& forall|i: int| start - 1 <= i < start - 1 + len ==> !#[trigger] c[i]
    &&& (start - 1 == 0 || c[start - 2])
    &&& (start - 1 + len == c.len() || c[start - 1 + len])
}

proof fn lemma_count_false_step(c: Seq<bool>, n: int)
    requires
        0 <= n,
    ensures
        count_false(c, n + 1) == count_false(c, n) + (if c[n] { 0int } else { 1int }),
{
}

/// The number of uncovered grid points, and the first `max_ranges` maximal
/// uncovered runs as `(first x, length)` in scan order, the grid starting at
/// `x = 1`: no uncovered point before the end of the last run returned is
/// left out of the runs returned.
pub fn missing_ranges(covered: &[bool], max_ranges: usize) -> (r: (usize, Vec<(u32, usize)>))
    requires
        covered.len() < 0xFFFF_FFFF,
    ensures
        r.0 == count_false(covered@, covered.len() as int),
        r.1.len() <= max_ranges,
        forall|k: int| 0 <= k < r.1.len() ==> maximal_gap(covered@, (#[trigger] r.1@[k]).0 as int, r.1@[k].1 as int),
        forall|k: int, l: int| 0 <= k < l < r.1.len() ==> (#[trigger] r.1@[k]).0 < (#[trigger] r.1@[l]).0,
        r.1.len() < max_ranges ==> forall|i: int| 0 <= i < covered.len() && !covered@[i] ==> exists|k: int|
            0 <= k < r.1.len() && (#[trigger] r.1@[k]).0 - 1 <= i < r.1@[k].0 - 1 + r.1@[k].1,
        r.1.len() > 0 ==> forall|i: int|
            0 <= i < r.1@[r.1.len() - 1].0 - 1 + r.1@[r.1.len() - 1].1 && !covered@[i] ==> exists|k: int|
                0 <= k < r.1.len() && (#[trigger] r.1@[k]).0 - 1 <= i < r.1@[k].0 - 1 + r.1@[k].1,
{
    let mut missing: usize = 0;
    let mut ranges: Vec<(u32, usize)> = Vec::new();
    let mut i: usize = 0;
    while i < covered.len()
        invariant
            covered.len() < 0xFFFF_FFFF,
            i <= covered.len(),
            missing == count_false(covered@, i as int),
            missing <= i,
            ranges.len() <= max_ranges,
            forall|k: int| 0 <= k < ranges.len() ==> maximal_gap(covered@, (#[trigger] ranges@[k]).0 as int, ranges@[k].1 as int),
            forall|k: int| 0 <= k < ranges.len() ==> (#[trigger] ranges@[k]).0 - 1 + ranges@[k].1 <= i,
            forall|k: int, l: int| 0 <= k < l < ranges.len() ==> (#[trigger] ranges@[k]).0 < (#[trigger] ranges@[l]).0,
            0 < i < covered.len() ==> covered@[i - 1] || covered@[i as int],
            ranges.len() < max_ranges ==> forall|t: int| 0 <= t < i && !covered@[t] ==> exists|k: int|
                0 <= k < ranges.len() && (#[trigger] ranges@[k]).0 - 1 <= t < ranges@[k].0 - 1 + ranges@[k].1,
            ranges.len() > 0 ==> forall|t: int|
                0 <= t < ranges@[ranges.len() - 1].0 - 1 + ranges@[ranges.len() - 1].1 && !covered@[t] ==> exists|k: int|
                    0 <= k < ranges.len() && (#[trigger] ranges@[k]).0 - 1 <= t < ranges@[k].0 - 1 + ranges@[k].1,
        decreases covered.len() - i,
    {
        if covered[i] {
            proof {
                lemma_count_false_step(covered@, i as int);
            }
            i += 1;
            continue;
        }
        let start = i;
        proof {
            assert(start == 0 || covered@[start - 1]);
        }
        while i < covered.len() && !covered[i]
            invariant
                start < covered.len(),
                start <= i <= covered.len(),
                missing == count_false(covered@, start as int),
                forall|t: int| start <= t < i ==> !covered@[t],
                !covered@[start as int],
            decreases covered.len() - i,
        {
            i += 1;
        }
        let len = i - start;
        proof {
            lemma_count_false_run(covered@, start as int, i as int);
            assert(i == covered.len() || covered@[i as int]);
        }
        missing += len;
        if ranges.len() < max_ranges {
            let ghost old_ranges = ranges@;
            ranges.push(((start + 1) as u32, len));
            proof {
                assert(maximal_gap(covered@, (start + 1) as int, len as int));
                assert forall|t: int| 0 <= t < i && !covered@[t] implies exists|k: int|
                    0 <= k < ranges.len() && (#[trigger] ranges@[k]).0 - 1 <= t < ranges@[k].0 - 1 + ranges@[k].1 by {
                    if t >= start {
                        let k = (ranges.len() - 1) as int;
                        assert(ranges@[k].0 - 1 <= t < ranges@[k].0 - 1 + ranges@[k].1);
                    } else {
                        let k = choose|k: int| 0 <= k < old_ranges.len() && (#[trigger] old_ranges[k]).0 - 1 <= t < old_ranges[k].0 - 1 + old_ranges[k].1;
                        assert(ranges@[k] == old_ranges[k]);
                    }
                }
            }
        }
    }
    (missing, ranges)
}

proof fn lemma_count_false_run(c: Seq<bool>, start: int, n: int)
    requires
        0 <= start <= n <= c.len(),
        forall|t: int| start <= t < n ==> !c[t],
    ensures
        count_false(c, n) == count_false(c, start) + (n - start),
    decreases n - start,
{
    if n > start {
        lemma_count_false_run(c, start, n - 1);
    }
}

/// The grid `start_x, ..., start_x + nodes - 1` (at least one node); `None`
/// when it starts at zero or reaches `P`.
pub fn checked_x_range(start_x: u32, nodes: usize) -> (r: Option<Vec<u32>>)
    ensures
        r.is_none() <==> (start_x == 0 || start_x as int + (if nodes == 0 { 1 } else { nodes as int }) - 1 >= P),
        r matches Some(v) ==> v.len() == (if nodes == 0 { 1 } else { nodes as int }) && forall|i: int| 0 <= i < v.len() ==> #[trigger] v@[i] == start_x + i,
{
    let nodes = if nodes == 0 { 1 } else { nodes };
    if start_x == 0 || nodes as u64 >= P as u64 {
        return None;
    }
    let end = start_x as u64 + nodes as u64 - 1;
    if end >= P as u64 {
        return None;
    }
    let mut v: Vec<u32> = Vec::new();
    let mut i: usize = 0;
    while i < nodes
        invariant
            1 <= start_x,
            nodes < P,
            start_x + nodes - 1 < P,
            i <= nodes,
            v.len() == i,
            forall|k: int| 0 <= k < i ==> #[trigger] v@[k] == start_x + k,
        decreases nodes - i,
    {
        v.push(start_x + i as u32);
        i += 1;
    }
    Some(v)
}

/// `x` lies on the grid `1, ..., n`.
pub open spec fn on_grid(x: u32, n: int) -> bool {
    1 <= x <= n
}

/// How many of the first `k` sample points lie off the grid `1, ..., n`.
pub open spec fn count_off_grid(xs: Seq<u32>, n: int, k: int) -> int
    decreases k,
{
    if k <= 0 {
        0
    } else {
        count_off_grid(xs, n, k - 1) + if on_grid(xs[k - 1], n) { 0int } else { 1int }
    }
}

/// Marks which grid points `1, ..., n` the sample points cover, and counts
/// the sample points off the grid.
pub fn mark_coverage(xs: &[u32], n: usize) -> (r: (Vec<bool>, usize))
    ensures
        r.0.len() == n,
        forall|i: int| 0 <= i < n ==> (#[trigger] r.0[i] <==> exists|k: int| 0 <= k < xs.len() && xs[k] == i + 1),
        r.1 as int == count_off_grid(xs@, n as int, xs.len() as int),
{
    let mut covered: Vec<bool> = Vec::new();
    let mut i: usize = 0;
    while i < n
        invariant
            i <= n,
            covered.len() == i,
            forall|j: int| 0 <= j < i ==> !#[trigger] covered[j],
        decreases n - i,
    {
        covered.push(false);
        i += 1;
    }
    let mut off: usize = 0;
    let mut k: usize = 0;
    while k < xs.len()
        invariant
            k <= xs.len(),
            covered.len() == n,
            forall|j: int| 0 <= j < n ==> (#[trigger] covered[j] <==> exists|t: int| 0 <= t < k && xs[t] == j + 1),
            off as int == count_off_grid(xs@, n as int, k as int),
            off <= k,
        decreases xs.len() - k,
    {
        let x = xs[k];
        if x >= 1 && (x as usize) <= n {
            covered.set(x as usize - 1, true);
        } else {
            off += 1;
        }
        proof {
            assert forall|j: int| 0 <= j < n implies (#[trigger] covered[j] <==> exists|t: int| 0 <= t < k + 1 && xs[t] == j + 1) by {
                if exists|t: int| 0 <= t < k + 1 && xs[t] == j + 1 {
                    let t = choose|t: int| 0 <= t < k + 1 && xs[t] == j + 1;
                    if t < k {
                        assert(exists|t2: int| 0 <= t2 < k && xs[t2] == j + 1);
                    }
                }
                if exists|t: int| 0 <= t < k && xs[t] == j + 1 {
                    let t = choose|t: int| 0 <= t < k && xs[t] == j + 1;
                    assert(0 <= t < k + 1 && xs[t] == j + 1);
                }
            }
        }
        k += 1;
    }
    (covered, off)
}

} // verus!
