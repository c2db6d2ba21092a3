//! Sample shards: CSV text of `x,resultant` rows with `#` comments.
//!
//! * `parse_sample_rows` reads the rows of a sample file.
//! * `check_shard` checks the landed shard of the `rf = 4`, `rp = 5`
//!   coordinate line of seed 0: its optional metadata comment must name the
//!   derived seed and fixed root, and its first rows are recomputed with the
//!   half-GCD resultant.

use vstd::prelude::*;

use crate::fast_resultant::resultant_fast;
use crate::poly_spec::res_spec;
use crate::rootvar::{
    canonical_line_residuals, fixed_cofactor, fixed_cofactor_spec, fixed_root, fixed_root_spec, lemma_instance_ok,
    lemma_pow3_fits, residual_polys_at_x, scout_seed, scout_seed_spec,
};
use crate::{Poseidon1, P};

verus! {

// ---------------------------------------------------------------------------
// Text
// ---------------------------------------------------------------------------

/// The end of the line that starts at `p`: the first `'\n'` at or after `p`,
/// or the end of the text.
pub open spec fn nl_from(s: Seq<char>, p: int) -> int
    decreases s.len() - p,
{
    if p >= s.len() {
        s.len() as int
    } else if s[p] == '\n' {
        p
    } else {
        nl_from(s, p + 1)
    }
}

pub proof fn lemma_nl_from(s: Seq<char>, p: int)
    requires
        0 <= p,
    ensures
        p <= s.len() ==> p <= nl_from(s, p) <= s.len(),
    decreases s.len() - p,
{
    if p < s.len() && s[p] != '\n' {
        lemma_nl_from(s, p + 1);
    }
}

/// The line from `p` to its end `e`, without the `'\r'` of a `"\r\n"` ending.
pub open spec fn line_of(s: Seq<char>, p: int, e: int) -> Seq<char> {
    if e < s.len() && e > p && s[e - 1] == '\r' {
        s.subrange(p, e - 1)
    } else {
        s.subrange(p, e)
    }
}

/// White space as `char::is_whitespace` has it.
pub open spec fn is_ws(c: char) -> bool {
    let u = c as u32;
    ||| 9 <= u <= 13
    ||| u == 32
    ||| u == 0x85
    ||| u == 0xA0
    ||| u == 0x1680
    ||| 0x2000 <= u <= 0x200A
    ||| u == 0x2028
    ||| u == 0x2029
    ||| u == 0x202F
    ||| u == 0x205F
    ||| u == 0x3000
}

/// The first index at or after `i` that is not white space.
pub open spec fn ws_prefix_end(t: Seq<char>, i: int) -> int
    decreases t.len() - i,
{
    if 0 <= i < t.len() && is_ws(t[i]) {
        ws_prefix_end(t, i + 1)
    } else {
        i
    }
}

/// The end of `t[lo..j]` without its trailing white space.
pub open spec fn ws_suffix_start(t: Seq<char>, lo: int, j: int) -> int
    decreases j - lo,
{
    if j > lo && is_ws(t[j - 1]) {
        ws_suffix_start(t, lo, j - 1)
    } else {
        j
    }
}

/// `t` without leading and trailing white space.
pub open spec fn trim_ws(t: Seq<char>) -> Seq<char> {
    let a = ws_prefix_end(t, 0);
    t.subrange(a, ws_suffix_start(t, a, t.len() as int))
}

/// The value of a decimal digit, or -1.
pub open spec fn char_digit(c: char) -> int {
    if c == '0' {
        0
    } else if c == '1' {
        1
    } else if c == '2' {
        2
    } else if c == '3' {
        3
    } else if c == '4' {
        4
    } else if c == '5' {
        5
    } else if c == '6' {
        6
    } else if c == '7' {
        7
    } else if c == '8' {
        8
    } else if c == '9' {
        9
    } else {
        -1
    }
}

/// The value of a string of decimal digits.
pub open spec fn digits_val(d: Seq<char>) -> int
    decreases d.len(),
{
    if d.len() == 0 {
        0
    } else {
        digits_val(d.drop_last()) * 10 + char_digit(d.last())
    }
}

/// `u32` parsing as `str::parse` has it: an optional `+`, then one or more
/// decimal digits, the value at most `u32::MAX`.
pub open spec fn parse_u32_spec(t: Seq<char>) -> Option<u32> {
    parse_digits(if t.len() > 0 && t[0] == '+' { t.drop_first() } else { t })
}

/// Every character is a decimal digit.
pub open spec fn all_digits(d: Seq<char>) -> bool {
    forall|i: int| 0 <= i < d.len() ==> #[trigger] char_digit(d[i]) >= 0
}

/// One or more decimal digits whose value fits in a `u32`.
pub open spec fn parse_digits(d: Seq<char>) -> Option<u32> {
    if d.len() > 0 && all_digits(d) && digits_val(d) <= u32::MAX {
        Some(digits_val(d) as u32)
    } else {
        None
    }
}

/// The first `','` at or after `i`, or the end of the line.
pub open spec fn comma_from(l: Seq<char>, i: int) -> int
    decreases l.len() - i,
{
    if i >= l.len() {
        l.len() as int
    } else if l[i] == ',' {
        i
    } else {
        comma_from(l, i + 1)
    }
}

/// The data row a line holds: none for a comment, the `x,` header or a blank
/// line; otherwise its first two comma-separated fields, trimmed, where both
/// parse as `u32`.
pub open spec fn line_row(l: Seq<char>) -> Option<(u32, u32)> {
    if (l.len() > 0 && l[0] == '#') || (l.len() >= 2 && l[0] == 'x' && l[1] == ',') || trim_ws(l).len() == 0 {
        None
    } else {
        let c0 = comma_from(l, 0);
        if c0 >= l.len() {
            None
        } else {
            let c1 = comma_from(l, c0 + 1);
            match (parse_u32_spec(trim_ws(l.subrange(0, c0))), parse_u32_spec(trim_ws(l.subrange(c0 + 1, c1)))) {
                (Some(x), Some(v)) => Some((x, v)),
                _ => None,
            }
        }
    }
}

/// The data rows of the lines from `p` on, in order.
pub open spec fn rows_from(s: Seq<char>, p: int) -> Seq<(u32, u32)>
    decreases s.len() + 1 - p,
{
    if p < 0 || p >= s.len() {
        Seq::empty()
    } else {
        let e = nl_from(s, p);
        proof {
            lemma_nl_from(s, p);
        }
        match line_row(line_of(s, p, e)) {
            Some(r) => seq![r] + rows_from(s, e + 1),
            None => rows_from(s, e + 1),
        }
    }
}

/// The data rows of the shard.
pub open spec fn shard_rows(s: Seq<char>) -> Seq<(u32, u32)> {
    rows_from(s, 0)
}

/// `pat` occurs in `l`.
pub open spec fn contains_pat(l: Seq<char>, pat: Seq<char>) -> bool {
    exists|i: int| 0 <= i && i + pat.len() <= l.len() && #[trigger] l.subrange(i, i + pat.len()) == pat
}

/// A metadata comment: starts with `#` and names `seed=` and `root_c0=`.
pub open spec fn is_meta_line(l: Seq<char>) -> bool {
    &&& l.len() > 0
    &&& l[0] == '#'
    &&& contains_pat(l, seq!['s', 'e', 'e', 'd', '='])
    &&& contains_pat(l, seq!['r', 'o', 'o', 't', '_', 'c', '0', '='])
}

/// The first metadata comment among the lines from `p` on.
pub open spec fn meta_from(s: Seq<char>, p: int) -> Option<Seq<char>>
    decreases s.len() + 1 - p,
{
    if p < 0 || p >= s.len() {
        None
    } else {
        let e = nl_from(s, p);
        proof {
            lemma_nl_from(s, p);
        }
        if is_meta_line(line_of(s, p, e)) {
            Some(line_of(s, p, e))
        } else {
            meta_from(s, e + 1)
        }
    }
}

/// The decimal digit `d`.
pub open spec fn digit_char(d: int) -> char {
    if d == 0 {
        '0'
    } else if d == 1 {
        '1'
    } else if d == 2 {
        '2'
    } else if d == 3 {
        '3'
    } else if d == 4 {
        '4'
    } else if d == 5 {
        '5'
    } else if d == 6 {
        '6'
    } else if d == 7 {
        '7'
    } else if d == 8 {
        '8'
    } else {
        '9'
    }
}

/// `n` in decimal, as `format!("{}")` writes it.
pub open spec fn dec_spec(n: nat) -> Seq<char>
    decreases n,
{
    if n < 10 {
        seq![digit_char(n as int)]
    } else {
        dec_spec(n / 10).push(digit_char((n % 10) as int))
    }
}

/// The seed of the landed shard: coordinate line of seed 0 at `rf = 4`, `rp = 5`.
pub open spec fn shard_seed() -> u64 {
    scout_seed_spec(4, 5, 0) as u64
}

/// The metadata agrees with the derived seed and root: where a metadata
/// comment is present, it names `seed=`, `root_c0=` and `root_c1=` with
/// their values.
pub open spec fn shard_meta_ok(s: Seq<char>) -> bool {
    let root = fixed_root_spec(shard_seed());
    match meta_from(s, 0) {
        None => true,
        Some(l) => {
            &&& contains_pat(l, seq!['s', 'e', 'e', 'd', '='] + dec_spec(shard_seed() as nat))
            &&& contains_pat(l, seq!['r', 'o', 'o', 't', '_', 'c', '0', '='] + dec_spec(root.c0 as nat))
            &&& contains_pat(l, seq!['r', 'o', 'o', 't', '_', 'c', '1', '='] + dec_spec(root.c1 as nat))
        },
    }
}

/// The residual pair of the shard's line at `X = x mod p`.
pub open spec fn shard_residuals(x: u32) -> (Seq<u32>, Seq<u32>) {
    canonical_line_residuals(4, 5, fixed_root_spec(shard_seed()), fixed_cofactor_spec(shard_seed()), 0, x % P)
}

/// The number of rows among the first `n` whose computed value differs from
/// the recorded one.
pub open spec fn mismatch_count(rows: Seq<(u32, u32)>, computed: Seq<u32>, n: int) -> int
    decreases n,
{
    if n <= 0 {
        0
    } else {
        mismatch_count(rows, computed, n - 1) + if computed[n - 1] != rows[n - 1].1 { 1int } else { 0int }
    }
}

/// The outcome of the shard check.
pub struct ShardCheck {
    /// The metadata agreed, there were enough rows, and every row matched.
    pub pass: bool,
    pub meta_ok: bool,
    /// The rows recomputed.
    pub checked: usize,
    pub mismatches: usize,
    /// The rows recomputed, as `(x, recorded)`.
    pub rows: Vec<(u32, u32)>,
    /// The half-GCD resultant at each row's `x`.
    pub computed: Vec<u32>,
}

// ---------------------------------------------------------------------------
// Scanning
// ---------------------------------------------------------------------------

fn line_end(s: &[char], p: usize) -> (e: usize)
    requires
        p <= s.len(),
    ensures
        e == nl_from(s@, p as int),
        p <= e <= s.len(),
{
    let mut i = p;
    while i < s.len() && s[i] != '\n'
        invariant
            p <= i <= s.len(),
            nl_from(s@, i as int) == nl_from(s@, p as int),
        decreases s.len() - i,
    {
        i += 1;
    }
    i
}

fn copy_line(s: &[char], p: usize, e: usize) -> (l: Vec<char>)
    requires
        p <= e <= s.len(),
    ensures
        l@ == line_of(s@, p as int, e as int),
{
    let stop = if e < s.len() && e > p && s[e - 1] == '\r' { e - 1 } else { e };
    let mut l: Vec<char> = Vec::new();
    let mut i = p;
    while i < stop
        invariant
            p <= i <= stop <= e,
            e <= s.len(),
            l@ == s@.subrange(p as int, i as int),
        decreases stop - i,
    {
        l.push(s[i]);
        proof {
            assert(l@ =~= s@.subrange(p as int, i + 1));
        }
        i += 1;
    }
    l
}

fn is_ws_char(c: char) -> (b: bool)
    ensures
        b == is_ws(c),
{
    let u = c as u32;
    (9 <= u && u <= 13) || u == 32 || u == 0x85 || u == 0xA0 || u == 0x1680 || (0x2000 <= u && u <= 0x200A)
        || u == 0x2028 || u == 0x2029 || u == 0x202F || u == 0x205F || u == 0x3000
}

/// `t[a..b]` trimmed.
fn trim_range(t: &[char], a0: usize, b0: usize) -> (r: Vec<char>)
    requires
        a0 <= b0 <= t.len(),
    ensures
        r@ == trim_ws(t@.subrange(a0 as int, b0 as int)),
{
    let ghost u = t@.subrange(a0 as int, b0 as int);
    let mut a = a0;
    while a < b0 && is_ws_char(t[a])
        invariant
            a0 <= a <= b0 <= t.len(),
            u == t@.subrange(a0 as int, b0 as int),
            ws_prefix_end(u, (a - a0) as int) == ws_prefix_end(u, 0),
        decreases b0 - a,
    {
        a += 1;
    }
    let mut b = b0;
    while b > a && is_ws_char(t[b - 1])
        invariant
            a0 <= a <= b <= b0 <= t.len(),
            u == t@.subrange(a0 as int, b0 as int),
            ws_prefix_end(u, 0) == (a - a0) as int,
            ws_suffix_start(u, (a - a0) as int, (b - a0) as int) == ws_suffix_start(u, (a - a0) as int, u.len() as int),
        decreases b - a,
    {
        b -= 1;
    }
    let mut r: Vec<char> = Vec::new();
    let mut i = a;
    while i < b
        invariant
            a <= i <= b <= t.len(),
            r@ == t@.subrange(a as int, i as int),
        decreases b - i,
    {
        r.push(t[i]);
        proof {
            assert(r@ =~= t@.subrange(a as int, i + 1));
        }
        i += 1;
    }
    proof {
        assert(r@ =~= u.subrange((a - a0) as int, (b - a0) as int));
    }
    r
}

fn digit_of(c: char) -> (d: i32)
    ensures
        d as int == char_digit(c),
{
    if c == '0' {
        0
    } else if c == '1' {
        1
    } else if c == '2' {
        2
    } else if c == '3' {
        3
    } else if c == '4' {
        4
    } else if c == '5' {
        5
    } else if c == '6' {
        6
    } else if c == '7' {
        7
    } else if c == '8' {
        8
    } else if c == '9' {
        9
    } else {
        -1
    }
}

/// `str::parse::<u32>` on a trimmed field.
fn parse_u32(t: &[char]) -> (r: Option<u32>)
    ensures
        r == parse_u32_spec(t@),
{
    let start: usize = if t.len() > 0 && t[0] == '+' { 1 } else { 0 };
    let ghost d = if t@.len() > 0 && t@[0] == '+' { t@.drop_first() } else { t@ };
    if start >= t.len() {
        proof {
            assert(d.len() == 0);
            assert(parse_u32_spec(t@) is None);
        }
        return None;
    }
    proof {
        if t@.len() > 0 && t@[0] == '+' {
            assert(t@.drop_first() =~= t@.subrange(1, t@.len() as int));
        } else {
            assert(t@ =~= t@.subrange(0, t@.len() as int));
        }
        assert(d.subrange(0, 0) =~= Seq::<char>::empty());
    }
    let cap: u64 = 0x1_0000_0000;
    let mut acc: u64 = 0;
    let mut ok = true;
    let mut i = start;
    while i < t.len()
        invariant
            start <= i <= t.len(),
            start == 0 || start == 1,
            d == t@.subrange(start as int, t.len() as int),
            cap == 0x1_0000_0000,
            ok == (forall|k: int| 0 <= k < i - start ==> #[trigger] char_digit(d[k]) >= 0),
            ok ==> acc as int == (if digits_val(d.subrange(0, i - start)) < cap { digits_val(d.subrange(0, i - start)) } else { cap as int }),
            acc <= cap,
        decreases t.len() - i,
    {
        let g = digit_of(t[i]);
        proof {
            assert(d[i - start] == t@[i as int]);
            assert(d.subrange(0, i + 1 - start).drop_last() =~= d.subrange(0, i - start));
        }
        if g < 0 {
            ok = false;
        } else if ok {
            let v = acc * 10 + g as u64;
            acc = if v >= cap { cap } else { v };
            proof {
                let pv = digits_val(d.subrange(0, i - start));
                assert(pv >= 0) by {
                    lemma_digits_nonneg(d.subrange(0, i - start));
                }
            }
        }
        proof {
            if ok {
                assert forall|k: int| 0 <= k < i + 1 - start implies #[trigger] char_digit(d[k]) >= 0 by {
                    if k == i - start {
                        assert(d[k] == t@[i as int]);
                    }
                }
            }
        }
        i += 1;
    }
    proof {
        assert(d.subrange(0, d.len() as int) =~= d);
        assert(i - start == d.len());
        if ok {
            lemma_digits_nonneg(d);
            assert(forall|k: int| 0 <= k < d.len() ==> #[trigger] char_digit(d[k]) >= 0);
            assert(acc as int == (if digits_val(d) < cap { digits_val(d) } else { cap as int }));
        }
    }
    if ok && acc < cap {
        proof {
            assert(parse_u32_spec(t@) == Some(digits_val(d) as u32));
            assert(acc as int == digits_val(d));
        }
        Some(acc as u32)
    } else {
        proof {
            if ok {
                assert(!(digits_val(d) <= u32::MAX));
                assert(parse_u32_spec(t@) is None);
            } else {
                assert(!(forall|k: int| 0 <= k < d.len() ==> #[trigger] char_digit(d[k]) >= 0));
                assert(!(forall|i: int| 0 <= i < d.len() ==> #[trigger] char_digit(d[i]) >= 0));
                assert(!all_digits(d));
                assert(parse_u32_spec(t@) is None);
            }
        }
        None
    }
}

proof fn lemma_digits_nonneg(d: Seq<char>)
    requires
        forall|i: int| 0 <= i < d.len() ==> #[trigger] char_digit(d[i]) >= 0,
    ensures
        digits_val(d) >= 0,
    decreases d.len(),
{
    if d.len() > 0 {
        assert forall|i: int| 0 <= i < d.drop_last().len() implies #[trigger] char_digit(d.drop_last()[i]) >= 0 by {
            assert(d.drop_last()[i] == d[i]);
        }
        lemma_digits_nonneg(d.drop_last());
        assert(char_digit(d[d.len() - 1]) >= 0);
    }
}

fn comma_after(l: &[char], i0: usize) -> (c: usize)
    requires
        i0 <= l.len(),
    ensures
        c == comma_from(l@, i0 as int),
        i0 <= c <= l.len(),
{
    let mut i = i0;
    while i < l.len() && l[i] != ','
        invariant
            i0 <= i <= l.len(),
            comma_from(l@, i as int) == comma_from(l@, i0 as int),
        decreases l.len() - i,
    {
        i += 1;
    }
    i
}

/// The data row a line holds.
fn row_of(l: &[char]) -> (r: Option<(u32, u32)>)
    ensures
        r == line_row(l@),
{
    if (l.len() > 0 && l[0] == '#') || (l.len() >= 2 && l[0] == 'x' && l[1] == ',') {
        return None;
    }
    let whole = trim_range(l, 0, l.len());
    proof {
        assert(l@.subrange(0, l@.len() as int) =~= l@);
    }
    if whole.len() == 0 {
        return None;
    }
    let c0 = comma_after(l, 0);
    if c0 >= l.len() {
        return None;
    }
    let c1 = comma_after(l, c0 + 1);
    let f0 = trim_range(l, 0, c0);
    let f1 = trim_range(l, c0 + 1, c1);
    match (parse_u32(&f0), parse_u32(&f1)) {
        (Some(x), Some(v)) => Some((x, v)),
        _ => None,
    }
}

/// `pat` occurs in `l`.
fn has_pat(l: &[char], pat: &[char]) -> (b: bool)
    ensures
        b == contains_pat(l@, pat@),
{
    if pat.len() > l.len() {
        proof {
            assert forall|i: int| !(0 <= i && i + pat@.len() <= l@.len() && #[trigger] l@.subrange(i, i + pat@.len()) == pat@) by {}
        }
        return false;
    }
    let mut i: usize = 0;
    while i <= l.len() - pat.len()
        invariant
            pat.len() <= l.len(),
            i <= l.len() - pat.len() + 1,
            forall|k: int| 0 <= k < i ==> #[trigger] l@.subrange(k, k + pat@.len()) != pat@,
        decreases l.len() - i,
    {
        let mut j: usize = 0;
        let mut same = true;
        while j < pat.len()
            invariant
                i + pat.len() <= l.len(),
                j <= pat.len(),
                same == (forall|k: int| 0 <= k < j ==> #[trigger] pat@[k] == l@[i + k]),
            decreases pat.len() - j,
        {
            if l[i + j] != pat[j] {
                same = false;
            }
            j += 1;
        }
        if same {
            proof {
                assert(l@.subrange(i as int, i + pat@.len()) =~= pat@);
            }
            return true;
        }
        proof {
            let k0 = choose|k: int| 0 <= k < pat@.len() && !(pat@[k] == l@[i + k]);
            assert(l@.subrange(i as int, i + pat@.len())[k0] == l@[i + k0]);
        }
        i += 1;
    }
    false
}

fn digit_char_exec(d: u64) -> (c: char)
    requires
        d < 10,
    ensures
        c == digit_char(d as int),
{
    if d == 0 {
        '0'
    } else if d == 1 {
        '1'
    } else if d == 2 {
        '2'
    } else if d == 3 {
        '3'
    } else if d == 4 {
        '4'
    } else if d == 5 {
        '5'
    } else if d == 6 {
        '6'
    } else if d == 7 {
        '7'
    } else if d == 8 {
        '8'
    } else {
        '9'
    }
}

/// `prefix` followed by `n` in decimal.
fn with_decimal(prefix: &[char], n: u64) -> (r: Vec<char>)
    ensures
        r@ == prefix@ + dec_spec(n as nat),
    decreases n,
{
    if n < 10 {
        let mut r: Vec<char> = Vec::new();
        let mut i: usize = 0;
        while i < prefix.len()
            invariant
                i <= prefix.len(),
                r@ == prefix@.subrange(0, i as int),
            decreases prefix.len() - i,
        {
            r.push(prefix[i]);
            proof {
                assert(r@ =~= prefix@.subrange(0, i + 1));
            }
            i += 1;
        }
        r.push(digit_char_exec(n));
        proof {
            assert(r@ =~= prefix@ + dec_spec(n as nat));
        }
        r
    } else {
        let mut r = with_decimal(prefix, n / 10);
        r.push(digit_char_exec(n % 10));
        proof {
            assert(r@ =~= prefix@ + dec_spec(n as nat));
        }
        r
    }
}

// ---------------------------------------------------------------------------
// The check
// ---------------------------------------------------------------------------

/// The first metadata comment of the text.
fn find_meta(s: &[char]) -> (m: Option<Vec<char>>)
    requires
        s.len() < usize::MAX,
    ensures
        match m {
            Some(l) => meta_from(s@, 0) == Some(l@),
            None => meta_from(s@, 0) is None,
        },
{
    let seed_pat: Vec<char> = vec!['s', 'e', 'e', 'd', '='];
    let root_pat: Vec<char> = vec!['r', 'o', 'o', 't', '_', 'c', '0', '='];
    proof {
        assert(seed_pat@ =~= seq!['s', 'e', 'e', 'd', '=']);
        assert(root_pat@ =~= seq!['r', 'o', 'o', 't', '_', 'c', '0', '=']);
    }
    let mut p: usize = 0;
    while p < s.len()
        invariant
            p <= s.len() + 1,
            s.len() < usize::MAX,
            meta_from(s@, p as int) == meta_from(s@, 0),
            seed_pat@ == seq!['s', 'e', 'e', 'd', '='],
            root_pat@ == seq!['r', 'o', 'o', 't', '_', 'c', '0', '='],
        decreases s.len() + 1 - p,
    {
        let e = line_end(s, p);
        let l = copy_line(s, p, e);
        if l.len() > 0 && l[0] == '#' && has_pat(&l, &seed_pat) && has_pat(&l, &root_pat) {
            return Some(l);
        }
        p = e + 1;
    }
    None
}

/// Checks the landed `rf = 4`, `rp = 5` coordinate shard: the metadata
/// comment, if any, must name the derived seed and root; then the first
/// `rows` data rows are recomputed with the half-GCD resultant of the
/// residual pair at `x` and compared with the recorded values. A metadata
/// mismatch ends the check before any row.
pub fn check_shard(content: &[char], rows: usize) -> (r: ShardCheck)
    requires
        rows >= 1,
        content.len() < usize::MAX,
    ensures
        r.meta_ok == shard_meta_ok(content@),
        !r.meta_ok ==> r.checked == 0 && !r.pass,
        r.meta_ok ==> r.checked == (if shard_rows(content@).len() < rows { shard_rows(content@).len() as int } else { rows as int }),
        r.rows@ == shard_rows(content@).subrange(0, r.checked as int),
        r.computed.len() == r.checked,
        forall|i: int| 0 <= i < r.checked ==> #[trigger] r.computed[i] < P,
        forall|i: int| 0 <= i < r.checked ==> #[trigger] r.computed[i] as int == res_spec(
            shard_residuals(r.rows[i].0).0,
            shard_residuals(r.rows[i].0).1,
        ),
        r.mismatches as int == mismatch_count(r.rows@, r.computed@, r.checked as int),
        r.pass == (r.meta_ok && shard_rows(content@).len() >= rows && r.mismatches == 0),
{
    let seed = scout_seed(4, 5, 0);
    let root = fixed_root(seed);
    let base = fixed_cofactor(seed);
    proof {
        assert(seed == shard_seed());
    }
    let meta_ok = match find_meta(content) {
        None => true,
        Some(l) => {
            let s0 = with_decimal(&['s', 'e', 'e', 'd', '='], seed);
            let r0 = with_decimal(&['r', 'o', 'o', 't', '_', 'c', '0', '='], root.c0 as u64);
            let r1 = with_decimal(&['r', 'o', 'o', 't', '_', 'c', '1', '='], root.c1 as u64);
            proof {
                assert(s0@ =~= seq!['s', 'e', 'e', 'd', '='] + dec_spec(seed as nat));
                assert(r0@ =~= seq!['r', 'o', 'o', 't', '_', 'c', '0', '='] + dec_spec(root.c0 as nat));
                assert(r1@ =~= seq!['r', 'o', 'o', 't', '_', 'c', '1', '='] + dec_spec(root.c1 as nat));
            }
            has_pat(&l, &s0) && has_pat(&l, &r0) && has_pat(&l, &r1)
        },
    };
    if !meta_ok {
        return ShardCheck { pass: false, meta_ok, checked: 0, mismatches: 0, rows: Vec::new(), computed: Vec::new() };
    }
    proof {
        reveal_with_fuel(vstd::arithmetic::power::pow, 14);
        assert(vstd::arithmetic::power::pow(3, 9) == 19683);
        assert(vstd::arithmetic::power::pow(3, 13) == 1594323);
        assert(crate::rootvar::scout_rounds(4, 5));
        lemma_pow3_fits(4, 5);
    }
    let pos = Poseidon1::new_canonical(3, 16, 4, 5);
    proof {
        lemma_instance_ok(&pos, 4, 5);
    }
    let mut found: Vec<(u32, u32)> = Vec::new();
    let mut computed: Vec<u32> = Vec::new();
    let mut mismatches: usize = 0;
    let mut p: usize = 0;
    while p < content.len() && found.len() < rows
        invariant
            p <= content.len() + 1,
            content.len() < usize::MAX,
            rows >= 1,
            crate::rootvar::scout_instance(&pos),
            pos.rc_model() == crate::canonical_rcs(3, 4, 5),
            pos.mds_model() == crate::canonical_mds(),
            pos.r_f == 4,
            pos.r_p == 5,
            root == fixed_root_spec(shard_seed()),
            base@ == fixed_cofactor_spec(shard_seed()),
            crate::zerotest::fp2_ok(root),
            crate::rootvar::fp2s_ok(base@),
            found@ + rows_from(content@, p as int) == shard_rows(content@),
            found.len() <= rows,
            computed.len() == found.len(),
            forall|i: int| 0 <= i < computed.len() ==> #[trigger] computed[i] < P,
            forall|i: int| 0 <= i < computed.len() ==> #[trigger] computed[i] as int == res_spec(
                shard_residuals(found[i].0).0,
                shard_residuals(found[i].0).1,
            ),
            mismatches as int == mismatch_count(found@, computed@, computed.len() as int),
            mismatches <= computed.len(),
        decreases content.len() + 1 - p,
    {
        let e = line_end(content, p);
        let l = copy_line(content, p, e);
        let row = row_of(&l);
        match row {
            Some((x, v)) => {
                let xr = x % P;
                let (f0, f1) = residual_polys_at_x(&pos, root, &base, 0, xr);
                proof {
                    assert(crate::rootvar::line_residuals(&pos, root, base@, 0, xr) == shard_residuals(x));
                }
                let fast = resultant_fast(&f0, &f1);
                let ghost old_found = found@;
                let ghost old_computed = computed@;
                found.push((x, v));
                computed.push(fast);
                if fast != v {
                    mismatches += 1;
                }
                proof {
                    assert(found@ + rows_from(content@, e + 1) =~= old_found + rows_from(content@, p as int));
                    assert(mismatch_count(found@, computed@, computed.len() - 1) == mismatch_count(old_found, old_computed, old_computed.len() as int)) by {
                        lemma_mismatch_prefix(found@, computed@, old_found, old_computed, old_computed.len() as int);
                    }
                }
            },
            None => {
                proof {
                    assert(found@ + rows_from(content@, e + 1) == found@ + rows_from(content@, p as int));
                }
            },
        }
        p = e + 1;
    }
    proof {
        if found.len() < rows {
            assert(rows_from(content@, p as int) =~= Seq::<(u32, u32)>::empty());
            assert(found@ =~= shard_rows(content@));
        }
        assert(shard_rows(content@).subrange(0, found.len() as int) =~= found@);
    }
    let checked = found.len();
    let pass = checked >= rows && mismatches == 0;
    ShardCheck { pass, meta_ok, checked, mismatches, rows: found, computed }
}

proof fn lemma_mismatch_prefix(rows: Seq<(u32, u32)>, computed: Seq<u32>, r0: Seq<(u32, u32)>, c0: Seq<u32>, n: int)
    requires
        0 <= n <= r0.len(),
        n <= c0.len(),
        r0.len() <= rows.len(),
        c0.len() <= computed.len(),
        forall|i: int| 0 <= i < n ==> #[trigger] rows[i] == r0[i],
        forall|i: int| 0 <= i < n ==> #[trigger] computed[i] == c0[i],
    ensures
        mismatch_count(rows, computed, n) == mismatch_count(r0, c0, n),
    decreases n,
{
    if n > 0 {
        lemma_mismatch_prefix(rows, computed, r0, c0, n - 1);
        assert(rows[n - 1] == r0[n - 1] && computed[n - 1] == c0[n - 1]);
    }
}

// ---------------------------------------------------------------------------
// Sample files
// ---------------------------------------------------------------------------

/// Why a line of a sample file is not a row.
#[derive(Clone, Copy, Debug, PartialEq, Eq, Structural)]
pub enum SampleFault {
    /// No `,` in the line.
    NoComma,
    /// The text before the first `,` is not a `u32`.
    BadX,
    /// The text after the first `,` is not a `u32`.
    BadResultant,
}

/// A sample-file line that is not a row, with its 1-based line number.
#[derive(Clone, Copy, Debug, PartialEq, Eq, Structural)]
pub struct SampleRowError {
    pub fault: SampleFault,
    pub line: usize,
}

/// The header line `x,resultant`.
pub open spec fn is_sample_header(t: Seq<char>) -> bool {
    t == seq!['x', ',', 'r', 'e', 's', 'u', 'l', 't', 'a', 'n', 't']
}

/// What a sample-file line holds, once trimmed: nothing (blank, comment or
/// header), a row `x,resultant`, or a fault.
pub open spec fn sample_line(l: Seq<char>) -> Option<Result<(u32, u32), SampleFault>> {
    let t = trim_ws(l);
    if t.len() == 0 || t[0] == '#' || is_sample_header(t) {
        None
    } else {
        let c = comma_from(t, 0);
        if c >= t.len() {
            Some(Err(SampleFault::NoComma))
        } else {
            match parse_u32_spec(t.subrange(0, c)) {
                None => Some(Err(SampleFault::BadX)),
                Some(x) => match parse_u32_spec(t.subrange(c + 1, t.len() as int)) {
                    None => Some(Err(SampleFault::BadResultant)),
                    Some(y) => Some(Ok((x, y))),
                },
            }
        }
    }
}

/// The rows of the lines from `p` on, the first of them numbered `line`;
/// or the first fault, with its line number.
pub open spec fn sample_rows_from(s: Seq<char>, p: int, line: int) -> Result<Seq<(u32, u32)>, (SampleFault, int)>
    decreases s.len() + 1 - p,
{
    if p < 0 || p >= s.len() {
        Ok(Seq::empty())
    } else {
        let e = nl_from(s, p);
        proof {
            lemma_nl_from(s, p);
        }
        match sample_line(line_of(s, p, e)) {
            None => sample_rows_from(s, e + 1, line + 1),
            Some(Err(f)) => Err((f, line)),
            Some(Ok(r)) => match sample_rows_from(s, e + 1, line + 1) {
                Ok(rest) => Ok(seq![r] + rest),
                Err(x) => Err(x),
            },
        }
    }
}

/// The rows of a sample file, or its first fault.
pub open spec fn sample_rows(s: Seq<char>) -> Result<Seq<(u32, u32)>, (SampleFault, int)> {
    sample_rows_from(s, 0, 1)
}

fn copy_range(t: &[char], a: usize, b: usize) -> (r: Vec<char>)
    requires
        a <= b <= t.len(),
    ensures
        r@ == t@.subrange(a as int, b as int),
{
    let mut r: Vec<char> = Vec::new();
    let mut i = a;
    while i < b
        invariant
            a <= i <= b <= t.len(),
            r@ == t@.subrange(a as int, i as int),
        decreases b - i,
    {
        r.push(t[i]);
        proof {
            assert(r@ =~= t@.subrange(a as int, i + 1));
        }
        i += 1;
    }
    r
}

fn classify_sample_line(l: &[char]) -> (r: Option<Result<(u32, u32), SampleFault>>)
    ensures
        r == sample_line(l@),
{
    let t = trim_range(l, 0, l.len());
    proof {
        assert(l@.subrange(0, l@.len() as int) =~= l@);
    }
    let header: Vec<char> = vec!['x', ',', 'r', 'e', 's', 'u', 'l', 't', 'a', 'n', 't'];
    let mut is_header = t.len() == header.len();
    let mut i: usize = 0;
    while i < header.len() && is_header
        invariant
            header@ == seq!['x', ',', 'r', 'e', 's', 'u', 'l', 't', 'a', 'n', 't'],
            i <= header.len(),
            is_header ==> t.len() == header.len(),
            is_header == (t.len() == header.len() && forall|k: int| 0 <= k < i ==> #[trigger] t@[k] == header@[k]),
        decreases header.len() - i,
    {
        if t[i] != header[i] {
            is_header = false;
        }
        i += 1;
    }
    proof {
        if is_header {
            assert(t@ =~= header@);
        } else if t.len() == header.len() {
            assert(t@ != header@) by {
                let k = choose|k: int| 0 <= k < i && !(t@[k] == header@[k]);
            }
        }
    }
    if t.len() == 0 || t[0] == '#' || is_header {
        return None;
    }
    let c = comma_after(&t, 0);
    if c >= t.len() {
        return Some(Err(SampleFault::NoComma));
    }
    let xf = copy_range(&t, 0, c);
    let yf = copy_range(&t, c + 1, t.len());
    match parse_u32(&xf) {
        None => Some(Err(SampleFault::BadX)),
        Some(x) => match parse_u32(&yf) {
            None => Some(Err(SampleFault::BadResultant)),
            Some(y) => Some(Ok((x, y))),
        },
    }
}

/// The `x,resultant` rows of a sample file, in order: blank lines, `#`
/// comments and the `x,resultant` header are passed over (each line
/// trimmed first); the first other line that is not `u32,u32` is a fault.
pub fn parse_sample_rows(content: &[char]) -> (r: Result<Vec<(u32, u32)>, SampleRowError>)
    requires
        content.len() < usize::MAX,
    ensures
        match r {
            Ok(v) => sample_rows(content@) == Ok::<Seq<(u32, u32)>, (SampleFault, int)>(v@),
            Err(err) => sample_rows(content@) == Err::<Seq<(u32, u32)>, (SampleFault, int)>((err.fault, err.line as int)),
        },
{
    let mut acc: Vec<(u32, u32)> = Vec::new();
    let mut p: usize = 0;
    let mut line: usize = 1;
    while p < content.len()
        invariant
            p <= content.len() + 1,
            content.len() < usize::MAX,
            1 <= line <= p + 1,
            sample_rows(content@) == (match sample_rows_from(content@, p as int, line as int) {
                Ok(rest) => Ok(acc@ + rest),
                Err(x) => Err(x),
            }),
        decreases content.len() + 1 - p,
    {
        let e = line_end(content, p);
        let l = copy_line(content, p, e);
        match classify_sample_line(&l) {
            None => {},
            Some(Err(f)) => {
                return Err(SampleRowError { fault: f, line });
            },
            Some(Ok(row)) => {
                let ghost old_acc = acc@;
                acc.push(row);
                proof {
                    match sample_rows_from(content@, e + 1, line + 1) {
                        Ok(rest) => {
                            assert(old_acc + (seq![row] + rest) =~= acc@ + rest);
                        },
                        Err(x) => {},
                    }
                }
            },
        }
        p = e + 1;
        line = line + 1;
    }
    proof {
        assert(acc@ + Seq::<(u32, u32)>::empty() =~= acc@);
    }
    Ok(acc)
}

} // verus!
