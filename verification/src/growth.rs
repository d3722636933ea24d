//! The pan-genome growth formula. For a histogram with `G` groups, a coverage
//! threshold `c` and a quorum fraction `qn/qd`, the expected count of items
//! present at subset size `m` is a sum of hypergeometric tail weights over
//! the coverage classes, divided by the number of size-`m` subsets; the
//! emitted value is that ratio floored. The floating-point evaluation lives
//! with the callers; this module states the exact mathematics it approximates
//! and proves what the full curve ends at.

use vstd::prelude::*;
use crate::util::spec_ceil_mul_div;

verus! {

/// Binomial coefficient by Pascal's rule.
pub open spec fn binom(n: nat, k: nat) -> nat
    decreases n, k,
{
    if k == 0 {
        1
    } else if n == 0 {
        0
    } else {
        binom((n - 1) as nat, (k - 1) as nat) + binom((n - 1) as nat, k)
    }
}

pub proof fn lemma_binom_zero(n: nat, k: nat)
    requires
        k > n,
    ensures
        binom(n, k) == 0,
    decreases n,
{
    if n > 0 {
        lemma_binom_zero((n - 1) as nat, (k - 1) as nat);
        lemma_binom_zero((n - 1) as nat, k);
    }
}

pub proof fn lemma_binom_full(n: nat)
    ensures
        binom(n, n) == 1,
    decreases n,
{
    if n > 0 {
        lemma_binom_full((n - 1) as nat);
        lemma_binom_zero((n - 1) as nat, n);
    }
}

/// The threshold in force at subset size `m`: the coverage threshold `c` or
/// the rounded-up quorum share `ceil(qn * m / qd)`, whichever is larger.
pub open spec fn growth_threshold(c: nat, qn: nat, qd: nat, m: nat) -> nat
    recommends
        qd > 0,
{
    let t = spec_ceil_mul_div(qn, m, qd);
    if c >= t {
        c
    } else {
        t
    }
}

/// Smaller of two naturals.
pub open spec fn min_nat(a: nat, b: nat) -> nat {
    if a < b {
        a
    } else {
        b
    }
}

/// Number of size-`m` subsets of the `gtot` groups in which an item of
/// global coverage `k` appears at least `j` times, summed term by term:
/// the tail `sum over j' from j of C(k, j') * C(gtot - k, m - j')`.
pub open spec fn hyper_sum(gtot: nat, k: nat, m: nat, j: nat) -> nat
    recommends
        k <= gtot,
    decreases min_nat(k, m) + 1 - j,
{
    if j > min_nat(k, m) {
        0
    } else {
        binom(k, j) * binom((gtot - k) as nat, (m - j) as nat) + hyper_sum(gtot, k, m, j + 1)
    }
}

/// Numerator of the expected growth at subset size `m` with threshold `t`:
/// each coverage class `k` of the histogram weighs its hypergeometric tail.
pub open spec fn growth_num(cov: Seq<usize>, gtot: nat, m: nat, t: nat, k: int) -> nat
    recommends
        k < cov.len(),
    decreases k,
{
    if k <= 0 {
        0
    } else {
        growth_num(cov, gtot, m, t, k - 1) + cov[k] as nat * hyper_sum(gtot, k as nat, m, t)
    }
}

/// The expected growth at subset size `m`, floored: the weighted tail sum
/// over all coverage classes, divided by the number of size-`m` subsets.
pub open spec fn spec_growth(cov: Seq<usize>, c: nat, qn: nat, qd: nat, m: nat) -> nat
    recommends
        cov.len() >= 1,
        qd > 0,
{
    let gtot = (cov.len() - 1) as nat;
    (growth_num(cov, gtot, m, growth_threshold(c, qn, qd, m), gtot as int) as int / binom(
        gtot,
        m,
    ) as int) as nat
}

/// The items of the histogram counted once each: `sum of cov[1..=k]`.
pub open spec fn covered_total(cov: Seq<usize>, k: int) -> nat
    recommends
        k < cov.len(),
    decreases k,
{
    if k <= 0 {
        0
    } else {
        (covered_total(cov, k - 1) + cov[k]) as nat
    }
}

/// With full coverage demanded of the whole set, the tail collapses: an item
/// of coverage `k` lies in the one size-`gtot` subset exactly once.
proof fn lemma_hyper_sum_full(gtot: nat, k: nat, j: nat)
    requires
        1 <= j <= k <= gtot,
    ensures
        hyper_sum(gtot, k, gtot, j) == 1,
    decreases k + 1 - j,
{
    assert(min_nat(k, gtot) == k);
    if j == k {
        lemma_binom_full(k);
        lemma_binom_full((gtot - k) as nat);
        assert(hyper_sum(gtot, k, gtot, j + 1) == 0);
        assert(binom(k, k) * binom((gtot - k) as nat, (gtot - k) as nat) == 1) by (
        nonlinear_arith)
            requires
                binom(k, k) == 1,
                binom((gtot - k) as nat, (gtot - k) as nat) == 1,
        ;
    } else {
        lemma_hyper_sum_full(gtot, k, j + 1);
        lemma_binom_zero((gtot - k) as nat, (gtot - j) as nat);
        assert(binom(k, j) * 0 == 0) by (nonlinear_arith);
    }
}

proof fn lemma_growth_num_full(cov: Seq<usize>, gtot: nat, k: int)
    requires
        0 <= k <= gtot,
        gtot < cov.len(),
    ensures
        growth_num(cov, gtot, gtot, 1, k) == covered_total(cov, k),
    decreases k,
{
    if k > 0 {
        lemma_growth_num_full(cov, gtot, k - 1);
        lemma_hyper_sum_full(gtot, k as nat, 1);
        assert(cov[k] * hyper_sum(gtot, k as nat, gtot, 1) == cov[k]) by (nonlinear_arith)
            requires
                hyper_sum(gtot, k as nat, gtot, 1) == 1,
        ;
    }
}

/// With coverage one and quorum zero, the growth curve ends at the full
/// pangenome size: the growth at subset size `G` is the total count of items
/// covered at least once, `sum of coverage[1..=G]`.
pub proof fn lemma_growth_full_pangenome(cov: Seq<usize>)
    requires
        cov.len() >= 1,
    ensures
        spec_growth(cov, 1, 0, 1, (cov.len() - 1) as nat) == covered_total(
            cov,
            cov.len() - 1,
        ),
{
    let gtot = (cov.len() - 1) as nat;
    assert(spec_ceil_mul_div(0, gtot, 1) == 0);
    assert(growth_threshold(1, 0, 1, gtot) == 1);
    lemma_growth_num_full(cov, gtot, gtot as int);
    lemma_binom_full(gtot);
}

/// How many groups of a row lie in the prefix `{0, .., m-1}` of the group
/// order. A row lists the (renumbered) groups covering one item.
pub open spec fn prefix_hits(row: Seq<u32>, m: nat) -> nat
    decreases row.len(),
{
    if row.len() == 0 {
        0
    } else {
        prefix_hits(row.drop_last(), m) + if (row.last() as nat) < m {
            1nat
        } else {
            0nat
        }
    }
}

/// The ordered growth at prefix length `m` under coverage threshold `c`: the
/// number of items covered at least `c` times within the first `m` groups.
pub open spec fn ordered_growth(rows: Seq<Seq<u32>>, m: nat, c: nat) -> nat
    decreases rows.len(),
{
    if rows.len() == 0 {
        0
    } else {
        ordered_growth(rows.drop_last(), m, c) + if prefix_hits(rows.last(), m) >= c {
            1nat
        } else {
            0nat
        }
    }
}

proof fn lemma_prefix_hits_mono(row: Seq<u32>, m1: nat, m2: nat)
    requires
        m1 <= m2,
    ensures
        prefix_hits(row, m1) <= prefix_hits(row, m2),
    decreases row.len(),
{
    if row.len() > 0 {
        lemma_prefix_hits_mono(row.drop_last(), m1, m2);
    }
}

/// With a fixed coverage threshold (quorum zero), the ordered growth curve
/// never falls as the prefix grows: every item counted within the first `m1`
/// groups is counted within the first `m2`.
pub proof fn lemma_ordered_growth_mono(rows: Seq<Seq<u32>>, m1: nat, m2: nat, c: nat)
    requires
        m1 <= m2,
    ensures
        ordered_growth(rows, m1, c) <= ordered_growth(rows, m2, c),
    decreases rows.len(),
{
    if rows.len() > 0 {
        lemma_ordered_growth_mono(rows.drop_last(), m1, m2, c);
        lemma_prefix_hits_mono(rows.last(), m1, m2);
    }
}

/// Counts a row's groups in the order prefix.
fn count_prefix_hits(row: &Vec<u32>, m: usize) -> (r: usize)
    ensures
        r == prefix_hits(row@, m as nat),
{
    let n = row.len();
    let mut i: usize = 0;
    let mut cnt: usize = 0;
    while i < n
        invariant
            i <= n,
            n == row@.len(),
            cnt == prefix_hits(row@.take(i as int), m as nat),
            cnt <= i,
        decreases n - i,
    {
        proof {
            assert(row@.take(i as int + 1).drop_last() =~= row@.take(i as int));
            assert(row@.take(i as int + 1).last() == row@[i as int]);
        }
        if (row[i] as usize) < m {
            cnt = cnt + 1;
        }
        i = i + 1;
    }
    assert(row@.take(n as int) =~= row@);
    cnt
}

/// Evaluates the ordered growth curve for one coverage threshold `c`: entry
/// `m - 1` counts the items covered at least `c` times within the first `m`
/// groups of the order.
pub fn calc_ordered_growth(rows: &Vec<Vec<u32>>, gtot: usize, c: usize) -> (r: Vec<usize>)
    requires
        gtot < usize::MAX,
    ensures
        r@.len() == gtot,
        forall|m: int|
            1 <= m <= gtot ==> (#[trigger] r@[m - 1]) == ordered_growth(
                rows@.map_values(|v: Vec<u32>| v@),
                m as nat,
                c as nat,
            ),
{
    let ghost rowsv = rows@.map_values(|v: Vec<u32>| v@);
    let mut out: Vec<usize> = Vec::new();
    let mut m: usize = 1;
    while m <= gtot
        invariant
            1 <= m <= gtot + 1,
            rowsv == rows@.map_values(|v: Vec<u32>| v@),
            out@.len() == m - 1,
            forall|m2: int|
                1 <= m2 < m ==> (#[trigger] out@[m2 - 1]) == ordered_growth(
                    rowsv,
                    m2 as nat,
                    c as nat,
                ),
            gtot < usize::MAX,
        decreases gtot + 1 - m,
    {
        let n = rows.len();
        let mut i: usize = 0;
        let mut cnt: usize = 0;
        while i < n
            invariant
                i <= n,
                n == rows@.len(),
                rowsv == rows@.map_values(|v: Vec<u32>| v@),
                cnt == ordered_growth(rowsv.take(i as int), m as nat, c as nat),
                cnt <= i,
            decreases n - i,
        {
            proof {
                assert(rowsv.take(i as int + 1).drop_last() =~= rowsv.take(i as int));
                assert(rowsv.take(i as int + 1).last() == rowsv[i as int]);
            }
            let hits = count_prefix_hits(&rows[i], m);
            if hits >= c {
                cnt = cnt + 1;
            }
            i = i + 1;
        }
        proof {
            assert(rowsv.take(n as int) =~= rowsv);
        }
        out.push(cnt);
        m = m + 1;
    }
    out
}

} // verus!
