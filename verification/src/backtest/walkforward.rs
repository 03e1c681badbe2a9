//! Walk-forward folds: the decision points, in index order, cut into `k`
//! contiguous folds of near-equal size; empty index ranges are left out.
use vstd::prelude::*;

verus! {

/// Start index of fold `j` when `n` points are cut into `k` folds.
pub open spec fn fold_lo(n: nat, k: nat, j: nat) -> nat {
    j * n / k
}

/// The non-empty folds among folds `0..j`, as `[lo, hi)` index ranges.
pub open spec fn folds_upto(n: nat, k: nat, j: nat) -> Seq<(usize, usize)>
    decreases j,
{
    if j == 0 {
        seq![]
    } else {
        let prev = folds_upto(n, k, (j - 1) as nat);
        let lo = fold_lo(n, k, (j - 1) as nat);
        let hi = fold_lo(n, k, j);
        if hi <= lo {
            prev
        } else {
            prev.push((lo as usize, hi as usize))
        }
    }
}

/// The index ranges of the `k` walk-forward folds over `n` points: fold `j`
/// covers `[j*n/k, (j+1)*n/k)`; folds whose range is empty are omitted.
pub fn fold_ranges(n: usize, k: usize) -> (folds: Vec<(usize, usize)>)
    requires
        k * n <= usize::MAX,
    ensures
        folds@ == folds_upto(n as nat, k as nat, k as nat),
{
    let mut folds: Vec<(usize, usize)> = Vec::new();
    let mut j: usize = 0;
    while j < k
        invariant
            j <= k,
            k * n <= usize::MAX,
            folds@ == folds_upto(n as nat, k as nat, j as nat),
        decreases k - j,
    {
        assert(j * n <= k * n && (j + 1) * n <= k * n) by (nonlinear_arith)
            requires j < k;
        let lo = j * n / k;
        let hi = (j + 1) * n / k;
        if hi > lo {
            folds.push((lo, hi));
        }
        j += 1;
    }
    folds
}

proof fn lemma_fold_lo_monotone(n: nat, k: nat, a: nat, b: nat)
    requires
        k > 0,
        a <= b,
    ensures
        fold_lo(n, k, a) <= fold_lo(n, k, b),
{
    assert(a * n <= b * n) by (nonlinear_arith)
        requires a <= b;
    lemma_div_monotone(a * n, b * n, k);
}

proof fn lemma_div_monotone(x: nat, y: nat, k: nat)
    requires
        k > 0,
        x <= y,
    ensures
        x / k <= y / k,
{
    assert(x / k <= y / k) by (nonlinear_arith)
        requires k > 0, x <= y;
}

/// The folds tile the points: they are non-empty, each starts where the
/// previous one ends, the first starts at 0 and the last ends at `n`.
pub proof fn law_folds_tile(n: nat, k: nat)
    requires
        k > 0,
        n > 0,
        k * n <= usize::MAX,
    ensures
        folds_upto(n, k, k).len() > 0,
        folds_upto(n, k, k)[0].0 == 0,
        folds_upto(n, k, k).last().1 == n,
        forall|i: int| 0 <= i < folds_upto(n, k, k).len() ==> #[trigger] folds_upto(n, k, k)[i].0
            < folds_upto(n, k, k)[i].1,
        forall|i: int| 0 <= i < folds_upto(n, k, k).len() - 1 ==> #[trigger] folds_upto(n, k, k)[i].1
            == folds_upto(n, k, k)[i + 1].0,
{
    lemma_folds_prefix(n, k, k);
    assert((k * n) / k == n) by (nonlinear_arith)
        requires k > 0;
    assert((0 * n) / k == 0) by (nonlinear_arith)
        requires k > 0;
}

proof fn lemma_folds_prefix(n: nat, k: nat, j: nat)
    requires
        k > 0,
        j <= k,
        k * n <= usize::MAX,
    ensures
        ({
            let f = folds_upto(n, k, j);
            &&& forall|i: int| 0 <= i < f.len() ==> #[trigger] f[i].0 < f[i].1
            &&& forall|i: int| 0 <= i < f.len() - 1 ==> #[trigger] f[i].1 == f[i + 1].0
            &&& f.len() > 0 ==> f[0].0 == 0 && f.last().1 == fold_lo(n, k, j)
            &&& f.len() == 0 ==> fold_lo(n, k, j) == 0
        }),
    decreases j,
{
    if j == 0 {
        assert((0 * n) / k == 0) by (nonlinear_arith)
            requires k > 0;
    } else {
        lemma_folds_prefix(n, k, (j - 1) as nat);
        lemma_fold_lo_monotone(n, k, (j - 1) as nat, j);
        assert(j * n <= k * n) by (nonlinear_arith)
            requires j <= k;
        assert((j * n) / k <= n) by (nonlinear_arith)
            requires j <= k, k > 0;
        assert(fold_lo(n, k, (j - 1) as nat) <= n);
    }
}

} // verus!
