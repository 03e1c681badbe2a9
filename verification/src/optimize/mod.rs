//! Parameter optimisation: objective modes and grid expansion.

pub mod grid;
pub mod grid_laws;

use vstd::prelude::*;
use crate::error::Error;
use crate::text::{decimal, push_str, u64_to_decimal};

verus! {

/// Objective of an optimisation run.
#[derive(Debug, Clone, Copy, PartialEq, Eq)]
pub enum ObjectiveMode {
    /// Mean net return of the active (non-flat) leaves, hard traversal.
    ScoreHard,
    /// Mean expected net return of the engaged points, soft traversal.
    ScoreSoft,
    /// Sequential simulation, scored by Sharpe (total return when the span is under 30 days).
    Sim,
}

/// The objective of a run: simulation when asked, else soft scoring when
/// asked, else hard scoring.
pub fn objective_mode(sim: bool, soft: bool) -> (m: ObjectiveMode)
    ensures
        m == if sim { ObjectiveMode::Sim } else if soft { ObjectiveMode::ScoreSoft } else { ObjectiveMode::ScoreHard },
{
    if sim {
        ObjectiveMode::Sim
    } else if soft {
        ObjectiveMode::ScoreSoft
    } else {
        ObjectiveMode::ScoreHard
    }
}

impl ObjectiveMode {
    /// The mode's name and the name of the quantity it maximises.
    pub fn names(&self) -> (r: (&'static str, &'static str))
        ensures
            match *self {
                ObjectiveMode::ScoreHard => r.0@ == "score_hard"@ && r.1@ == "active_mean_net"@,
                ObjectiveMode::ScoreSoft => r.0@ == "score_soft"@ && r.1@ == "engaged_mean_expected_net"@,
                ObjectiveMode::Sim => r.0@ == "sim"@ && r.1@ == "sharpe_or_total_return"@,
            },
    {
        match self {
            ObjectiveMode::ScoreHard => ("score_hard", "active_mean_net"),
            ObjectiveMode::ScoreSoft => ("score_soft", "engaged_mean_expected_net"),
            ObjectiveMode::Sim => ("sim", "sharpe_or_total_return"),
        }
    }
}

/// The walk-forward layout of an optimisation: the mode, the eligible
/// decision indices `range_start..range_end`, and the `folds + 1` fold
/// boundaries (fold `j` is `fold_starts[j]..fold_starts[j + 1]`).
#[derive(Debug)]
pub struct FoldPlan {
    pub mode: ObjectiveMode,
    pub range_start: usize,
    pub range_end: usize,
    pub fold_starts: Vec<usize>,
}

/// First eligible decision index.
pub open spec fn range_start_of(warmup: int, n_bars: int) -> int {
    if warmup < n_bars { warmup } else { n_bars }
}

/// End of the eligible decision indices: the simulation needs a next bar.
pub open spec fn range_end_of(sim: bool, n_bars: int) -> int {
    if sim { if n_bars == 0 { 0 } else { n_bars - 1 } } else { n_bars }
}

/// Number of eligible decision points.
pub open spec fn eligible_points(sim: bool, warmup: int, n_bars: int) -> int {
    let d = range_end_of(sim, n_bars) - range_start_of(warmup, n_bars);
    if d > 0 { d } else { 0 }
}

/// Lays out the folds of an optimisation over `n_bars` primary bars: at
/// least two folds, and at least two eligible points per fold; fold `j`
/// starts at `range_start + j * points / folds`.
pub fn fold_plan(sim: bool, soft: bool, warmup: usize, n_bars: usize, folds: usize) -> (r: Result<FoldPlan, Error>)
    requires
        folds * 2 <= usize::MAX,
        folds * n_bars <= usize::MAX,
    ensures
        ({
            let np = eligible_points(sim, warmup as int, n_bars as int);
            if folds < 2 {
                r matches Err(Error::Data(m)) && m@ == "optimize: --folds must be >= 2, got "@ + decimal(folds as nat)
            } else if np < folds * 2 {
                r matches Err(Error::Data(m)) && m@ == "optimize: only "@ + decimal(np as nat)
                    + " eligible points (warmup..range_end) but need >= "@ + decimal((folds * 2) as nat)
                    + " for "@ + decimal(folds as nat) + " folds × 2"@
            } else {
                r matches Ok(p) && {
                    &&& p.mode == (if sim { ObjectiveMode::Sim } else if soft { ObjectiveMode::ScoreSoft } else { ObjectiveMode::ScoreHard })
                    &&& p.range_start == range_start_of(warmup as int, n_bars as int)
                    &&& p.range_end == range_end_of(sim, n_bars as int)
                    &&& p.fold_starts@.len() == folds + 1
                    &&& forall|j: int| 0 <= j <= folds ==> #[trigger] p.fold_starts@[j] == p.range_start + j * np / (folds as int)
                }
            }
        }),
{
    let mode = objective_mode(sim, soft);
    let range_start = if warmup < n_bars { warmup } else { n_bars };
    let range_end = if sim { if n_bars == 0 { 0 } else { n_bars - 1 } } else { n_bars };
    let n_points = if range_end > range_start { range_end - range_start } else { 0 };
    let k = folds;
    if k < 2 {
        let mut m = String::from_str("optimize: --folds must be >= 2, got ");
        let t = u64_to_decimal(k as u64);
        push_str(&mut m, t.as_str());
        return Err(Error::Data(m));
    }
    if n_points < k * 2 {
        let mut m = String::from_str("optimize: only ");
        let t = u64_to_decimal(n_points as u64);
        push_str(&mut m, t.as_str());
        push_str(&mut m, " eligible points (warmup..range_end) but need >= ");
        let t2 = u64_to_decimal((k * 2) as u64);
        push_str(&mut m, t2.as_str());
        push_str(&mut m, " for ");
        let t3 = u64_to_decimal(k as u64);
        push_str(&mut m, t3.as_str());
        push_str(&mut m, " folds × 2");
        return Err(Error::Data(m));
    }
    let mut fold_starts: Vec<usize> = Vec::new();
    let mut j: usize = 0;
    while j <= k
        invariant
            2 <= k,
            k * 2 <= n_points,
            n_points <= n_bars,
            range_start + n_points <= n_bars,
            k * n_bars <= usize::MAX,
            j <= k + 1,
            fold_starts@.len() == j,
            forall|i: int| 0 <= i < j ==> #[trigger] fold_starts@[i] == range_start + i * n_points / (k as int),
        decreases k + 1 - j,
    {
        assert(j * n_points <= k * n_bars) by (nonlinear_arith)
            requires j <= k, n_points <= n_bars;
        assert(j * n_points / (k as int) <= n_points) by (nonlinear_arith)
            requires j <= k, k > 0;
        fold_starts.push(range_start + j * n_points / k);
        j += 1;
    }
    Ok(FoldPlan { mode, range_start, range_end, fold_starts })
}

/// Law: with a valid fold plan every fold holds at least two eligible
/// points, the folds run back to back from the first eligible index to the
/// end of the range, so each out-of-sample fold starts exactly where its
/// expanding in-sample window ends.
pub proof fn law_folds_nonempty(range_start: int, np: int, k: int)
    requires
        k >= 2,
        np >= 2 * k,
        range_start >= 0,
    ensures
        range_start + 0 * np / k == range_start,
        range_start + k * np / k == range_start + np,
        forall|j: int| 0 <= j < k ==> #[trigger] (range_start + (j + 1) * np / k) - (range_start + j * np / k) >= 2,
{
    assert(0 * np / k == 0) by (nonlinear_arith)
        requires k > 0;
    assert(k * np / k == np) by (nonlinear_arith)
        requires k > 0;
    assert forall|j: int| 0 <= j < k implies #[trigger] (range_start + (j + 1) * np / k) - (range_start + j * np / k) >= 2 by {
        let q = np / k;
        let r = np % k;
        assert(np == q * k + r && 0 <= r < k) by (nonlinear_arith)
            requires k > 0, q == np / k, r == np % k;
        assert(q >= 2) by (nonlinear_arith)
            requires np >= 2 * k, np == q * k + r, 0 <= r < k;
        assert((j + 1) * np / k - j * np / k >= q) by (nonlinear_arith)
            requires np == q * k + r, 0 <= r < k, k > 0, j >= 0;
    }
}

} // verus!
