//! The cross-sectional timeline and bar-time lookups.
use vstd::prelude::*;
use crate::sort::sorted;
pub use crate::backtest::timeline::build_timeline;

verus! {

/// Strictly increasing timestamps.
pub open spec fn strictly_sorted(s: Seq<i64>) -> bool {
    forall|i: int, j: int| 0 <= i < j < s.len() ==> s[i] < s[j]
}

/// A timestamp occurs in one of the series.
pub open spec fn in_any(all: Seq<Vec<i64>>, t: i64) -> bool {
    exists|a: int, i: int| #![trigger all[a]@[i]] 0 <= a < all.len() && 0 <= i < all[a]@.len() && all[a]@[i] == t
}

pub(crate) fn flatten(all: &[Vec<i64>]) -> (v: Vec<i64>)
    ensures
        forall|t: i64| #[trigger] v@.contains(t) <==> in_any(all@, t),
{
    let mut v: Vec<i64> = Vec::new();
    let mut a: usize = 0;
    while a < all.len()
        invariant
            a <= all.len(),
            forall|t: i64| #[trigger] v@.contains(t) <==> in_any(all@.take(a as int), t),
        decreases all.len() - a,
    {
        let ghost before = v@;
        let mut i: usize = 0;
        while i < all[a].len()
            invariant
                a < all.len(),
                i <= all@[a as int]@.len(),
                v@ == before + all@[a as int]@.take(i as int),
            decreases all@[a as int]@.len() - i,
        {
            v.push(all[a][i]);
            i += 1;
            assert(v@ =~= before + all@[a as int]@.take(i as int));
        }
        proof {
            assert(all@[a as int]@.take(i as int) =~= all@[a as int]@);
            assert forall|t: i64| #[trigger] v@.contains(t) <==> in_any(all@.take(a + 1), t) by {
                if v@.contains(t) {
                    let k = choose|k: int| 0 <= k < v@.len() && v@[k] == t;
                    if k < before.len() {
                        assert(before.contains(t));
                        let (b, j) = choose|b: int, j: int| #![trigger all@.take(a as int)[b]@[j]] 0 <= b < a && 0 <= j < all@.take(a as int)[b]@.len() && all@.take(a as int)[b]@[j] == t;
                        assert(all@.take(a + 1)[b] == all@[b]);
                    } else {
                        assert(all@.take(a + 1)[a as int] == all@[a as int]);
                        assert(all@[a as int]@[k - before.len()] == t);
                    }
                }
                if in_any(all@.take(a + 1), t) {
                    let ta = all@.take(a + 1);
                let (b, j) = choose|b: int, j: int| #![trigger ta[b]@[j]] 0 <= b < ta.len() && 0 <= j < ta[b]@.len() && ta[b]@[j] == t;
                    if b < a {
                        assert(all@.take(a as int)[b] == all@[b]);
                        assert(in_any(all@.take(a as int), t));
                        assert(before.contains(t));
                        let k = choose|k: int| 0 <= k < before.len() && before[k] == t;
                        assert(v@ == before + all@[a as int]@);
                        assert(v@[k] == t);
                    } else {
                        assert(v@[before.len() + j] == t);
                    }
                }
            }
        }
        a += 1;
    }
    assert(all@.take(all.len() as int) =~= all@);
    v
}

/// The number of timestamps `<= t` in an ascending series: the cut between
/// what is visible at `t` and what lies in its future.
pub fn partition_point_le(times: &[i64], t: i64) -> (c: usize)
    requires
        sorted(times@),
    ensures
        c <= times@.len(),
        forall|i: int| 0 <= i < c ==> times@[i] <= t,
        forall|i: int| c <= i < times@.len() ==> times@[i] > t,
{
    let mut lo: usize = 0;
    let mut hi: usize = times.len();
    while lo < hi
        invariant
            lo <= hi <= times@.len(),
            sorted(times@),
            forall|i: int| 0 <= i < lo ==> times@[i] <= t,
            forall|i: int| hi <= i < times@.len() ==> times@[i] > t,
        decreases hi - lo,
    {
        let mid = lo + (hi - lo) / 2;
        if times[mid] <= t {
            lo = mid + 1;
        } else {
            hi = mid;
        }
    }
    lo
}

/// Whether a series has a bar exactly at `t` (a stale series is left out of
/// the cross-section at `t`).
pub fn is_fresh(times: &[i64], t: i64) -> (b: bool)
    requires
        sorted(times@),
    ensures
        b == times@.contains(t),
{
    let c = partition_point_le(times, t);
    if c > 0 && times[c - 1] == t {
        return true;
    }
    proof {
        if times@.contains(t) {
            let k = choose|k: int| 0 <= k < times@.len() && times@[k] == t;
            if k < c {
                assert(times@[k] <= times@[c - 1]);
            }
        }
    }
    false
}

/// Index of the last bar at or before `t` (the bar whose close is the last
/// known close at `t`); `None` when every bar is later.
pub fn last_at(times: &[i64], t: i64) -> (r: Option<usize>)
    requires
        sorted(times@),
    ensures
        match r {
            Some(i) => i < times@.len() && times@[i as int] <= t
                && forall|j: int| i < j < times@.len() ==> times@[j] > t,
            None => forall|j: int| 0 <= j < times@.len() ==> times@[j] > t,
        },
{
    let c = partition_point_le(times, t);
    if c == 0 {
        None
    } else {
        Some(c - 1)
    }
}

} // verus!
