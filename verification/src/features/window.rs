//! The point-in-time gate: at decision time `t` only records stamped at or
//! before `t` are visible, and of a bar series only the latest `window` of them.
use vstd::prelude::*;
use crate::backtest::portfolio::partition_point_le;
use crate::sort::sorted;

verus! {

/// How many times are at or before `t`.
pub open spec fn visible_count(times: Seq<i64>, t: i64) -> int
    decreases times.len(),
{
    if times.len() == 0 {
        0
    } else if times.last() <= t {
        times.len() as int
    } else {
        visible_count(times.drop_last(), t)
    }
}

proof fn lemma_visible_count(times: Seq<i64>, t: i64, c: int)
    requires
        sorted(times),
        0 <= c <= times.len(),
        forall|i: int| 0 <= i < c ==> times[i] <= t,
        forall|i: int| c <= i < times.len() ==> times[i] > t,
    ensures
        visible_count(times, t) == c,
    decreases times.len(),
{
    if times.len() > 0 {
        if c == times.len() {
        } else {
            assert(times.last() > t);
            lemma_visible_count(times.drop_last(), t, c);
        }
    }
}

proof fn lemma_visible_split(times: Seq<i64>, t: i64)
    requires
        sorted(times),
    ensures
        0 <= visible_count(times, t) <= times.len(),
        forall|i: int| 0 <= i < visible_count(times, t) ==> times[i] <= t,
        forall|i: int| visible_count(times, t) <= i < times.len() ==> times[i] > t,
    decreases times.len(),
{
    if times.len() > 0 {
        if times.last() <= t {
            assert forall|i: int| 0 <= i < times.len() implies times[i] <= t by {
                assert(times[i] <= times[times.len() - 1]);
            }
        } else {
            let p = times.drop_last();
            assert(sorted(p));
            lemma_visible_split(p, t);
            assert forall|i: int| 0 <= i < visible_count(times, t) implies times[i] <= t by {
                assert(times[i] == p[i]);
            }
            assert forall|i: int| visible_count(times, t) <= i < times.len() implies times[i] > t by {
                if i < times.len() - 1 {
                    assert(times[i] == p[i]);
                }
            }
        }
    }
}

/// The visible part of a time-ordered series at `t`: the index range
/// `start..end` of its latest `window` records at or before `t`.
pub fn visible_range(times: &[i64], t: i64, window: usize) -> (r: (usize, usize))
    requires
        sorted(times@),
    ensures
        r.1 == visible_count(times@, t),
        r.0 == if r.1 >= window { r.1 - window } else { 0 },
        r.0 <= r.1 <= times@.len(),
        forall|i: int| 0 <= i < r.1 ==> times@[i] <= t,
        forall|i: int| r.1 <= i < times@.len() ==> times@[i] > t,
{
    let end = partition_point_le(times, t);
    proof {
        lemma_visible_count(times@, t, end as int);
    }
    let start = if end >= window { end - window } else { 0 };
    (start, end)
}

/// Law (no look-ahead): whatever the window, nothing stamped after `t` is
/// visible at `t`, and what is visible is the latest data at or before `t`:
/// the first record left out at the end is already after `t`, and at most
/// `window` records are shown.
pub proof fn law_no_lookahead(times: Seq<i64>, t: i64, window: nat)
    requires
        sorted(times),
    ensures
        ({
            let end = visible_count(times, t);
            let start = if end >= window { end - window } else { 0 };
            &&& 0 <= start <= end <= times.len()
            &&& end - start <= window
            &&& forall|i: int| start <= i < end ==> #[trigger] times[i] <= t
            &&& end < times.len() ==> times[end] > t
        }),
{
    lemma_visible_split(times, t);
}

} // verus!
