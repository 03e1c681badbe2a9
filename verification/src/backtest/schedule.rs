//! Rebalance schedules over a timeline: the rebalance points and the holding
//! segments between them.
use vstd::prelude::*;
use crate::data::time::{date, date_of};
use crate::error::Error;

verus! {

/// `start, start + step, ...` below `n` (`(start..n).step_by(step)`).
pub open spec fn is_step_points(v: Seq<usize>, start: int, n: int, step: int) -> bool {
    &&& forall|i: int| 0 <= i < v.len() ==> #[trigger] v[i] == start + i * step
    &&& start + v.len() * step >= n
    &&& v.len() > 0 ==> start + (v.len() - 1) * step < n
}

/// The points `start, start + step, ...` below `n`.
pub fn step_points(start: usize, n: usize, step: usize) -> (v: Vec<usize>)
    requires
        step >= 1,
    ensures
        is_step_points(v@, start as int, n as int, step as int),
{
    let mut v: Vec<usize> = Vec::new();
    let mut t: usize = start;
    assert(0 * step == 0);
    if start < n {
        loop
            invariant_except_break
                t < n,
                t == start + v@.len() * step,
            invariant
                step >= 1,
                start <= t,
                forall|i: int| 0 <= i < v@.len() ==> #[trigger] v@[i] == start + i * step,
            ensures
                v@.len() >= 1,
                start + (v@.len() - 1) * step < n,
                start + v@.len() * step >= n,
                forall|i: int| 0 <= i < v@.len() ==> #[trigger] v@[i] == start + i * step,
            decreases n - t,
        {
            let ghost len0 = v@.len();
            v.push(t);
            assert(v@.len() * step == len0 * step + step) by (nonlinear_arith)
                requires v@.len() == len0 + 1;
            if n - t <= step {
                assert(start + (v@.len() - 1) * step == t);
                break;
            }
            t = t + step;
        }
    }
    v
}

/// The holding segments of rebalance points: each point to the next, then
/// the last point to the end of the timeline when it is not already there.
pub open spec fn segments_spec(points: Seq<usize>, n: int) -> Seq<(usize, usize)> {
    let pairs = Seq::new((points.len() - 1) as nat, |i: int| (points[i], points[i + 1]));
    if points.last() as int != n - 1 {
        pairs.push((points.last(), (n - 1) as usize))
    } else {
        pairs
    }
}

/// The holding segments between consecutive rebalance points, closed by the
/// last point to the final bar when it is not the final bar.
pub fn segments_of(points: &[usize], n: usize) -> (segs: Vec<(usize, usize)>)
    requires
        points@.len() >= 1,
        n >= 1,
    ensures
        segs@ == segments_spec(points@, n as int),
{
    let mut segs: Vec<(usize, usize)> = Vec::new();
    let mut i: usize = 0;
    while i + 1 < points.len()
        invariant
            i + 1 <= points.len(),
            segs@ == Seq::new(i as nat, |k: int| (points@[k], points@[k + 1])),
        decreases points.len() - i,
    {
        segs.push((points[i], points[i + 1]));
        i += 1;
        assert(segs@ =~= Seq::new(i as nat, |k: int| (points@[k], points@[k + 1])));
    }
    let last = points[points.len() - 1];
    if last != n - 1 {
        segs.push((last, n - 1));
    }
    segs
}

/// The rebalance segments of a portfolio run over `n` timeline points:
/// rebalancing every `rebalance` points from `warmup` on, refused when the
/// interval is zero or fewer than two rebalance points fit.
pub fn portfolio_schedule(warmup: usize, n: usize, rebalance: usize) -> (r: Result<Vec<(usize, usize)>, Error>)
    ensures
        rebalance == 0 ==> (r matches Err(Error::Data(m)) && m@ == "rebalance must be >= 1"@),
        rebalance >= 1 ==> schedule_result(r, warmup as int, n as int, rebalance as int,
            "universe timeline too short for warmup/rebalance"@),
{
    if rebalance == 0 {
        return Err(Error::Data(String::from_str("rebalance must be >= 1")));
    }
    schedule(warmup, n, rebalance, "universe timeline too short for warmup/rebalance")
}

/// The rebalance segments of a screener backtest (same rules, its own wording).
pub fn screen_schedule(warmup: usize, n: usize, rebalance: usize) -> (r: Result<Vec<(usize, usize)>, Error>)
    ensures
        rebalance == 0 ==> (r matches Err(Error::Data(m)) && m@ == "rebalance must be >= 1"@),
        rebalance >= 1 ==> schedule_result(r, warmup as int, n as int, rebalance as int,
            "timeline too short for warmup/rebalance"@),
{
    if rebalance == 0 {
        return Err(Error::Data(String::from_str("rebalance must be >= 1")));
    }
    schedule(warmup, n, rebalance, "timeline too short for warmup/rebalance")
}

/// Segments of the rebalance points when at least two fit, else the message.
pub open spec fn schedule_result(r: Result<Vec<(usize, usize)>, Error>, warmup: int, n: int, rebalance: int, short: Seq<char>) -> bool {
    match r {
        Ok(segs) => exists|points: Seq<usize>| #[trigger] is_step_points(points, warmup, n, rebalance)
            && points.len() >= 2 && segs@ == segments_spec(points, n),
        Err(e) => (e matches Error::Data(m) && m@ == short) && (n <= warmup || n - warmup <= rebalance),
    }
}

fn schedule(warmup: usize, n: usize, rebalance: usize, short: &str) -> (r: Result<Vec<(usize, usize)>, Error>)
    requires
        rebalance >= 1,
    ensures
        schedule_result(r, warmup as int, n as int, rebalance as int, short@),
{
    let points = step_points(warmup, n, rebalance);
    if points.len() < 2 {
        assert(points@.len() * rebalance == 0 || points@.len() * rebalance == rebalance) by (nonlinear_arith)
            requires points@.len() < 2;
        return Err(Error::Data(String::from_str(short)));
    }
    let segs = segments_of(points.as_slice(), n);
    assert(is_step_points(points@, warmup as int, n as int, rebalance as int));
    Ok(segs)
}

/// Law: the holding segments of increasing rebalance points below `n` run
/// back to back from the first point to the final bar, each segment
/// non-empty.
pub proof fn law_segments_tile(points: Seq<usize>, n: usize)
    requires
        points.len() >= 2,
        forall|i: int, j: int| 0 <= i < j < points.len() ==> #[trigger] points[i] < #[trigger] points[j],
        points.last() < n,
    ensures
        ({
            let segs = segments_spec(points, n as int);
            &&& segs.len() >= 1
            &&& segs[0].0 == points[0]
            &&& segs.last().1 == n - 1
            &&& forall|i: int| 0 <= i < segs.len() ==> #[trigger] segs[i].0 < segs[i].1
            &&& forall|i: int| 0 <= i < segs.len() - 1 ==> #[trigger] segs[i].1 == segs[i + 1].0
        }),
{
    let segs = segments_spec(points, n as int);
    let pairs = Seq::new((points.len() - 1) as nat, |i: int| (points[i], points[i + 1]));
    assert forall|i: int| 0 <= i < pairs.len() implies #[trigger] pairs[i].0 < pairs[i].1 by {
        assert(points[i] < points[i + 1]);
    }
    assert(points[points.len() - 2] < points[points.len() - 1]);
    if points.last() as int != n - 1 {
        let tail = (points.last(), (n - 1) as usize);
        assert(segs == pairs.push(tail));
        assert forall|i: int| 0 <= i < segs.len() implies #[trigger] segs[i].0 < segs[i].1 by {
            if i < pairs.len() {
                assert(segs[i] == pairs[i]);
            }
        }
        assert forall|i: int| 0 <= i < segs.len() - 1 implies #[trigger] segs[i].1 == segs[i + 1].0 by {
            assert(segs[i] == pairs[i]);
            if i + 1 < pairs.len() {
                assert(segs[i + 1] == pairs[i + 1]);
            }
        }
    } else {
        assert(segs == pairs);
        assert forall|i: int| 0 <= i < segs.len() - 1 implies #[trigger] segs[i].1 == segs[i + 1].0 by {
            assert(segs[i] == pairs[i]);
            assert(segs[i + 1] == pairs[i + 1]);
        }
    }
}

/// Whether a time's day lies within the optional `from..=to` day bounds.
pub open spec fn in_day_window(t: i64, from: Option<i64>, to: Option<i64>) -> bool {
    (match from { Some(f) => date_of(t as int) >= f, None => true })
        && (match to { Some(e) => date_of(t as int) <= e, None => true })
}

/// The times whose day lies within the bounds, in their order.
pub open spec fn window_times(ts: Seq<i64>, from: Option<i64>, to: Option<i64>) -> Seq<i64>
    decreases ts.len(),
{
    if ts.len() == 0 {
        Seq::empty()
    } else if in_day_window(ts.last(), from, to) {
        window_times(ts.drop_last(), from, to).push(ts.last())
    } else {
        window_times(ts.drop_last(), from, to)
    }
}

/// Restricts a timeline to the days `from..=to` (either bound optional).
pub fn restrict_to_days(timeline: &[i64], from: Option<i64>, to: Option<i64>) -> (v: Vec<i64>)
    ensures
        v@ == window_times(timeline@, from, to),
{
    let mut v: Vec<i64> = Vec::new();
    let mut i: usize = 0;
    assert(timeline@.take(0) =~= Seq::<i64>::empty());
    while i < timeline.len()
        invariant
            i <= timeline.len(),
            v@ == window_times(timeline@.take(i as int), from, to),
        decreases timeline.len() - i,
    {
        let t = timeline[i];
        let d = date(t);
        let keep = (match from { Some(f) => d >= f, None => true }) && (match to { Some(e) => d <= e, None => true });
        assert(timeline@.take(i + 1).drop_last() =~= timeline@.take(i as int));
        assert(timeline@.take(i + 1).last() == t);
        if keep {
            v.push(t);
        }
        i += 1;
    }
    assert(timeline@.take(timeline.len() as int) =~= timeline@);
    v
}

} // verus!
