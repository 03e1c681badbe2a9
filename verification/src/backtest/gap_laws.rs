//! Laws of the gap report: what its two lists hold, stated day by day.
use vstd::prelude::*;
use crate::backtest::gaps::{lemma_gaps_spec, bar_days, first_day, full_day, gaps_spec, last_day, max_count_upto, missing_upto,
    partial_upto, PartialDay};
use crate::data::calendar::AShareCalendar;
use crate::sort::count;

verus! {

/// Strictly ascending days.
pub open spec fn days_ascending(s: Seq<i64>) -> bool {
    forall|i: int, j: int| 0 <= i < j < s.len() ==> s[i] < s[j]
}

#[verifier::spinoff_prover]
proof fn lemma_missing_upto(ds: Seq<i64>, cal: AShareCalendar, first: int, d: int)
    requires
        i64::MIN <= first,
        d <= i64::MAX,
    ensures
        forall|x: i64| #[trigger] missing_upto(ds, cal, first, d).contains(x)
            <==> (first <= x <= d && cal.trading(x as int) && count(ds, x) == 0),
        days_ascending(missing_upto(ds, cal, first, d)),
        forall|i: int| 0 <= i < missing_upto(ds, cal, first, d).len() ==> missing_upto(ds, cal, first, d)[i] <= d,
    decreases d - first + 1,
{
    if d >= first {
        lemma_missing_upto(ds, cal, first, d - 1);
        let prev = missing_upto(ds, cal, first, d - 1);
        if cal.trading(d) && count(ds, d as i64) == 0 {
            let cur = prev.push(d as i64);
            assert forall|x: i64| #[trigger] cur.contains(x) <==> (first <= x <= d && cal.trading(x as int) && count(ds, x) == 0) by {
                if x == d {
                    assert(cur[prev.len() as int] == x);
                } else {
                    if cur.contains(x) {
                        let i = choose|i: int| 0 <= i < cur.len() && cur[i] == x;
                        assert(i < prev.len());
                        assert(prev[i] == x);
                        assert(prev.contains(x));
                    }
                    if prev.contains(x) {
                        let i = choose|i: int| 0 <= i < prev.len() && prev[i] == x;
                        assert(cur[i] == x);
                    }
                }
            }
        } else {
            assert forall|x: i64| #[trigger] prev.contains(x) <==> (first <= x <= d && cal.trading(x as int) && count(ds, x) == 0) by {
                if prev.contains(x) {
                    let i = choose|i: int| 0 <= i < prev.len() && prev[i] == x;
                    assert(prev[i] <= d - 1);
                }
            }
        }
    }
}

proof fn lemma_count_le_len(s: Seq<i64>, v: i64)
    ensures
        count(s, v) <= s.len(),
    decreases s.len(),
{
    if s.len() > 0 {
        lemma_count_le_len(s.drop_last(), v);
    }
}

proof fn lemma_full_day_bound(ds: Seq<i64>, k: int)
    requires
        0 <= k <= ds.len(),
    ensures
        max_count_upto(ds, k) <= ds.len(),
    decreases k,
{
    if k > 0 {
        lemma_full_day_bound(ds, k - 1);
        lemma_count_le_len(ds, ds[k - 1]);
    }
}

/// Whether a day is an interior partial day of a series with days `ds`.
pub open spec fn is_partial(ds: Seq<i64>, first: int, last: int, full: nat, x: int) -> bool {
    &&& first < x < last
    &&& count(ds, x as i64) > 0
    &&& count(ds, x as i64) < full
}

#[verifier::spinoff_prover]
proof fn lemma_partial_upto(ds: Seq<i64>, first: int, last: int, full: nat, d: int)
    requires
        i64::MIN <= first,
        d <= i64::MAX,
        d <= last,
        full <= usize::MAX,
    ensures
        forall|i: int| 0 <= i < partial_upto(ds, first, last, full, d).len() ==> {
            let p = #[trigger] partial_upto(ds, first, last, full, d)[i];
            &&& first <= p.date <= d
            &&& is_partial(ds, first, last, full, p.date as int)
            &&& p.bars as nat == count(ds, p.date)
            &&& p.expected as nat == full
        },
        forall|x: int| first <= x <= d && is_partial(ds, first, last, full, x) ==> exists|i: int|
            0 <= i < partial_upto(ds, first, last, full, d).len() && #[trigger] partial_upto(ds, first, last, full, d)[i].date == x,
        forall|i: int, j: int| 0 <= i < j < partial_upto(ds, first, last, full, d).len()
            ==> #[trigger] partial_upto(ds, first, last, full, d)[i].date < #[trigger] partial_upto(ds, first, last, full, d)[j].date,
    decreases d - first + 1,
{
    if d >= first {
        lemma_partial_upto(ds, first, last, full, d - 1);
        let prev = partial_upto(ds, first, last, full, d - 1);
        let cur = partial_upto(ds, first, last, full, d);
        let c = count(ds, d as i64);
        if c > 0 && d != first && d != last && c < full {
            assert(cur == prev.push(PartialDay { date: d as i64, bars: c as usize, expected: full as usize }));
            assert forall|x: int| first <= x <= d && is_partial(ds, first, last, full, x) implies exists|i: int|
                0 <= i < cur.len() && #[trigger] cur[i].date == x by {
                if x < d {
                    let i = choose|i: int| 0 <= i < prev.len() && #[trigger] prev[i].date == x;
                    assert(cur[i] == prev[i]);
                } else {
                    assert(cur[prev.len() as int].date == x);
                }
            }
        } else {
            assert forall|x: int| first <= x <= d && is_partial(ds, first, last, full, x) implies exists|i: int|
                0 <= i < cur.len() && #[trigger] cur[i].date == x by {
                if x == d {
                    assert(false);
                }
            }
        }
    }
}

proof fn lemma_report_parts(ds: Seq<i64>, cal: AShareCalendar, first: int, last: int, full: nat)
    requires
        i64::MIN <= first,
        last <= i64::MAX,
        full <= usize::MAX,
    ensures
        ({
            let missing = missing_upto(ds, cal, first, last);
            let partial = partial_upto(ds, first, last, full, last);
            &&& forall|x: i64| #[trigger] missing.contains(x)
                <==> (first <= x <= last && cal.trading(x as int) && count(ds, x) == 0)
            &&& days_ascending(missing)
            &&& forall|i: int| 0 <= i < partial.len() ==> {
                let p = #[trigger] partial[i];
                &&& is_partial(ds, first, last, full, p.date as int)
                &&& p.bars as nat == count(ds, p.date)
                &&& p.expected as nat == full
            }
            &&& forall|x: int| is_partial(ds, first, last, full, x)
                ==> exists|i: int| 0 <= i < partial.len() && #[trigger] partial[i].date == x
            &&& forall|i: int, j: int| 0 <= i < j < partial.len() ==> #[trigger] partial[i].date < #[trigger] partial[j].date
        }),
{
    let p = partial_upto(ds, first, last, full, last);
    lemma_missing_upto(ds, cal, first, last);
    lemma_partial_upto(ds, first, last, full, last);
    assert forall|x: int| is_partial(ds, first, last, full, x)
        implies exists|i: int| 0 <= i < p.len() && #[trigger] p[i].date == x by {
        assert(first <= x <= last);
    }
}

/// Law: in the gap report of a non-empty series whose bars span the days
/// `first..=last`, a day is listed as missing exactly when it is a trading
/// day of that span holding no bar (so holidays and weekends never are),
/// and a day is listed as partial exactly when it lies strictly inside the
/// span and holds some bars but fewer than the fullest day; each list
/// ascends by day, and a partial entry carries its bar count and the
/// fullest day's count.
#[verifier::spinoff_prover]
pub proof fn law_gap_report(times: Seq<i64>, cal: AShareCalendar)
    requires
        0 < times.len() <= usize::MAX,
    ensures
        ({
            let ds = bar_days(times);
            let first = first_day(ds) as int;
            let last = last_day(ds) as int;
            let full = full_day(ds);
            let missing = gaps_spec(times, cal).0;
            let partial = gaps_spec(times, cal).1;
            &&& forall|x: i64| #[trigger] missing.contains(x)
                <==> (first <= x <= last && cal.trading(x as int) && count(ds, x) == 0)
            &&& days_ascending(missing)
            &&& forall|i: int| 0 <= i < partial.len() ==> {
                let p = #[trigger] partial[i];
                &&& is_partial(ds, first, last, full, p.date as int)
                &&& p.bars as nat == count(ds, p.date)
                &&& p.expected as nat == full
            }
            &&& forall|x: int| is_partial(ds, first, last, full, x)
                ==> exists|i: int| 0 <= i < partial.len() && #[trigger] partial[i].date == x
            &&& forall|i: int, j: int| 0 <= i < j < partial.len() ==> #[trigger] partial[i].date < #[trigger] partial[j].date
        }),
{
    let ds = bar_days(times);
    let first = first_day(ds) as int;
    let last = last_day(ds) as int;
    let full = full_day(ds);
    lemma_gaps_spec(times, cal);
    assert(gaps_spec(times, cal).0 == missing_upto(ds, cal, first, last));
    assert(gaps_spec(times, cal).1 == partial_upto(ds, first, last, full, last));
    lemma_full_day_bound(ds, ds.len() as int);
    lemma_report_parts(ds, cal, first, last, full);
}

} // verus!
