//! Gap detection on a primary bar series: trading days without any bar, and
//! interior days with fewer bars than the fullest day of the series.
use vstd::prelude::*;
use crate::data::calendar::AShareCalendar;
use crate::data::time::{date, date_of};
use crate::sort::{
    count, lemma_count_absent, lemma_count_all, lemma_count_concat, lemma_count_positive,
    lemma_count_positive_contains, same_counts, sort_i64, sorted,
};

verus! {

/// An interior day with fewer bars than expected.
#[derive(Debug, Clone, Copy, PartialEq, Eq)]
pub struct PartialDay {
    pub date: i64,
    pub bars: usize,
    pub expected: usize,
}

/// Missing trading days and partial days of a bar series, each in ascending day order.
#[derive(Debug)]
pub struct GapReport {
    pub missing_trading_days: Vec<i64>,
    pub partial_days: Vec<PartialDay>,
}

impl GapReport {
    /// No missing and no partial day.
    pub fn is_empty(&self) -> (b: bool)
        ensures
            b == (self.missing_trading_days@.len() == 0 && self.partial_days@.len() == 0),
    {
        self.missing_trading_days.len() == 0 && self.partial_days.len() == 0
    }
}

/// The days of the bars (one entry per bar).
pub open spec fn bar_days(times: Seq<i64>) -> Seq<i64> {
    times.map_values(|t: i64| date_of(t as int) as i64)
}

/// Earliest day holding a bar.
#[verifier::opaque]
pub open spec fn first_day(ds: Seq<i64>) -> i64 {
    choose|d: i64| count(ds, d) > 0 && forall|e: i64| #[trigger] count(ds, e) > 0 ==> d <= e
}

/// Latest day holding a bar.
#[verifier::opaque]
pub open spec fn last_day(ds: Seq<i64>) -> i64 {
    choose|d: i64| count(ds, d) > 0 && forall|e: i64| #[trigger] count(ds, e) > 0 ==> e <= d
}

/// The largest number of bars on one of the days `ds[0..k]`.
pub open spec fn max_count_upto(ds: Seq<i64>, k: int) -> nat
    decreases k,
{
    if k <= 0 {
        0
    } else {
        let m = max_count_upto(ds, k - 1);
        let c = count(ds, ds[k - 1]);
        if c > m { c } else { m }
    }
}

/// The largest number of bars on one day (the series' own "full day").
pub open spec fn full_day(ds: Seq<i64>) -> nat {
    max_count_upto(ds, ds.len() as int)
}

proof fn lemma_max_count(ds: Seq<i64>, k: int)
    requires
        0 <= k <= ds.len(),
    ensures
        forall|i: int| 0 <= i < k ==> count(ds, ds[i]) <= max_count_upto(ds, k),
        k > 0 ==> exists|i: int| 0 <= i < k && count(ds, ds[i]) == max_count_upto(ds, k),
    decreases k,
{
    if k > 0 {
        lemma_max_count(ds, k - 1);
        let m = max_count_upto(ds, k - 1);
        let c = count(ds, ds[k - 1]);
        if c > m {
            assert(count(ds, ds[k - 1]) == max_count_upto(ds, k));
        } else if k > 1 {
            let i = choose|i: int| 0 <= i < k - 1 && count(ds, ds[i]) == max_count_upto(ds, k - 1);
            assert(count(ds, ds[i]) == max_count_upto(ds, k));
        } else {
            lemma_count_positive(ds, 0);
            assert(false);
        }
    }
}

/// Trading days in `first..=d` without any bar, ascending.
pub open spec fn missing_upto(ds: Seq<i64>, cal: AShareCalendar, first: int, d: int) -> Seq<i64>
    decreases d - first + 1,
{
    if d < first {
        seq![]
    } else {
        let prev = missing_upto(ds, cal, first, d - 1);
        if cal.trading(d) && count(ds, d as i64) == 0 {
            prev.push(d as i64)
        } else {
            prev
        }
    }
}

/// Days in `first..=d` that hold bars, are neither the first nor the last day
/// of the series, and hold fewer than `full` bars; ascending.
pub open spec fn partial_upto(ds: Seq<i64>, first: int, last: int, full: nat, d: int) -> Seq<PartialDay>
    decreases d - first + 1,
{
    if d < first {
        seq![]
    } else {
        let prev = partial_upto(ds, first, last, full, d - 1);
        let c = count(ds, d as i64);
        if c > 0 && d != first && d != last && c < full {
            prev.push(PartialDay { date: d as i64, bars: c as usize, expected: full as usize })
        } else {
            prev
        }
    }
}

/// The gap report of a bar series with the given closing times.
#[verifier::opaque]
pub open spec fn gaps_spec(times: Seq<i64>, cal: AShareCalendar) -> (Seq<i64>, Seq<PartialDay>) {
    let ds = bar_days(times);
    if times.len() == 0 {
        (seq![], seq![])
    } else {
        let first = first_day(ds) as int;
        let last = last_day(ds) as int;
        (missing_upto(ds, cal, first, last), partial_upto(ds, first, last, full_day(ds), last))
    }
}

/// Unfolds the gap report: empty for no bars, else the missing and partial
/// days over the span from the first to the last bar day.
pub proof fn lemma_gaps_spec(times: Seq<i64>, cal: AShareCalendar)
    ensures
        times.len() == 0 ==> gaps_spec(times, cal) == (Seq::<i64>::empty(), Seq::<PartialDay>::empty()),
        times.len() > 0 ==> gaps_spec(times, cal) == ({
            let ds = bar_days(times);
            (missing_upto(ds, cal, first_day(ds) as int, last_day(ds) as int),
                partial_upto(ds, first_day(ds) as int, last_day(ds) as int, full_day(ds), last_day(ds) as int))
        }),
{
    reveal(gaps_spec);
    if times.len() == 0 {
        assert(gaps_spec(times, cal).0 =~= Seq::<i64>::empty());
        assert(gaps_spec(times, cal).1 =~= Seq::<PartialDay>::empty());
    }
}

/// Runs of equal values in a sorted sequence: `(value, count)` pairs.
struct Runs {
    days: Vec<i64>,
    counts: Vec<usize>,
}

spec fn runs_ok(ds: Seq<i64>, days: Seq<i64>, counts: Seq<usize>) -> bool {
    &&& days.len() == counts.len()
    &&& forall|i: int, j: int| 0 <= i < j < days.len() ==> days[i] < days[j]
    &&& forall|i: int| 0 <= i < days.len() ==> count(ds, #[trigger] days[i]) == counts[i] as nat
    &&& forall|i: int| 0 <= i < days.len() ==> counts[i] > 0
    &&& forall|e: i64| #[trigger] count(ds, e) > 0 ==> days.contains(e)
}

proof fn lemma_sorted_run_count(s: Seq<i64>, j: int, i: int)
    requires
        sorted(s),
        0 <= j < i <= s.len(),
        forall|k: int| j <= k < i ==> s[k] == s[j],
        i < s.len() ==> s[i] != s[j],
        j > 0 ==> s[j - 1] != s[j],
    ensures
        count(s, s[j]) == i - j,
{
    let v = s[j];
    assert(s =~= s.subrange(0, j) + s.subrange(j, i) + s.subrange(i, s.len() as int));
    lemma_count_concat(s.subrange(0, j) + s.subrange(j, i), s.subrange(i, s.len() as int), v);
    lemma_count_concat(s.subrange(0, j), s.subrange(j, i), v);
    assert forall|k: int| 0 <= k < j implies s.subrange(0, j)[k] != v by {
        assert(s[k] <= s[j - 1]);
    }
    lemma_count_absent(s.subrange(0, j), v);
    lemma_count_all(s.subrange(j, i), v);
    assert forall|k: int| 0 <= k < s.len() - i implies s.subrange(i, s.len() as int)[k] != v by {
        assert(s[i] <= s[i + k]);
    }
    lemma_count_absent(s.subrange(i, s.len() as int), v);
}

fn runs_of(s: &Vec<i64>, Ghost(ds): Ghost<Seq<i64>>) -> (r: Runs)
    requires
        sorted(s@),
        same_counts(s@, ds),
    ensures
        runs_ok(ds, r.days@, r.counts@),
        s@.len() > 0 ==> r.days@.len() > 0 && r.days@[0] == s@[0] && r.days@.last() == s@.last(),
{
    let mut days: Vec<i64> = Vec::new();
    let mut counts: Vec<usize> = Vec::new();
    let mut i: usize = 0;
    while i < s.len()
        invariant
            i <= s.len(),
            sorted(s@),
            same_counts(s@, ds),
            days@.len() == counts@.len(),
            forall|a: int, b: int| 0 <= a < b < days@.len() ==> days@[a] < days@[b],
            forall|a: int| 0 <= a < days@.len() ==> count(ds, #[trigger] days@[a]) == counts@[a] as nat,
            forall|a: int| 0 <= a < days@.len() ==> counts@[a] > 0,
            forall|k: int| 0 <= k < i ==> days@.contains(#[trigger] s@[k]),
            i > 0 ==> days@.len() > 0 && days@.last() == s@[i - 1],
            i < s.len() && i > 0 ==> s@[i - 1] != s@[i as int],
            days@.len() > 0 ==> days@[0] == s@[0],
            days@.len() > 0 && i < s.len() ==> days@.last() < s@[i as int],
        decreases s.len() - i,
    {
        let j = i;
        let v = s[j];
        while i < s.len() && s[i] == v
            invariant
                j < s.len(),
                j <= i <= s.len(),
                v == s@[j as int],
                forall|k: int| j <= k < i ==> s@[k] == v,
            decreases s.len() - i,
        {
            i += 1;
        }
        proof {
            lemma_sorted_run_count(s@, j as int, i as int);
            if i < s.len() {
                assert(s@[j as int] <= s@[i as int]);
            }
        }
        let ghost old_days = days@;
        days.push(v);
        counts.push(i - j);
        proof {
            assert forall|k: int| 0 <= k < i implies days@.contains(#[trigger] s@[k]) by {
                if k < j {
                    assert(old_days.contains(s@[k]));
                    let w = choose|w: int| 0 <= w < old_days.len() && old_days[w] == s@[k];
                    assert(days@[w] == s@[k]);
                } else {
                    assert(days@[days@.len() - 1] == s@[k]);
                }
            }
        }
    }
    proof {
        assert forall|e: i64| #[trigger] count(ds, e) > 0 implies days@.contains(e) by {
            let k = lemma_count_positive_contains(s@, e);
        }
    }
    Runs { days, counts }
}

fn days_of(bar_times: &[i64]) -> (days: Vec<i64>)
    ensures
        days@ == bar_days(bar_times@),
{
    let mut days: Vec<i64> = Vec::new();
    let mut k: usize = 0;
    while k < bar_times.len()
        invariant
            k <= bar_times.len(),
            days@ == bar_days(bar_times@).take(k as int),
        decreases bar_times.len() - k,
    {
        let d = date(bar_times[k]);
        days.push(d);
        k += 1;
        assert(days@ =~= bar_days(bar_times@).take(k as int));
    }
    assert(days@ =~= bar_days(bar_times@));
    days
}

/// Detects the gaps of a bar series given the bars' closing timestamps
/// (any order): the calendar's trading days between the first and the last
/// bar day that hold no bar, and the days other than the first and the last
/// with fewer bars than the fullest day. Both lists ascend.
pub fn detect_gaps(bar_times: &[i64], calendar: &AShareCalendar) -> (r: GapReport)
    ensures
        (r.missing_trading_days@, r.partial_days@) == gaps_spec(bar_times@, *calendar),
{
    proof {
        lemma_gaps_spec(bar_times@, *calendar);
    }
    if bar_times.len() == 0 {
        return GapReport { missing_trading_days: Vec::new(), partial_days: Vec::new() };
    }
    let days = days_of(bar_times);
    let ghost ds = bar_days(bar_times@);
    let sorted_days = sort_i64(&days);
    let runs = runs_of(&sorted_days, Ghost(ds));
    let n = runs.days.len();
    let first = runs.days[0];
    let last = runs.days[n - 1];
    let full = fullest(&runs, Ghost(ds));
    proof {
        lemma_first_last(ds, runs.days@, runs.counts@, first, last);
    }
    walk_days(&runs, Ghost(ds), calendar, first, last, full)
}

fn fullest(runs: &Runs, Ghost(ds): Ghost<Seq<i64>>) -> (full: usize)
    requires
        runs_ok(ds, runs.days@, runs.counts@),
        runs.days@.len() > 0,
    ensures
        full as nat == full_day(ds),
{
    let n = runs.days.len();
    let mut full: usize = 0;
    let mut a: usize = 0;
    let ghost mut wit: int = 0;
    while a < n
        invariant
            a <= n,
            n == runs.days@.len(),
            runs_ok(ds, runs.days@, runs.counts@),
            forall|b: int| 0 <= b < a ==> runs.counts@[b] <= full,
            a > 0 ==> 0 <= wit < a && runs.counts@[wit] == full,
            a == 0 ==> full == 0,
        decreases n - a,
    {
        assert(runs.counts@[a as int] > 0);
        if runs.counts[a] > full {
            full = runs.counts[a];
            proof {
                wit = a as int;
            }
        }
        a += 1;
    }
    proof {
        let b = wit;
        assert(count(ds, runs.days@[b]) == full as nat);
        assert forall|e: i64| #[trigger] count(ds, e) <= full as nat by {
            if count(ds, e) > 0 {
                let w = choose|w: int| 0 <= w < runs.days@.len() && runs.days@[w] == e;
                assert(count(ds, runs.days@[w]) == runs.counts@[w] as nat);
            }
        }
        lemma_max_count(ds, ds.len() as int);
        let i0 = choose|i: int| 0 <= i < ds.len() && count(ds, ds[i]) == max_count_upto(ds, ds.len() as int);
        assert(count(ds, ds[i0]) <= full as nat);
        let e0 = runs.days@[b];
        let i1 = lemma_count_positive_contains(ds, e0);
        assert(count(ds, ds[i1]) <= max_count_upto(ds, ds.len() as int));
    }
    full
}

fn walk_days(
    runs: &Runs,
    Ghost(ds): Ghost<Seq<i64>>,
    calendar: &AShareCalendar,
    first: i64,
    last: i64,
    full: usize,
) -> (report: GapReport)
    requires
        runs_ok(ds, runs.days@, runs.counts@),
        runs.days@.len() > 0,
        first == runs.days@[0],
        last == runs.days@.last(),
        first <= last,
    ensures
        report.missing_trading_days@ == missing_upto(ds, *calendar, first as int, last as int),
        report.partial_days@ == partial_upto(ds, first as int, last as int, full as nat, last as int),
{
    let mut report = GapReport { missing_trading_days: Vec::new(), partial_days: Vec::new() };
    let n = runs.days.len();
    let mut d: i128 = first as i128;
    let mut j: usize = 0;
    while d <= last as i128
        invariant
            first <= d <= last + 1,
            n == runs.days@.len(),
            n > 0,
            last == runs.days@[n - 1],
            runs_ok(ds, runs.days@, runs.counts@),
            j <= n,
            forall|b: int| 0 <= b < j ==> runs.days@[b] < d,
            j < n ==> runs.days@[j as int] >= d,
            j == n ==> d == last + 1,
            report.missing_trading_days@ == missing_upto(ds, *calendar, first as int, d - 1),
            report.partial_days@ == partial_upto(ds, first as int, last as int, full as nat, d - 1),
        decreases last + 1 - d,
    {
        let ghost j0 = j;
        let dd = d as i64;
        let c: usize = if j < n && runs.days[j] == dd {
            let c = runs.counts[j];
            j += 1;
            c
        } else {
            proof {
                if count(ds, d as i64) > 0 {
                    let w = choose|w: int| 0 <= w < runs.days@.len() && runs.days@[w] == d as i64;
                    if w < j {
                    } else {
                        assert(runs.days@[j as int] <= runs.days@[w]);
                    }
                }
            }
            0
        };
        assert(c as nat == count(ds, dd));
        if c == 0 && calendar.is_trading_day(dd) {
            report.missing_trading_days.push(dd);
        }
        if c > 0 && dd != first && dd != last && c < full {
            report.partial_days.push(PartialDay { date: dd, bars: c, expected: full });
        }
        proof {
            if j < n {
                if j > j0 {
                    assert(runs.days@[j0 as int] < runs.days@[j as int]);
                }
            } else {
                if j == j0 {
                    assert(runs.days@[n - 1] < d);
                }
            }
        }
        d += 1;
    }
    report
}

proof fn lemma_first_last(ds: Seq<i64>, days: Seq<i64>, counts: Seq<usize>, first: i64, last: i64)
    requires
        runs_ok(ds, days, counts),
        days.len() > 0,
        first == days[0],
        last == days.last(),
    ensures
        first == first_day(ds),
        last == last_day(ds),
        first <= last,
{
    assert(count(ds, days[0]) == counts[0] as nat);
    assert(count(ds, days[days.len() - 1]) == counts[days.len() - 1] as nat);
    assert forall|e: i64| #[trigger] count(ds, e) > 0 implies first <= e && e <= last by {
        let w = choose|w: int| 0 <= w < days.len() && days[w] == e;
        if w > 0 {
            assert(days[0] < days[w]);
        }
        if w < days.len() - 1 {
            assert(days[w] < days[days.len() - 1]);
        }
    }
    reveal(first_day);
    reveal(last_day);
    let f = first_day(ds);
    assert(count(ds, f) > 0 && forall|e: i64| #[trigger] count(ds, e) > 0 ==> f <= e);
    let l = last_day(ds);
    assert(count(ds, l) > 0 && forall|e: i64| #[trigger] count(ds, e) > 0 ==> e <= l);
}


} // verus!
