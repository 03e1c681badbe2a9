//! Bars with their prices as written: quote rows turned into time-ordered
//! bars, and the order checks on bar and news files. The decimal prices are
//! read into numbers by the caller.
use vstd::prelude::*;
use crate::data::stamp::{bar_stamp, bar_stamp_spec, datetime_spec, parse_datetime};
use crate::error::Error;
use crate::text::push_str;

verus! {

/// One bar: its closing time (a timestamp) and its prices and volume as the
/// quote service wrote them.
#[derive(Debug)]
pub struct BarText {
    pub time: i64,
    pub open: String,
    pub high: String,
    pub low: String,
    pub close: String,
    pub volume: String,
}

/// A bar as (time, open, high, low, close, volume).
pub type BarV = (int, Seq<char>, Seq<char>, Seq<char>, Seq<char>, Seq<char>);

impl View for BarText {
    type V = BarV;

    open spec fn view(&self) -> BarV {
        (self.time as int, self.open@, self.high@, self.low@, self.close@, self.volume@)
    }
}

/// The views of bars.
pub open spec fn bar_views(bs: Seq<BarText>) -> Seq<BarV> {
    bs.map_values(|b: BarText| b@)
}

/// `x` placed into the time-ordered `s` after every bar whose time is not
/// later than its own.
pub open spec fn insert_by_time(s: Seq<BarV>, x: BarV) -> Seq<BarV>
    decreases s.len(),
{
    if s.len() == 0 {
        seq![x]
    } else if s.last().0 <= x.0 {
        s.push(x)
    } else {
        insert_by_time(s.drop_last(), x).push(s.last())
    }
}

/// The bars ordered by time, bars of equal time kept in their order (a
/// stable sort by time).
pub open spec fn sort_by_time(s: Seq<BarV>) -> Seq<BarV>
    decreases s.len(),
{
    if s.len() == 0 {
        s
    } else {
        insert_by_time(sort_by_time(s.drop_last()), s.last())
    }
}

proof fn lemma_insert_at(s: Seq<BarV>, x: BarV, j: int)
    requires
        0 <= j <= s.len(),
        forall|k: int| j <= k < s.len() ==> (#[trigger] s[k]).0 > x.0,
        j == 0 || s[j - 1].0 <= x.0,
    ensures
        insert_by_time(s, x) == s.take(j).push(x) + s.skip(j),
    decreases s.len(),
{
    if s.len() == j {
        if j == 0 {
            assert(s.take(0).push(x) + s.skip(0) =~= seq![x]);
        } else {
            assert(s.take(j).push(x) + s.skip(j) =~= s.push(x));
        }
    } else {
        let d = s.drop_last();
        assert(s.last() == s[s.len() - 1]);
        assert forall|k: int| j <= k < d.len() implies (#[trigger] d[k]).0 > x.0 by {
            assert(d[k] == s[k]);
        }
        if j > 0 {
            assert(d[j - 1] == s[j - 1]);
        }
        lemma_insert_at(d, x, j);
        assert((d.take(j).push(x) + d.skip(j)).push(s.last()) =~= s.take(j).push(x) + s.skip(j));
    }
}

fn insert_bar(out: &mut Vec<BarText>, x: BarText)
    ensures
        bar_views(final(out)@) == insert_by_time(bar_views(old(out)@), x@),
{
    let ghost s = bar_views(out@);
    let mut j: usize = out.len();
    while j > 0 && out[j - 1].time > x.time
        invariant
            j <= out.len(),
            s == bar_views(out@),
            forall|k: int| j <= k < s.len() ==> (#[trigger] s[k]).0 > x@.0,
        decreases j,
    {
        assert(s[j - 1] == out@[j - 1]@);
        j -= 1;
    }
    proof {
        if j > 0 {
            assert(s[j - 1] == out@[j - 1]@);
        }
        lemma_insert_at(s, x@, j as int);
    }
    let ghost xv = x@;
    out.insert(j, x);
    assert(bar_views(out@) =~= s.take(j as int).push(xv) + s.skip(j as int));
}

/// Orders bars by time, keeping bars of equal time in their order.
pub fn sort_bars_by_time(bars: Vec<BarText>) -> (r: Vec<BarText>)
    ensures
        bar_views(r@) == sort_by_time(bar_views(bars@)),
{
    let ghost s = bar_views(bars@);
    let mut out: Vec<BarText> = Vec::new();
    let mut rest = bars;
    let ghost n = s.len();
    assert(bar_views(rest@) =~= s.skip(0));
    assert(s.take(0) =~= Seq::<BarV>::empty());
    while rest.len() > 0
        invariant
            n == s.len(),
            rest@.len() <= n,
            bar_views(rest@) == s.skip(n - rest@.len()),
            bar_views(out@) == sort_by_time(s.take(n - rest@.len())),
        decreases rest.len(),
    {
        let ghost i = n - rest@.len();
        let ghost rv = bar_views(rest@);
        let x = rest.remove(0);
        proof {
            assert(x@ == rv[0]);
            assert(rv[0] == s[i]);
            assert(bar_views(rest@) =~= rv.drop_first());
            assert(rv.drop_first() =~= s.skip(i + 1));
            assert(s.take(i + 1).drop_last() =~= s.take(i));
            assert(s.take(i + 1).last() == s[i]);
        }
        insert_bar(&mut out, x);
    }
    assert(s.take(n as int) =~= s);
    out
}

/// A Sina quote row: the day and the prices as the service wrote them.
#[derive(Debug)]
pub struct SinaRowText {
    pub day: String,
    pub open: String,
    pub high: String,
    pub low: String,
    pub close: String,
    pub volume: String,
}

/// The bars of Sina rows read in order (each row's day read by
/// `bar_stamp_spec`), or the message for the first unreadable day.
pub open spec fn sina_scan(rows: Seq<SinaRowText>) -> Result<Seq<BarV>, Seq<char>>
    decreases rows.len(),
{
    if rows.len() == 0 {
        Ok(Seq::empty())
    } else {
        match sina_scan(rows.drop_last()) {
            Err(e) => Err(e),
            Ok(bs) => {
                let r = rows.last();
                match bar_stamp_spec(r.day@) {
                    Err(e) => Err("sina bad day '"@ + r.day@ + "': "@ + e),
                    Ok(t) => Ok(bs.push((t, r.open@, r.high@, r.low@, r.close@, r.volume@))),
                }
            },
        }
    }
}

proof fn lemma_sina_scan_err_sticks(rows: Seq<SinaRowText>, i: int, e: Seq<char>)
    requires
        0 <= i <= rows.len(),
        sina_scan(rows.take(i)) == Err::<Seq<BarV>, Seq<char>>(e),
    ensures
        sina_scan(rows) == Err::<Seq<BarV>, Seq<char>>(e),
    decreases rows.len() - i,
{
    if i == rows.len() {
        assert(rows.take(i) =~= rows);
    } else {
        assert(rows.take(i + 1).drop_last() =~= rows.take(i));
        lemma_sina_scan_err_sticks(rows, i + 1, e);
    }
}

/// Turns Sina quote rows into bars ordered by time (bars of equal time kept
/// in row order); a day that is neither `YYYY-MM-DD HH:MM:SS` nor
/// `YYYY-MM-DD` fails with its message.
pub fn sina_bars(rows: Vec<SinaRowText>) -> (r: Result<Vec<BarText>, Error>)
    ensures
        match sina_scan(rows@) {
            Ok(bs) => r matches Ok(out) && bar_views(out@) == sort_by_time(bs),
            Err(e) => r matches Err(Error::Data(m)) && m@ == e,
        },
        r matches Ok(out) ==> {
            &&& time_sorted(bar_views(out@))
            &&& bar_views(out@).to_multiset() == Seq::new(rows@.len(), |i: int| sina_row_bar(rows@[i])).to_multiset()
        },
{
    let ghost rs = rows@;
    let mut bars: Vec<BarText> = Vec::new();
    let mut rest = rows;
    let ghost n = rs.len();
    assert(rest@ =~= rs.skip(0));
    assert(rs.take(0) =~= Seq::<SinaRowText>::empty());
    assert(bar_views(bars@) =~= Seq::<BarV>::empty());
    while rest.len() > 0
        invariant
            n == rs.len(),
            rs == rows@,
            rest@.len() <= n,
            rest@ == rs.skip(n - rest@.len()),
            sina_scan(rs.take(n - rest@.len())) == Ok::<Seq<BarV>, Seq<char>>(bar_views(bars@)),
        decreases rest.len(),
    {
        let ghost i = n - rest@.len();
        let ghost rv = rest@;
        let row = rest.remove(0);
        proof {
            assert(row == rv[0]);
            assert(rv[0] == rs[i]);
            assert(rest@ =~= rv.drop_first());
            assert(rv.drop_first() =~= rs.skip(i + 1));
            assert(rs.take(i + 1).drop_last() =~= rs.take(i));
            assert(rs.take(i + 1).last() == rs[i]);
        }
        match bar_stamp(row.day.as_str()) {
            Err(e) => {
                let mut m = String::from_str("sina bad day '");
                push_str(&mut m, row.day.as_str());
                push_str(&mut m, "': ");
                push_str(&mut m, e.as_str());
                proof {
                    assert(rs.take(i + 1).last() == row);
                    lemma_sina_scan_err_sticks(rs, i + 1, m@);
                }
                return Err(Error::Data(m));
            },
            Ok(t) => {
                let ghost pre = bar_views(bars@);
                bars.push(BarText {
                    time: t,
                    open: row.open,
                    high: row.high,
                    low: row.low,
                    close: row.close,
                    volume: row.volume,
                });
                assert(bar_views(bars@) =~= pre.push(bars@.last()@));
            },
        }
    }
    assert(rs.take(n as int) =~= rs);
    proof {
        law_sina_rows(rs);
        law_sort_by_time(bar_views(bars@));
    }
    Ok(sort_bars_by_time(bars))
}

/// The views of strings.
pub open spec fn texts(v: Seq<String>) -> Seq<Seq<char>> {
    v.map_values(|s: String| s@)
}

/// The timestamps as integers.
pub open spec fn ints(v: Seq<i64>) -> Seq<int> {
    v.map_values(|t: i64| t as int)
}

/// The first `n` rows of a bar file checked in order: each time must read
/// as `YYYY-MM-DD HH:MM:SS`, each row must have its high at or above its low
/// (`high_ge_low`), and times must strictly increase. The times, or the
/// message for the first failing row.
pub open spec fn bar_rows_upto(times: Seq<Seq<char>>, high_ge_low: Seq<bool>, n: nat) -> Result<Seq<int>, Seq<char>>
    decreases n,
{
    if n == 0 {
        Ok(Seq::empty())
    } else {
        match bar_rows_upto(times, high_ge_low, (n - 1) as nat) {
            Err(e) => Err(e),
            Ok(ts) => match datetime_spec(times[n - 1]) {
                Err(e) => Err("bad time '"@ + times[n - 1] + "': "@ + e),
                Ok((t, shown)) => if !high_ge_low[n - 1] {
                    Err("high < low at "@ + shown)
                } else if ts.len() > 0 && t <= ts.last() {
                    Err("non-increasing time at "@ + shown)
                } else {
                    Ok(ts.push(t))
                },
            },
        }
    }
}

proof fn lemma_bar_rows_err_sticks(times: Seq<Seq<char>>, hgl: Seq<bool>, i: nat, n: nat, e: Seq<char>)
    requires
        i <= n,
        bar_rows_upto(times, hgl, i) == Err::<Seq<int>, Seq<char>>(e),
    ensures
        bar_rows_upto(times, hgl, n) == Err::<Seq<int>, Seq<char>>(e),
    decreases n - i,
{
    if i < n {
        lemma_bar_rows_err_sticks(times, hgl, i, (n - 1) as nat, e);
    }
}

/// Checks the rows of a bar file in order (see `bar_rows_upto`): the time
/// of each row and whether its high is at or above its low. Gives the times.
pub fn check_bar_rows(times: &[String], high_ge_low: &[bool]) -> (r: Result<Vec<i64>, Error>)
    requires
        times.len() == high_ge_low.len(),
    ensures
        match bar_rows_upto(texts(times@), high_ge_low@, times@.len()) {
            Ok(ts) => r matches Ok(v) && ints(v@) == ts,
            Err(e) => r matches Err(Error::Data(m)) && m@ == e,
        },
        r matches Ok(v) ==> v@.len() == times@.len()
            && forall|j: int, k: int| 0 <= j < k < v@.len() ==> v@[j] < v@[k],
{
    let ghost tv = texts(times@);
    let mut out: Vec<i64> = Vec::new();
    let mut i: usize = 0;
    assert(ints(out@) =~= Seq::<int>::empty());
    while i < times.len()
        invariant
            i <= times.len(),
            times.len() == high_ge_low.len(),
            tv == texts(times@),
            bar_rows_upto(tv, high_ge_low@, i as nat) == Ok::<Seq<int>, Seq<char>>(ints(out@)),
        decreases times.len() - i,
    {
        assert(tv[i as int] == times@[i as int]@);
        match parse_datetime(times[i].as_str()) {
            Err(e) => {
                let mut m = String::from_str("bad time '");
                push_str(&mut m, times[i].as_str());
                push_str(&mut m, "': ");
                push_str(&mut m, e.as_str());
                proof {
                    lemma_bar_rows_err_sticks(tv, high_ge_low@, (i + 1) as nat, times@.len(), m@);
                }
                return Err(Error::Data(m));
            },
            Ok((t, shown)) => {
                if !high_ge_low[i] {
                    let mut m = String::from_str("high < low at ");
                    push_str(&mut m, shown.as_str());
                    proof {
                        lemma_bar_rows_err_sticks(tv, high_ge_low@, (i + 1) as nat, times@.len(), m@);
                    }
                    return Err(Error::Data(m));
                }
                if out.len() > 0 && t <= out[out.len() - 1] {
                    let mut m = String::from_str("non-increasing time at ");
                    push_str(&mut m, shown.as_str());
                    proof {
                        assert(ints(out@).last() == out@.last() as int);
                        lemma_bar_rows_err_sticks(tv, high_ge_low@, (i + 1) as nat, times@.len(), m@);
                    }
                    return Err(Error::Data(m));
                }
                proof {
                    if out@.len() > 0 {
                        assert(ints(out@).last() == out@.last() as int);
                    }
                }
                let ghost pre = ints(out@);
                out.push(t);
                assert(ints(out@) =~= pre.push(t as int));
            },
        }
        i += 1;
    }
    proof {
        law_bar_rows(tv, high_ge_low@, times@.len());
        assert forall|j: int, k: int| 0 <= j < k < out@.len() implies out@[j] < out@[k] by {
            assert(ints(out@)[j] == out@[j] as int && ints(out@)[k] == out@[k] as int);
        }
    }
    Ok(out)
}

/// The first `n` rows of a news file checked in order: each time must read
/// as `YYYY-MM-DD HH:MM:SS` and times must not go back (equal times are
/// allowed). The times, or the message for the first failing row.
pub open spec fn news_times_upto(times: Seq<Seq<char>>, n: nat) -> Result<Seq<int>, Seq<char>>
    decreases n,
{
    if n == 0 {
        Ok(Seq::empty())
    } else {
        match news_times_upto(times, (n - 1) as nat) {
            Err(e) => Err(e),
            Ok(ts) => match datetime_spec(times[n - 1]) {
                Err(e) => Err("bad news time '"@ + times[n - 1] + "': "@ + e),
                Ok((t, shown)) => if ts.len() > 0 && t < ts.last() {
                    Err("news time out of order at "@ + shown)
                } else {
                    Ok(ts.push(t))
                },
            },
        }
    }
}

proof fn lemma_news_err_sticks(times: Seq<Seq<char>>, i: nat, n: nat, e: Seq<char>)
    requires
        i <= n,
        news_times_upto(times, i) == Err::<Seq<int>, Seq<char>>(e),
    ensures
        news_times_upto(times, n) == Err::<Seq<int>, Seq<char>>(e),
    decreases n - i,
{
    if i < n {
        lemma_news_err_sticks(times, i, (n - 1) as nat, e);
    }
}

/// Checks the times of a news file in order (see `news_times_upto`).
pub fn check_news_times(times: &[String]) -> (r: Result<Vec<i64>, Error>)
    ensures
        match news_times_upto(texts(times@), times@.len()) {
            Ok(ts) => r matches Ok(v) && ints(v@) == ts,
            Err(e) => r matches Err(Error::Data(m)) && m@ == e,
        },
        r matches Ok(v) ==> v@.len() == times@.len()
            && forall|j: int, k: int| 0 <= j < k < v@.len() ==> v@[j] <= v@[k],
{
    let ghost tv = texts(times@);
    let mut out: Vec<i64> = Vec::new();
    let mut i: usize = 0;
    assert(ints(out@) =~= Seq::<int>::empty());
    while i < times.len()
        invariant
            i <= times.len(),
            tv == texts(times@),
            news_times_upto(tv, i as nat) == Ok::<Seq<int>, Seq<char>>(ints(out@)),
        decreases times.len() - i,
    {
        assert(tv[i as int] == times@[i as int]@);
        match parse_datetime(times[i].as_str()) {
            Err(e) => {
                let mut m = String::from_str("bad news time '");
                push_str(&mut m, times[i].as_str());
                push_str(&mut m, "': ");
                push_str(&mut m, e.as_str());
                proof {
                    lemma_news_err_sticks(tv, (i + 1) as nat, times@.len(), m@);
                }
                return Err(Error::Data(m));
            },
            Ok((t, shown)) => {
                if out.len() > 0 && t < out[out.len() - 1] {
                    let mut m = String::from_str("news time out of order at ");
                    push_str(&mut m, shown.as_str());
                    proof {
                        assert(ints(out@).last() == out@.last() as int);
                        lemma_news_err_sticks(tv, (i + 1) as nat, times@.len(), m@);
                    }
                    return Err(Error::Data(m));
                }
                proof {
                    if out@.len() > 0 {
                        assert(ints(out@).last() == out@.last() as int);
                    }
                }
                let ghost pre = ints(out@);
                out.push(t);
                assert(ints(out@) =~= pre.push(t as int));
            },
        }
        i += 1;
    }
    proof {
        law_news_times(tv, times@.len());
        assert forall|j: int, k: int| 0 <= j < k < out@.len() implies out@[j] <= out@[k] by {
            assert(ints(out@)[j] == out@[j] as int && ints(out@)[k] == out@[k] as int);
        }
    }
    Ok(out)
}

/// The timestamp a time text reads as.
pub open spec fn stamp_of(s: Seq<char>) -> int {
    match datetime_spec(s) {
        Ok((t, _)) => t,
        Err(_) => 0,
    }
}

/// The first `n` bar rows are good: every time reads, every high is at or
/// above its low, and the times strictly increase.
pub open spec fn bar_rows_valid(times: Seq<Seq<char>>, high_ge_low: Seq<bool>, n: int) -> bool {
    &&& forall|k: int| 0 <= k < n ==> (#[trigger] datetime_spec(times[k])) is Ok && high_ge_low[k]
    &&& forall|j: int, k: int| 0 <= j < k < n ==> stamp_of(#[trigger] times[j]) < stamp_of(#[trigger] times[k])
}

/// Law: bar rows are accepted exactly when every time reads, no high is
/// below its low and the times strictly increase; the times returned are the
/// rows' times, one per row, in strictly increasing order.
pub proof fn law_bar_rows(times: Seq<Seq<char>>, high_ge_low: Seq<bool>, n: nat)
    requires
        n <= times.len(),
        n <= high_ge_low.len(),
    ensures
        bar_rows_upto(times, high_ge_low, n) is Ok <==> bar_rows_valid(times, high_ge_low, n as int),
        bar_rows_upto(times, high_ge_low, n) is Ok ==> ({
            let ts = bar_rows_upto(times, high_ge_low, n)->Ok_0;
            &&& ts.len() == n
            &&& forall|k: int| 0 <= k < n ==> ts[k] == stamp_of(#[trigger] times[k])
            &&& forall|j: int, k: int| 0 <= j < k < n ==> #[trigger] ts[j] < #[trigger] ts[k]
        }),
    decreases n,
{
    if n > 0 {
        let m = (n - 1) as nat;
        law_bar_rows(times, high_ge_low, m);
        if bar_rows_valid(times, high_ge_low, n as int) {
            assert(bar_rows_valid(times, high_ge_low, m as int));
            assert(datetime_spec(times[m as int]) is Ok && high_ge_low[m as int]);
            let ts = bar_rows_upto(times, high_ge_low, m)->Ok_0;
            if m > 0 {
                assert(ts.last() == ts[m - 1]);
                assert(stamp_of(times[m - 1]) < stamp_of(times[m as int]));
            }
        }
        if bar_rows_upto(times, high_ge_low, n) is Ok {
            let ts = bar_rows_upto(times, high_ge_low, m)->Ok_0;
            let ts2 = bar_rows_upto(times, high_ge_low, n)->Ok_0;
            assert(datetime_spec(times[m as int]) is Ok && high_ge_low[m as int]);
            assert(ts2 == ts.push(stamp_of(times[m as int])));
            assert forall|j: int, k: int| 0 <= j < k < n implies #[trigger] ts2[j] < #[trigger] ts2[k] by {
                if k == m && m > 0 {
                    assert(ts.last() == ts[m - 1]);
                    if j < m - 1 {
                        assert(ts[j] < ts[m - 1]);
                    }
                }
            }
            assert forall|k: int| 0 <= k < n implies (#[trigger] datetime_spec(times[k])) is Ok && high_ge_low[k] by {
                if k < m {
                    assert(bar_rows_valid(times, high_ge_low, m as int));
                }
            }
            assert forall|j: int, k: int| 0 <= j < k < n implies stamp_of(#[trigger] times[j]) < stamp_of(#[trigger] times[k]) by {
                assert(ts2[j] == stamp_of(times[j]));
                assert(ts2[k] == stamp_of(times[k]));
                assert(ts2[j] < ts2[k]);
            }
        }
    }
}

/// The first `n` news times are good: every time reads and none goes back.
pub open spec fn news_times_valid(times: Seq<Seq<char>>, n: int) -> bool {
    &&& forall|k: int| 0 <= k < n ==> (#[trigger] datetime_spec(times[k])) is Ok
    &&& forall|j: int, k: int| 0 <= j < k < n ==> stamp_of(#[trigger] times[j]) <= stamp_of(#[trigger] times[k])
}

/// Law: news times are accepted exactly when every time reads and none goes
/// back (equal times allowed); the times returned are the rows' times, in
/// non-decreasing order.
pub proof fn law_news_times(times: Seq<Seq<char>>, n: nat)
    requires
        n <= times.len(),
    ensures
        news_times_upto(times, n) is Ok <==> news_times_valid(times, n as int),
        news_times_upto(times, n) is Ok ==> ({
            let ts = news_times_upto(times, n)->Ok_0;
            &&& ts.len() == n
            &&& forall|k: int| 0 <= k < n ==> ts[k] == stamp_of(#[trigger] times[k])
            &&& forall|j: int, k: int| 0 <= j < k < n ==> #[trigger] ts[j] <= #[trigger] ts[k]
        }),
    decreases n,
{
    if n > 0 {
        let m = (n - 1) as nat;
        law_news_times(times, m);
        if news_times_valid(times, n as int) {
            assert(news_times_valid(times, m as int));
            assert(datetime_spec(times[m as int]) is Ok);
            let ts = news_times_upto(times, m)->Ok_0;
            if m > 0 {
                assert(ts.last() == ts[m - 1]);
                assert(stamp_of(times[m - 1]) <= stamp_of(times[m as int]));
            }
        }
        if news_times_upto(times, n) is Ok {
            let ts = news_times_upto(times, m)->Ok_0;
            let ts2 = news_times_upto(times, n)->Ok_0;
            assert(datetime_spec(times[m as int]) is Ok);
            assert(ts2 == ts.push(stamp_of(times[m as int])));
            assert forall|j: int, k: int| 0 <= j < k < n implies #[trigger] ts2[j] <= #[trigger] ts2[k] by {
                if k == m && m > 0 {
                    assert(ts.last() == ts[m - 1]);
                    if j < m - 1 {
                        assert(ts[j] <= ts[m - 1]);
                    }
                }
            }
            assert forall|k: int| 0 <= k < n implies (#[trigger] datetime_spec(times[k])) is Ok by {
                if k < m {
                    assert(news_times_valid(times, m as int));
                }
            }
            assert forall|j: int, k: int| 0 <= j < k < n implies stamp_of(#[trigger] times[j]) <= stamp_of(#[trigger] times[k]) by {
                assert(ts2[j] == stamp_of(times[j]));
                assert(ts2[k] == stamp_of(times[k]));
                assert(ts2[j] <= ts2[k]);
            }
        }
    }
}

/// Bars in non-decreasing time order.
pub open spec fn time_sorted(s: Seq<BarV>) -> bool {
    forall|i: int, j: int| 0 <= i < j < s.len() ==> (#[trigger] s[i]).0 <= (#[trigger] s[j]).0
}

proof fn lemma_insert_by_time(s: Seq<BarV>, x: BarV)
    requires
        time_sorted(s),
    ensures
        time_sorted(insert_by_time(s, x)),
        insert_by_time(s, x).len() == s.len() + 1,
        insert_by_time(s, x).to_multiset() == s.to_multiset().insert(x),
        forall|k: int| 0 <= k < insert_by_time(s, x).len() ==> (#[trigger] insert_by_time(s, x)[k]).0
            <= (if s.len() > 0 && s.last().0 > x.0 { s.last().0 } else { x.0 }),
    decreases s.len(),
{
    broadcast use vstd::seq_lib::group_to_multiset_ensures;
    let r = insert_by_time(s, x);
    if s.len() == 0 {
        assert(r == seq![x]);
        assert(seq![x] =~= Seq::<BarV>::empty().push(x));
        assert(s =~= Seq::<BarV>::empty());
    } else if s.last().0 <= x.0 {
        assert(r == s.push(x));
        assert forall|i: int, j: int| 0 <= i < j < r.len() implies (#[trigger] r[i]).0 <= (#[trigger] r[j]).0 by {
            if j == s.len() {
                assert(s[i].0 <= s.last().0);
            }
        }
        assert forall|k: int| 0 <= k < r.len() implies (#[trigger] r[k]).0 <= x.0 by {
            if k < s.len() {
                assert(s[k].0 <= s.last().0);
            }
        }
    } else {
        let d = s.drop_last();
        assert(time_sorted(d)) by {
            assert forall|i: int, j: int| 0 <= i < j < d.len() implies (#[trigger] d[i]).0 <= (#[trigger] d[j]).0 by {
                assert(d[i] == s[i] && d[j] == s[j]);
            }
        }
        lemma_insert_by_time(d, x);
        let r0 = insert_by_time(d, x);
        assert(r == r0.push(s.last()));
        if d.len() > 0 {
            assert(d.last() == s[s.len() - 2]);
            assert(d.last().0 <= s.last().0);
        }
        assert forall|i: int, j: int| 0 <= i < j < r.len() implies (#[trigger] r[i]).0 <= (#[trigger] r[j]).0 by {
            if j == r0.len() {
                assert(r0[i].0 <= (if d.len() > 0 && d.last().0 > x.0 { d.last().0 } else { x.0 }));
            } else {
                assert(r[i] == r0[i] && r[j] == r0[j]);
            }
        }
        assert forall|k: int| 0 <= k < r.len() implies (#[trigger] r[k]).0 <= s.last().0 by {
            if k < r0.len() {
                assert(r[k] == r0[k]);
            }
        }
        assert(s =~= d.push(s.last()));
        assert(r.to_multiset() =~= s.to_multiset().insert(x));
    }
}

/// Law: sorting by time gives the same bars, each as often as before, in
/// non-decreasing time order.
pub proof fn law_sort_by_time(s: Seq<BarV>)
    ensures
        time_sorted(sort_by_time(s)),
        sort_by_time(s).len() == s.len(),
        sort_by_time(s).to_multiset() == s.to_multiset(),
    decreases s.len(),
{
    broadcast use vstd::seq_lib::group_to_multiset_ensures;
    if s.len() > 0 {
        law_sort_by_time(s.drop_last());
        lemma_insert_by_time(sort_by_time(s.drop_last()), s.last());
        assert(s =~= s.drop_last().push(s.last()));
    }
}

/// The bar of a Sina row whose day reads: its time and its own prices.
pub open spec fn sina_row_bar(r: SinaRowText) -> BarV {
    let t = match bar_stamp_spec(r.day@) {
        Ok(t) => t,
        Err(_) => 0,
    };
    (t, r.open@, r.high@, r.low@, r.close@, r.volume@)
}

/// Law: Sina rows are accepted exactly when every row's day reads; then
/// each row gives one bar carrying that row's time and, field for field,
/// its own open, high, low, close and volume.
pub proof fn law_sina_rows(rows: Seq<SinaRowText>)
    ensures
        sina_scan(rows) is Ok <==> forall|i: int| 0 <= i < rows.len() ==> bar_stamp_spec((#[trigger] rows[i]).day@) is Ok,
        sina_scan(rows) is Ok ==> sina_scan(rows)->Ok_0 == Seq::new(rows.len(), |i: int| sina_row_bar(rows[i])),
    decreases rows.len(),
{
    if rows.len() > 0 {
        let d = rows.drop_last();
        law_sina_rows(d);
        if forall|i: int| 0 <= i < rows.len() ==> bar_stamp_spec((#[trigger] rows[i]).day@) is Ok {
            assert forall|i: int| 0 <= i < d.len() implies bar_stamp_spec((#[trigger] d[i]).day@) is Ok by {
                assert(d[i] == rows[i]);
            }
            assert(rows.last() == rows[rows.len() - 1]);
        }
        if sina_scan(rows) is Ok {
            assert(sina_scan(d) is Ok);
            assert forall|i: int| 0 <= i < rows.len() implies bar_stamp_spec((#[trigger] rows[i]).day@) is Ok by {
                if i < d.len() {
                    assert(d[i] == rows[i]);
                } else {
                    assert(rows.last() == rows[i]);
                }
            }
            let bs = sina_scan(d)->Ok_0;
            assert(sina_scan(rows)->Ok_0 =~= Seq::new(rows.len(), |i: int| sina_row_bar(rows[i]))) by {
                assert forall|i: int| 0 <= i < d.len() implies bs[i] == sina_row_bar(rows[i]) by {
                    assert(d[i] == rows[i]);
                }
            }
        }
    }
}

} // verus!
