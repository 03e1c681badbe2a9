//! The time profile of a bar series: its span, whether its times strictly
//! increase, and how many trading days are missing against the calendar.
use vstd::prelude::*;
use crate::backtest::gaps::{detect_gaps, gaps_spec};
use crate::data::calendar::AShareCalendar;

verus! {

/// The non-price part of a series' quality profile.
#[derive(Debug)]
pub struct TimeProfile {
    pub n_bars: usize,
    /// First bar time (0 for an empty series).
    pub first: i64,
    /// Last bar time (0 for an empty series).
    pub last: i64,
    /// No repeated and no backward time.
    pub strictly_increasing: bool,
    /// Trading days missing between the first and the last bar day.
    pub calendar_gaps: usize,
}

/// Each time is later than the one before it.
pub open spec fn strictly_increasing(ts: Seq<i64>) -> bool {
    forall|i: int| 0 <= i < ts.len() - 1 ==> #[trigger] ts[i] < ts[i + 1]
}

/// Profiles the times of a bar series against the calendar; an empty series
/// gets zero times and no gaps.
pub fn time_profile(times: &[i64], calendar: &AShareCalendar) -> (p: TimeProfile)
    ensures
        p.n_bars == times@.len(),
        times@.len() == 0 ==> p.first == 0 && p.last == 0 && p.strictly_increasing && p.calendar_gaps == 0,
        times@.len() > 0 ==> {
            &&& p.first == times@[0]
            &&& p.last == times@.last()
            &&& p.strictly_increasing == strictly_increasing(times@)
            &&& p.calendar_gaps == gaps_spec(times@, *calendar).0.len()
        },
{
    if times.len() == 0 {
        return TimeProfile { n_bars: 0, first: 0, last: 0, strictly_increasing: true, calendar_gaps: 0 };
    }
    let mut inc = true;
    let mut i: usize = 0;
    while i + 1 < times.len()
        invariant
            i + 1 <= times.len(),
            inc == forall|k: int| 0 <= k < i ==> #[trigger] times@[k] < times@[k + 1],
        decreases times.len() - i,
    {
        if times[i + 1] <= times[i] {
            inc = false;
        }
        i += 1;
    }
    let gaps = detect_gaps(times, calendar);
    TimeProfile {
        n_bars: times.len(),
        first: times[0],
        last: times[times.len() - 1],
        strictly_increasing: inc,
        calendar_gaps: gaps.missing_trading_days.len(),
    }
}

} // verus!
