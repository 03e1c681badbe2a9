//! The A-share T+1 rule of the position simulator: a position raised on a
//! calendar day cannot be cut on that same day; the cut waits a step.
use vstd::prelude::*;
use crate::data::time::{date, date_of};

verus! {

/// Whether a reducing (or flipping) target must wait: the position was last
/// raised on the day of the execution time.
pub fn defer_reduction(reduces: bool, last_increase_day: Option<i64>, exec_time: i64) -> (defer: bool)
    ensures
        defer == (reduces && last_increase_day == Some(date_of(exec_time as int) as i64)),
{
    match last_increase_day {
        Some(d) => reduces && d == date(exec_time),
        None => false,
    }
}

/// The day the position was last raised after a step: the execution day
/// when the step opens or adds to a position, unchanged otherwise.
pub fn next_increase_day(opens_or_adds: bool, last_increase_day: Option<i64>, exec_time: i64) -> (d: Option<i64>)
    ensures
        d == (if opens_or_adds { Some(date_of(exec_time as int) as i64) } else { last_increase_day }),
{
    if opens_or_adds {
        Some(date(exec_time))
    } else {
        last_increase_day
    }
}

} // verus!
