//! The time model. A calendar day is its day number counted from the common
//! era (0001-01-01 is day 1, a Monday); a timestamp is
//! `day * 86400 + seconds since midnight`, to the second.
use vstd::prelude::*;

verus! {

/// Seconds in a day.
pub const SECS_PER_DAY: i64 = 86400;

/// The day of a timestamp.
pub open spec fn date_of(t: int) -> int {
    t / 86400
}

/// Seconds since midnight of a timestamp.
pub open spec fn secs_of_day(t: int) -> int {
    t % 86400
}

/// Day of the week, 0 = Monday ... 6 = Sunday (day 1 is a Monday).
pub open spec fn weekday(d: int) -> int {
    (d + 6) % 7
}

/// Timestamp of a day and a time of day.
pub open spec fn timestamp(d: int, secs: int) -> int {
    d * 86400 + secs
}

/// The day of a timestamp (floor division, also before the era).
pub fn date(t: i64) -> (d: i64)
    ensures
        d == date_of(t as int),
{
    if t >= 0 {
        t / 86400
    } else {
        -((-(t + 1)) / 86400) - 1
    }
}

/// Seconds since midnight of a timestamp, in `0..86400`.
pub fn time_of_day(t: i64) -> (s: i64)
    ensures
        s == secs_of_day(t as int),
        0 <= s < 86400,
{
    let d = date(t);
    assert(t - d * 86400 == (t as int) % 86400 && 0 <= (t as int) % 86400 < 86400) by (nonlinear_arith)
        requires
            d == (t as int) / 86400,
    ;
    ((t as i128) - (d as i128) * 86400) as i64
}

/// Day of the week of a day number, 0 = Monday ... 6 = Sunday.
pub fn day_of_week(d: i64) -> (w: i64)
    ensures
        w == weekday(d as int),
        0 <= w < 7,
{
    let x = d as i128 + 6;
    let w = if x >= 0 { x % 7 } else { 6 - ((-(x + 1)) % 7) };
    w as i64
}

} // verus!
