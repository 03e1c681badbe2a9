//! Reading wall-clock times into the library's timestamps: full date-times,
//! and bare dates of daily bars, which are taken at the 15:00 close.
use vstd::prelude::*;
use crate::data::calendar::{parse_ymd, ymd_parse};
use crate::data::time::{date_of, secs_of_day, timestamp};
use crate::screen::asof::{day_shown, show_day};
use crate::text::push_str;

verus! {

/// What chrono's `NaiveDateTime::parse_from_str(s, "%Y-%m-%d %H:%M:%S")`
/// gives for `s`: the day number (`num_days_from_ce`), the seconds since
/// midnight (`num_seconds_from_midnight`) and the date-time's display text;
/// or the text of the parse error.
pub uninterp spec fn ymd_hms_parse(s: Seq<char>) -> Result<(int, int, Seq<char>), Seq<char>>;

/// Parses `YYYY-MM-DD HH:MM:SS` with chrono (`NaiveDateTime::parse_from_str`),
/// giving the day number, the seconds since midnight (below 86400, as
/// chrono's `num_seconds_from_midnight` documents) and the `Display` text, or
/// the error's message. The parse itself is named, not restated.
#[verifier::external_body]
pub(crate) fn parse_ymd_hms(s: &str) -> (r: Result<(i32, u32, String), String>)
    ensures
        match r {
            Ok((d, secs, shown)) => {
                &&& ymd_hms_parse(s@) == Ok::<(int, int, Seq<char>), Seq<char>>((d as int, secs as int, shown@))
                &&& secs < 86400
            },
            Err(e) => ymd_hms_parse(s@) == Err::<(int, int, Seq<char>), Seq<char>>(e@),
        },
{
    match chrono::NaiveDateTime::parse_from_str(s, "%Y-%m-%d %H:%M:%S") {
        Ok(t) => Ok((
            chrono::Datelike::num_days_from_ce(&t.date()),
            chrono::Timelike::num_seconds_from_midnight(&t.time()),
            t.to_string(),
        )),
        Err(e) => Err(e.to_string()),
    }
}

/// The timestamp of a full date-time text and how it is shown, or chrono's
/// error message.
pub open spec fn datetime_spec(s: Seq<char>) -> Result<(int, Seq<char>), Seq<char>> {
    match ymd_hms_parse(s) {
        Ok((d, secs, shown)) => Ok((timestamp(d, secs), shown)),
        Err(e) => Err(e),
    }
}

/// Reads a `YYYY-MM-DD HH:MM:SS` time: its timestamp and its display text.
pub fn parse_datetime(s: &str) -> (r: Result<(i64, String), String>)
    ensures
        match datetime_spec(s@) {
            Ok((t, shown)) => r matches Ok((t2, sh)) && t2 == t && sh@ == shown,
            Err(e) => r matches Err(m) && m@ == e,
        },
{
    match parse_ymd_hms(s) {
        Ok((d, secs, shown)) => Ok((d as i64 * 86400 + secs as i64, shown)),
        Err(e) => Err(e),
    }
}

/// The time of a quote row: a full date-time as written, or a bare date at
/// its 15:00 close (so that a daily bar is not seen before the close); the
/// date parser's message when neither reads.
pub open spec fn bar_stamp_spec(s: Seq<char>) -> Result<int, Seq<char>> {
    match ymd_hms_parse(s) {
        Ok((d, secs, _)) => Ok(timestamp(d, secs)),
        Err(_) => match ymd_parse(s) {
            Ok(d) => Ok(timestamp(d, 54000int)),
            Err(e) => Err(e),
        },
    }
}

/// Reads the time of a quote row (see `bar_stamp_spec`).
pub fn bar_stamp(day: &str) -> (r: Result<i64, String>)
    ensures
        match bar_stamp_spec(day@) {
            Ok(t) => r matches Ok(t2) && t2 == t,
            Err(e) => r matches Err(m) && m@ == e,
        },
{
    match parse_ymd_hms(day) {
        Ok((d, secs, _)) => Ok(d as i64 * 86400 + secs as i64),
        Err(_) => match parse_ymd(day) {
            Ok(d) => Ok(d as i64 * 86400 + 15 * 3600),
            Err(e) => Err(e),
        },
    }
}

/// The time of an aux table row: a full date-time, or a bare date at
/// midnight, with its display text; `None` when neither reads.
pub open spec fn aux_time_spec(s: Seq<char>) -> Option<(int, Seq<char>)> {
    match ymd_hms_parse(s) {
        Ok((d, secs, shown)) => Some((timestamp(d, secs), shown)),
        Err(_) => match ymd_parse(s) {
            Ok(d) => Some((timestamp(d, 0), day_shown(d) + " 00:00:00"@)),
            Err(_) => None,
        },
    }
}

/// Reads the time of an aux table row (see `aux_time_spec`).
pub fn aux_time(s: &str) -> (r: Option<(i64, String)>)
    ensures
        match aux_time_spec(s@) {
            Some((t, shown)) => r matches Some((t2, sh)) && t2 == t && sh@ == shown,
            None => r is None,
        },
{
    match parse_ymd_hms(s) {
        Ok((d, secs, shown)) => Some((d as i64 * 86400 + secs as i64, shown)),
        Err(_) => match parse_ymd(s) {
            Ok(d) => {
                let mut shown = show_day(d);
                push_str(&mut shown, " 00:00:00");
                Some((d as i64 * 86400, shown))
            },
            Err(_) => None,
        },
    }
}

/// Law: a quote row's time keeps its day and, for a full date-time, its
/// clock time; a bare date is stamped at 15:00 on that same day, so a daily
/// bar is never seen before the close.
pub proof fn law_bar_stamp(s: Seq<char>)
    ensures
        ymd_hms_parse(s) is Ok && 0 <= ymd_hms_parse(s)->Ok_0.1 < 86400 ==> ({
            let (d, secs, _) = ymd_hms_parse(s)->Ok_0;
            &&& bar_stamp_spec(s) is Ok
            &&& date_of(bar_stamp_spec(s)->Ok_0) == d
            &&& secs_of_day(bar_stamp_spec(s)->Ok_0) == secs
        }),
        ymd_hms_parse(s) is Err && ymd_parse(s) is Ok ==> ({
            &&& bar_stamp_spec(s) is Ok
            &&& date_of(bar_stamp_spec(s)->Ok_0) == ymd_parse(s)->Ok_0
            &&& secs_of_day(bar_stamp_spec(s)->Ok_0) == 15 * 3600
        }),
        ymd_hms_parse(s) is Err && ymd_parse(s) is Err ==> bar_stamp_spec(s) is Err,
{
    match ymd_hms_parse(s) {
        Ok((d, secs, _)) => {
            if 0 <= secs < 86400 {
                assert((d * 86400 + secs) / 86400 == d && (d * 86400 + secs) % 86400 == secs) by (nonlinear_arith)
                    requires 0 <= secs < 86400;
            }
        },
        Err(_) => {
            match ymd_parse(s) {
                Ok(d) => {
                    assert((d * 86400 + 54000) / 86400 == d && (d * 86400 + 54000) % 86400 == 54000) by (nonlinear_arith);
                },
                Err(_) => {},
            }
        },
    }
}

} // verus!
