//! The screener's as-of bar: the bar time a screen is run at.
use vstd::prelude::*;
use crate::data::time::{date, date_of};
use crate::error::Error;
use crate::text::{decimal, push_str, u64_to_decimal};

verus! {

/// The text chrono's `NaiveDate` display gives for a day number: `YYYY-MM-DD`
/// for years 0 to 9999, with a sign and more year digits outside them;
/// `None` outside chrono's date range.
pub uninterp spec fn ymd_text(d: int) -> Option<Seq<char>>;

/// Formats a day number as chrono's `NaiveDate` displays it
/// (`NaiveDate::from_num_days_from_ce_opt`, then `to_string`); `None` when the
/// day is outside chrono's date range. The text itself is named, not restated.
#[verifier::external_body]
pub(crate) fn format_day(d: i32) -> (r: Option<String>)
    ensures
        match r {
            Some(s) => ymd_text(d as int) == Some(s@),
            None => ymd_text(d as int) is None,
        },
{
    match chrono::NaiveDate::from_num_days_from_ce_opt(d) {
        Some(x) => Some(x.to_string()),
        None => None,
    }
}

/// How a day is shown in messages: chrono's date text, or the day number
/// when chrono cannot show it.
pub open spec fn day_shown(d: int) -> Seq<char> {
    match ymd_text(d) {
        Some(t) => t,
        None => if d >= 0 { decimal(d as nat) } else { "-"@ + decimal((-d) as nat) },
    }
}

/// The text of a day for messages (see `day_shown`).
pub fn show_day(d: i32) -> (s: String)
    ensures
        s@ == day_shown(d as int),
{
    match format_day(d) {
        Some(t) => t,
        None => {
            if d >= 0 {
                u64_to_decimal(d as u64)
            } else {
                let mut m = String::from_str("-");
                let t = u64_to_decimal((-(d as i64)) as u64);
                push_str(&mut m, t.as_str());
                proof {
                    reveal_strlit("-");
                }
                m
            }
        },
    }
}

/// Index of the last time whose day is on or before `day` (-1 when none).
pub open spec fn last_on_or_before(tl: Seq<i64>, day: int) -> int
    decreases tl.len(),
{
    if tl.len() == 0 {
        -1
    } else if date_of(tl.last() as int) <= day {
        tl.len() - 1
    } else {
        last_on_or_before(tl.drop_last(), day)
    }
}

/// The message for a day with no bar on or before it.
pub open spec fn no_bar_message(day: int) -> Seq<char> {
    let shown = match ymd_text(day) {
        Some(t) => t,
        None => if day >= 0 { decimal(day as nat) } else { "-"@ + decimal((-day) as nat) },
    };
    "screen: no bar on/before "@ + shown
}

/// Chooses the bar time to screen at: the last time of the timeline, or with
/// an as-of day the last time (by position) whose day is on or before it.
/// A day outside chrono's date range is shown by its number in the message.
pub fn pick_as_of(timeline: &[i64], as_of: Option<i32>) -> (r: Result<i64, Error>)
    ensures
        timeline@.len() == 0 ==> (r matches Err(Error::Data(m)) && m@ == "screen: empty timeline"@),
        timeline@.len() > 0 ==> match as_of {
            None => r == Ok::<i64, Error>(timeline@.last()),
            Some(d) => {
                let i = last_on_or_before(timeline@, d as int);
                if i >= 0 {
                    r == Ok::<i64, Error>(timeline@[i])
                } else {
                    r matches Err(Error::Data(m)) && m@ == no_bar_message(d as int)
                }
            },
        },
{
    if timeline.len() == 0 {
        return Err(Error::Data(String::from_str("screen: empty timeline")));
    }
    match as_of {
        None => Ok(timeline[timeline.len() - 1]),
        Some(d) => {
            let mut n: usize = timeline.len();
            assert(timeline@.take(n as int) =~= timeline@);
            while n > 0 && date(timeline[n - 1]) > d as i64
                invariant
                    n <= timeline.len(),
                    last_on_or_before(timeline@.take(n as int), d as int) == last_on_or_before(timeline@, d as int),
                decreases n,
            {
                assert(timeline@.take(n as int).drop_last() =~= timeline@.take(n - 1));
                n -= 1;
            }
            if n > 0 {
                assert(last_on_or_before(timeline@.take(n as int), d as int) == n - 1);
                Ok(timeline[n - 1])
            } else {
                let mut msg = String::from_str("screen: no bar on/before ");
                match format_day(d) {
                    Some(t) => push_str(&mut msg, t.as_str()),
                    None => {
                        if d >= 0 {
                            let t = u64_to_decimal(d as u64);
                            push_str(&mut msg, t.as_str());
                        } else {
                            push_str(&mut msg, "-");
                            let t = u64_to_decimal((-(d as i64)) as u64);
                            push_str(&mut msg, t.as_str());
                        }
                    },
                }
                Err(Error::Data(msg))
            }
        },
    }
}

} // verus!
