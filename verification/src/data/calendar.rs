//! The A-share trading calendar: weekdays that are not holidays are trading
//! days; sessions run 09:30-11:30 and 13:00-15:00. A bar whose closing time
//! lies in `(start, end]` of a session is in session (the first 15-minute bar
//! closes at 09:45, the last at 15:00).
use vstd::prelude::*;
use crate::data::time::{date, date_of, day_of_week, secs_of_day, time_of_day, weekday};
use crate::text::{chars_of, find_char_from, push_str, split_from, string_from_chars, string_from_range, trim, trim_chars};

verus! {

/// The A-share calendar, given by its holiday list.
pub struct AShareCalendar {
    holidays: Vec<i64>,
}

/// 09:30:00 in seconds since midnight.
pub open spec fn am_start() -> int { 34200 }
/// 11:30:00.
pub open spec fn am_end() -> int { 41400 }
/// 13:00:00.
pub open spec fn pm_start() -> int { 46800 }
/// 15:00:00.
pub open spec fn pm_end() -> int { 54000 }

impl AShareCalendar {
    /// The holidays, as day numbers.
    pub closed spec fn holidays(&self) -> Set<int> {
        Set::new(|d: int| exists|i: int| 0 <= i < self.holidays@.len() && self.holidays@[i] == d)
    }

    /// Trading day: Monday to Friday and not a holiday.
    pub open spec fn trading(&self, d: int) -> bool {
        weekday(d) < 5 && !self.holidays().contains(d)
    }

    /// Whether a timestamp falls in a trading session of a trading day.
    pub open spec fn session(&self, t: int) -> bool {
        let s = secs_of_day(t);
        self.trading(date_of(t)) && ((am_start() < s && s <= am_end()) || (pm_start() < s && s
            <= pm_end()))
    }

    /// A calendar with the given holidays (day numbers).
    pub fn new(holidays: Vec<i64>) -> (c: Self)
        ensures
            forall|d: int| #[trigger] c.holidays().contains(d) <==> holidays@.contains(d as i64) && i64::MIN <= d <= i64::MAX,
    {
        AShareCalendar { holidays }
    }

    /// Monday to Friday and not a holiday.
    pub fn is_trading_day(&self, d: i64) -> (b: bool)
        ensures
            b == self.trading(d as int),
    {
        let w = day_of_week(d);
        if w >= 5 {
            return false;
        }
        let mut i: usize = 0;
        while i < self.holidays.len()
            invariant
                i <= self.holidays.len(),
                forall|k: int| 0 <= k < i ==> self.holidays@[k] != d,
            decreases self.holidays.len() - i,
        {
            if self.holidays[i] == d {
                assert(self.holidays().contains(d as int));
                return false;
            }
            i += 1;
        }
        assert(!self.holidays().contains(d as int));
        true
    }

    /// The bar closing at `t` lies in a session of a trading day.
    pub fn in_session(&self, t: i64) -> (b: bool)
        ensures
            b == self.session(t as int),
    {
        if !self.is_trading_day(date(t)) {
            return false;
        }
        let s = time_of_day(t);
        (s > 9 * 3600 + 30 * 60 && s <= 11 * 3600 + 30 * 60) || (s > 13 * 3600 && s <= 15 * 3600)
    }
}

/// What chrono's `NaiveDate::parse_from_str(s, "%Y-%m-%d")` gives for `s`: the
/// day number of the date, or the text of the parse error.
pub uninterp spec fn ymd_parse(s: Seq<char>) -> Result<int, Seq<char>>;

/// Parses a `YYYY-MM-DD` date with chrono (`NaiveDate::parse_from_str` with the
/// format `"%Y-%m-%d"`), giving its day number (`num_days_from_ce`) or the
/// error's message. The contract only names the result: chrono's parser is
/// not restated here.
#[verifier::external_body]
pub(crate) fn parse_ymd(s: &str) -> (r: Result<i32, String>)
    ensures
        match r {
            Ok(d) => ymd_parse(s@) == Ok::<int, Seq<char>>(d as int),
            Err(e) => ymd_parse(s@) == Err::<int, Seq<char>>(e@),
        },
{
    match chrono::NaiveDate::parse_from_str(s, "%Y-%m-%d") {
        Ok(d) => Ok(chrono::Datelike::num_days_from_ce(&d)),
        Err(e) => Err(e.to_string()),
    }
}

/// Whether a (trimmed) holiday-file line carries no date: empty or a `#` comment.
pub open spec fn skipped_line(t: Seq<char>) -> bool {
    t.len() == 0 || t[0] == '#'
}

/// The holiday file's lines read in order: the distinct days in order of first
/// appearance, or the message for the first line that is not a date.
pub open spec fn holidays_of(lines: Seq<Seq<char>>) -> Result<Seq<int>, Seq<char>>
    decreases lines.len(),
{
    if lines.len() == 0 {
        Ok(Seq::empty())
    } else {
        match holidays_of(lines.drop_last()) {
            Err(e) => Err(e),
            Ok(days) => {
                let t = trim(lines.last());
                if skipped_line(t) {
                    Ok(days)
                } else {
                    match ymd_parse(t) {
                        Err(e) => Err("bad holiday '"@ + t + "': "@ + e),
                        Ok(d) => if days.contains(d) { Ok(days) } else { Ok(days.push(d)) },
                    }
                }
            }
        }
    }
}

proof fn lemma_holidays_err_sticks(a: Seq<Seq<char>>, b: Seq<Seq<char>>, e: Seq<char>)
    requires
        holidays_of(a) == Err::<Seq<int>, Seq<char>>(e),
    ensures
        holidays_of(a + b) == Err::<Seq<int>, Seq<char>>(e),
    decreases b.len(),
{
    if b.len() == 0 {
        assert(a + b =~= a);
    } else {
        lemma_holidays_err_sticks(a, b.drop_last(), e);
        assert((a + b).drop_last() =~= a + b.drop_last());
    }
}

/// Reads a holiday file's text: one `YYYY-MM-DD` per line, surrounding white
/// space ignored, empty lines and lines starting with `#` skipped. Gives the
/// distinct holidays, or the error for the first bad line.
pub fn parse_holidays(content: &str) -> (r: Result<Vec<i64>, String>)
    ensures
        match r {
            Ok(v) => holidays_of(split_from(content@, '\n', 0)) == Ok::<Seq<int>, Seq<char>>(
                v@.map_values(|d: i64| d as int),
            ),
            Err(msg) => holidays_of(split_from(content@, '\n', 0)) == Err::<Seq<int>, Seq<char>>(msg@),
        },
{
    let cs = chars_of(content);
    let ghost s = cs@;
    let mut days: Vec<i64> = Vec::new();
    let ghost mut done: Seq<Seq<char>> = Seq::empty();
    let mut start: usize = 0;
    let mut finished = false;
    assert(done + split_from(s, '\n', 0) =~= split_from(s, '\n', 0));
    assert(days@.map_values(|d: i64| d as int) =~= Seq::<int>::empty());
    while !finished
        invariant
            s == cs@,
            s == content@,
            start <= cs.len(),
            finished ==> done == split_from(s, '\n', 0),
            !finished ==> done + split_from(s, '\n', start as int) == split_from(s, '\n', 0),
            holidays_of(done) == Ok::<Seq<int>, Seq<char>>(days@.map_values(|d: i64| d as int)),
        decreases 2 * (cs.len() - start) + if finished { 0int } else { 1int },
    {
        let k = find_char_from(cs.as_slice(), '\n', start);
        let line = string_from_range(cs.as_slice(), start, k);
        let ghost seg = s.subrange(start as int, k as int);
        let ghost rest = if k >= cs.len() { Seq::<Seq<char>>::empty() } else { split_from(s, '\n', k + 1) };
        assert(split_from(s, '\n', start as int) == seq![seg] + rest);
        let lc = chars_of(line.as_str());
        let tc = trim_chars(lc.as_slice());
        let ghost t = tc@;
        let ghost prev = days@.map_values(|d: i64| d as int);
        assert(done.push(seg).drop_last() =~= done);
        if tc.len() == 0 || tc[0] == '#' {
        } else {
            let ts = string_from_chars(tc.as_slice());
            match parse_ymd(ts.as_str()) {
                Err(e) => {
                    let mut msg = String::from_str("bad holiday '");
                    push_str(&mut msg, ts.as_str());
                    push_str(&mut msg, "': ");
                    push_str(&mut msg, e.as_str());
                    proof {
                        lemma_holidays_err_sticks(done.push(seg), rest, msg@);
                        assert(done.push(seg) + rest =~= done + (seq![seg] + rest));
                    }
                    return Err(msg);
                },
                Ok(d) => {
                    let d64 = d as i64;
                    let mut i: usize = 0;
                    let mut seen = false;
                    while i < days.len()
                        invariant
                            i <= days.len(),
                            prev == days@.map_values(|d: i64| d as int),
                            seen == (exists|m: int| 0 <= m < i && days@[m] == d64),
                        decreases days.len() - i,
                    {
                        if days[i] == d64 {
                            seen = true;
                        }
                        i += 1;
                    }
                    if seen {
                        let ghost m = choose|m: int| 0 <= m < days.len() && days@[m] == d64;
                        assert(prev[m] == d as int);
                    } else {
                        assert(!prev.contains(d as int)) by {
                            if prev.contains(d as int) {
                                let m = choose|m: int| 0 <= m < prev.len() && prev[m] == d as int;
                                assert(days@[m] == d64);
                            }
                        }
                        days.push(d64);
                        assert(days@.map_values(|d: i64| d as int) =~= prev.push(d as int));
                    }
                },
            }
        }
        proof {
            done = done.push(seg);
        }
        if k >= cs.len() {
            finished = true;
            assert(done =~= split_from(s, '\n', 0)) by {
                assert(done + Seq::<Seq<char>>::empty() =~= done);
            }
        } else {
            start = k + 1;
            assert(done + split_from(s, '\n', start as int) =~= split_from(s, '\n', 0));
        }
    }
    Ok(days)
}

/// Law: the holidays read from a file are distinct, and each is the date of
/// one of its lines.
pub proof fn law_holidays_distinct(lines: Seq<Seq<char>>)
    requires
        holidays_of(lines) is Ok,
    ensures
        ({
            let days = holidays_of(lines)->Ok_0;
            &&& forall|i: int, j: int| 0 <= i < j < days.len() ==> #[trigger] days[i] != #[trigger] days[j]
            &&& forall|i: int| 0 <= i < days.len() ==> exists|k: int| 0 <= k < lines.len()
                && ymd_parse(trim(#[trigger] lines[k])) == Ok::<int, Seq<char>>(#[trigger] days[i])
        }),
    decreases lines.len(),
{
    if lines.len() > 0 {
        let prev = lines.drop_last();
        law_holidays_distinct(prev);
        let d0 = holidays_of(prev)->Ok_0;
        let days = holidays_of(lines)->Ok_0;
        assert forall|i: int, j: int| 0 <= i < j < days.len() implies #[trigger] days[i] != #[trigger] days[j] by {
            if j >= d0.len() && days[i] == days[j] {
                assert(d0[i] == days[i]);
                assert(d0.contains(days[j]));
            } else if j < d0.len() {
                assert(d0[i] == days[i] && d0[j] == days[j]);
            }
        }
        assert forall|i: int| 0 <= i < days.len() implies exists|k: int| 0 <= k < lines.len()
            && ymd_parse(trim(#[trigger] lines[k])) == Ok::<int, Seq<char>>(#[trigger] days[i]) by {
            if i < d0.len() {
                assert(d0[i] == days[i]);
                let k = choose|k: int| 0 <= k < prev.len() && ymd_parse(trim(#[trigger] prev[k])) == Ok::<int, Seq<char>>(d0[i]);
                assert(lines[k] == prev[k]);
            } else {
                assert(lines[lines.len() - 1] == lines.last());
            }
        }
    }
}

} // verus!
