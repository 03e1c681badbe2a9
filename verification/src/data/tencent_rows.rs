//! Reading Tencent `fqkline` answers: the JSON is read with `serde_json`, the
//! K-line rows are picked and checked here, and turned into time-ordered
//! bars with their prices as written.
use vstd::prelude::*;
use crate::data::bars::{bar_views, law_sort_by_time, sort_bars_by_time, sort_by_time, time_sorted, BarText, BarV};
use crate::data::stamp::{bar_stamp, bar_stamp_spec};
use crate::error::Error;
use crate::text::{chars_eq_str, chars_of, decimal, push_str, trim, trim_str, u64_to_decimal};

verus! {

/// What the answer holds under `data.<symbol>.<key>`.
#[derive(Debug)]
pub enum KlineEntry {
    /// No `data.<symbol>` object.
    NoData,
    /// No value under the key.
    Absent,
    /// A value that is not an array.
    NotArray,
    /// The array's rows: each an array of fields (a field's text when it is
    /// a string), or `None` when the row is not an array.
    Rows(Vec<Option<Vec<Option<String>>>>),
}

/// The mathematical value of a `KlineEntry`.
pub enum KlineEntryV {
    NoData,
    Absent,
    NotArray,
    Rows(Seq<Option<Seq<Option<Seq<char>>>>>),
}

/// The views of optional fields.
pub open spec fn field_texts(fs: Seq<Option<String>>) -> Seq<Option<Seq<char>>> {
    fs.map_values(|f: Option<String>| match f {
        Some(s) => Some(s@),
        None => None,
    })
}

/// The views of rows.
pub open spec fn row_texts(rs: Seq<Option<Vec<Option<String>>>>) -> Seq<Option<Seq<Option<Seq<char>>>>> {
    rs.map_values(|r: Option<Vec<Option<String>>>| match r {
        Some(fs) => Some(field_texts(fs@)),
        None => None,
    })
}

impl View for KlineEntry {
    type V = KlineEntryV;

    open spec fn view(&self) -> KlineEntryV {
        match self {
            KlineEntry::NoData => KlineEntryV::NoData,
            KlineEntry::Absent => KlineEntryV::Absent,
            KlineEntry::NotArray => KlineEntryV::NotArray,
            KlineEntry::Rows(rs) => KlineEntryV::Rows(row_texts(rs@)),
        }
    }
}

/// What `serde_json::from_str::<serde_json::Value>(json)` followed by
/// `get("data")`, `get(symbol)`, `get(key)`, `as_array` and, per row and
/// field, `as_array` and `as_str` gives; or the JSON error's text.
pub uninterp spec fn tencent_entry(json: Seq<char>, symbol: Seq<char>, key: Seq<char>) -> Result<KlineEntryV, Seq<char>>;

/// Reads a Tencent answer with `serde_json` and looks up
/// `data.<symbol>.<key>`, converting what is there (see `KlineEntry`). The
/// result is named by `tencent_entry`, not restated.
#[verifier::external_body]
fn read_tencent_entry(json: &str, symbol: &str, key: &str) -> (r: Result<KlineEntry, String>)
    ensures
        match r {
            Ok(e) => tencent_entry(json@, symbol@, key@) == Ok::<KlineEntryV, Seq<char>>(e@),
            Err(m) => tencent_entry(json@, symbol@, key@) == Err::<KlineEntryV, Seq<char>>(m@),
        },
{
    let v: serde_json::Value = serde_json::from_str(json).map_err(|e| e.to_string())?;
    let data = match v.get("data") { Some(d) => d.get(symbol), None => None };
    let entry = match data { Some(d) => d.get(key), None => return Ok(KlineEntry::NoData) };
    let rows = match entry.map(|e| e.as_array()) {
        Some(Some(rs)) => rs,
        Some(None) => return Ok(KlineEntry::NotArray),
        None => return Ok(KlineEntry::Absent),
    };
    Ok(KlineEntry::Rows(rows.iter().map(|r| r.as_array().map(|fs| fs.iter().map(|f| f.as_str().map(String::from)).collect())).collect()))
}

/// The key read for an adjustment: `qfqday` for `"qfq"`, `day` otherwise.
pub open spec fn kline_key(adjust: Seq<char>) -> Seq<char> {
    if adjust == "qfq"@ { "qfqday"@ } else { "day"@ }
}

/// The entry used: the adjustment's key, else `day`, else `qfqday`, each
/// tried only when the one before is absent.
pub open spec fn chosen_entry(json: Seq<char>, symbol: Seq<char>, adjust: Seq<char>) -> Result<KlineEntryV, Seq<char>> {
    let first = tencent_entry(json, symbol, kline_key(adjust));
    if first == Ok::<KlineEntryV, Seq<char>>(KlineEntryV::Absent) {
        let second = tencent_entry(json, symbol, "day"@);
        if second == Ok::<KlineEntryV, Seq<char>>(KlineEntryV::Absent) {
            tencent_entry(json, symbol, "qfqday"@)
        } else {
            second
        }
    } else {
        first
    }
}

/// The name of field `i` of a row.
pub open spec fn field_name(i: int) -> Seq<char> {
    if i == 0 { "day"@ } else if i == 1 { "open"@ } else if i == 2 { "close"@ } else if i == 3 { "high"@ }
    else if i == 4 { "low"@ } else { "volume"@ }
}

/// The first of fields `1..6` that is not a string, if any.
pub open spec fn first_non_string(fs: Seq<Option<Seq<char>>>, i: int) -> Option<int>
    decreases 6 - i,
{
    if i >= 6 {
        None
    } else if fs[i] is None {
        Some(i)
    } else {
        first_non_string(fs, i + 1)
    }
}

/// The bar of one row `[day, open, close, high, low, volume, ...]`, or the
/// message for what is wrong with it.
pub open spec fn tencent_row(row: Option<Seq<Option<Seq<char>>>>) -> Result<BarV, Seq<char>> {
    match row {
        None => Err("tencent: row is not an array"@),
        Some(fs) => if fs.len() < 6 {
            Err("tencent: row too short ("@ + decimal(fs.len()) + " fields)"@)
        } else {
            match fs[0] {
                None => Err("tencent: day is not a string"@),
                Some(day) => match bar_stamp_spec(day) {
                    Err(e) => Err("tencent bad day '"@ + day + "': "@ + e),
                    Ok(t) => match first_non_string(fs, 1) {
                        Some(i) => Err("tencent: "@ + field_name(i) + " is not a string"@),
                        None => Ok((t, fs[1]->Some_0, fs[3]->Some_0, fs[4]->Some_0, fs[2]->Some_0, fs[5]->Some_0)),
                    },
                },
            }
        },
    }
}

/// The bars of the rows read in order, or the message for the first bad row.
pub open spec fn tencent_scan(rows: Seq<Option<Seq<Option<Seq<char>>>>>) -> Result<Seq<BarV>, Seq<char>>
    decreases rows.len(),
{
    if rows.len() == 0 {
        Ok(Seq::empty())
    } else {
        match tencent_scan(rows.drop_last()) {
            Err(e) => Err(e),
            Ok(bs) => match tencent_row(rows.last()) {
                Err(e) => Err(e),
                Ok(b) => Ok(bs.push(b)),
            },
        }
    }
}

/// What reading a Tencent answer gives: the bars in time order (stable), or
/// the error's message.
pub open spec fn tencent_spec(json: Seq<char>, symbol: Seq<char>, adjust: Seq<char>) -> Result<Seq<BarV>, Seq<char>> {
    match chosen_entry(trim(json), symbol, adjust) {
        Err(e) => Err("tencent bad json: "@ + e),
        Ok(KlineEntryV::NoData) => Err("tencent: no data for '"@ + symbol + "'"@),
        Ok(KlineEntryV::Rows(rows)) => match tencent_scan(rows) {
            Ok(bs) => Ok(sort_by_time(bs)),
            Err(e) => Err(e),
        },
        Ok(_) => Err("tencent: no kline array under '"@ + kline_key(adjust) + "'"@),
    }
}

fn find_non_string(fs: &Vec<Option<String>>) -> (r: Option<usize>)
    requires
        fs@.len() >= 6,
    ensures
        match first_non_string(field_texts(fs@), 1) {
            Some(i) => r == Some(i as usize) && 1 <= i < 6,
            None => r is None,
        },
{
    let ghost fv = field_texts(fs@);
    let mut i: usize = 1;
    while i < 6
        invariant
            1 <= i <= 6,
            fs@.len() >= 6,
            fv == field_texts(fs@),
            first_non_string(fv, 1) == first_non_string(fv, i as int),
        decreases 6 - i,
    {
        assert(fv[i as int] == match fs@[i as int] { Some(s) => Some(s@), None => None::<Seq<char>> });
        if fs[i].is_none() {
            return Some(i);
        }
        i += 1;
    }
    None
}

fn row_bar(row: &Option<Vec<Option<String>>>) -> (r: Result<BarText, String>)
    ensures
        match tencent_row(match row { Some(fs) => Some(field_texts(fs@)), None => None }) {
            Ok(b) => r matches Ok(x) && x@ == b,
            Err(e) => r matches Err(m) && m@ == e,
        },
{
    match row {
        None => Err(String::from_str("tencent: row is not an array")),
        Some(fs) => {
            let ghost fv = field_texts(fs@);
            if fs.len() < 6 {
                let mut m = String::from_str("tencent: row too short (");
                let n = u64_to_decimal(fs.len() as u64);
                push_str(&mut m, n.as_str());
                push_str(&mut m, " fields)");
                return Err(m);
            }
            assert(fv[0] == match fs@[0] { Some(s) => Some(s@), None => None::<Seq<char>> });
            let day = match &fs[0] {
                None => return Err(String::from_str("tencent: day is not a string")),
                Some(d) => d,
            };
            let t = match bar_stamp(day.as_str()) {
                Err(e) => {
                    let mut m = String::from_str("tencent bad day '");
                    push_str(&mut m, day.as_str());
                    push_str(&mut m, "': ");
                    push_str(&mut m, e.as_str());
                    return Err(m);
                },
                Ok(t) => t,
            };
            match find_non_string(fs) {
                Some(i) => {
                    let mut m = String::from_str("tencent: ");
                    let name = if i == 1 { "open" } else if i == 2 { "close" } else if i == 3 { "high" }
                        else if i == 4 { "low" } else { "volume" };
                    push_str(&mut m, name);
                    push_str(&mut m, " is not a string");
                    return Err(m);
                },
                None => {},
            }
            let f = |k: usize| -> (s: String)
                requires
                    1 <= k < 6,
                    fs@.len() >= 6,
                    fs@[k as int] is Some,
                ensures
                    s@ == fs@[k as int]->Some_0@,
            {
                match &fs[k] {
                    Some(x) => x.clone(),
                    None => String::new(),
                }
            };
            proof {
                assert forall|k: int| 1 <= k < 6 implies fs@[k] is Some by {
                    assert(fv[k] == match fs@[k] { Some(s) => Some(s@), None => None::<Seq<char>> });
                    lemma_first_non_string_none(fv, 1, k);
                }
                assert forall|k: int| 1 <= k < 6 implies fv[k]->Some_0 == fs@[k]->Some_0@ by {
                    assert(fv[k] == match fs@[k] { Some(s) => Some(s@), None => None::<Seq<char>> });
                }
            }
            Ok(BarText { time: t, open: f(1), high: f(3), low: f(4), close: f(2), volume: f(5) })
        },
    }
}

proof fn lemma_first_non_string_none(fs: Seq<Option<Seq<char>>>, i: int, k: int)
    requires
        1 <= i <= k < 6,
        first_non_string(fs, i) is None,
    ensures
        fs[k] is Some,
    decreases k - i,
{
    if i < k {
        lemma_first_non_string_none(fs, i + 1, k);
    }
}

proof fn lemma_tencent_scan_err_sticks(rows: Seq<Option<Seq<Option<Seq<char>>>>>, i: int, e: Seq<char>)
    requires
        0 <= i <= rows.len(),
        tencent_scan(rows.take(i)) == Err::<Seq<BarV>, Seq<char>>(e),
    ensures
        tencent_scan(rows) == Err::<Seq<BarV>, Seq<char>>(e),
    decreases rows.len() - i,
{
    if i == rows.len() {
        assert(rows.take(i) =~= rows);
    } else {
        assert(rows.take(i + 1).drop_last() =~= rows.take(i));
        lemma_tencent_scan_err_sticks(rows, i + 1, e);
    }
}

/// The bar of a Tencent row `[day, open, close, high, low, volume, ...]`
/// whose fields are all strings: its time, then open, high, low, close and
/// volume taken from positions 1, 3, 4, 2 and 5.
pub open spec fn tencent_row_bar(fs: Seq<Option<Seq<char>>>) -> BarV {
    let t = match bar_stamp_spec(fs[0]->Some_0) {
        Ok(t) => t,
        Err(_) => 0,
    };
    (t, fs[1]->Some_0, fs[3]->Some_0, fs[4]->Some_0, fs[2]->Some_0, fs[5]->Some_0)
}

/// A row is good: an array of at least six fields whose first six are
/// strings, with a readable day.
pub open spec fn tencent_row_ok(row: Option<Seq<Option<Seq<char>>>>) -> bool {
    &&& row is Some
    &&& row->Some_0.len() >= 6
    &&& forall|k: int| 0 <= k < 6 ==> (#[trigger] row->Some_0[k]) is Some
    &&& bar_stamp_spec(row->Some_0[0]->Some_0) is Ok
}

proof fn lemma_first_non_string_all(fs: Seq<Option<Seq<char>>>, i: int)
    requires
        1 <= i <= 6,
        fs.len() >= 6,
        forall|k: int| i <= k < 6 ==> (#[trigger] fs[k]) is Some,
    ensures
        first_non_string(fs, i) is None,
    decreases 6 - i,
{
    if i < 6 {
        lemma_first_non_string_all(fs, i + 1);
    }
}

/// Law: Tencent rows are accepted exactly when every row is good; then each
/// row gives one bar with its own time and, by Tencent's field order
/// `[day, open, close, high, low, volume]`, its own prices.
pub proof fn law_tencent_rows(rows: Seq<Option<Seq<Option<Seq<char>>>>>)
    ensures
        tencent_scan(rows) is Ok <==> forall|i: int| 0 <= i < rows.len() ==> tencent_row_ok(#[trigger] rows[i]),
        tencent_scan(rows) is Ok ==> tencent_scan(rows)->Ok_0 == Seq::new(rows.len(), |i: int| tencent_row_bar(rows[i]->Some_0)),
    decreases rows.len(),
{
    if rows.len() > 0 {
        let d = rows.drop_last();
        let last = rows.last();
        law_tencent_rows(d);
        assert(last == rows[rows.len() - 1]);
        if tencent_row_ok(last) {
            let fs = last->Some_0;
            lemma_first_non_string_all(fs, 1);
        }
        if tencent_row(last) is Ok {
            let fs = last->Some_0;
            assert(first_non_string(fs, 1) is None);
            assert forall|k: int| 0 <= k < 6 implies (#[trigger] fs[k]) is Some by {
                if k > 0 {
                    lemma_first_non_string_none(fs, 1, k);
                }
            }
        }
        if forall|i: int| 0 <= i < rows.len() ==> tencent_row_ok(#[trigger] rows[i]) {
            assert forall|i: int| 0 <= i < d.len() implies tencent_row_ok(#[trigger] d[i]) by {
                assert(d[i] == rows[i]);
            }
        }
        if tencent_scan(rows) is Ok {
            assert forall|i: int| 0 <= i < rows.len() implies tencent_row_ok(#[trigger] rows[i]) by {
                if i < d.len() {
                    assert(d[i] == rows[i]);
                }
            }
            let bs = tencent_scan(d)->Ok_0;
            assert(tencent_scan(rows)->Ok_0 =~= Seq::new(rows.len(), |i: int| tencent_row_bar(rows[i]->Some_0))) by {
                assert forall|i: int| 0 <= i < d.len() implies bs[i] == tencent_row_bar(rows[i]->Some_0) by {
                    assert(d[i] == rows[i]);
                }
            }
        }
    }
}

/// Turns Tencent K-line rows into bars ordered by time (rows of equal time
/// kept in order); the first bad row fails with its message.
pub fn tencent_bars(rows: &Vec<Option<Vec<Option<String>>>>) -> (r: Result<Vec<BarText>, Error>)
    ensures
        match tencent_scan(row_texts(rows@)) {
            Ok(bs) => r matches Ok(out) && bar_views(out@) == sort_by_time(bs),
            Err(e) => r matches Err(Error::Data(m)) && m@ == e,
        },        r matches Ok(out) ==> {
            &&& time_sorted(bar_views(out@))
            &&& bar_views(out@).to_multiset() == Seq::new(
                rows@.len(),
                |i: int| tencent_row_bar(row_texts(rows@)[i]->Some_0),
            ).to_multiset()
        },
{
    let ghost rv = row_texts(rows@);
    let mut bars: Vec<BarText> = Vec::new();
    let mut i: usize = 0;
    assert(rv.take(0) =~= Seq::<Option<Seq<Option<Seq<char>>>>>::empty());
    assert(bar_views(bars@) =~= Seq::<BarV>::empty());
    while i < rows.len()
        invariant
            i <= rows.len(),
            rv == row_texts(rows@),
            tencent_scan(rv.take(i as int)) == Ok::<Seq<BarV>, Seq<char>>(bar_views(bars@)),
        decreases rows.len() - i,
    {
        proof {
            assert(rv.take(i + 1).drop_last() =~= rv.take(i as int));
            assert(rv.take(i + 1).last() == rv[i as int]);
        }
        match row_bar(&rows[i]) {
            Err(m) => {
                proof {
                    lemma_tencent_scan_err_sticks(rv, i + 1, m@);
                }
                return Err(Error::Data(m));
            },
            Ok(b) => {
                let ghost pre = bar_views(bars@);
                bars.push(b);
                assert(bar_views(bars@) =~= pre.push(bars@.last()@));
            },
        }
        i += 1;
    }
    assert(rv.take(rows.len() as int) =~= rv);
    proof {
        law_tencent_rows(rv);
        law_sort_by_time(bar_views(bars@));
    }
    Ok(sort_bars_by_time(bars))
}

fn entry_is_absent(e: &Result<KlineEntry, String>) -> (b: bool)
    ensures
        b == (match e {
            Ok(x) => x@ == KlineEntryV::Absent,
            Err(_) => false,
        }),
{
    match e {
        Ok(KlineEntry::Absent) => true,
        _ => false,
    }
}

/// Reads a Tencent `fqkline` answer for `symbol` (see `tencent_spec`): the
/// rows under `qfqday` (for `"qfq"`) or `day`, falling back to the other
/// key when absent, as bars in time order with their prices as written.
pub fn parse_tencent_klines(json: &str, symbol: &str, adjust: &str) -> (r: Result<Vec<BarText>, Error>)
    ensures
        match tencent_spec(json@, symbol@, adjust@) {
            Ok(bs) => r matches Ok(out) && bar_views(out@) == bs,
            Err(e) => r matches Err(Error::Data(m)) && m@ == e,
        },
{
    let t = trim_str(json);
    let qfq = chars_eq_str(chars_of(adjust).as_slice(), "qfq");
    let key = if qfq { "qfqday" } else { "day" };
    let ghost tv = t@;
    let mut entry = read_tencent_entry(t.as_str(), symbol, key);
    if entry_is_absent(&entry) {
        let second = read_tencent_entry(t.as_str(), symbol, "day");
        if entry_is_absent(&second) {
            entry = read_tencent_entry(t.as_str(), symbol, "qfqday");
        } else {
            entry = second;
        }
    }
    proof {
        reveal_strlit("qfq");
        reveal_strlit("qfqday");
        reveal_strlit("day");
    }
    match entry {
        Err(e) => {
            let mut m = String::from_str("tencent bad json: ");
            push_str(&mut m, e.as_str());
            Err(Error::Data(m))
        },
        Ok(KlineEntry::NoData) => {
            let mut m = String::from_str("tencent: no data for '");
            push_str(&mut m, symbol);
            push_str(&mut m, "'");
            Err(Error::Data(m))
        },
        Ok(KlineEntry::Rows(rows)) => tencent_bars(&rows),
        Ok(_) => {
            let mut m = String::from_str("tencent: no kline array under '");
            push_str(&mut m, key);
            push_str(&mut m, "'");
            Err(Error::Data(m))
        },
    }
}

} // verus!
