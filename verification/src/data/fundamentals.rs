//! Per-stock fundamental series: one row per report, by announcement day.
//! A decision at time `t` sees the latest row announced on or before `t`'s
//! day and nothing before the first report (point in time). The values are
//! kept as written and read into numbers by the caller.
use vstd::prelude::*;
use crate::data::calendar::{parse_ymd, ymd_parse};
use crate::data::table::{csv_table, opt_view, read_csv_table};
use crate::data::universe::{field_views, record_views};
use crate::error::Error;
use crate::screen::asof::{day_shown, show_day};
use crate::text::{chars_eq_str, chars_of, push_str, string_from_range, trim, trim_str};

verus! {

/// A fundamentals table: strictly increasing days, the value column names,
/// the kept row of each day (trimmed cells), and the trimmed cells of every
/// record in file order (a later record of a day replaces the kept row).
#[derive(Debug)]
pub struct FundamentalTable {
    pub days: Vec<i64>,
    pub names: Vec<String>,
    pub rows: Vec<Vec<String>>,
    pub cells: Vec<Vec<String>>,
}

/// A fundamentals table as (days, names, kept rows, every record's cells).
pub type FundV = (Seq<int>, Seq<Seq<char>>, Seq<Seq<Seq<char>>>, Seq<Seq<Seq<char>>>);

impl View for FundamentalTable {
    type V = FundV;

    open spec fn view(&self) -> FundV {
        (self.days@.map_values(|d: i64| d as int), field_views(self.names@), record_views(self.rows@),
            record_views(self.cells@))
    }
}

/// The first character encoded in two UTF-8 bytes.
pub const TWO_BYTE_START: char = '\u{80}';
/// The first character encoded in three UTF-8 bytes.
pub const THREE_BYTE_START: char = '\u{800}';
/// The first character encoded in four UTF-8 bytes.
pub const FOUR_BYTE_START: char = '\u{10000}';

/// Bytes in the UTF-8 encoding of a character.
pub open spec fn utf8_len(c: char) -> int {
    if c < TWO_BYTE_START { 1 } else if c < THREE_BYTE_START { 2 } else if c < FOUR_BYTE_START { 3 } else { 4 }
}

/// The characters of `s` from position `i` on that make up its first `k`
/// bytes: `None` when `k` does not fall on a character boundary or `s` is
/// shorter.
pub open spec fn byte_prefix_from(s: Seq<char>, i: int, k: int) -> Option<int>
    decreases s.len() - i,
{
    if k == 0 {
        Some(i)
    } else if k < 0 || i >= s.len() {
        None
    } else {
        byte_prefix_from(s, i + 1, k - utf8_len(s[i]))
    }
}

/// `s[..10]` as Rust's `str::get(..10)` gives it (the first ten bytes, when
/// they end on a character boundary), or `s` itself otherwise.
pub open spec fn first_ten_bytes(s: Seq<char>) -> Seq<char> {
    match byte_prefix_from(s, 0, 10) {
        Some(n) => s.take(n),
        None => s,
    }
}

/// The day of a report's `time` cell (trimmed): the date it is, or else the
/// date of its first ten bytes (a `YYYY-MM-DD HH:MM:SS` time); the second
/// parse's message when neither reads.
pub open spec fn fund_day(raw: Seq<char>) -> Result<int, Seq<char>> {
    match ymd_parse(raw) {
        Ok(d) => Ok(d),
        Err(_) => ymd_parse(first_ten_bytes(raw)),
    }
}

/// The trimmed cells.
pub open spec fn trims(cs: Seq<Seq<char>>) -> Seq<Seq<char>> {
    cs.map_values(|c: Seq<char>| trim(c))
}

/// The first `n` records read in order: each record's day must read; a
/// record on the last kept day replaces that day's row; a record on an
/// earlier day fails. The days and kept rows, or the first failure's message.
pub open spec fn fund_rows_upto(recs: Seq<Seq<Seq<char>>>, n: nat) -> Result<(Seq<int>, Seq<Seq<Seq<char>>>), Seq<char>>
    decreases n,
{
    if n == 0 {
        Ok((Seq::empty(), Seq::empty()))
    } else {
        match fund_rows_upto(recs, (n - 1) as nat) {
            Err(e) => Err(e),
            Ok((ds, rows)) => {
                let rec = recs[n - 1];
                let raw = trim(rec[0]);
                match fund_day(raw) {
                    Err(e) => Err("fundamentals bad date '"@ + raw + "': "@ + e),
                    Ok(d) => {
                        let cells = trims(rec.skip(1));
                        if ds.len() > 0 && ds.last() == d {
                            Ok((ds, rows.update(rows.len() - 1, cells)))
                        } else if ds.len() > 0 && d < ds.last() {
                            Err("fundamentals time not strictly increasing at "@ + day_shown(d))
                        } else {
                            Ok((ds.push(d), rows.push(cells)))
                        }
                    },
                }
            },
        }
    }
}

proof fn lemma_fund_err_sticks(recs: Seq<Seq<Seq<char>>>, i: nat, n: nat, e: Seq<char>)
    requires
        i <= n,
        fund_rows_upto(recs, i) == Err::<(Seq<int>, Seq<Seq<Seq<char>>>), Seq<char>>(e),
    ensures
        fund_rows_upto(recs, n) == Err::<(Seq<int>, Seq<Seq<Seq<char>>>), Seq<char>>(e),
    decreases n - i,
{
    if i < n {
        lemma_fund_err_sticks(recs, i, (n - 1) as nat, e);
    }
}

proof fn lemma_fund_rows_shape(recs: Seq<Seq<Seq<char>>>, n: nat)
    requires
        fund_rows_upto(recs, n) is Ok,
    ensures
        ({
            let (ds, rows) = fund_rows_upto(recs, n)->Ok_0;
            &&& ds.len() == rows.len()
            &&& forall|a: int, b: int| 0 <= a < b < ds.len() ==> ds[a] < ds[b]
        }),
    decreases n,
{
    if n > 0 {
        lemma_fund_rows_shape(recs, (n - 1) as nat);
    }
}

/// The day a record reads as.
pub open spec fn rec_day(rec: Seq<Seq<char>>) -> int {
    match fund_day(trim(rec[0])) {
        Ok(d) => d,
        Err(_) => 0,
    }
}

/// Law: a fundamentals table read without error holds every record's day,
/// once, in strictly increasing order, and the row kept for a day is the
/// cells of the last record on that day (a later record of the same day
/// replaces an earlier one).
pub proof fn law_fund_rows(recs: Seq<Seq<Seq<char>>>, n: nat)
    requires
        n <= recs.len(),
        fund_rows_upto(recs, n) is Ok,
    ensures
        ({
            let (ds, rows) = fund_rows_upto(recs, n)->Ok_0;
            &&& ds.len() == rows.len()
            &&& forall|a: int, b: int| 0 <= a < b < ds.len() ==> ds[a] < ds[b]
            &&& forall|k: int| 0 <= k < n ==> exists|i: int| 0 <= i < ds.len() && ds[i] == rec_day(#[trigger] recs[k])
                && ((forall|k2: int| k < k2 < n ==> rec_day(#[trigger] recs[k2]) != rec_day(recs[k]))
                    ==> rows[i] == trims(recs[k].skip(1)))
        }),
    decreases n,
{
    lemma_fund_rows_shape(recs, n);
    if n > 0 {
        let m = (n - 1) as nat;
        lemma_fund_rows_shape(recs, m);
        law_fund_rows(recs, m);
        let (ds, rows) = fund_rows_upto(recs, m)->Ok_0;
        let (ds2, rows2) = fund_rows_upto(recs, n)->Ok_0;
        let rec = recs[m as int];
        let dm = rec_day(rec);
        let cells = trims(rec.skip(1));
        assert(fund_day(trim(rec[0])) is Ok);
        let same = ds.len() > 0 && ds.last() == dm;
        if same {
            assert(ds2 == ds);
            assert(rows2 == rows.update(rows.len() - 1, cells));
        } else {
            assert(ds2 == ds.push(dm));
            assert(rows2 == rows.push(cells));
        }
        assert forall|k: int| 0 <= k < n implies exists|i: int| 0 <= i < ds2.len() && ds2[i] == rec_day(#[trigger] recs[k])
            && ((forall|k2: int| k < k2 < n ==> rec_day(#[trigger] recs[k2]) != rec_day(recs[k]))
                ==> rows2[i] == trims(recs[k].skip(1))) by {
            if k == m {
                let i = ds2.len() - 1;
                if same {
                    assert(ds2[i] == dm);
                } else {
                    assert(ds2[i] == dm);
                }
                assert(rows2[i] == cells);
            } else {
                let i = choose|i: int| 0 <= i < ds.len() && ds[i] == rec_day(#[trigger] recs[k])
                    && ((forall|k2: int| k < k2 < m ==> rec_day(#[trigger] recs[k2]) != rec_day(recs[k]))
                        ==> rows[i] == trims(recs[k].skip(1)));
                assert(ds2[i] == ds[i]);
                if forall|k2: int| k < k2 < n ==> rec_day(#[trigger] recs[k2]) != rec_day(recs[k]) {
                    assert(forall|k2: int| k < k2 < m ==> rec_day(#[trigger] recs[k2]) != rec_day(recs[k]));
                    assert(rec_day(recs[m as int]) != rec_day(recs[k]));
                    if same {
                        assert(i != ds.len() - 1);
                        assert(rows2[i] == rows[i]);
                    } else {
                        assert(rows2[i] == rows[i]);
                    }
                }
            }
        }
    }
}

fn utf8_width(c: char) -> (w: i64)
    ensures
        w == utf8_len(c),
{
    if c < TWO_BYTE_START {
        1
    } else if c < THREE_BYTE_START {
        2
    } else if c < FOUR_BYTE_START {
        3
    } else {
        4
    }
}

fn first_ten(s: &String) -> (r: String)
    ensures
        r@ == first_ten_bytes(s@),
{
    let cs = chars_of(s.as_str());
    let mut i: usize = 0;
    let mut k: i64 = 10;
    assert(byte_prefix_from(cs@, 0, 10) == byte_prefix_from(cs@, i as int, k as int));
    while k > 0 && i < cs.len()
        invariant
            i <= cs.len(),
            k <= 10,
            cs@ == s@,
            byte_prefix_from(cs@, 0, 10) == byte_prefix_from(cs@, i as int, k as int),
        decreases cs.len() - i,
    {
        let c = cs[i];
        let w = utf8_width(c);
        assert(w == utf8_len(cs@[i as int]));
        k = k - w;
        i += 1;
    }
    if k == 0 {
        string_from_range(cs.as_slice(), 0, i)
    } else {
        String::from_str(s.as_str())
    }
}

fn trim_cells(v: &[String], lo: usize) -> (r: Vec<String>)
    requires
        lo <= v.len(),
    ensures
        field_views(r@) == trims(field_views(v@).skip(lo as int)),
{
    let mut r: Vec<String> = Vec::new();
    let mut i: usize = lo;
    while i < v.len()
        invariant
            lo <= i <= v.len(),
            field_views(r@) == trims(field_views(v@).subrange(lo as int, i as int)),
        decreases v.len() - i,
    {
        let ghost pre = field_views(r@);
        r.push(trim_str(v[i].as_str()));
        assert(field_views(r@) =~= pre.push(trim(v@[i as int]@)));
        assert(trims(field_views(v@).subrange(lo as int, i + 1)) =~= trims(
            field_views(v@).subrange(lo as int, i as int),
        ).push(trim(v@[i as int]@)));
        i += 1;
    }
    assert(field_views(v@).subrange(lo as int, v.len() as int) =~= field_views(v@).skip(lo as int));
    r
}

/// Reads a fundamentals table from the text of its CSV file. The header must
/// start with `time`; each record's trimmed `time` is a date, or a date-time
/// whose first ten bytes are a date; records on the last kept day replace
/// its row (the last record of a day wins), and days must not go back. The
/// reader's errors come back as `Error::Csv`; a record error only after the
/// records before it passed.
pub fn fundamentals_from_csv_text(text: &str) -> (r: Result<FundamentalTable, Error>)
    ensures
        match csv_table(text@) {
            Err(e) => (r matches Err(Error::Csv(m)) && m@ == e),
            Ok((h, recs, tail)) => if !(h.len() > 0 && h[0] == "time"@) {
                (r matches Err(Error::Data(m)) && m@ == "fundamentals csv must start with 'time' column"@)
            } else {
                match fund_rows_upto(recs, recs.len()) {
                    Err(e) => (r matches Err(Error::Data(m)) && m@ == e),
                    Ok((ds, rows)) => match tail {
                        Some(c) => (r matches Err(Error::Csv(m)) && m@ == c),
                        None => (r matches Ok(tab) && tab@ == (ds, h.skip(1), rows,
                            recs.map_values(|rec: Seq<Seq<char>>| trims(rec.skip(1)))))
                            && (forall|a: int, b: int| 0 <= a < b < ds.len() ==> ds[a] < ds[b]),
                    },
                }
            },
        },
{
    let (h, recs, tail) = match read_csv_table(text) {
        Err(e) => return Err(Error::Csv(e)),
        Ok(x) => x,
    };
    let ghost hv = field_views(h@);
    let ghost rv = record_views(recs@);
    if h.len() == 0 || !chars_eq_str(chars_of(h[0].as_str()).as_slice(), "time") {
        return Err(Error::Data(String::from_str("fundamentals csv must start with 'time' column")));
    }
    assert(hv[0] == h@[0]@);
    let ghost tv0 = opt_view(tail);
    let names = copy_tail(h.as_slice());
    let mut days: Vec<i64> = Vec::new();
    let mut rows: Vec<Vec<String>> = Vec::new();
    let mut cells: Vec<Vec<String>> = Vec::new();
    let mut i: usize = 0;
    let ghost all = rv.map_values(|rec: Seq<Seq<char>>| trims(rec.skip(1)));
    assert(days@.map_values(|d: i64| d as int) =~= Seq::<int>::empty());
    assert(record_views(rows@) =~= Seq::<Seq<Seq<char>>>::empty());
    assert(record_views(cells@) =~= all.take(0));
    while i < recs.len()
        invariant
            i <= recs.len(),
            rv == record_views(recs@),
            all == rv.map_values(|rec: Seq<Seq<char>>| trims(rec.skip(1))),
            csv_table(text@) == Ok::<(Seq<Seq<char>>, Seq<Seq<Seq<char>>>, Option<Seq<char>>), Seq<char>>((hv, rv, tv0)),
            tv0 == opt_view(tail),
            hv.len() > 0 && hv[0] == "time"@,
            field_views(names@) == hv.skip(1),
            h@.len() >= 1,
            forall|k: int| 0 <= k < recs.len() ==> #[trigger] recs@[k]@.len() == h@.len(),
            fund_rows_upto(rv, i as nat) == Ok::<(Seq<int>, Seq<Seq<Seq<char>>>), Seq<char>>(
                (days@.map_values(|d: i64| d as int), record_views(rows@))),
            record_views(cells@) == all.take(i as int),
        decreases recs.len() - i,
    {
        let rec = &recs[i];
        assert(rv[i as int] == field_views(rec@));
        assert(field_views(rec@)[0] == rec@[0]@);
        let raw = trim_str(rec[0].as_str());
        let d: i32 = match parse_ymd(raw.as_str()) {
            Ok(d) => d,
            Err(_) => {
                let ten = first_ten(&raw);
                match parse_ymd(ten.as_str()) {
                    Ok(d) => d,
                    Err(e) => {
                        let mut m = String::from_str("fundamentals bad date '");
                        push_str(&mut m, raw.as_str());
                        push_str(&mut m, "': ");
                        push_str(&mut m, e.as_str());
                        proof {
                            lemma_fund_err_sticks(rv, (i + 1) as nat, recs@.len(), m@);
                        }
                        return Err(Error::Data(m));
                    },
                }
            },
        };
        let row = trim_cells(rec.as_slice(), 1);
        let ghost dv = days@.map_values(|d: i64| d as int);
        let ghost rpre = record_views(rows@);
        proof {
            lemma_fund_rows_shape(rv, i as nat);
            if days@.len() > 0 {
                assert(dv.last() == days@.last() as int);
            }
        }
        let cpre = copy_rows(&row);
        if days.len() > 0 && days[days.len() - 1] == d as i64 {
            let last = rows.len() - 1;
            rows.set(last, row);
            assert(record_views(rows@) =~= rpre.update(last as int, field_views(rows@[last as int]@)));
        } else if days.len() > 0 && (d as i64) < days[days.len() - 1] {
            let mut m = String::from_str("fundamentals time not strictly increasing at ");
            let ds = show_day(d);
            push_str(&mut m, ds.as_str());
            proof {
                lemma_fund_err_sticks(rv, (i + 1) as nat, recs@.len(), m@);
            }
            return Err(Error::Data(m));
        } else {
            days.push(d as i64);
            rows.push(row);
            assert(days@.map_values(|d: i64| d as int) =~= dv.push(d as int));
            assert(record_views(rows@) =~= rpre.push(field_views(rows@.last()@)));
        }
        let ghost cv = record_views(cells@);
        cells.push(cpre);
        assert(record_views(cells@) =~= cv.push(all[i as int]));
        assert(all.take(i + 1) =~= all.take(i as int).push(all[i as int]));
        i += 1;
    }
    proof {
        lemma_fund_rows_shape(rv, recs@.len());
        assert(all.take(recs@.len() as int) =~= all);
    }
    match tail {
        Some(c) => Err(Error::Csv(c)),
        None => Ok(FundamentalTable { days, names, rows, cells }),
    }
}

fn copy_tail(h: &[String]) -> (r: Vec<String>)
    requires
        h.len() >= 1,
    ensures
        field_views(r@) == field_views(h@).skip(1),
{
    let mut r: Vec<String> = Vec::new();
    let mut i: usize = 1;
    while i < h.len()
        invariant
            1 <= i <= h.len(),
            field_views(r@) == field_views(h@).subrange(1, i as int),
        decreases h.len() - i,
    {
        let ghost pre = field_views(r@);
        r.push(String::from_str(h[i].as_str()));
        assert(field_views(r@) =~= pre.push(h@[i as int]@));
        assert(field_views(h@).subrange(1, i + 1) =~= field_views(h@).subrange(1, i as int).push(h@[i as int]@));
        i += 1;
    }
    assert(field_views(h@).subrange(1, h.len() as int) =~= field_views(h@).skip(1));
    r
}

fn copy_rows(v: &Vec<String>) -> (r: Vec<String>)
    ensures
        field_views(r@) == field_views(v@),
{
    let mut r: Vec<String> = Vec::new();
    let mut i: usize = 0;
    while i < v.len()
        invariant
            i <= v.len(),
            field_views(r@) == field_views(v@).take(i as int),
        decreases v.len() - i,
    {
        let ghost pre = field_views(r@);
        r.push(String::from_str(v[i].as_str()));
        assert(field_views(r@) =~= pre.push(v@[i as int]@));
        assert(field_views(v@).take(i + 1) =~= field_views(v@).take(i as int).push(v@[i as int]@));
        i += 1;
    }
    assert(field_views(v@).take(v.len() as int) =~= field_views(v@));
    r
}

/// The row in effect on `day` of a table with strictly increasing days: the
/// last one whose day is on or before it; `None` before the first.
pub fn as_of_row(days: &[i64], day: i64) -> (r: Option<usize>)
    requires
        forall|a: int, b: int| 0 <= a < b < days.len() ==> days[a] < days[b],
    ensures
        match r {
            Some(i) => i < days.len() && days[i as int] <= day && (i + 1 == days.len() || days[i + 1] > day),
            None => days.len() == 0 || days[0] > day,
        },
{
    let mut lo: usize = 0;
    let mut hi: usize = days.len();
    while lo < hi
        invariant
            lo <= hi <= days.len(),
            forall|a: int, b: int| 0 <= a < b < days.len() ==> days[a] < days[b],
            forall|k: int| 0 <= k < lo ==> days[k] <= day,
            forall|k: int| hi <= k < days.len() ==> days[k] > day,
        decreases hi - lo,
    {
        let mid = lo + (hi - lo) / 2;
        if days[mid] <= day {
            lo = mid + 1;
        } else {
            hi = mid;
        }
    }
    if lo == 0 {
        None
    } else {
        Some(lo - 1)
    }
}

} // verus!
