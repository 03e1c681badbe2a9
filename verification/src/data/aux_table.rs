//! Generic external series (`--aux NAME=PATH`, read as `aux.<name>.<column>`):
//! a `time` column and named value columns. The values are kept as written
//! and read into numbers by the caller.
use vstd::prelude::*;
use crate::data::stamp::{aux_time, aux_time_spec};
use crate::data::table::{csv_table, opt_view, read_csv_table};
use crate::data::universe::{field_views, record_views};
use crate::error::Error;
use crate::text::{chars_eq_str, chars_of, is_space, push_str, space_char, trim, trim_str};

verus! {

/// An aux table: strictly increasing times, the column names, and per row
/// the value cells as written.
#[derive(Debug)]
pub struct AuxTableText {
    pub times: Vec<i64>,
    pub names: Vec<String>,
    pub rows: Vec<Vec<String>>,
}

/// An aux table as (times, column names, value rows).
pub type AuxV = (Seq<int>, Seq<Seq<char>>, Seq<Seq<Seq<char>>>);

impl View for AuxTableText {
    type V = AuxV;

    open spec fn view(&self) -> AuxV {
        (self.times@.map_values(|t: i64| t as int), field_views(self.names@), record_views(self.rows@))
    }
}

/// A column name that cannot be a DSL field: empty, or holding a `'.'` or
/// whitespace.
pub open spec fn bad_aux_name(n: Seq<char>) -> bool {
    n.len() == 0 || n.contains('.') || exists|i: int| 0 <= i < n.len() && is_space(#[trigger] n[i])
}

/// The first bad name among `names`, if any.
pub open spec fn first_bad_name(names: Seq<Seq<char>>) -> Option<Seq<char>>
    decreases names.len(),
{
    if names.len() == 0 {
        None
    } else if bad_aux_name(names[0]) {
        Some(names[0])
    } else {
        first_bad_name(names.drop_first())
    }
}

/// The value column names: the header after `time`, trimmed.
pub open spec fn aux_names(h: Seq<Seq<char>>) -> Seq<Seq<char>> {
    h.skip(1).map_values(|n: Seq<char>| trim(n))
}

/// The first `n` records read in order: each time must read (a date-time, or
/// a date at midnight) and times must strictly increase. The times and value
/// cells, or the message for the first failing record.
pub open spec fn aux_rows_upto(recs: Seq<Seq<Seq<char>>>, n: nat) -> Result<(Seq<int>, Seq<Seq<Seq<char>>>), Seq<char>>
    decreases n,
{
    if n == 0 {
        Ok((Seq::empty(), Seq::empty()))
    } else {
        match aux_rows_upto(recs, (n - 1) as nat) {
            Err(e) => Err(e),
            Ok((ts, vals)) => {
                let rec = recs[n - 1];
                match aux_time_spec(rec[0]) {
                    None => Err("bad aux time '"@ + rec[0] + "'"@),
                    Some((t, shown)) => if ts.len() > 0 && ts.last() >= t {
                        Err("aux non-increasing time at "@ + shown)
                    } else {
                        Ok((ts.push(t), vals.push(rec.skip(1))))
                    },
                }
            },
        }
    }
}

/// The timestamp an aux time text reads as.
pub open spec fn aux_stamp(s: Seq<char>) -> int {
    match aux_time_spec(s) {
        Some((t, _)) => t,
        None => 0,
    }
}

/// Law: aux records are accepted exactly when every record's time reads and
/// the times strictly increase; then each record gives its own time and its
/// own value cells (all fields after the time), in order.
pub proof fn law_aux_rows(recs: Seq<Seq<Seq<char>>>, n: nat)
    requires
        n <= recs.len(),
    ensures
        aux_rows_upto(recs, n) is Ok <==> (
            (forall|k: int| 0 <= k < n ==> (#[trigger] aux_time_spec(recs[k][0])) is Some)
            && forall|j: int, k: int| 0 <= j < k < n ==> aux_stamp((#[trigger] recs[j])[0]) < aux_stamp((#[trigger] recs[k])[0])),
        aux_rows_upto(recs, n) is Ok ==> ({
            let (ts, vals) = aux_rows_upto(recs, n)->Ok_0;
            &&& ts.len() == n && vals.len() == n
            &&& forall|k: int| 0 <= k < n ==> ts[k] == aux_stamp((#[trigger] recs[k])[0]) && vals[k] == recs[k].skip(1)
            &&& forall|j: int, k: int| 0 <= j < k < n ==> #[trigger] ts[j] < #[trigger] ts[k]
        }),
    decreases n,
{
    if n > 0 {
        let m = (n - 1) as nat;
        law_aux_rows(recs, m);
        let ok_all = (forall|k: int| 0 <= k < n ==> (#[trigger] aux_time_spec(recs[k][0])) is Some)
            && forall|j: int, k: int| 0 <= j < k < n ==> aux_stamp((#[trigger] recs[j])[0]) < aux_stamp((#[trigger] recs[k])[0]);
        if ok_all {
            assert(aux_time_spec(recs[m as int][0]) is Some);
            if m > 0 {
                let (ts, vals) = aux_rows_upto(recs, m)->Ok_0;
                assert(ts.last() == ts[m - 1]);
                assert(aux_stamp(recs[m - 1][0]) < aux_stamp(recs[m as int][0]));
            }
        }
        if aux_rows_upto(recs, n) is Ok {
            let (ts, vals) = aux_rows_upto(recs, m)->Ok_0;
            let (ts2, vals2) = aux_rows_upto(recs, n)->Ok_0;
            assert(aux_time_spec(recs[m as int][0]) is Some);
            assert(ts2 == ts.push(aux_stamp(recs[m as int][0])));
            assert(vals2 == vals.push(recs[m as int].skip(1)));
            assert forall|j: int, k: int| 0 <= j < k < n implies #[trigger] ts2[j] < #[trigger] ts2[k] by {
                if k == m && m > 0 {
                    assert(ts.last() == ts[m - 1]);
                    if j < m - 1 {
                        assert(ts[j] < ts[m - 1]);
                    }
                }
            }
            assert forall|j: int, k: int| 0 <= j < k < n implies aux_stamp((#[trigger] recs[j])[0]) < aux_stamp((#[trigger] recs[k])[0]) by {
                assert(ts2[j] == aux_stamp(recs[j][0]));
                assert(ts2[k] == aux_stamp(recs[k][0]));
                assert(ts2[j] < ts2[k]);
            }
        }
    }
}

fn bad_name(n: &String) -> (b: bool)
    ensures
        b == bad_aux_name(n@),
{
    let cs = chars_of(n.as_str());
    if cs.len() == 0 {
        return true;
    }
    let mut i: usize = 0;
    while i < cs.len()
        invariant
            i <= cs.len(),
            cs@ == n@,
            forall|k: int| 0 <= k < i ==> cs@[k] != '.' && !is_space(#[trigger] cs@[k]),
        decreases cs.len() - i,
    {
        if cs[i] == '.' || space_char(cs[i]) {
            proof {
                if cs@[i as int] == '.' {
                    assert(n@.contains('.'));
                }
            }
            return true;
        }
        i += 1;
    }
    proof {
        if n@.contains('.') {
            let k = choose|k: int| 0 <= k < n@.len() && n@[k] == '.';
            assert(cs@[k] != '.');
        }
    }
    false
}

proof fn lemma_aux_err_sticks(recs: Seq<Seq<Seq<char>>>, i: nat, n: nat, e: Seq<char>)
    requires
        i <= n,
        aux_rows_upto(recs, i) == Err::<(Seq<int>, Seq<Seq<Seq<char>>>), Seq<char>>(e),
    ensures
        aux_rows_upto(recs, n) == Err::<(Seq<int>, Seq<Seq<Seq<char>>>), Seq<char>>(e),
    decreases n - i,
{
    if i < n {
        lemma_aux_err_sticks(recs, i, (n - 1) as nat, e);
    }
}

fn copy_cells(v: &[String], lo: usize) -> (r: Vec<String>)
    requires
        lo <= v.len(),
    ensures
        field_views(r@) == field_views(v@).skip(lo as int),
{
    let mut r: Vec<String> = Vec::new();
    let mut i: usize = lo;
    while i < v.len()
        invariant
            lo <= i <= v.len(),
            field_views(r@) == field_views(v@).subrange(lo as int, i as int),
        decreases v.len() - i,
    {
        let ghost pre = field_views(r@);
        r.push(String::from_str(v[i].as_str()));
        assert(field_views(r@) =~= pre.push(v@[i as int]@));
        assert(field_views(v@).subrange(lo as int, i + 1) =~= field_views(v@).subrange(lo as int, i as int).push(v@[i as int]@));
        i += 1;
    }
    assert(field_views(v@).subrange(lo as int, v.len() as int) =~= field_views(v@).skip(lo as int));
    r
}

/// Reads an aux table from the text of its CSV file. The header must start
/// with `time`; the other column names, trimmed, must be non-empty and hold
/// no `'.'` or whitespace; each row's time is a date-time or a date (at
/// midnight) and times strictly increase. The reader's errors come back as
/// `Error::Csv`; a record error only after the records before it passed.
pub fn aux_from_csv_text(text: &str) -> (r: Result<AuxTableText, Error>)
    ensures
        match csv_table(text@) {
            Err(e) => (r matches Err(Error::Csv(m)) && m@ == e),
            Ok((h, recs, tail)) => if !(h.len() > 0 && h[0] == "time"@) {
                (r matches Err(Error::Data(m)) && m@ == "aux csv first column must be 'time'"@)
            } else {
                match first_bad_name(aux_names(h)) {
                    Some(n) => (r matches Err(Error::Data(m)) && m@ == "bad aux column name '"@ + n + "'"@),
                    None => match aux_rows_upto(recs, recs.len()) {
                        Err(e) => (r matches Err(Error::Data(m)) && m@ == e),
                        Ok((ts, vals)) => match tail {
                            Some(c) => (r matches Err(Error::Csv(m)) && m@ == c),
                            None => (r matches Ok(tab) && tab@ == (ts, aux_names(h), vals)),
                        },
                    },
                }
            },
        },        r matches Ok(tab) ==> forall|j: int, k: int| 0 <= j < k < tab.times@.len() ==> tab.times@[j] < tab.times@[k],
{
    let (h, recs, tail) = match read_csv_table(text) {
        Err(e) => return Err(Error::Csv(e)),
        Ok(x) => x,
    };
    let ghost hv = field_views(h@);
    let ghost rv = record_views(recs@);
    if h.len() == 0 || !chars_eq_str(chars_of(h[0].as_str()).as_slice(), "time") {
        return Err(Error::Data(String::from_str("aux csv first column must be 'time'")));
    }
    assert(hv[0] == h@[0]@);
    let ghost tv0 = opt_view(tail);
    // column names
    let mut names: Vec<String> = Vec::new();
    let mut j: usize = 1;
    assert(aux_names(hv) =~= aux_names(hv).skip(0));
    while j < h.len()
        invariant
            1 <= j <= h.len(),
            hv == field_views(h@),
            csv_table(text@) == Ok::<(Seq<Seq<char>>, Seq<Seq<Seq<char>>>, Option<Seq<char>>), Seq<char>>((hv, rv, tv0)),
            hv.len() > 0 && hv[0] == "time"@,
            field_views(names@) == aux_names(hv).take(j - 1),
            first_bad_name(aux_names(hv)) == first_bad_name(aux_names(hv).skip(j - 1)),
        decreases h.len() - j,
    {
        let n = trim_str(h[j].as_str());
        let ghost an = aux_names(hv);
        assert(an[j - 1] == trim(h@[j as int]@));
        assert(an.skip(j - 1)[0] == an[j - 1]);
        if bad_name(&n) {
            let mut m = String::from_str("bad aux column name '");
            push_str(&mut m, n.as_str());
            push_str(&mut m, "'");
            return Err(Error::Data(m));
        }
        assert(an.skip(j - 1).drop_first() =~= an.skip(j as int));
        let ghost pre = field_views(names@);
        names.push(n);
        assert(field_views(names@) =~= pre.push(an[j - 1]));
        assert(an.take(j as int) =~= an.take(j - 1).push(an[j - 1]));
        j += 1;
    }
    proof {
        let an = aux_names(hv);
        assert(an.take(j - 1) =~= an);
        assert(an.skip(j - 1) =~= Seq::<Seq<char>>::empty());
    }
    // records
    let mut times: Vec<i64> = Vec::new();
    let mut rows: Vec<Vec<String>> = Vec::new();
    let mut i: usize = 0;
    assert(times@.map_values(|t: i64| t as int) =~= Seq::<int>::empty());
    assert(record_views(rows@) =~= Seq::<Seq<Seq<char>>>::empty());
    while i < recs.len()
        invariant
            i <= recs.len(),
            rv == record_views(recs@),
            csv_table(text@) == Ok::<(Seq<Seq<char>>, Seq<Seq<Seq<char>>>, Option<Seq<char>>), Seq<char>>((hv, rv, tv0)),
            tv0 == opt_view(tail),
            hv.len() > 0 && hv[0] == "time"@,
            first_bad_name(aux_names(hv)) is None,
            field_views(names@) == aux_names(hv),
            h@.len() >= 1,
            forall|k: int| 0 <= k < recs.len() ==> #[trigger] recs@[k]@.len() == h@.len(),
            aux_rows_upto(rv, i as nat) == Ok::<(Seq<int>, Seq<Seq<Seq<char>>>), Seq<char>>(
                (times@.map_values(|t: i64| t as int), record_views(rows@))),
        decreases recs.len() - i,
    {
        let rec = &recs[i];
        assert(rv[i as int] == field_views(rec@));
        assert(field_views(rec@)[0] == rec@[0]@);
        match aux_time(rec[0].as_str()) {
            None => {
                let mut m = String::from_str("bad aux time '");
                push_str(&mut m, rec[0].as_str());
                push_str(&mut m, "'");
                proof {
                    lemma_aux_err_sticks(rv, (i + 1) as nat, recs@.len(), m@);
                }
                return Err(Error::Data(m));
            },
            Some((t, shown)) => {
                let ghost tv = times@.map_values(|t: i64| t as int);
                if times.len() > 0 && times[times.len() - 1] >= t {
                    let mut m = String::from_str("aux non-increasing time at ");
                    push_str(&mut m, shown.as_str());
                    proof {
                        assert(tv.last() == times@.last() as int);
                        lemma_aux_err_sticks(rv, (i + 1) as nat, recs@.len(), m@);
                    }
                    return Err(Error::Data(m));
                }
                proof {
                    if times@.len() > 0 {
                        assert(tv.last() == times@.last() as int);
                    }
                }
                let vals = copy_cells(rec.as_slice(), 1);
                let ghost rpre = record_views(rows@);
                times.push(t);
                rows.push(vals);
                assert(times@.map_values(|t: i64| t as int) =~= tv.push(t as int));
                assert(record_views(rows@) =~= rpre.push(field_views(rec@).skip(1)));
            },
        }
        i += 1;
    }
    assert(rv.len() == recs@.len());
    proof {
        law_aux_rows(rv, recs@.len());
        let tv = times@.map_values(|t: i64| t as int);
        assert forall|j: int, k: int| 0 <= j < k < times@.len() implies times@[j] < times@[k] by {
            assert(tv[j] == times@[j] as int && tv[k] == times@[k] as int);
        }
    }
    match tail {
        Some(c) => Err(Error::Csv(c)),
        None => Ok(AuxTableText { times, names, rows }),
    }
}

} // verus!
