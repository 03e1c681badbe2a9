//! Time-varying universe membership: snapshots of the member symbols by
//! rebalance day. At a time `t` the members are those of the latest snapshot
//! on or before `t`'s day (point in time, not cumulative).
use vstd::prelude::*;
use crate::data::calendar::{parse_ymd, ymd_parse};
use crate::data::time::{date, date_of};
use crate::error::Error;
use crate::data::table::{csv_table, read_csv_table};
use crate::data::universe::{field_views, record_views};
use crate::text::{chars_eq_str, chars_of, lemma_lex_total, lemma_lex_transitive,
    lex_lt, push_str, str_lt, string_from_chars, trim, trim_chars};

verus! {

/// Member snapshots, ordered by day; each holds its symbols in ascending order.
#[derive(Debug)]
pub struct Membership {
    snapshots: Vec<(i64, Vec<String>)>,
}

/// The set of symbols of a list.
pub open spec fn symbol_set(v: Seq<String>) -> Set<Seq<char>> {
    Set::new(|s: Seq<char>| exists|i: int| 0 <= i < v.len() && #[trigger] v[i]@ == s)
}

/// Strictly increasing symbols.
pub open spec fn symbols_sorted(v: Seq<String>) -> bool {
    forall|i: int, j: int| 0 <= i < j < v.len() ==> lex_lt(#[trigger] v[i]@, #[trigger] v[j]@)
}

/// The records read in order, grouped by day: a map from day to member set,
/// or the message of the first record with a bad day or an empty symbol.
pub open spec fn membership_scan(recs: Seq<Seq<Seq<char>>>) -> Result<Map<int, Set<Seq<char>>>, Seq<char>>
    decreases recs.len(),
{
    if recs.len() == 0 {
        Ok(Map::empty())
    } else {
        match membership_scan(recs.drop_last()) {
            Err(e) => Err(e),
            Ok(m) => {
                let rec = recs.last();
                match ymd_parse(trim(rec[0])) {
                    Err(e) => Err("membership: bad date '"@ + rec[0] + "': "@ + e),
                    Ok(d) => {
                        let sym = trim(rec[1]);
                        if sym.len() == 0 {
                            Err("membership: empty symbol"@)
                        } else if m.dom().contains(d) {
                            Ok(m.insert(d, m[d].insert(sym)))
                        } else {
                            Ok(m.insert(d, Set::empty().insert(sym)))
                        }
                    },
                }
            },
        }
    }
}

/// The member set in effect on `day`: that of the latest snapshot on or
/// before it, `None` before the first.
pub open spec fn effective(m: Map<int, Set<Seq<char>>>, day: int) -> Option<Set<Seq<char>>> {
    if exists|d: int| #[trigger] m.dom().contains(d) && d <= day {
        let d = choose|d: int| #[trigger] m.dom().contains(d) && d <= day
            && forall|e: int| #[trigger] m.dom().contains(e) && e <= day ==> e <= d;
        Some(m[d])
    } else {
        None
    }
}

/// Adds `sym` to an ascending symbol list, keeping it ascending and free of repeats.
fn insert_symbol(v: Vec<String>, sym: String) -> (r: Vec<String>)
    requires
        symbols_sorted(v@),
    ensures
        symbols_sorted(r@),
        symbol_set(r@) == symbol_set(v@).insert(sym@),
{
    let mut j: usize = 0;
    while j < v.len() && str_lt(v[j].as_str(), sym.as_str())
        invariant
            j <= v.len(),
            forall|m: int| 0 <= m < j ==> lex_lt(#[trigger] v@[m]@, sym@),
        decreases v.len() - j,
    {
        j += 1;
    }
    if j < v.len() && chars_eq_str(chars_of(v[j].as_str()).as_slice(), sym.as_str()) {
        assert(symbol_set(v@).insert(sym@) =~= symbol_set(v@)) by {
            assert(v@[j as int]@ == sym@);
        }
        return v;
    }
    proof {
        if j < v.len() {
            lemma_lex_total(v@[j as int]@, sym@);
            assert forall|m: int| j <= m < v.len() implies lex_lt(sym@, #[trigger] v@[m]@) by {
                if m > j {
                    lemma_lex_transitive(sym@, v@[j as int]@, v@[m]@);
                }
            }
        }
    }
    let ghost old_v = v@;
    let mut r = v;
    r.insert(j, sym);
    proof {
        assert(r@ == old_v.insert(j as int, sym));
        assert forall|a: int, b: int| 0 <= a < b < r@.len() implies lex_lt(#[trigger] r@[a]@, #[trigger] r@[b]@) by {
            if a < j && b < j {
            } else if a < j && b == j {
            } else if a < j && b > j {
                assert(r@[b] == old_v[b - 1]);
                lemma_lex_transitive(r@[a]@, sym@, r@[b]@);
            } else if a == j {
                assert(r@[b] == old_v[b - 1]);
            } else {
                assert(r@[a] == old_v[a - 1] && r@[b] == old_v[b - 1]);
            }
        }
        assert forall|x: Seq<char>| #[trigger] symbol_set(r@).contains(x) <==> symbol_set(old_v).insert(sym@).contains(x) by {
            if symbol_set(r@).contains(x) {
                let k = choose|k: int| 0 <= k < r@.len() && #[trigger] r@[k]@ == x;
                if k < j {
                    assert(old_v[k]@ == x);
                } else if k > j {
                    assert(old_v[k - 1]@ == x);
                }
            }
            if symbol_set(old_v).contains(x) {
                let k = choose|k: int| 0 <= k < old_v.len() && #[trigger] old_v[k]@ == x;
                if k < j {
                    assert(r@[k]@ == x);
                } else {
                    assert(r@[k + 1]@ == x);
                }
            }
            if x == sym@ {
                assert(r@[j as int]@ == x);
            }
        }
        assert(symbol_set(r@) =~= symbol_set(old_v).insert(sym@));
    }
    r
}

impl Membership {
    /// Snapshot days strictly increase; each symbol list strictly increases.
    pub closed spec fn wf(&self) -> bool {
        &&& forall|i: int, j: int| 0 <= i < j < self.snapshots@.len() ==> #[trigger] self.snapshots@[i].0 < #[trigger] self.snapshots@[j].0
        &&& forall|i: int| 0 <= i < self.snapshots@.len() ==> symbols_sorted(#[trigger] self.snapshots@[i].1@)
    }

    /// The snapshots as a map from day to member set.
    pub closed spec fn view(&self) -> Map<int, Set<Seq<char>>> {
        Map::new(
            |d: int| exists|i: int| 0 <= i < self.snapshots@.len() && #[trigger] self.snapshots@[i].0 == d,
            |d: int| symbol_set(self.snapshots@[choose|i: int| 0 <= i < self.snapshots@.len() && #[trigger] self.snapshots@[i].0 == d].1@),
        )
    }

    proof fn lemma_view_at(&self, i: int)
        requires
            self.wf(),
            0 <= i < self.snapshots@.len(),
        ensures
            self.view().dom().contains(self.snapshots@[i].0 as int),
            self.view()[self.snapshots@[i].0 as int] == symbol_set(self.snapshots@[i].1@),
    {
        let d = self.snapshots@[i].0 as int;
        assert(self.snapshots@[i].0 == d);
        let k = choose|k: int| 0 <= k < self.snapshots@.len() && #[trigger] self.snapshots@[k].0 == d;
        if k < i {
            assert(self.snapshots@[k].0 < self.snapshots@[i].0);
        } else if k > i {
            assert(self.snapshots@[i].0 < self.snapshots@[k].0);
        }
    }

    proof fn lemma_effective(&self, i: int, d: int)
        requires
            self.wf(),
            0 <= i <= self.snapshots@.len(),
            forall|k: int| 0 <= k < i ==> #[trigger] self.snapshots@[k].0 <= d,
            i < self.snapshots@.len() ==> self.snapshots@[i].0 > d,
        ensures
            i == 0 ==> effective(self.view(), d) is None,
            i > 0 ==> effective(self.view(), d) == Some(symbol_set(self.snapshots@[i - 1].1@)),
    {
        let m = self.view();
        assert forall|k: int| i <= k < self.snapshots@.len() implies #[trigger] self.snapshots@[k].0 > d by {
            if k > i {
                assert(self.snapshots@[i].0 < self.snapshots@[k].0);
            }
        }
        if i == 0 {
            if exists|e: int| #[trigger] m.dom().contains(e) && e <= d {
                let e = choose|e: int| #[trigger] m.dom().contains(e) && e <= d;
                let k = choose|k: int| 0 <= k < self.snapshots@.len() && #[trigger] self.snapshots@[k].0 == e;
                assert(self.snapshots@[k].0 > d);
            }
        } else {
            let top = self.snapshots@[i - 1].0 as int;
            self.lemma_view_at(i - 1);
            assert(m.dom().contains(top) && top <= d);
            assert forall|e: int| #[trigger] m.dom().contains(e) && e <= d implies e <= top by {
                let k = choose|k: int| 0 <= k < self.snapshots@.len() && #[trigger] self.snapshots@[k].0 == e;
                if k > i - 1 {
                    assert(self.snapshots@[k].0 > d);
                } else if k < i - 1 {
                    assert(self.snapshots@[k].0 < self.snapshots@[i - 1].0);
                }
            }
            let c = choose|c: int| #[trigger] m.dom().contains(c) && c <= d
                && forall|e: int| #[trigger] m.dom().contains(e) && e <= d ==> e <= c;
            assert(c <= top && top <= c);
        }
    }

    proof fn lemma_view_is(&self, m: Map<int, Set<Seq<char>>>)
        requires
            self.wf(),
            forall|k: int| 0 <= k < self.snapshots@.len() ==> #[trigger] m.dom().contains(self.snapshots@[k].0 as int)
                && m[self.snapshots@[k].0 as int] == symbol_set(self.snapshots@[k].1@),
            forall|e: int| #[trigger] m.dom().contains(e) ==> exists|k: int| 0 <= k < self.snapshots@.len() && #[trigger] self.snapshots@[k].0 == e,
        ensures
            self.view() == m,
    {
        let v = self.view();
        assert forall|e: int| #[trigger] v.dom().contains(e) <==> m.dom().contains(e) by {
            if v.dom().contains(e) {
                let k = choose|k: int| 0 <= k < self.snapshots@.len() && #[trigger] self.snapshots@[k].0 == e;
                assert(m.dom().contains(self.snapshots@[k].0 as int));
            }
            if m.dom().contains(e) {
                let k = choose|k: int| 0 <= k < self.snapshots@.len() && #[trigger] self.snapshots@[k].0 == e;
                self.lemma_view_at(k);
            }
        }
        assert forall|e: int| #[trigger] v.dom().contains(e) implies v[e] == m[e] by {
            let k = choose|k: int| 0 <= k < self.snapshots@.len() && #[trigger] self.snapshots@[k].0 == e;
            self.lemma_view_at(k);
        }
        assert(v =~= m);
    }

    /// Adds `sym` to the snapshot of day `d`, creating the snapshot if needed.
    pub fn add_member(&mut self, d: i64, sym: String)
        requires
            old(self).wf(),
        ensures
            final(self).wf(),
            final(self).view() == if old(self).view().dom().contains(d as int) {
                old(self).view().insert(d as int, old(self).view()[d as int].insert(sym@))
            } else {
                old(self).view().insert(d as int, Set::empty().insert(sym@))
            },
    {
        let ghost m0 = self.view();
        let ghost s0 = self.snapshots@;
        let mut i: usize = 0;
        while i < self.snapshots.len() && self.snapshots[i].0 < d
            invariant
                i <= self.snapshots.len(),
                forall|k: int| 0 <= k < i ==> #[trigger] self.snapshots@[k].0 < d,
            decreases self.snapshots.len() - i,
        {
            i += 1;
        }
        proof {
            assert forall|k: int| i < k < s0.len() implies #[trigger] s0[k].0 > d by {
                assert(s0[i as int].0 < s0[k].0);
            }
        }
        if i < self.snapshots.len() && self.snapshots[i].0 == d {
            proof {
                self.lemma_view_at(i as int);
            }
            let (dd, syms) = self.snapshots.remove(i);
            let syms2 = insert_symbol(syms, sym);
            self.snapshots.insert(i, (dd, syms2));
            proof {
                let s1 = self.snapshots@;
                assert(s1 =~= s0.update(i as int, (dd, syms2)));
                let target = m0.insert(d as int, m0[d as int].insert(sym@));
                assert forall|a: int, b: int| 0 <= a < b < s1.len() implies #[trigger] s1[a].0 < #[trigger] s1[b].0 by {
                    assert(s0[a].0 < s0[b].0);
                }
                assert forall|k: int| 0 <= k < s1.len() implies symbols_sorted(#[trigger] s1[k].1@) by {
                    if k != i {
                        assert(symbols_sorted(s0[k].1@));
                    }
                }
                assert forall|k: int| 0 <= k < s1.len() implies #[trigger] target.dom().contains(s1[k].0 as int)
                    && target[s1[k].0 as int] == symbol_set(s1[k].1@) by {
                    if k != i {
                        self.lemma_view_at(k);
                        assert(s0[k].0 != d) by {
                            if k < i { assert(s0[k].0 < s0[i as int].0); } else { assert(s0[i as int].0 < s0[k].0); }
                        }
                        old(self).lemma_view_at(k);
                    }
                }
                assert forall|e: int| #[trigger] target.dom().contains(e) implies exists|k: int| 0 <= k < s1.len() && #[trigger] s1[k].0 == e by {
                    if e == d {
                        assert(s1[i as int].0 == e);
                    } else {
                        let k = choose|k: int| 0 <= k < s0.len() && #[trigger] s0[k].0 == e;
                        assert(s1[k].0 == e);
                    }
                }
                self.lemma_view_is(target);
            }
        } else {
            let mut one: Vec<String> = Vec::new();
            one.push(sym);
            self.snapshots.insert(i, (d, one));
            proof {
                let s1 = self.snapshots@;
                assert(s1 =~= s0.insert(i as int, (d, one)));
                let target = m0.insert(d as int, Set::empty().insert(sym@));
                assert(!m0.dom().contains(d as int)) by {
                    if m0.dom().contains(d as int) {
                        let k = choose|k: int| 0 <= k < s0.len() && #[trigger] s0[k].0 == d as int;
                        if k < i {} else if k > i {} else {}
                    }
                }
                assert forall|a: int, b: int| 0 <= a < b < s1.len() implies #[trigger] s1[a].0 < #[trigger] s1[b].0 by {
                    if a < i && b < i {
                        assert(s0[a].0 < s0[b].0);
                    } else if a < i && b > i {
                        assert(s0[a].0 < s0[b - 1].0);
                    } else if a > i {
                        assert(s0[a - 1].0 < s0[b - 1].0);
                    } else if a == i {
                        assert(s1[b] == s0[b - 1]);
                    }
                }
                assert forall|k: int| 0 <= k < s1.len() implies symbols_sorted(#[trigger] s1[k].1@) by {
                    if k < i {
                        assert(symbols_sorted(s0[k].1@));
                    } else if k > i {
                        assert(s1[k] == s0[k - 1]);
                        assert(symbols_sorted(s0[k - 1].1@));
                    }
                }
                assert(symbol_set(one@) =~= Set::empty().insert(sym@)) by {
                    assert(one@[0]@ == sym@);
                }
                assert forall|k: int| 0 <= k < s1.len() implies #[trigger] target.dom().contains(s1[k].0 as int)
                    && target[s1[k].0 as int] == symbol_set(s1[k].1@) by {
                    if k < i {
                        old(self).lemma_view_at(k);
                    } else if k > i {
                        assert(s1[k] == s0[k - 1]);
                        old(self).lemma_view_at(k - 1);
                    }
                }
                assert forall|e: int| #[trigger] target.dom().contains(e) implies exists|k: int| 0 <= k < s1.len() && #[trigger] s1[k].0 == e by {
                    if e == d {
                        assert(s1[i as int].0 == e);
                    } else {
                        let k = choose|k: int| 0 <= k < s0.len() && #[trigger] s0[k].0 == e;
                        if k < i {
                            assert(s1[k].0 == e);
                        } else {
                            assert(s1[k + 1].0 == e);
                        }
                    }
                }
                self.lemma_view_is(target);
            }
        }
    }

    /// The membership with no snapshot.
    pub fn new() -> (m: Self)
        ensures
            m.wf(),
            m.view() == Map::<int, Set<Seq<char>>>::empty(),
    {
        let m = Membership { snapshots: Vec::new() };
        assert(m.view() =~= Map::<int, Set<Seq<char>>>::empty());
        m
    }

    /// No snapshot at all.
    pub fn is_empty(&self) -> (b: bool)
        ensures
            b == (self.view().dom() =~= Set::<int>::empty()),
    {
        if self.snapshots.len() == 0 {
            assert(self.view().dom() =~= Set::<int>::empty());
            true
        } else {
            assert(self.view().dom().contains(self.snapshots@[0].0 as int)) by {
                assert(self.snapshots@[0].0 == self.snapshots@[0].0 as int);
            }
            false
        }
    }

    /// The member symbols (in ascending order) in effect at timestamp `t`: the
    /// latest snapshot on or before `t`'s day; `None` before the first snapshot.
    pub fn effective_at(&self, t: i64) -> (r: Option<&Vec<String>>)
        requires
            self.wf(),
        ensures
            match r {
                None => effective(self.view(), date_of(t as int)) is None,
                Some(v) => effective(self.view(), date_of(t as int)) == Some(symbol_set(v@))
                    && symbols_sorted(v@),
            },
    {
        let d = date(t);
        let mut i: usize = 0;
        while i < self.snapshots.len() && self.snapshots[i].0 <= d
            invariant
                i <= self.snapshots.len(),
                forall|k: int| 0 <= k < i ==> #[trigger] self.snapshots@[k].0 <= d,
            decreases self.snapshots.len() - i,
        {
            i += 1;
        }
        proof {
            self.lemma_effective(i as int, d as int);
        }
        if i == 0 {
            None
        } else {
            Some(&self.snapshots[i - 1].1)
        }
    }
}

/// The views of strings.
pub open spec fn cell_views(r: Seq<String>) -> Seq<Seq<char>> {
    r.map_values(|f: String| f@)
}

/// The views of records.
pub open spec fn row_views(rs: Seq<Vec<String>>) -> Seq<Seq<Seq<char>>> {
    rs.map_values(|r: Vec<String>| cell_views(r@))
}

/// The header names `date,symbol` first.
pub open spec fn membership_header_ok(h: Seq<Seq<char>>) -> bool {
    h.len() >= 2 && h[0] == "date"@ && h[1] == "symbol"@
}

proof fn lemma_scan_err_sticks(recs: Seq<Seq<Seq<char>>>, i: int, e: Seq<char>)
    requires
        0 <= i <= recs.len(),
        membership_scan(recs.take(i)) == Err::<Map<int, Set<Seq<char>>>, Seq<char>>(e),
    ensures
        membership_scan(recs) == Err::<Map<int, Set<Seq<char>>>, Seq<char>>(e),
    decreases recs.len() - i,
{
    if i == recs.len() {
        assert(recs.take(i) =~= recs);
    } else {
        assert(recs.take(i + 1).drop_last() =~= recs.take(i));
        lemma_scan_err_sticks(recs, i + 1, e);
    }
}

fn trimmed(s: &String) -> (t: String)
    ensures
        t@ == trim(s@),
{
    let cs = chars_of(s.as_str());
    let tc = trim_chars(cs.as_slice());
    string_from_chars(tc.as_slice())
}

impl Membership {
    /// Builds the membership from a long-format CSV's header (`date,symbol`)
    /// and records (the CSV reader gives every record as many fields as the
    /// header). Days are `YYYY-MM-DD`; rows of one day form one snapshot.
    pub fn from_records(headers: &[String], records: &[Vec<String>]) -> (r: Result<Membership, Error>)
        requires
            forall|i: int| 0 <= i < records.len() ==> #[trigger] records@[i]@.len() >= headers@.len(),
        ensures
            !membership_header_ok(cell_views(headers@)) ==> (r matches Err(Error::Data(m))
                && m@ == "membership csv must have columns: date,symbol"@),
            membership_header_ok(cell_views(headers@)) ==> match membership_scan(row_views(records@)) {
                Ok(map) => (r matches Ok(mem) && mem.wf() && mem.view() == map),
                Err(e) => (r matches Err(Error::Data(m)) && m@ == e),
            },
    {
        let ghost recs = row_views(records@);
        if headers.len() < 2 || !chars_eq_str(chars_of(headers[0].as_str()).as_slice(), "date")
            || !chars_eq_str(chars_of(headers[1].as_str()).as_slice(), "symbol") {
            return Err(Error::Data(String::from_str("membership csv must have columns: date,symbol")));
        }
        let mut mem = Membership::new();
        let mut i: usize = 0;
        assert(recs.take(0) =~= Seq::<Seq<Seq<char>>>::empty());
        while i < records.len()
            invariant
                i <= records.len(),
                recs == row_views(records@),
                membership_header_ok(cell_views(headers@)),
                forall|k: int| 0 <= k < records.len() ==> #[trigger] records@[k]@.len() >= headers@.len(),
                mem.wf(),
                membership_scan(recs.take(i as int)) == Ok::<Map<int, Set<Seq<char>>>, Seq<char>>(mem.view()),
            decreases records.len() - i,
        {
            let rec = &records[i];
            let ghost rv = recs[i as int];
            assert(rv == cell_views(rec@));
            assert(recs.take(i + 1).drop_last() =~= recs.take(i as int));
            assert(recs.take(i + 1).last() == rv);
            let ds = trimmed(&rec[0]);
            match parse_ymd(ds.as_str()) {
                Err(e) => {
                    let mut msg = String::from_str("membership: bad date '");
                    push_str(&mut msg, rec[0].as_str());
                    push_str(&mut msg, "': ");
                    push_str(&mut msg, e.as_str());
                    proof {
                        lemma_scan_err_sticks(recs, i + 1, msg@);
                    }
                    return Err(Error::Data(msg));
                },
                Ok(d) => {
                    let sym = trimmed(&rec[1]);
                    if sym.as_str().is_empty() {
                        proof {
                            reveal_strlit("membership: empty symbol");
                            lemma_scan_err_sticks(recs, i + 1, "membership: empty symbol"@);
                        }
                        return Err(Error::Data(String::from_str("membership: empty symbol")));
                    }
                    mem.add_member(d as i64, sym);
                },
            }
            i += 1;
        }
        assert(recs.take(records.len() as int) =~= recs);
        Ok(mem)
    }
}

impl Membership {
    /// Reads the membership from the text of its CSV file: the text is read
    /// with the CSV reader (its errors come back as `Error::Csv`), then the
    /// header and records are checked and grouped as `from_records` does. A
    /// record error of the reader comes back after the records before it
    /// were accepted.
    pub fn from_csv_text(text: &str) -> (r: Result<Membership, Error>)
        ensures
            match csv_table(text@) {
                Err(e) => (r matches Err(Error::Csv(m)) && m@ == e),
                Ok((h, recs, tail)) => {
                    &&& !membership_header_ok(h) ==> (r matches Err(Error::Data(m))
                        && m@ == "membership csv must have columns: date,symbol"@)
                    &&& membership_header_ok(h) ==> match membership_scan(recs) {
                        Err(e) => (r matches Err(Error::Data(m)) && m@ == e),
                        Ok(map) => match tail {
                            Some(c) => (r matches Err(Error::Csv(m)) && m@ == c),
                            None => (r matches Ok(mem) && mem.wf() && mem.view() == map),
                        },
                    }
                },
            },
    {
        match read_csv_table(text) {
            Err(e) => Err(Error::Csv(e)),
            Ok((h, recs, tail)) => {
                proof {
                    assert(cell_views(h@) =~= field_views(h@));
                    assert forall|i: int| 0 <= i < recs.len() implies
                        #[trigger] row_views(recs@)[i] == record_views(recs@)[i] by {
                        assert(cell_views(recs@[i]@) =~= field_views(recs@[i]@));
                    }
                    assert(row_views(recs@) =~= record_views(recs@));
                }
                match Membership::from_records(h.as_slice(), recs.as_slice()) {
                    Err(e) => Err(e),
                    Ok(mem) => match tail {
                        Some(c) => Err(Error::Csv(c)),
                        None => Ok(mem),
                    },
                }
            },
        }
    }
}

/// Law: a membership read from records holds, on each day, exactly the
/// symbols of that day's records: every record's symbol is a member on its
/// day, and every member on a day comes from a record of that day.
pub proof fn law_membership_from_records(recs: Seq<Seq<Seq<char>>>)
    requires
        membership_scan(recs) is Ok,
    ensures
        ({
            let m = membership_scan(recs)->Ok_0;
            &&& forall|i: int| 0 <= i < recs.len() ==> match ymd_parse(trim(#[trigger] recs[i][0])) {
                Ok(d) => m.dom().contains(d) && m[d].contains(trim(recs[i][1])),
                Err(_) => false,
            }
            &&& forall|d: int, sym: Seq<char>| #[trigger] m.dom().contains(d) && #[trigger] m[d].contains(sym)
                ==> exists|i: int| 0 <= i < recs.len() && ymd_parse(trim(#[trigger] recs[i][0])) == Ok::<int, Seq<char>>(d)
                    && trim(recs[i][1]) == sym
        }),
    decreases recs.len(),
{
    if recs.len() > 0 {
        let prev = recs.drop_last();
        law_membership_from_records(prev);
        let m0 = membership_scan(prev)->Ok_0;
        let m = membership_scan(recs)->Ok_0;
        let rec = recs.last();
        let d = ymd_parse(trim(rec[0]))->Ok_0;
        let sym = trim(rec[1]);
        assert(recs[recs.len() - 1] == rec);
        assert forall|i: int| 0 <= i < recs.len() implies match ymd_parse(trim(#[trigger] recs[i][0])) {
            Ok(d2) => m.dom().contains(d2) && m[d2].contains(trim(recs[i][1])),
            Err(_) => false,
        } by {
            if i < recs.len() - 1 {
                assert(prev[i] == recs[i]);
                let d2 = ymd_parse(trim(recs[i][0]))->Ok_0;
                assert(m0.dom().contains(d2) && m0[d2].contains(trim(recs[i][1])));
            }
        }
        assert forall|d2: int, s2: Seq<char>| #[trigger] m.dom().contains(d2) && #[trigger] m[d2].contains(s2)
            implies exists|i: int| 0 <= i < recs.len() && ymd_parse(trim(#[trigger] recs[i][0])) == Ok::<int, Seq<char>>(d2)
                && trim(recs[i][1]) == s2 by {
            if d2 == d && s2 == sym {
                assert(ymd_parse(trim(recs[recs.len() - 1][0])) == Ok::<int, Seq<char>>(d2));
            } else {
                assert(m0.dom().contains(d2) && m0[d2].contains(s2));
                let i = choose|i: int| 0 <= i < prev.len() && ymd_parse(trim(#[trigger] prev[i][0])) == Ok::<int, Seq<char>>(d2)
                    && trim(prev[i][1]) == s2;
                assert(recs[i] == prev[i]);
            }
        }
    }
}

} // verus!
