//! The universe table: one row per symbol with the paths of its primary and
//! context bar files.
use vstd::prelude::*;
use crate::error::Error;
use crate::data::table::{csv_table, read_csv_table};
use crate::text::{chars_eq_str, chars_of, lemma_lex_irreflexive, lemma_lex_total, lemma_lex_transitive,
    lex_lt, push_str, str_lt, string_from_chars, trim, trim_chars};

verus! {

/// One universe row: a symbol and its primary and context bar files (the
/// context file defaults to the primary one).
#[derive(Debug)]
pub struct UniverseEntry {
    pub symbol: String,
    pub primary: String,
    pub context: String,
}

/// A universe row as (symbol, primary, context).
pub type EntryV = (Seq<char>, Seq<char>, Seq<char>);

impl View for UniverseEntry {
    type V = EntryV;

    open spec fn view(&self) -> EntryV {
        (self.symbol@, self.primary@, self.context@)
    }
}

/// The header names `symbol,primary` first.
pub open spec fn universe_header_ok(h: Seq<Seq<char>>) -> bool {
    h.len() >= 2 && h[0] == "symbol"@ && h[1] == "primary"@
}

/// The third column is `context`.
pub open spec fn universe_has_context(h: Seq<Seq<char>>) -> bool {
    h.len() >= 3 && h[2] == "context"@
}

/// The entry a record gives: fields trimmed, an empty or absent context
/// replaced by the primary path.
pub open spec fn universe_entry(has_ctx: bool, rec: Seq<Seq<char>>) -> EntryV {
    let p = trim(rec[1]);
    let c = if has_ctx && trim(rec[2]).len() > 0 { trim(rec[2]) } else { p };
    (trim(rec[0]), p, c)
}

/// Whether some entry has the symbol.
pub open spec fn has_symbol(es: Seq<EntryV>, sym: Seq<char>) -> bool {
    exists|i: int| 0 <= i < es.len() && #[trigger] es[i].0 == sym
}

/// The records read in order: their entries, or the message of the first
/// record with an empty or repeated symbol.
pub open spec fn universe_scan(has_ctx: bool, recs: Seq<Seq<Seq<char>>>) -> Result<Seq<EntryV>, Seq<char>>
    decreases recs.len(),
{
    if recs.len() == 0 {
        Ok(Seq::empty())
    } else {
        match universe_scan(has_ctx, recs.drop_last()) {
            Err(e) => Err(e),
            Ok(es) => {
                let e = universe_entry(has_ctx, recs.last());
                if e.0.len() == 0 {
                    Err("universe: empty symbol"@)
                } else if has_symbol(es, e.0) {
                    Err("universe: duplicate symbol '"@ + e.0 + "'"@)
                } else {
                    Ok(es.push(e))
                }
            },
        }
    }
}

/// Strictly increasing by symbol.
pub open spec fn sorted_by_symbol(es: Seq<EntryV>) -> bool {
    forall|i: int, j: int| 0 <= i < j < es.len() ==> lex_lt(#[trigger] es[i].0, #[trigger] es[j].0)
}

/// `out` holds exactly the entries of `es`, one each, ordered by symbol.
pub open spec fn sorted_arrangement(out: Seq<EntryV>, es: Seq<EntryV>) -> bool {
    &&& out.len() == es.len()
    &&& sorted_by_symbol(out)
    &&& forall|j: int| 0 <= j < out.len() ==> es.contains(#[trigger] out[j])
    &&& forall|i: int| 0 <= i < es.len() ==> out.contains(#[trigger] es[i])
}

/// The views of strings.
pub open spec fn field_views(r: Seq<String>) -> Seq<Seq<char>> {
    r.map_values(|f: String| f@)
}

/// The views of records.
pub open spec fn record_views(rs: Seq<Vec<String>>) -> Seq<Seq<Seq<char>>> {
    rs.map_values(|r: Vec<String>| field_views(r@))
}

/// The views of entries.
pub open spec fn entry_views(es: Seq<UniverseEntry>) -> Seq<EntryV> {
    es.map_values(|e: UniverseEntry| e@)
}

proof fn lemma_scan_err_sticks(has_ctx: bool, recs: Seq<Seq<Seq<char>>>, i: int, e: Seq<char>)
    requires
        0 <= i <= recs.len(),
        universe_scan(has_ctx, recs.take(i)) == Err::<Seq<EntryV>, Seq<char>>(e),
    ensures
        universe_scan(has_ctx, recs) == Err::<Seq<EntryV>, Seq<char>>(e),
    decreases recs.len() - i,
{
    if i == recs.len() {
        assert(recs.take(i) =~= recs);
    } else {
        assert(recs.take(i + 1).drop_last() =~= recs.take(i));
        lemma_scan_err_sticks(has_ctx, recs, i + 1, e);
    }
}

fn trimmed(s: &String) -> (t: String)
    ensures
        t@ == trim(s@),
{
    let cs = chars_of(s.as_str());
    let tc = trim_chars(cs.as_slice());
    string_from_chars(tc.as_slice())
}

fn copy_string(s: &String) -> (t: String)
    ensures
        t@ == s@,
{
    String::from_str(s.as_str())
}

/// Index at which an entry with symbol `sym`, absent from the sorted `out`,
/// keeps `out` sorted.
fn insertion_point(out: &Vec<UniverseEntry>, sym: &String) -> (j: usize)
    requires
        sorted_by_symbol(entry_views(out@)),
        !has_symbol(entry_views(out@), sym@),
    ensures
        j <= out.len(),
        forall|m: int| 0 <= m < j ==> lex_lt(#[trigger] out@[m].symbol@, sym@),
        forall|m: int| j <= m < out.len() ==> lex_lt(sym@, #[trigger] out@[m].symbol@),
{
    let ghost ev = entry_views(out@);
    let mut j: usize = 0;
    while j < out.len() && str_lt(out[j].symbol.as_str(), sym.as_str())
        invariant
            j <= out.len(),
            ev == entry_views(out@),
            forall|m: int| 0 <= m < j ==> lex_lt(#[trigger] out@[m].symbol@, sym@),
        decreases out.len() - j,
    {
        j += 1;
    }
    proof {
        if j < out.len() {
            assert(ev[j as int].0 == out@[j as int].symbol@);
            assert(out@[j as int].symbol@ != sym@);
            lemma_lex_total(out@[j as int].symbol@, sym@);
            assert forall|m: int| j <= m < out.len() implies lex_lt(sym@, #[trigger] out@[m].symbol@) by {
                if m > j {
                    assert(lex_lt(ev[j as int].0, ev[m].0));
                    lemma_lex_transitive(sym@, out@[j as int].symbol@, out@[m].symbol@);
                }
            }
        }
    }
    j
}

/// Builds the universe from a CSV's header and records (the CSV reader gives
/// every record as many fields as the header). The header must start with
/// `symbol,primary`, optionally followed by `context`; fields are trimmed;
/// symbols must be non-empty and unique; an empty context falls back to the
/// primary path. The entries come back ordered by symbol.
pub fn universe_from_records(headers: &[String], records: &[Vec<String>]) -> (r: Result<Vec<UniverseEntry>, Error>)
    requires
        forall|i: int| 0 <= i < records.len() ==> #[trigger] records@[i]@.len() >= headers@.len(),
    ensures
        !universe_header_ok(field_views(headers@)) ==> (r matches Err(Error::Data(m))
            && m@ == "universe csv must start with columns: symbol,primary[,context]"@),
        universe_header_ok(field_views(headers@)) ==> match universe_scan(
            universe_has_context(field_views(headers@)),
            record_views(records@),
        ) {
            Ok(es) => (r matches Ok(out) && sorted_arrangement(entry_views(out@), es)),
            Err(e) => (r matches Err(Error::Data(m)) && m@ == e),
        },
{
    let ghost hv = field_views(headers@);
    let ghost recs = record_views(records@);
    if headers.len() < 2 || !chars_eq_str(chars_of(headers[0].as_str()).as_slice(), "symbol")
        || !chars_eq_str(chars_of(headers[1].as_str()).as_slice(), "primary") {
        return Err(Error::Data(String::from_str("universe csv must start with columns: symbol,primary[,context]")));
    }
    let has_ctx = headers.len() >= 3 && chars_eq_str(chars_of(headers[2].as_str()).as_slice(), "context");
    assert(has_ctx == universe_has_context(hv));
    let mut out: Vec<UniverseEntry> = Vec::new();
    let ghost mut es: Seq<EntryV> = Seq::empty();
    let mut i: usize = 0;
    assert(recs.take(0) =~= Seq::<Seq<Seq<char>>>::empty());
    while i < records.len()
        invariant
            i <= records.len(),
            recs == record_views(records@),
            hv == field_views(headers@),
            universe_header_ok(hv),
            has_ctx == universe_has_context(hv),
            forall|k: int| 0 <= k < records.len() ==> #[trigger] records@[k]@.len() >= headers@.len(),
            universe_scan(has_ctx, recs.take(i as int)) == Ok::<Seq<EntryV>, Seq<char>>(es),
            sorted_arrangement(entry_views(out@), es),
        decreases records.len() - i,
    {
        let rec = &records[i];
        let ghost rv = recs[i as int];
        assert(rv == field_views(rec@));
        assert(recs.take(i + 1).drop_last() =~= recs.take(i as int));
        assert(recs.take(i + 1).last() == rv);
        let symbol = trimmed(&rec[0]);
        let primary = trimmed(&rec[1]);
        let context = if has_ctx {
            let c = trimmed(&rec[2]);
            if c.as_str().is_empty() { copy_string(&primary) } else { c }
        } else {
            copy_string(&primary)
        };
        let ghost e: EntryV = (symbol@, primary@, context@);
        assert(e == universe_entry(has_ctx, rv));
        if symbol.as_str().is_empty() {
            proof {
                reveal_strlit("universe: empty symbol");
                lemma_scan_err_sticks(has_ctx, recs, i + 1, "universe: empty symbol"@);
            }
            return Err(Error::Data(String::from_str("universe: empty symbol")));
        }
        let ghost ov = entry_views(out@);
        let mut k: usize = 0;
        while k < out.len()
            invariant
                k <= out.len(),
                ov == entry_views(out@),
                sorted_arrangement(ov, es),
                hv == field_views(headers@),
                universe_header_ok(hv),
                has_ctx == universe_has_context(hv),
                i < records.len(),
                recs == record_views(records@),
                universe_scan(has_ctx, recs.take(i as int)) == Ok::<Seq<EntryV>, Seq<char>>(es),
                recs.take(i + 1).drop_last() == recs.take(i as int),
                recs.take(i + 1).last() == rv,
                e == universe_entry(has_ctx, rv),
                e.0 == symbol@,
                symbol@.len() > 0,
                forall|m: int| 0 <= m < k ==> #[trigger] ov[m].0 != symbol@,
            decreases out.len() - k,
        {
            let sc = chars_of(symbol.as_str());
            if chars_eq_str(sc.as_slice(), out[k].symbol.as_str()) {
                let mut msg = String::from_str("universe: duplicate symbol '");
                push_str(&mut msg, symbol.as_str());
                push_str(&mut msg, "'");
                proof {
                    assert(ov[k as int].0 == symbol@);
                    assert(es.contains(ov[k as int]));
                    let w = choose|w: int| 0 <= w < es.len() && es[w] == ov[k as int];
                    assert(has_symbol(es, symbol@));
                    lemma_scan_err_sticks(has_ctx, recs, i + 1, msg@);
                }
                return Err(Error::Data(msg));
            }
            k += 1;
        }
        assert(!has_symbol(es, symbol@)) by {
            if has_symbol(es, symbol@) {
                let w = choose|w: int| 0 <= w < es.len() && #[trigger] es[w].0 == symbol@;
                assert(ov.contains(es[w]));
                let m = choose|m: int| 0 <= m < ov.len() && ov[m] == es[w];
                assert(ov[m].0 != symbol@);
            }
        }
        assert(!has_symbol(ov, symbol@)) by {
            if has_symbol(ov, symbol@) {
                let m = choose|m: int| 0 <= m < ov.len() && #[trigger] ov[m].0 == symbol@;
                assert(ov[m].0 != symbol@);
            }
        }
        let j = insertion_point(&out, &symbol);
        out.insert(j, UniverseEntry { symbol, primary, context });
        proof {
            let nv = entry_views(out@);
            assert(nv =~= ov.insert(j as int, e));
            let nes = es.push(e);
            assert forall|a: int, b: int| 0 <= a < b < nv.len() implies lex_lt(#[trigger] nv[a].0, #[trigger] nv[b].0) by {
                if a < j && b < j {
                    assert(nv[a] == ov[a] && nv[b] == ov[b]);
                } else if a < j && b == j {
                    assert(nv[a] == ov[a]);
                    assert(lex_lt(out@[a].symbol@, e.0));
                } else if a < j && b > j {
                    assert(nv[a] == ov[a] && nv[b] == ov[b - 1]);
                } else if a == j {
                    assert(nv[b] == ov[b - 1]);
                    assert(lex_lt(e.0, out@[b].symbol@));
                } else {
                    assert(nv[a] == ov[a - 1] && nv[b] == ov[b - 1]);
                }
            }
            assert forall|m: int| 0 <= m < nv.len() implies nes.contains(#[trigger] nv[m]) by {
                if m < j {
                    assert(nv[m] == ov[m]);
                    let w = choose|w: int| 0 <= w < es.len() && es[w] == ov[m];
                    assert(nes[w] == es[w]);
                } else if m == j {
                    assert(nes[es.len() as int] == e);
                } else {
                    assert(nv[m] == ov[m - 1]);
                    let w = choose|w: int| 0 <= w < es.len() && es[w] == ov[m - 1];
                    assert(nes[w] == es[w]);
                }
            }
            assert forall|w: int| 0 <= w < nes.len() implies nv.contains(#[trigger] nes[w]) by {
                if w < es.len() {
                    assert(nes[w] == es[w]);
                    let m = choose|m: int| 0 <= m < ov.len() && ov[m] == es[w];
                    if m < j {
                        assert(nv[m] == ov[m]);
                    } else {
                        assert(nv[m + 1] == ov[m]);
                    }
                } else {
                    assert(nv[j as int] == e);
                }
            }
            es = nes;
        }
        i += 1;
    }
    assert(recs.take(records.len() as int) =~= recs);
    Ok(out)
}

/// The scan keeps one entry per record, in record order, each with a
/// non-empty symbol.
proof fn lemma_scan_entries(has_ctx: bool, recs: Seq<Seq<Seq<char>>>)
    requires
        universe_scan(has_ctx, recs) is Ok,
    ensures
        ({
            let es = universe_scan(has_ctx, recs)->Ok_0;
            &&& es.len() == recs.len()
            &&& forall|k: int| 0 <= k < recs.len() ==> #[trigger] es[k] == universe_entry(has_ctx, recs[k])
            &&& forall|k: int| 0 <= k < es.len() ==> (#[trigger] es[k]).0.len() > 0
        }),
    decreases recs.len(),
{
    if recs.len() > 0 {
        lemma_scan_entries(has_ctx, recs.drop_last());
        let es0 = universe_scan(has_ctx, recs.drop_last())->Ok_0;
        let es = universe_scan(has_ctx, recs)->Ok_0;
        assert(es == es0.push(universe_entry(has_ctx, recs.last())));
        assert forall|k: int| 0 <= k < recs.len() implies #[trigger] es[k] == universe_entry(has_ctx, recs[k]) by {
            if k < recs.len() - 1 {
                assert(recs.drop_last()[k] == recs[k]);
            }
        }
    }
}

/// Law: a universe read without error has non-empty, unique symbols in
/// strictly ascending order; it holds one entry per record, and each entry
/// is its record's fields trimmed, with the context equal to the primary
/// path when the context column is absent or blank.
pub proof fn law_universe_entries(has_ctx: bool, recs: Seq<Seq<Seq<char>>>, out: Seq<EntryV>)
    requires
        universe_scan(has_ctx, recs) is Ok,
        sorted_arrangement(out, universe_scan(has_ctx, recs)->Ok_0),
    ensures
        out.len() == recs.len(),
        forall|i: int| 0 <= i < out.len() ==> (#[trigger] out[i]).0.len() > 0,
        forall|i: int, j: int| 0 <= i < j < out.len() ==> lex_lt(#[trigger] out[i].0, #[trigger] out[j].0),
        forall|i: int, j: int| 0 <= i < out.len() && 0 <= j < out.len() && i != j
            ==> #[trigger] out[i].0 != #[trigger] out[j].0,
        forall|i: int| #![trigger out[i]] 0 <= i < out.len() ==> exists|k: int| #![trigger recs[k]]
            0 <= k < recs.len()
            && out[i].0 == trim(recs[k][0])
            && out[i].1 == trim(recs[k][1])
            && out[i].2 == (if has_ctx && trim(recs[k][2]).len() > 0 { trim(recs[k][2]) } else { trim(recs[k][1]) }),
        forall|k: int| 0 <= k < recs.len() ==> out.contains(universe_entry(has_ctx, #[trigger] recs[k])),
{
    lemma_scan_entries(has_ctx, recs);
    let es = universe_scan(has_ctx, recs)->Ok_0;
    assert forall|i: int| 0 <= i < out.len() implies (#[trigger] out[i]).0.len() > 0 by {
        assert(es.contains(out[i]));
        let w = choose|w: int| 0 <= w < es.len() && es[w] == out[i];
        assert(es[w].0.len() > 0);
    }
    assert forall|i: int, j: int| 0 <= i < out.len() && 0 <= j < out.len() && i != j
        implies #[trigger] out[i].0 != #[trigger] out[j].0 by {
        lemma_lex_irreflexive(out[i].0);
        if i < j {
            assert(lex_lt(out[i].0, out[j].0));
        } else {
            assert(lex_lt(out[j].0, out[i].0));
        }
    }
    assert forall|i: int| #![trigger out[i]] 0 <= i < out.len() implies exists|k: int| #![trigger recs[k]]
        0 <= k < recs.len()
        && out[i].0 == trim(recs[k][0])
        && out[i].1 == trim(recs[k][1])
        && out[i].2 == (if has_ctx && trim(recs[k][2]).len() > 0 { trim(recs[k][2]) } else { trim(recs[k][1]) }) by {
        assert(es.contains(out[i]));
        let w = choose|w: int| 0 <= w < es.len() && es[w] == out[i];
        assert(es[w] == universe_entry(has_ctx, recs[w]));
    }
    assert forall|k: int| 0 <= k < recs.len() implies out.contains(universe_entry(has_ctx, #[trigger] recs[k])) by {
        assert(es[k] == universe_entry(has_ctx, recs[k]));
        assert(out.contains(es[k]));
    }
}

/// Every record's trimmed symbol is non-empty and no symbol repeats.
pub open spec fn universe_symbols_ok(recs: Seq<Seq<Seq<char>>>) -> bool {
    &&& forall|k: int| 0 <= k < recs.len() ==> trim((#[trigger] recs[k])[0]).len() > 0
    &&& forall|j: int, k: int| 0 <= j < k < recs.len() ==> trim((#[trigger] recs[j])[0]) != trim((#[trigger] recs[k])[0])
}

/// Law: the universe records are accepted exactly when every trimmed symbol
/// is non-empty and no symbol repeats (the header being right); otherwise the
/// read fails with the first empty or repeated symbol.
pub proof fn law_universe_scan_ok_iff(has_ctx: bool, recs: Seq<Seq<Seq<char>>>)
    ensures
        universe_scan(has_ctx, recs) is Ok <==> universe_symbols_ok(recs),
    decreases recs.len(),
{
    if recs.len() > 0 {
        let prev = recs.drop_last();
        let n = recs.len() - 1;
        law_universe_scan_ok_iff(has_ctx, prev);
        assert(recs.last() == recs[n]);
        if universe_symbols_ok(recs) {
            assert forall|k: int| 0 <= k < prev.len() implies trim((#[trigger] prev[k])[0]).len() > 0 by {
                assert(prev[k] == recs[k]);
            }
            assert forall|j: int, k: int| 0 <= j < k < prev.len() implies trim((#[trigger] prev[j])[0]) != trim((#[trigger] prev[k])[0]) by {
                assert(prev[j] == recs[j] && prev[k] == recs[k]);
            }
            lemma_scan_entries(has_ctx, prev);
            let es = universe_scan(has_ctx, prev)->Ok_0;
            let e = universe_entry(has_ctx, recs.last());
            assert(trim(recs[n][0]).len() > 0);
            if has_symbol(es, e.0) {
                let w = choose|w: int| 0 <= w < es.len() && #[trigger] es[w].0 == e.0;
                assert(es[w] == universe_entry(has_ctx, prev[w]));
                assert(prev[w] == recs[w]);
                assert(trim(recs[w][0]) != trim(recs[n][0]));
            }
        }
        if universe_scan(has_ctx, recs) is Ok {
            assert(universe_scan(has_ctx, prev) is Ok);
            lemma_scan_entries(has_ctx, prev);
            let es = universe_scan(has_ctx, prev)->Ok_0;
            let e = universe_entry(has_ctx, recs.last());
            assert(!has_symbol(es, e.0));
            assert forall|k: int| 0 <= k < recs.len() implies trim((#[trigger] recs[k])[0]).len() > 0 by {
                if k < n {
                    assert(prev[k] == recs[k]);
                }
            }
            assert forall|j: int, k: int| 0 <= j < k < recs.len() implies trim((#[trigger] recs[j])[0]) != trim((#[trigger] recs[k])[0]) by {
                assert(prev[j] == recs[j]);
                if k < n {
                    assert(prev[k] == recs[k]);
                } else {
                    assert(es[j] == universe_entry(has_ctx, prev[j]));
                    assert(es[j].0 != e.0);
                }
            }
        }
    }
}

/// Reads the universe from the text of its CSV file: the text is read with
/// the CSV reader (its errors come back as `Error::Csv`), then the header and
/// records are checked and arranged as `universe_from_records` does. A record
/// error of the reader comes back after the records before it were accepted.
pub fn universe_from_csv_text(text: &str) -> (r: Result<Vec<UniverseEntry>, Error>)
    ensures
        match csv_table(text@) {
            Err(e) => (r matches Err(Error::Csv(m)) && m@ == e),
            Ok((h, recs, tail)) => {
                &&& !universe_header_ok(h) ==> (r matches Err(Error::Data(m))
                    && m@ == "universe csv must start with columns: symbol,primary[,context]"@)
                &&& universe_header_ok(h) ==> match universe_scan(universe_has_context(h), recs) {
                    Err(e) => (r matches Err(Error::Data(m)) && m@ == e),
                    Ok(es) => match tail {
                        Some(c) => (r matches Err(Error::Csv(m)) && m@ == c),
                        None => (r matches Ok(out) && sorted_arrangement(entry_views(out@), es)),
                    },
                }
            },
        },
{
    match read_csv_table(text) {
        Err(e) => Err(Error::Csv(e)),
        Ok((h, recs, tail)) => {
            match universe_from_records(h.as_slice(), recs.as_slice()) {
                Err(e) => Err(e),
                Ok(out) => match tail {
                    Some(c) => Err(Error::Csv(c)),
                    None => Ok(out),
                },
            }
        },
    }
}

} // verus!
