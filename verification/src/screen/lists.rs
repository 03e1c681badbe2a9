//! The sector map and symbol list files: CSV text with a header line, read
//! line by line; fields are trimmed, blank lines and incomplete rows skipped.
use vstd::prelude::*;
use crate::text::{chars_eq_str, chars_of, split_char, split_from, string_from_chars, string_views, trim, trim_chars};

verus! {

/// Association-list update: the value of key `k` replaced in place, or the
/// pair appended when `k` is new.
pub open spec fn assoc_put(a: Seq<(Seq<char>, Seq<char>)>, k: Seq<char>, v: Seq<char>) -> Seq<(Seq<char>, Seq<char>)> {
    let i = first_key(a, k);
    if i < a.len() {
        a.update(i, (k, v))
    } else {
        a.push((k, v))
    }
}

/// Index of the first pair with key `k`, scanning from the front.
pub open spec fn first_key_from(a: Seq<(Seq<char>, Seq<char>)>, k: Seq<char>, i: int) -> int
    decreases a.len() - i,
{
    if i < 0 || i >= a.len() {
        a.len() as int
    } else if a[i].0 == k {
        i
    } else {
        first_key_from(a, k, i + 1)
    }
}

/// Index of the first pair with key `k` (the length when there is none).
pub open spec fn first_key(a: Seq<(Seq<char>, Seq<char>)>, k: Seq<char>) -> int {
    first_key_from(a, k, 0)
}

/// The (symbol, industry) of a sector-map line: its first two fields,
/// trimmed, when both are non-empty.
pub open spec fn sector_entry(line: Seq<char>) -> Option<(Seq<char>, Seq<char>)> {
    let f = split_from(line, ',', 0);
    if f.len() >= 2 && trim(f[0]).len() > 0 && trim(f[1]).len() > 0 {
        Some((trim(f[0]), trim(f[1])))
    } else {
        None
    }
}

/// The sector map built from data lines: later lines override earlier ones.
pub open spec fn sector_pairs(lines: Seq<Seq<char>>) -> Seq<(Seq<char>, Seq<char>)>
    decreases lines.len(),
{
    if lines.len() == 0 {
        Seq::empty()
    } else {
        let a = sector_pairs(lines.drop_last());
        match sector_entry(lines.last()) {
            Some(e) => assoc_put(a, e.0, e.1),
            None => a,
        }
    }
}

/// The symbol of a symbol-list line: its first field, trimmed, when non-empty.
pub open spec fn symbol_entry(line: Seq<char>) -> Option<Seq<char>> {
    let f0 = trim(split_from(line, ',', 0)[0]);
    if f0.len() > 0 { Some(f0) } else { None }
}

/// The distinct symbols of data lines, in order of first appearance.
pub open spec fn symbol_list(lines: Seq<Seq<char>>) -> Seq<Seq<char>>
    decreases lines.len(),
{
    if lines.len() == 0 {
        Seq::empty()
    } else {
        let a = symbol_list(lines.drop_last());
        match symbol_entry(lines.last()) {
            Some(s) => if a.contains(s) { a } else { a.push(s) },
            None => a,
        }
    }
}

/// The data lines of a file's text: every line after the header.
pub open spec fn data_lines(text: Seq<char>) -> Seq<Seq<char>> {
    split_from(text, '\n', 0).drop_first()
}

/// The views of (key, value) string pairs.
pub open spec fn pair_views(v: Seq<(String, String)>) -> Seq<(Seq<char>, Seq<char>)> {
    v.map_values(|p: (String, String)| (p.0@, p.1@))
}

fn trimmed(s: &String) -> (t: String)
    ensures
        t@ == trim(s@),
{
    let cs = chars_of(s.as_str());
    let tc = trim_chars(cs.as_slice());
    string_from_chars(tc.as_slice())
}

proof fn lemma_split_nonempty(s: Seq<char>, c: char)
    ensures
        split_from(s, c, 0).len() >= 1,
{
    let k = crate::text::first_index_from(s, c, 0);
    crate::text::lemma_first_index_bounds(s, c, 0);
}

/// Parses a sector-map file's text (`symbol,industry` after a header line)
/// into (symbol, industry) pairs with distinct symbols; a later line for a
/// symbol overrides an earlier one.
pub fn parse_sector_map(text: &str) -> (m: Vec<(String, String)>)
    ensures
        pair_views(m@) == sector_pairs(data_lines(text@)),
{
    let lines = split_char(text, '\n');
    let ghost ls = string_views(lines@);
    proof {
        lemma_split_nonempty(text@, '\n');
    }
    let mut m: Vec<(String, String)> = Vec::new();
    let mut i: usize = 1;
    assert(ls.drop_first().take(0) =~= Seq::<Seq<char>>::empty());
    while i < lines.len()
        invariant
            1 <= i <= lines.len(),
            ls == string_views(lines@),
            ls == split_from(text@, '\n', 0),
            pair_views(m@) == sector_pairs(ls.drop_first().take(i - 1)),
        decreases lines.len() - i,
    {
        let ghost line = ls[i as int];
        assert(ls.drop_first().take(i as int).drop_last() =~= ls.drop_first().take(i - 1));
        assert(ls.drop_first().take(i as int).last() == line);
        let fields = split_char(lines[i].as_str(), ',');
        proof {
            lemma_split_nonempty(line, ',');
        }
        if fields.len() >= 2 {
            let sym = trimmed(&fields[0]);
            let ind = trimmed(&fields[1]);
            if !sym.as_str().is_empty() && !ind.as_str().is_empty() {
                let ghost before = pair_views(m@);
                let sc = chars_of(sym.as_str());
                let mut j: usize = 0;
                while j < m.len() && !chars_eq_str(sc.as_slice(), m[j].0.as_str())
                    invariant
                        j <= m.len(),
                        before == pair_views(m@),
                        sc@ == sym@,
                        first_key_from(before, sym@, j as int) == first_key(before, sym@),
                    decreases m.len() - j,
                {
                    j += 1;
                }
                if j < m.len() {
                    m.set(j, (sym, ind));
                } else {
                    m.push((sym, ind));
                }
                assert(pair_views(m@) =~= assoc_put(before, trim(string_views(fields@)[0]), trim(string_views(fields@)[1])));
            }
        }
        i += 1;
    }
    assert(ls.drop_first().take(lines.len() - 1) =~= ls.drop_first());
    m
}

/// Parses a symbol-list file's text (symbol in the first column after a
/// header line) into its distinct symbols, in order of first appearance.
pub fn parse_symbol_set(text: &str) -> (s: Vec<String>)
    ensures
        string_views(s@) == symbol_list(data_lines(text@)),
{
    let lines = split_char(text, '\n');
    let ghost ls = string_views(lines@);
    proof {
        lemma_split_nonempty(text@, '\n');
    }
    let mut out: Vec<String> = Vec::new();
    let mut i: usize = 1;
    assert(ls.drop_first().take(0) =~= Seq::<Seq<char>>::empty());
    while i < lines.len()
        invariant
            1 <= i <= lines.len(),
            ls == string_views(lines@),
            ls == split_from(text@, '\n', 0),
            string_views(out@) == symbol_list(ls.drop_first().take(i - 1)),
        decreases lines.len() - i,
    {
        let ghost line = ls[i as int];
        assert(ls.drop_first().take(i as int).drop_last() =~= ls.drop_first().take(i - 1));
        assert(ls.drop_first().take(i as int).last() == line);
        let fields = split_char(lines[i].as_str(), ',');
        proof {
            lemma_split_nonempty(line, ',');
        }
        let sym = trimmed(&fields[0]);
        if !sym.as_str().is_empty() {
            let ghost before = string_views(out@);
            let sc = chars_of(sym.as_str());
            let mut j: usize = 0;
            let mut seen = false;
            while j < out.len()
                invariant
                    j <= out.len(),
                    before == string_views(out@),
                    sc@ == sym@,
                    seen == (exists|k: int| 0 <= k < j && before[k] == sym@),
                decreases out.len() - j,
            {
                assert(before[j as int] == out@[j as int]@);
                if chars_eq_str(sc.as_slice(), out[j].as_str()) {
                    seen = true;
                }
                j += 1;
            }
            if !seen {
                out.push(sym);
                assert(string_views(out@) =~= before.push(sym@));
            } else {
                assert(before.contains(sym@));
            }
        }
        i += 1;
    }
    assert(ls.drop_first().take(lines.len() - 1) =~= ls.drop_first());
    out
}

proof fn lemma_first_key_from(a: Seq<(Seq<char>, Seq<char>)>, k: Seq<char>, i: int)
    requires
        0 <= i <= a.len(),
    ensures
        i <= first_key_from(a, k, i) <= a.len(),
        first_key_from(a, k, i) < a.len() ==> a[first_key_from(a, k, i)].0 == k,
        forall|j: int| i <= j < first_key_from(a, k, i) ==> a[j].0 != k,
    decreases a.len() - i,
{
    if i < a.len() && a[i].0 != k {
        lemma_first_key_from(a, k, i + 1);
    }
}

/// Law: the sector map has one entry per symbol.
pub proof fn law_sector_keys_distinct(lines: Seq<Seq<char>>)
    ensures
        forall|i: int, j: int| 0 <= i < j < sector_pairs(lines).len()
            ==> #[trigger] sector_pairs(lines)[i].0 != #[trigger] sector_pairs(lines)[j].0,
    decreases lines.len(),
{
    if lines.len() > 0 {
        law_sector_keys_distinct(lines.drop_last());
        let a = sector_pairs(lines.drop_last());
        match sector_entry(lines.last()) {
            Some(e) => {
                lemma_first_key_from(a, e.0, 0);
                let r = first_key(a, e.0);
                let b = assoc_put(a, e.0, e.1);
                assert forall|i: int, j: int| 0 <= i < j < b.len() implies #[trigger] b[i].0 != #[trigger] b[j].0 by {
                    if r < a.len() {
                        assert(b[i].0 == a[i].0 && b[j].0 == a[j].0);
                    } else if j == a.len() {
                        assert(b[i] == a[i]);
                    } else {
                        assert(b[i] == a[i] && b[j] == a[j]);
                    }
                }
            },
            None => {},
        }
    }
}

/// Law: the symbol list holds each symbol once.
pub proof fn law_symbols_distinct(lines: Seq<Seq<char>>)
    ensures
        forall|i: int, j: int| 0 <= i < j < symbol_list(lines).len()
            ==> #[trigger] symbol_list(lines)[i] != #[trigger] symbol_list(lines)[j],
    decreases lines.len(),
{
    if lines.len() > 0 {
        law_symbols_distinct(lines.drop_last());
        let a = symbol_list(lines.drop_last());
        let b = symbol_list(lines);
        assert forall|i: int, j: int| 0 <= i < j < b.len() implies #[trigger] b[i] != #[trigger] b[j] by {
            if j == a.len() {
                assert(b[i] == a[i]);
                if b[i] == b[j] {
                    assert(a.contains(b[j]));
                }
            } else {
                assert(b[i] == a[i] && b[j] == a[j]);
            }
        }
    }
}

} // verus!
