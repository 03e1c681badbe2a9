//! Cross-sectional factor testing: configuration and layer statistics.

pub mod stats;

use vstd::prelude::*;
use crate::backtest::schedule::step_points;
use crate::dsl::ast::{Expr, ExprV};
use crate::dsl::parser::{parse_source, parse_str};
use crate::error::Error;
use crate::cli::{aux_entry, flag_views, has_name};
use crate::text::{chars_eq_str, chars_of, find_char_from, push_str, string_from_range};

verus! {

/// A named factor expression.
pub struct FactorSpecItem {
    pub name: String,
    pub expr: String,
}

/// Configuration of a factor test run. Paths are held as text.
pub struct FactorConfig {
    pub universe_path: String,
    pub factors: Vec<FactorSpecItem>,
    /// Sampling interval K (bars of the universe timeline).
    pub sample: usize,
    /// Main forward horizon H.
    pub horizon: usize,
    /// Number of layers Q.
    pub layers: usize,
    pub warmup: usize,
    pub window: usize,
    pub out_path: String,
    pub html_path: Option<String>,
    /// Optional point-in-time membership table (`date,symbol`); `None` keeps every symbol.
    pub membership_path: Option<String>,
}

/// The first problem with the factor names read in order: an empty name, or
/// a name given twice.
pub open spec fn name_problem(names: Seq<Seq<char>>) -> Option<Seq<char>>
    decreases names.len(),
{
    if names.len() == 0 {
        None
    } else {
        match name_problem(names.drop_last()) {
            Some(m) => Some(m),
            None => if names.last().len() == 0 {
                Some("factor: factor name must not be empty"@)
            } else if names.drop_last().contains(names.last()) {
                Some("factor: duplicate factor name '"@ + names.last() + "'"@)
            } else {
                None
            },
        }
    }
}

/// Index of the first expression that does not parse (the length when all do).
pub open spec fn first_unparsable(exprs: Seq<Seq<char>>) -> int
    decreases exprs.len(),
{
    if exprs.len() == 0 {
        0
    } else if first_unparsable(exprs.drop_last()) < exprs.len() - 1 {
        first_unparsable(exprs.drop_last())
    } else if parse_source(exprs.last()) is Err {
        exprs.len() - 1
    } else {
        exprs.len() as int
    }
}

/// The factor names.
pub open spec fn factor_names(fs: Seq<FactorSpecItem>) -> Seq<Seq<char>> {
    fs.map_values(|f: FactorSpecItem| f.name@)
}

/// The factor expressions' source texts.
pub open spec fn factor_sources(fs: Seq<FactorSpecItem>) -> Seq<Seq<char>> {
    fs.map_values(|f: FactorSpecItem| f.expr@)
}

/// The message of a configuration problem found before any expression is
/// parsed, in the order the checks run.
pub open spec fn config_problem(cfg: FactorConfig) -> Option<Seq<char>> {
    if cfg.factors@.len() == 0 {
        Some("factor: factors list must not be empty"@)
    } else if name_problem(factor_names(cfg.factors@)) is Some {
        name_problem(factor_names(cfg.factors@))
    } else if cfg.sample < 1 {
        Some("factor: sample must be >= 1"@)
    } else if cfg.layers < 1 {
        Some("factor: layers must be >= 1"@)
    } else if cfg.horizon < 1 {
        Some("factor: horizon must be >= 1"@)
    } else {
        None
    }
}

proof fn lemma_name_problem_sticks(names: Seq<Seq<char>>, i: int)
    requires
        0 <= i <= names.len(),
        name_problem(names.take(i)) is Some,
    ensures
        name_problem(names) == name_problem(names.take(i)),
    decreases names.len() - i,
{
    if i < names.len() {
        assert(names.take(i + 1).drop_last() =~= names.take(i));
        lemma_name_problem_sticks(names, i + 1);
    } else {
        assert(names.take(i) =~= names);
    }
}

proof fn lemma_first_unparsable_sticks(exprs: Seq<Seq<char>>, i: int)
    requires
        0 <= i <= exprs.len(),
        first_unparsable(exprs.take(i)) < i,
    ensures
        first_unparsable(exprs) == first_unparsable(exprs.take(i)),
    decreases exprs.len() - i,
{
    if i < exprs.len() {
        assert(exprs.take(i + 1).drop_last() =~= exprs.take(i));
        lemma_first_unparsable_sticks(exprs, i + 1);
    } else {
        assert(exprs.take(i) =~= exprs);
    }
}

/// Checks a factor configuration and parses its expressions. In order: at
/// least one factor; names non-empty and distinct; sample, layers and horizon
/// at least 1; then every expression parses, a failure naming its factor.
pub fn check_factor_config(cfg: &FactorConfig) -> (r: Result<Vec<Expr>, Error>)
    ensures
        match config_problem(*cfg) {
            Some(m) => (r matches Err(Error::Data(e)) && e@ == m),
            None => {
                let srcs = factor_sources(cfg.factors@);
                let i = first_unparsable(srcs);
                if i < srcs.len() {
                    r matches Err(Error::Data(e))
                        && e@ == "factor '"@ + cfg.factors@[i].name@ + "': DSL parse error: "@ + "dsl error: "@
                            + parse_source(srcs[i])->Err_0
                } else {
                    r matches Ok(v) && v@.len() == srcs.len()
                        && forall|k: int| 0 <= k < srcs.len() ==> parse_source(srcs[k]) == Ok::<ExprV, Seq<char>>(#[trigger] v@[k]@)
                }
            },
        },
{
    let ghost names = factor_names(cfg.factors@);
    let ghost srcs = factor_sources(cfg.factors@);
    if cfg.factors.len() == 0 {
        return Err(Error::Data(String::from_str("factor: factors list must not be empty")));
    }
    let mut i: usize = 0;
    assert(names.take(0) =~= Seq::<Seq<char>>::empty());
    while i < cfg.factors.len()
        invariant
            i <= cfg.factors.len(),
            names == factor_names(cfg.factors@),
            name_problem(names.take(i as int)) is None,
        decreases cfg.factors.len() - i,
    {
        let name = &cfg.factors[i].name;
        assert(names.take(i + 1).drop_last() =~= names.take(i as int));
        assert(names.take(i + 1).last() == name@);
        if name.as_str().is_empty() {
            proof {
                reveal_strlit("factor: factor name must not be empty");
                lemma_name_problem_sticks(names, i + 1);
            }
            return Err(Error::Data(String::from_str("factor: factor name must not be empty")));
        }
        let nc = chars_of(name.as_str());
        let mut j: usize = 0;
        while j < i
            invariant
                j <= i < cfg.factors.len(),
                names == factor_names(cfg.factors@),
                nc@ == name@,
                name@ == names[i as int],
                name_problem(names.take(i as int)) is None,
                names.take(i + 1).drop_last() == names.take(i as int),
                names.take(i + 1).last() == name@,
                name@.len() > 0,
                forall|k: int| 0 <= k < j ==> names[k] != name@,
            decreases i - j,
        {
            if chars_eq_str(nc.as_slice(), cfg.factors[j].name.as_str()) {
                let mut msg = String::from_str("factor: duplicate factor name '");
                push_str(&mut msg, name.as_str());
                push_str(&mut msg, "'");
                proof {
                    assert(names.take(i as int)[j as int] == names[j as int]);
                    assert(names.take(i as int).contains(name@));
                    lemma_name_problem_sticks(names, i + 1);
                }
                return Err(Error::Data(msg));
            }
            j += 1;
        }
        assert(!names.take(i as int).contains(name@)) by {
            if names.take(i as int).contains(name@) {
                let k = choose|k: int| 0 <= k < i && names.take(i as int)[k] == name@;
                assert(names[k] == name@);
            }
        }
        i += 1;
    }
    assert(names.take(cfg.factors.len() as int) =~= names);
    if cfg.sample < 1 {
        return Err(Error::Data(String::from_str("factor: sample must be >= 1")));
    }
    if cfg.layers < 1 {
        return Err(Error::Data(String::from_str("factor: layers must be >= 1")));
    }
    if cfg.horizon < 1 {
        return Err(Error::Data(String::from_str("factor: horizon must be >= 1")));
    }
    let mut out: Vec<Expr> = Vec::new();
    let mut k: usize = 0;
    assert(srcs.take(0) =~= Seq::<Seq<char>>::empty());
    while k < cfg.factors.len()
        invariant
            k <= cfg.factors.len(),
            srcs == factor_sources(cfg.factors@),
            config_problem(*cfg) is None,
            out@.len() == k,
            first_unparsable(srcs.take(k as int)) == k,
            forall|m: int| 0 <= m < k ==> parse_source(srcs[m]) == Ok::<ExprV, Seq<char>>(#[trigger] out@[m]@),
        decreases cfg.factors.len() - k,
    {
        let f = &cfg.factors[k];
        assert(srcs.take(k + 1).drop_last() =~= srcs.take(k as int));
        assert(srcs.take(k + 1).last() == f.expr@);
        match parse_str(f.expr.as_str()) {
            Ok(e) => {
                out.push(e);
            },
            Err(err) => {
                let mut msg = String::from_str("factor '");
                push_str(&mut msg, f.name.as_str());
                push_str(&mut msg, "': DSL parse error: ");
                let et = err.to_string();
                push_str(&mut msg, et.as_str());
                proof {
                    lemma_first_unparsable_sticks(srcs, k + 1);
                    match err {
                        Error::Dsl(m) => {
                            assert(msg@ =~= "factor '"@ + f.name@ + "': DSL parse error: "@ + "dsl error: "@ + m@);
                        },
                        _ => {},
                    }
                }
                return Err(Error::Data(msg));
            },
        }
        k += 1;
    }
    assert(srcs.take(cfg.factors.len() as int) =~= srcs);
    Ok(out)
}

/// Sampling points `warmup, warmup + sample, ...` below `n`
/// (`(warmup..n).step_by(sample)`), refused when fewer than two.
pub fn sample_points(warmup: usize, n: usize, sample: usize) -> (r: Result<Vec<usize>, Error>)
    requires
        sample >= 1,
    ensures
        match r {
            Ok(v) => v@.len() >= 2 && (forall|i: int| 0 <= i < v@.len() ==> #[trigger] v@[i] == warmup + i * sample)
                && warmup + v@.len() * sample >= n && warmup + (v@.len() - 1) * sample < n,
            Err(e) => (e matches Error::Data(m) && m@ == "factor: universe timeline too short for warmup/sample (need >= 2 sample points)"@)
                && (n <= warmup || n - warmup <= sample),
        },
{
    let v = step_points(warmup, n, sample);
    if v.len() < 2 {
        assert(v@.len() * sample == 0 || v@.len() * sample == sample) by (nonlinear_arith)
            requires v@.len() < 2;
        return Err(Error::Data(String::from_str("factor: universe timeline too short for warmup/sample (need >= 2 sample points)")));
    }
    Ok(v)
}

/// The `--factor NAME=EXPR` flags read left to right (each split at its
/// first `=`): the (name, expression) pairs in order, or the message of the
/// first flag without `=`, with an empty name or expression, or with a name
/// seen before.
pub open spec fn factor_flags_scan(flags: Seq<Seq<char>>) -> Result<Seq<(Seq<char>, Seq<char>)>, Seq<char>>
    decreases flags.len(),
{
    if flags.len() == 0 {
        Ok(Seq::empty())
    } else {
        match factor_flags_scan(flags.drop_last()) {
            Err(e) => Err(e),
            Ok(out) => {
                let f = flags.last();
                match aux_entry(f) {
                    None => Err("--factor expects 'NAME=EXPR', got '"@ + f + "' (missing '=')"@),
                    Some((name, expr)) => if name.len() == 0 {
                        Err("--factor: factor name must not be empty in '"@ + f + "'"@)
                    } else if expr.len() == 0 {
                        Err("--factor: factor expression must not be empty in '"@ + f + "'"@)
                    } else if has_name(out, name) {
                        Err("--factor: duplicate factor name '"@ + name + "'"@)
                    } else {
                        Ok(out.push((name, expr)))
                    },
                }
            },
        }
    }
}

/// What the `--factor` flags give: an error when there is none, else the scan.
pub open spec fn factor_flags_spec(flags: Seq<Seq<char>>) -> Result<Seq<(Seq<char>, Seq<char>)>, Seq<char>> {
    if flags.len() == 0 {
        Err("--factor: at least one factor expression is required (use --factor 'name=expr')"@)
    } else {
        factor_flags_scan(flags)
    }
}

/// The views of factor items as (name, expression).
pub open spec fn item_views(v: Seq<FactorSpecItem>) -> Seq<(Seq<char>, Seq<char>)> {
    v.map_values(|f: FactorSpecItem| (f.name@, f.expr@))
}

proof fn lemma_factor_err_sticks(flags: Seq<Seq<char>>, i: int, e: Seq<char>)
    requires
        0 <= i <= flags.len(),
        factor_flags_scan(flags.take(i)) == Err::<Seq<(Seq<char>, Seq<char>)>, Seq<char>>(e),
    ensures
        factor_flags_scan(flags) == Err::<Seq<(Seq<char>, Seq<char>)>, Seq<char>>(e),
    decreases flags.len() - i,
{
    if i == flags.len() {
        assert(flags.take(i) =~= flags);
    } else {
        assert(flags.take(i + 1).drop_last() =~= flags.take(i));
        lemma_factor_err_sticks(flags, i + 1, e);
    }
}

/// Parses the `--factor NAME=EXPR` flags (see `factor_flags_spec`).
pub fn parse_factor_flags(specs: &[String]) -> (r: Result<Vec<FactorSpecItem>, String>)
    ensures
        match factor_flags_spec(flag_views(specs@)) {
            Ok(items) => r matches Ok(out) && item_views(out@) == items,
            Err(e) => r matches Err(m) && m@ == e,
        },
{
    let ghost flags = flag_views(specs@);
    if specs.len() == 0 {
        return Err(String::from_str("--factor: at least one factor expression is required (use --factor 'name=expr')"));
    }
    let mut out: Vec<FactorSpecItem> = Vec::new();
    let mut i: usize = 0;
    assert(flags.take(0) =~= Seq::<Seq<char>>::empty());
    assert(item_views(out@) =~= Seq::<(Seq<char>, Seq<char>)>::empty());
    while i < specs.len()
        invariant
            i <= specs.len(),
            specs.len() > 0,
            flags == flag_views(specs@),
            factor_flags_scan(flags.take(i as int)) == Ok::<Seq<(Seq<char>, Seq<char>)>, Seq<char>>(item_views(out@)),
        decreases specs.len() - i,
    {
        let spec = &specs[i];
        let cs = chars_of(spec.as_str());
        let ghost prev = item_views(out@);
        assert(flags.take(i + 1).drop_last() =~= flags.take(i as int));
        assert(flags.take(i + 1).last() == spec@);
        let k = find_char_from(cs.as_slice(), '=', 0);
        if k == cs.len() {
            let mut msg = String::from_str("--factor expects 'NAME=EXPR', got '");
            push_str(&mut msg, spec.as_str());
            push_str(&mut msg, "' (missing '=')");
            proof {
                lemma_factor_err_sticks(flags, i + 1, msg@);
            }
            return Err(msg);
        }
        let name = string_from_range(cs.as_slice(), 0, k);
        let expr = string_from_range(cs.as_slice(), k + 1, cs.len());
        assert(name@ =~= spec@.take(k as int));
        assert(expr@ =~= spec@.skip(k + 1));
        assert(cs@ == spec@);
        if k == 0 {
            let mut msg = String::from_str("--factor: factor name must not be empty in '");
            push_str(&mut msg, spec.as_str());
            push_str(&mut msg, "'");
            proof {
                lemma_factor_err_sticks(flags, i + 1, msg@);
            }
            return Err(msg);
        }
        if k + 1 == cs.len() {
            let mut msg = String::from_str("--factor: factor expression must not be empty in '");
            push_str(&mut msg, spec.as_str());
            push_str(&mut msg, "'");
            proof {
                lemma_factor_err_sticks(flags, i + 1, msg@);
            }
            return Err(msg);
        }
        let mut j: usize = 0;
        while j < out.len()
            invariant
                j <= out.len(),
                prev == item_views(out@),
                i < specs.len(),
                flags == flag_views(specs@),
                flags.take(i + 1).drop_last() == flags.take(i as int),
                flags.take(i + 1).last() == spec@,
                factor_flags_scan(flags.take(i as int)) == Ok::<Seq<(Seq<char>, Seq<char>)>, Seq<char>>(prev),
                aux_entry(spec@) == Some((name@, expr@)),
                name@.len() > 0,
                expr@.len() > 0,
                forall|m: int| 0 <= m < j ==> #[trigger] prev[m].0 != name@,
            decreases out.len() - j,
        {
            let ncs = chars_of(name.as_str());
            if chars_eq_str(ncs.as_slice(), out[j].name.as_str()) {
                let mut msg = String::from_str("--factor: duplicate factor name '");
                push_str(&mut msg, name.as_str());
                push_str(&mut msg, "'");
                proof {
                    assert(prev[j as int].0 == name@);
                    assert(has_name(prev, name@));
                    lemma_factor_err_sticks(flags, i + 1, msg@);
                }
                return Err(msg);
            }
            j += 1;
        }
        assert(!has_name(prev, name@));
        out.push(FactorSpecItem { name, expr });
        assert(item_views(out@) =~= prev.push((spec@.take(k as int), spec@.skip(k + 1))));
        i += 1;
    }
    assert(flags.take(specs.len() as int) =~= flags);
    Ok(out)
}

} // verus!
