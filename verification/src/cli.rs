//! Command-line decisions: whether the LLM is configured, and `--aux NAME=PATH` flags.
use vstd::prelude::*;
use crate::text::{chars_eq_str, chars_of, find_char_from, first_index_from, push_str, string_from_range};

verus! {

/// Default base URL of the Sina quote service.
pub const SINA_BASE_URL: &'static str = "https://quotes.sina.cn/cn/api/json_v2.php";

/// True exactly when all three LLM credentials (model, base URL, API key) are non-empty.
pub fn llm_enabled(model: &str, base_url: &str, api_key: &str) -> (enabled: bool)
    ensures
        enabled == (model@.len() > 0 && base_url@.len() > 0 && api_key@.len() > 0),
{
    !model.is_empty() && !base_url.is_empty() && !api_key.is_empty()
}

/// One `--aux` flag split at its first `=` into name and path; `None` without `=`.
pub open spec fn aux_entry(flag: Seq<char>) -> Option<(Seq<char>, Seq<char>)> {
    let k = first_index_from(flag, '=', 0);
    if k < flag.len() {
        Some((flag.take(k), flag.skip(k + 1)))
    } else {
        None
    }
}

/// Whether `name` is the name of one of the entries.
pub open spec fn has_name(out: Seq<(Seq<char>, Seq<char>)>, name: Seq<char>) -> bool {
    exists|i: int| 0 <= i < out.len() && #[trigger] out[i].0 == name
}

/// The `--aux` flags read left to right: the (name, path) pairs in order, or the
/// message of the first flag without `=` or with a name seen before.
pub open spec fn parse_aux_spec(flags: Seq<Seq<char>>) -> Result<Seq<(Seq<char>, Seq<char>)>, Seq<char>>
    decreases flags.len(),
{
    if flags.len() == 0 {
        Ok(Seq::empty())
    } else {
        match parse_aux_spec(flags.drop_last()) {
            Err(e) => Err(e),
            Ok(out) => match aux_entry(flags.last()) {
                None => Err("--aux expects NAME=PATH, got '"@ + flags.last() + "'"@),
                Some(entry) => if has_name(out, entry.0) {
                    Err("duplicate --aux name '"@ + entry.0 + "'"@)
                } else {
                    Ok(out.push(entry))
                },
            },
        }
    }
}

/// The views of the flags.
pub open spec fn flag_views(flags: Seq<String>) -> Seq<Seq<char>> {
    flags.map_values(|f: String| f@)
}

/// The views of (name, path) pairs.
pub open spec fn pair_views(out: Seq<(String, String)>) -> Seq<(Seq<char>, Seq<char>)> {
    out.map_values(|p: (String, String)| (p.0@, p.1@))
}

proof fn lemma_parse_aux_err_sticks(flags: Seq<Seq<char>>, i: int, j: int, e: Seq<char>)
    requires
        0 <= i <= j <= flags.len(),
        parse_aux_spec(flags.take(i)) == Err::<Seq<(Seq<char>, Seq<char>)>, Seq<char>>(e),
    ensures
        parse_aux_spec(flags.take(j)) == Err::<Seq<(Seq<char>, Seq<char>)>, Seq<char>>(e),
    decreases j - i,
{
    if j > i {
        lemma_parse_aux_err_sticks(flags, i, j - 1, e);
        assert(flags.take(j).drop_last() =~= flags.take(j - 1));
    }
}


/// Parses `--aux NAME=PATH` flags (split at the first `=`); a flag without `=`
/// or a repeated name is an error.
pub fn parse_aux(specs: &[String]) -> (r: Result<Vec<(String, String)>, String>)
    ensures
        match r {
            Ok(out) => parse_aux_spec(flag_views(specs@)) == Ok::<Seq<(Seq<char>, Seq<char>)>, Seq<char>>(pair_views(out@)),
            Err(msg) => parse_aux_spec(flag_views(specs@)) == Err::<Seq<(Seq<char>, Seq<char>)>, Seq<char>>(msg@),
        },
{
    let ghost flags = flag_views(specs@);
    let mut out: Vec<(String, String)> = Vec::new();
    let mut i: usize = 0;
    assert(flags.take(0) =~= Seq::<Seq<char>>::empty());
    assert(pair_views(out@) =~= Seq::<(Seq<char>, Seq<char>)>::empty());
    while i < specs.len()
        invariant
            i <= specs.len(),
            flags == flag_views(specs@),
            parse_aux_spec(flags.take(i as int)) == Ok::<Seq<(Seq<char>, Seq<char>)>, Seq<char>>(pair_views(out@)),
        decreases specs.len() - i,
    {
        let spec = &specs[i];
        let cs = chars_of(spec.as_str());
        let ghost prev = pair_views(out@);
        assert(flags.take(i + 1).drop_last() =~= flags.take(i as int));
        assert(flags.take(i + 1).last() == spec@);
        let k = find_char_from(cs.as_slice(), '=', 0);
        if k == cs.len() {
            let mut msg = String::from_str("--aux expects NAME=PATH, got '");
            push_str(&mut msg, spec.as_str());
            push_str(&mut msg, "'");
            proof {
                lemma_parse_aux_err_sticks(flags, i + 1, flags.len() as int, msg@);
                assert(flags.take(flags.len() as int) =~= flags);
            }
            return Err(msg);
        }
        let name = string_from_range(cs.as_slice(), 0, k);
        let path = string_from_range(cs.as_slice(), k + 1, cs.len());
        assert(name@ =~= spec@.take(k as int));
        assert(path@ =~= spec@.skip(k + 1));
        assert(cs@ == spec@);
        let mut j: usize = 0;
        while j < out.len()
            invariant
                j <= out.len(),
                prev == pair_views(out@),
                i < specs.len(),
                flags == flag_views(specs@),
                flags.take(i + 1).drop_last() == flags.take(i as int),
                flags.take(i + 1).last() == spec@,
                parse_aux_spec(flags.take(i as int)) == Ok::<Seq<(Seq<char>, Seq<char>)>, Seq<char>>(prev),
                aux_entry(spec@) == Some((name@, path@)),
                forall|m: int| 0 <= m < j ==> #[trigger] prev[m].0 != name@,
            decreases out.len() - j,
        {
            let ncs = chars_of(name.as_str());
            if chars_eq_str(ncs.as_slice(), out[j].0.as_str()) {
                let mut msg = String::from_str("duplicate --aux name '");
                push_str(&mut msg, name.as_str());
                push_str(&mut msg, "'");
                proof {
                    assert(prev[j as int].0 == name@);
                    assert(has_name(prev, name@));
                    lemma_parse_aux_err_sticks(flags, i + 1, flags.len() as int, msg@);
                    assert(flags.take(flags.len() as int) =~= flags);
                }
                return Err(msg);
            }
            j += 1;
        }
        assert(!has_name(prev, name@));
        out.push((name, path));
        assert(pair_views(out@) =~= prev.push((spec@.take(k as int), spec@.skip(k + 1))));
        i += 1;
    }
    assert(flags.take(specs.len() as int) =~= flags);
    Ok(out)
}

/// Law: the `--aux` names that are accepted are distinct, and every accepted
/// entry comes from a flag split at its first `=`.
pub proof fn law_parse_aux_names_distinct(flags: Seq<Seq<char>>)
    requires
        parse_aux_spec(flags) is Ok,
    ensures
        ({
            let out = parse_aux_spec(flags)->Ok_0;
            &&& out.len() == flags.len()
            &&& forall|i: int, j: int| 0 <= i < j < out.len() ==> #[trigger] out[i].0 != #[trigger] out[j].0
            &&& forall|i: int| 0 <= i < out.len() ==> aux_entry(flags[i]) == Some(#[trigger] out[i])
        }),
    decreases flags.len(),
{
    if flags.len() > 0 {
        let prev = flags.drop_last();
        law_parse_aux_names_distinct(prev);
        let out0 = parse_aux_spec(prev)->Ok_0;
        let out = parse_aux_spec(flags)->Ok_0;
        let e = aux_entry(flags.last())->0;
        assert(out == out0.push(e));
        assert forall|i: int, j: int| 0 <= i < j < out.len() implies #[trigger] out[i].0 != #[trigger] out[j].0 by {
            if j == out.len() - 1 {
                if out[i].0 == out[j].0 {
                    assert(out0[i].0 == e.0);
                    assert(has_name(out0, e.0));
                }
            } else {
                assert(out0[i] == out[i] && out0[j] == out[j]);
            }
        }
        assert forall|i: int| 0 <= i < out.len() implies aux_entry(flags[i]) == Some(#[trigger] out[i]) by {
            if i < out.len() - 1 {
                assert(prev[i] == flags[i]);
                assert(out0[i] == out[i]);
            }
        }
    }
}

/// The name of a flag: the text before its first `=`.
pub open spec fn aux_name(flag: Seq<char>) -> Seq<char> {
    match aux_entry(flag) {
        Some((name, _)) => name,
        None => flag,
    }
}

/// Every flag has a `=` and no name repeats.
pub open spec fn aux_flags_well_formed(flags: Seq<Seq<char>>) -> bool {
    &&& forall|i: int| 0 <= i < flags.len() ==> #[trigger] aux_entry(flags[i]) is Some
    &&& forall|i: int, j: int| 0 <= i < j < flags.len()
        ==> #[trigger] aux_name(flags[i]) != #[trigger] aux_name(flags[j])
}

/// Law: `--aux` flags are accepted exactly when every flag has a `=` and no
/// name repeats; then the pairs are the flags split at their first `=`, in
/// order.
pub proof fn law_parse_aux_ok_iff(flags: Seq<Seq<char>>)
    ensures
        parse_aux_spec(flags) is Ok <==> aux_flags_well_formed(flags),
        parse_aux_spec(flags) is Ok ==> ({
            let out = parse_aux_spec(flags)->Ok_0;
            &&& out.len() == flags.len()
            &&& forall|i: int| 0 <= i < out.len() ==> aux_entry(flags[i]) == Some(#[trigger] out[i])
        }),
    decreases flags.len(),
{
    if parse_aux_spec(flags) is Ok {
        law_parse_aux_names_distinct(flags);
        let out = parse_aux_spec(flags)->Ok_0;
        assert forall|i: int, j: int| 0 <= i < j < flags.len()
            implies #[trigger] aux_name(flags[i]) != #[trigger] aux_name(flags[j]) by {
            assert(aux_entry(flags[i]) == Some(out[i]));
            assert(aux_entry(flags[j]) == Some(out[j]));
        }
        assert forall|i: int| 0 <= i < flags.len() implies #[trigger] aux_entry(flags[i]) is Some by {
            assert(aux_entry(flags[i]) == Some(out[i]));
        }
    }
    if aux_flags_well_formed(flags) && flags.len() > 0 {
        let prev = flags.drop_last();
        assert(aux_flags_well_formed(prev)) by {
            assert forall|i: int| 0 <= i < prev.len() implies #[trigger] aux_entry(prev[i]) is Some by {
                assert(prev[i] == flags[i]);
            }
            assert forall|i: int, j: int| 0 <= i < j < prev.len()
                implies #[trigger] aux_name(prev[i]) != #[trigger] aux_name(prev[j]) by {
                assert(prev[i] == flags[i] && prev[j] == flags[j]);
            }
        }
        law_parse_aux_ok_iff(prev);
        let out0 = parse_aux_spec(prev)->Ok_0;
        let n = flags.len() - 1;
        assert(flags.last() == flags[n]);
        assert(aux_entry(flags[n]) is Some);
        let e = aux_entry(flags.last())->0;
        if has_name(out0, e.0) {
            let i = choose|i: int| 0 <= i < out0.len() && #[trigger] out0[i].0 == e.0;
            assert(aux_entry(prev[i]) == Some(out0[i]));
            assert(prev[i] == flags[i]);
            assert(aux_name(flags[i]) != aux_name(flags[n]));
        }
    }
}

/// `optimize`: `--sim` and `--soft` cannot be combined (the simulated
/// target has no meaning in soft-score mode).
pub fn check_sim_soft(sim: bool, soft: bool) -> (r: Result<(), String>)
    ensures
        (sim && soft) ==> (r matches Err(m)
            && m@ == "--sim and --soft are mutually exclusive for optimize (sim target is undefined in soft-score mode)"@),
        !(sim && soft) ==> r is Ok,
{
    if sim && soft {
        return Err(String::from_str(
            "--sim and --soft are mutually exclusive for optimize (sim target is undefined in soft-score mode)",
        ));
    }
    Ok(())
}

/// `optimize`: at least one `--grid` axis is required.
pub fn check_grid_given(axes: usize) -> (r: Result<(), String>)
    ensures
        axes == 0 ==> (r matches Err(m)
            && m@ == "--grid: at least one grid axis is required (use --grid 'name=start:stop:step')"@),
        axes > 0 ==> r is Ok,
{
    if axes == 0 {
        return Err(String::from_str("--grid: at least one grid axis is required (use --grid 'name=start:stop:step')"));
    }
    Ok(())
}

/// `signal`: exactly one of `--primary` (one symbol) and `--universe` is
/// given, and `--fetch` goes only with `--primary`.
pub fn check_signal_modes(has_primary: bool, has_universe: bool, has_fetch: bool) -> (r: Result<(), String>)
    ensures
        has_primary == has_universe ==> (r matches Err(m)
            && m@ == "exactly one of --primary or --universe is required"@),
        has_primary != has_universe && has_fetch && !has_primary ==> (r matches Err(m)
            && m@ == "--fetch requires --primary (single-symbol mode only)"@),
        has_primary != has_universe && !(has_fetch && !has_primary) ==> r is Ok,
{
    if has_primary == has_universe {
        return Err(String::from_str("exactly one of --primary or --universe is required"));
    }
    if has_fetch && !has_primary {
        return Err(String::from_str("--fetch requires --primary (single-symbol mode only)"));
    }
    Ok(())
}

} // verus!
