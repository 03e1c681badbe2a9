//! Defaults of the screener's merge configuration.
use vstd::prelude::*;
use crate::error::Error;
use crate::text::{chars_eq_str, chars_of, lex_lt, push_str, string_views};

verus! {

/// Default number of picks.
pub fn default_top() -> (n: usize)
    ensures
        n == 10,
{
    10
}

/// Default number of quality layers.
pub fn default_layers() -> (n: usize)
    ensures
        n == 3,
{
    3
}

/// Default setups that tilt the ranking: momentum continuation only.
pub fn default_tilt_setups() -> (v: Vec<String>)
    ensures
        string_views(v@) == seq!["动量延续"@],
{
    let mut v: Vec<String> = Vec::new();
    v.push(String::from_str("动量延续"));
    assert(string_views(v@) =~= seq!["动量延续"@]);
    v
}

/// What the screener's configuration check reads: the number of quality
/// trees, each setup's tag and number of trees (in tag order), the outcome
/// of each numeric range check, the pick count, and the tilting setups.
#[derive(Debug)]
pub struct ScreenShape {
    pub quality_trees: usize,
    pub setups: Vec<(String, usize)>,
    /// `theta_fire` and `q_floor` both lie in `[0, 1]`.
    pub unit_ranges_ok: bool,
    /// `vote_frac` lies in `(0, 1]`.
    pub vote_frac_ok: bool,
    pub top: usize,
    /// `lambda` is at least 0.
    pub lambda_ok: bool,
    pub tilt_setups: Vec<String>,
    /// `value_frac`, when given, lies in `(0, 1]`.
    pub value_frac_ok: bool,
}

/// Setup tags strictly ascending (as the keys of an ordered map): each tag
/// once, in order.
pub open spec fn tags_ascending(setups: Seq<(String, usize)>) -> bool {
    forall|i: int, j: int| 0 <= i < j < setups.len() ==> lex_lt(#[trigger] setups[i].0@, #[trigger] setups[j].0@)
}

/// The first setup without trees, in tag order.
pub open spec fn first_empty_setup(setups: Seq<(String, usize)>) -> Option<Seq<char>>
    decreases setups.len(),
{
    if setups.len() == 0 {
        None
    } else if setups[0].1 == 0 {
        Some(setups[0].0@)
    } else {
        first_empty_setup(setups.drop_first())
    }
}

/// Whether a tag names a setup.
pub open spec fn has_setup(setups: Seq<(String, usize)>, tag: Seq<char>) -> bool {
    exists|i: int| 0 <= i < setups.len() && #[trigger] setups[i].0@ == tag
}

/// The first tilting setup that names no setup.
pub open spec fn first_unknown_tilt(tilts: Seq<String>, setups: Seq<(String, usize)>) -> Option<Seq<char>>
    decreases tilts.len(),
{
    if tilts.len() == 0 {
        None
    } else if !has_setup(setups, tilts[0]@) {
        Some(tilts[0]@)
    } else {
        first_unknown_tilt(tilts.drop_first(), setups)
    }
}

/// The first problem of a screener configuration, in the order the checks run.
pub open spec fn screen_problem(c: ScreenShape) -> Option<Seq<char>> {
    if c.quality_trees == 0 {
        Some("screen config: quality_trees must be non-empty"@)
    } else if c.setups@.len() == 0 {
        Some("screen config: setup_trees must be non-empty"@)
    } else if first_empty_setup(c.setups@) is Some {
        Some("screen config: setup '"@ + first_empty_setup(c.setups@)->0 + "' has no trees"@)
    } else if !c.unit_ranges_ok {
        Some("screen config: theta_fire/q_floor must be in [0,1]"@)
    } else if !c.vote_frac_ok {
        Some("screen config: vote_frac must be in (0,1]"@)
    } else if c.top == 0 {
        Some("screen config: top must be >= 1"@)
    } else if !c.lambda_ok {
        Some("screen config: lambda must be >= 0"@)
    } else if c.tilt_setups@.len() == 0 {
        Some("screen config: tilt_setups must be non-empty"@)
    } else if first_unknown_tilt(c.tilt_setups@, c.setups@) is Some {
        Some("screen config: tilt_setup '"@ + first_unknown_tilt(c.tilt_setups@, c.setups@)->0
            + "' not found in setup_trees"@)
    } else if !c.value_frac_ok {
        Some("screen config: value_frac must be in (0,1]"@)
    } else {
        None
    }
}

fn data_error(m: &str) -> (e: Error)
    ensures
        e matches Error::Data(x) && x@ == m@,
{
    Error::Data(String::from_str(m))
}

/// Checks a screener configuration: at least one quality tree, at least one
/// setup and no setup without trees, the numeric ranges, at least one pick,
/// and tilting setups that are known setups.
pub fn check_screen_config(c: &ScreenShape) -> (r: Result<(), Error>)
    requires
        tags_ascending(c.setups@),
    ensures
        match screen_problem(*c) {
            Some(m) => (r matches Err(Error::Data(e)) && e@ == m),
            None => r is Ok,
        },
{
    if c.quality_trees == 0 {
        return Err(data_error("screen config: quality_trees must be non-empty"));
    }
    if c.setups.len() == 0 {
        return Err(data_error("screen config: setup_trees must be non-empty"));
    }
    let mut i: usize = 0;
    assert(c.setups@.skip(0) =~= c.setups@);
    while i < c.setups.len()
        invariant
            i <= c.setups.len(),
            c.quality_trees != 0,
            c.setups@.len() > 0,
            first_empty_setup(c.setups@.skip(i as int)) == first_empty_setup(c.setups@),
        decreases c.setups.len() - i,
    {
        assert(c.setups@.skip(i as int)[0] == c.setups@[i as int]);
        if c.setups[i].1 == 0 {
            let mut m = String::from_str("screen config: setup '");
            push_str(&mut m, c.setups[i].0.as_str());
            push_str(&mut m, "' has no trees");
            return Err(Error::Data(m));
        }
        assert(c.setups@.skip(i as int).drop_first() =~= c.setups@.skip(i + 1));
        i += 1;
    }
    assert(c.setups@.skip(i as int) =~= Seq::<(String, usize)>::empty());
    if !c.unit_ranges_ok {
        return Err(data_error("screen config: theta_fire/q_floor must be in [0,1]"));
    }
    if !c.vote_frac_ok {
        return Err(data_error("screen config: vote_frac must be in (0,1]"));
    }
    if c.top == 0 {
        return Err(data_error("screen config: top must be >= 1"));
    }
    if !c.lambda_ok {
        return Err(data_error("screen config: lambda must be >= 0"));
    }
    if c.tilt_setups.len() == 0 {
        return Err(data_error("screen config: tilt_setups must be non-empty"));
    }
    let mut k: usize = 0;
    assert(c.tilt_setups@.skip(0) =~= c.tilt_setups@);
    while k < c.tilt_setups.len()
        invariant
            k <= c.tilt_setups.len(),
            c.quality_trees != 0,
            c.setups@.len() > 0,
            first_empty_setup(c.setups@) is None,
            c.unit_ranges_ok,
            c.vote_frac_ok,
            c.top != 0,
            c.lambda_ok,
            c.tilt_setups@.len() > 0,
            first_unknown_tilt(c.tilt_setups@.skip(k as int), c.setups@) == first_unknown_tilt(c.tilt_setups@, c.setups@),
        decreases c.tilt_setups.len() - k,
    {
        let t = &c.tilt_setups[k];
        assert(c.tilt_setups@.skip(k as int)[0] == *t);
        let tc = chars_of(t.as_str());
        let mut j: usize = 0;
        let mut found = false;
        while j < c.setups.len() && !found
            invariant
                j <= c.setups.len(),
                tc@ == t@,
                found ==> has_setup(c.setups@, t@),
                !found ==> forall|b: int| 0 <= b < j ==> #[trigger] c.setups@[b].0@ != t@,
            decreases c.setups.len() - j + if found { 0int } else { 1int },
        {
            if chars_eq_str(tc.as_slice(), c.setups[j].0.as_str()) {
                found = true;
            } else {
                j += 1;
            }
        }
        if !found {
            let mut m = String::from_str("screen config: tilt_setup '");
            push_str(&mut m, t.as_str());
            push_str(&mut m, "' not found in setup_trees");
            return Err(Error::Data(m));
        }
        assert(c.tilt_setups@.skip(k as int).drop_first() =~= c.tilt_setups@.skip(k + 1));
        k += 1;
    }
    assert(c.tilt_setups@.skip(k as int) =~= Seq::<String>::empty());
    if !c.value_frac_ok {
        return Err(data_error("screen config: value_frac must be in (0,1]"));
    }
    Ok(())
}

/// Every condition of a valid screener configuration.
pub open spec fn screen_config_valid(c: ScreenShape) -> bool {
    &&& c.quality_trees > 0
    &&& c.setups@.len() > 0
    &&& forall|i: int| 0 <= i < c.setups@.len() ==> (#[trigger] c.setups@[i]).1 > 0
    &&& c.unit_ranges_ok
    &&& c.vote_frac_ok
    &&& c.top >= 1
    &&& c.lambda_ok
    &&& c.tilt_setups@.len() > 0
    &&& forall|i: int| 0 <= i < c.tilt_setups@.len() ==> has_setup(c.setups@, (#[trigger] c.tilt_setups@[i])@)
    &&& c.value_frac_ok
}

proof fn lemma_first_empty_none(s: Seq<(String, usize)>)
    ensures
        first_empty_setup(s) is None <==> forall|i: int| 0 <= i < s.len() ==> (#[trigger] s[i]).1 > 0,
    decreases s.len(),
{
    if s.len() > 0 {
        lemma_first_empty_none(s.drop_first());
        if first_empty_setup(s) is None {
            assert forall|i: int| 0 <= i < s.len() implies (#[trigger] s[i]).1 > 0 by {
                if i > 0 {
                    assert(s.drop_first()[i - 1] == s[i]);
                }
            }
        }
        if forall|i: int| 0 <= i < s.len() ==> (#[trigger] s[i]).1 > 0 {
            assert(s[0].1 > 0);
            assert forall|i: int| 0 <= i < s.drop_first().len() implies (#[trigger] s.drop_first()[i]).1 > 0 by {
                assert(s.drop_first()[i] == s[i + 1]);
            }
        }
    }
}

proof fn lemma_first_unknown_none(t: Seq<String>, s: Seq<(String, usize)>)
    ensures
        first_unknown_tilt(t, s) is None <==> forall|i: int| 0 <= i < t.len() ==> has_setup(s, (#[trigger] t[i])@),
    decreases t.len(),
{
    if t.len() > 0 {
        lemma_first_unknown_none(t.drop_first(), s);
        if first_unknown_tilt(t, s) is None {
            assert forall|i: int| 0 <= i < t.len() implies has_setup(s, (#[trigger] t[i])@) by {
                if i > 0 {
                    assert(t.drop_first()[i - 1] == t[i]);
                }
            }
        }
        if forall|i: int| 0 <= i < t.len() ==> has_setup(s, (#[trigger] t[i])@) {
            assert(has_setup(s, t[0]@));
            assert forall|i: int| 0 <= i < t.drop_first().len() implies has_setup(s, (#[trigger] t.drop_first()[i])@) by {
                assert(t.drop_first()[i] == t[i + 1]);
            }
        }
    }
}

/// Law: a screener configuration passes the check exactly when it has
/// quality trees and setups, every setup has trees, the numeric ranges hold,
/// at least one pick is asked for, the tilting setups are non-empty and all
/// known, and `value_frac` (when given) is in range.
pub proof fn law_screen_config_ok_iff(c: ScreenShape)
    ensures
        screen_problem(c) is None <==> screen_config_valid(c),
{
    lemma_first_empty_none(c.setups@);
    lemma_first_unknown_none(c.tilt_setups@, c.setups@);
}

} // verus!
