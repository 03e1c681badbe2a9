//! The cross-sectional timeline: the ordered union of all series' bar times,
//! gathered in a `BTreeSet`.
use vstd::prelude::*;
use std::collections::BTreeSet;
use crate::backtest::portfolio::{flatten, in_any, strictly_sorted};
use vstd::std_specs::btree::{increasing_seq, spec_btree_keys_iter};
use vstd::std_specs::iter::IteratorSpec;
use vstd::std_specs::cmp::OrdSpec;

verus! {

broadcast use vstd::std_specs::btree::group_btree_axioms, vstd::laws_cmp::group_laws_cmp;

/// The set of the bar times of all series.
fn time_set(all: &[Vec<i64>]) -> (set: BTreeSet<i64>)
    ensures
        forall|t: i64| #[trigger] set@.contains(t) <==> in_any(all@, t),
{
    let flat = flatten(all);
    let mut set: BTreeSet<i64> = BTreeSet::new();
    let mut i: usize = 0;
    while i < flat.len()
        invariant
            i <= flat.len(),
            forall|t: i64| #[trigger] set@.contains(t) <==> flat@.take(i as int).contains(t),
        decreases flat.len() - i,
    {
        let ghost before = set@;
        let ghost pre = flat@.take(i as int);
        let ghost nxt = flat@.take(i + 1);
        let x = flat[i];
        set.insert(x);
        proof {
            assert(nxt =~= pre.push(x));
            assert forall|t: i64| #[trigger] set@.contains(t) <==> nxt.contains(t) by {
                if nxt.contains(t) && t != x {
                    let k = choose|k: int| #![trigger nxt[k]] 0 <= k < nxt.len() && nxt[k] == t;
                    assert(pre[k] == t);
                }
                if before.contains(t) {
                    let k = choose|k: int| #![trigger pre[k]] 0 <= k < pre.len() && pre[k] == t;
                    assert(nxt[k] == t);
                }
                if t == x {
                    assert(nxt[i as int] == t);
                }
            }
        }
        i += 1;
    }
    assert(flat@.take(flat.len() as int) =~= flat@);
    set
}

/// The ordered union of the bar times of all series: every timestamp that
/// occurs in some series, once, ascending.
pub fn build_timeline(all: &[Vec<i64>]) -> (timeline: Vec<i64>)
    ensures
        strictly_sorted(timeline@),
        forall|t: i64| #[trigger] timeline@.contains(t) <==> in_any(all@, t),
{
    let set = time_set(all);
    let ghost r = spec_btree_keys_iter(&set).remaining();
    let mut out: Vec<i64> = Vec::new();
    for t in it: set.iter()
        invariant
            it.seq() == r,
            out@.len() == it.index(),
            forall|k: int| 0 <= k < out@.len() ==> out@[k] == *r[k],
    {
        out.push(*t);
    }
    assert(out@.len() == r.len());
    assert(strictly_sorted(out@)) by {
        assert forall|a: int, b: int| 0 <= a < b < out@.len() implies out@[a] < out@[b] by {
            assert(vstd::laws_cmp::obeys_cmp::<i64>());
            assert(vstd::laws_cmp::obeys_cmp::<&i64>());
            assert(increasing_seq(r));
            vstd::std_specs::btree::axiom_increasing_seq_meaning(r);
            assert(OrdSpec::cmp_spec(&r[a], &r[b]) is Less);
        }
    }
    assert forall|t: i64| #[trigger] out@.contains(t) <==> set@.contains(t) by {
        assert(r.unref().to_set() == set@);
        if out@.contains(t) {
            let k = choose|k: int| 0 <= k < out@.len() && out@[k] == t;
            assert(r.unref()[k] == t);
        }
        if set@.contains(t) {
            assert(r.unref().to_set().contains(t));
            let k = choose|k: int| 0 <= k < r.unref().len() && r.unref()[k] == t;
            assert(out@[k] == t);
        }
    }
    out
}

} // verus!
