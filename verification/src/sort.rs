//! Occurrence counting over sequences, and a verified merge sort for integers.
use vstd::prelude::*;

verus! {

/// Number of occurrences of `v` in `s`.
pub open spec fn count<A>(s: Seq<A>, v: A) -> nat
    decreases s.len(),
{
    if s.len() == 0 {
        0
    } else {
        count(s.drop_last(), v) + if s.last() == v { 1nat } else { 0nat }
    }
}

/// Non-decreasing order.
pub open spec fn sorted(s: Seq<i64>) -> bool {
    forall|i: int, j: int| 0 <= i <= j < s.len() ==> s[i] <= s[j]
}

/// `r` holds the same values as `s`, each as often.
pub open spec fn same_counts<A>(r: Seq<A>, s: Seq<A>) -> bool {
    forall|v: A| #[trigger] count(r, v) == count(s, v)
}

pub proof fn lemma_count_concat<A>(a: Seq<A>, b: Seq<A>, v: A)
    ensures
        count(a + b, v) == count(a, v) + count(b, v),
    decreases b.len(),
{
    if b.len() == 0 {
        assert(a + b =~= a);
    } else {
        assert((a + b).drop_last() =~= a + b.drop_last());
        lemma_count_concat(a, b.drop_last(), v);
    }
}

pub proof fn lemma_count_push<A>(a: Seq<A>, x: A, v: A)
    ensures
        count(a.push(x), v) == count(a, v) + if x == v { 1nat } else { 0nat },
{
    assert(a.push(x).drop_last() =~= a);
}

pub proof fn lemma_count_absent<A>(s: Seq<A>, v: A)
    requires
        forall|i: int| 0 <= i < s.len() ==> s[i] != v,
    ensures
        count(s, v) == 0,
    decreases s.len(),
{
    if s.len() > 0 {
        lemma_count_absent(s.drop_last(), v);
    }
}

pub proof fn lemma_count_all<A>(s: Seq<A>, v: A)
    requires
        forall|i: int| 0 <= i < s.len() ==> s[i] == v,
    ensures
        count(s, v) == s.len(),
    decreases s.len(),
{
    if s.len() > 0 {
        lemma_count_all(s.drop_last(), v);
    }
}

pub proof fn lemma_count_positive<A>(s: Seq<A>, i: int)
    requires
        0 <= i < s.len(),
    ensures
        count(s, s[i]) > 0,
    decreases s.len(),
{
    if i < s.len() - 1 {
        lemma_count_positive(s.drop_last(), i);
    }
}

pub proof fn lemma_count_positive_contains<A>(s: Seq<A>, v: A) -> (i: int)
    requires
        count(s, v) > 0,
    ensures
        0 <= i < s.len(),
        s[i] == v,
    decreases s.len(),
{
    if s.last() == v {
        s.len() - 1
    } else {
        lemma_count_positive_contains(s.drop_last(), v)
    }
}

fn merge(a: &Vec<i64>, b: &Vec<i64>) -> (r: Vec<i64>)
    requires
        sorted(a@),
        sorted(b@),
    ensures
        sorted(r@),
        r@.len() == a@.len() + b@.len(),
        forall|v: i64| #[trigger] count(r@, v) == count(a@, v) + count(b@, v),
{
    let mut r: Vec<i64> = Vec::new();
    let mut i: usize = 0;
    let mut j: usize = 0;
    while i < a.len() || j < b.len()
        invariant
            i <= a.len(),
            j <= b.len(),
            sorted(a@),
            sorted(b@),
            sorted(r@),
            r@.len() == i + j,
            forall|v: i64| #[trigger] count(r@, v) == count(a@.take(i as int), v) + count(b@.take(j as int), v),
            r@.len() > 0 && i < a.len() ==> r@.last() <= a@[i as int],
            r@.len() > 0 && j < b.len() ==> r@.last() <= b@[j as int],
        decreases a.len() + b.len() - i - j,
    {
        let take_a = j >= b.len() || (i < a.len() && a[i] <= b[j]);
        if take_a {
            let x = a[i];
            proof {
                assert forall|v: i64| #[trigger] count(r@.push(x), v) == count(a@.take(i + 1), v) + count(b@.take(j as int), v) by {
                    lemma_count_push(r@, x, v);
                    assert(a@.take(i + 1) =~= a@.take(i as int).push(x));
                    lemma_count_push(a@.take(i as int), x, v);
                }
            }
            r.push(x);
            i += 1;
        } else {
            let x = b[j];
            proof {
                assert forall|v: i64| #[trigger] count(r@.push(x), v) == count(a@.take(i as int), v) + count(b@.take(j + 1), v) by {
                    lemma_count_push(r@, x, v);
                    assert(b@.take(j + 1) =~= b@.take(j as int).push(x));
                    lemma_count_push(b@.take(j as int), x, v);
                }
            }
            r.push(x);
            j += 1;
        }
    }
    assert(a@.take(a.len() as int) =~= a@);
    assert(b@.take(b.len() as int) =~= b@);
    r
}

fn sort_range(v: &Vec<i64>, lo: usize, hi: usize) -> (r: Vec<i64>)
    requires
        lo <= hi <= v.len(),
    ensures
        sorted(r@),
        r@.len() == hi - lo,
        same_counts(r@, v@.subrange(lo as int, hi as int)),
    decreases hi - lo,
{
    if hi - lo <= 1 {
        let mut r: Vec<i64> = Vec::new();
        if hi > lo {
            r.push(v[lo]);
        }
        assert(r@ =~= v@.subrange(lo as int, hi as int));
        r
    } else {
        let mid = lo + (hi - lo) / 2;
        let left = sort_range(v, lo, mid);
        let right = sort_range(v, mid, hi);
        let r = merge(&left, &right);
        proof {
            assert forall|x: i64| #[trigger] count(r@, x) == count(v@.subrange(lo as int, hi as int), x) by {
                assert(v@.subrange(lo as int, hi as int) =~= v@.subrange(lo as int, mid as int) + v@.subrange(mid as int, hi as int));
                lemma_count_concat(v@.subrange(lo as int, mid as int), v@.subrange(mid as int, hi as int), x);
            }
        }
        r
    }
}

/// The values of `v` in non-decreasing order.
pub fn sort_i64(v: &Vec<i64>) -> (r: Vec<i64>)
    ensures
        sorted(r@),
        r@.len() == v@.len(),
        same_counts(r@, v@),
{
    let r = sort_range(v, 0, v.len());
    assert(v@.subrange(0, v.len() as int) =~= v@);
    r
}

} // verus!
