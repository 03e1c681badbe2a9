//! Integer statistics helpers of the factor workbench.
use vstd::prelude::*;

verus! {

/// Size of layer `i` when `n` items are cut into `q` consecutive layers:
/// `n / q`, plus one for each of the first `n % q` layers.
pub open spec fn layer_size(n: nat, q: nat, i: nat) -> nat {
    n / q + if i < n % q { 1nat } else { 0nat }
}

/// Sum of the first `k` entries of a sequence.
pub open spec fn sum_prefix(s: Seq<usize>, k: int) -> int
    decreases k,
{
    if k <= 0 {
        0
    } else {
        sum_prefix(s, k - 1) + s[k - 1]
    }
}

/// Layer sizes for cutting `n` items (ascending factor value) into `q`
/// consecutive layers: base size `n / q`, the remainder going one each to the
/// front layers.
pub fn layer_sizes(n: usize, q: usize) -> (sizes: Vec<usize>)
    requires
        q > 0,
    ensures
        sizes@.len() == q,
        forall|i: int| 0 <= i < q ==> #[trigger] sizes@[i] == layer_size(n as nat, q as nat, i as nat),
{
    let base = n / q;
    let rem = n % q;
    let mut sizes: Vec<usize> = Vec::new();
    let mut i: usize = 0;
    while i < q
        invariant
            i <= q,
            q > 0,
            base == n / q,
            rem == n % q,
            sizes@.len() == i,
            forall|k: int| 0 <= k < i ==> #[trigger] sizes@[k] == layer_size(n as nat, q as nat, k as nat),
        decreases q - i,
    {
        assert(base < n || base <= n) by (nonlinear_arith)
            requires base == n / q, q > 0;
        let extra: usize = if i < rem { 1 } else { 0 };
        assert(base + extra <= usize::MAX) by (nonlinear_arith)
            requires base == n / q, q > 0, extra <= 1, rem == n % q, (extra == 1 ==> rem > 0);
        sizes.push(base + extra);
        i += 1;
    }
    sizes
}

/// The layer sizes add up to the number of items.
pub proof fn law_layer_sizes_sum(n: nat, q: nat, sizes: Seq<usize>)
    requires
        q > 0,
        sizes.len() == q,
        forall|i: int| 0 <= i < q ==> #[trigger] sizes[i] == layer_size(n, q, i as nat),
    ensures
        sum_prefix(sizes, q as int) == n,
{
    lemma_sum_layers(n, q, sizes, q as int);
    assert(q * (n / q) + n % q == n) by (nonlinear_arith)
        requires q > 0;
}

proof fn lemma_sum_layers(n: nat, q: nat, sizes: Seq<usize>, k: int)
    requires
        q > 0,
        0 <= k <= q,
        sizes.len() == q,
        forall|i: int| 0 <= i < q ==> #[trigger] sizes[i] == layer_size(n, q, i as nat),
    ensures
        sum_prefix(sizes, k) == k * (n / q) + if k < n % q { k } else { (n % q) as int },
    decreases k,
{
    if k > 0 {
        lemma_sum_layers(n, q, sizes, k - 1);
        let base = (n / q) as int;
        let rem = (n % q) as int;
        assert(sizes[k - 1] == layer_size(n, q, (k - 1) as nat));
        assert(sizes[k - 1] as int == base + if k - 1 < rem { 1int } else { 0int });
        assert(k * base == (k - 1) * base + base) by (nonlinear_arith);
        assert(sum_prefix(sizes, k) == sum_prefix(sizes, k - 1) + sizes[k - 1]);
        assert(k * (n / q) == k * base);
    } else {
        assert(k * (n / q) == 0) by (nonlinear_arith)
            requires k == 0;
    }
}

/// Layers never grow towards the back, and differ in size by at most one.
pub proof fn law_layer_sizes_balanced(n: nat, q: nat, i: nat, j: nat)
    requires
        q > 0,
        i <= j < q,
    ensures
        layer_size(n, q, j) <= layer_size(n, q, i) <= layer_size(n, q, j) + 1,
{
}

/// The horizons of the IC decay ladder, before sorting and de-duplication.
pub open spec fn ladder_candidates(h: nat) -> Set<nat> {
    let a = if h / 4 > 1 { h / 4 } else { 1 };
    let b = if h / 2 > 1 { h / 2 } else { 1 };
    set![a, b, h, 2 * h, 4 * h]
}

/// Strictly increasing.
pub open spec fn strictly_increasing(s: Seq<usize>) -> bool {
    forall|i: int, j: int| 0 <= i < j < s.len() ==> s[i] < s[j]
}

fn insert_unique(v: Vec<usize>, x: usize) -> (r: Vec<usize>)
    requires
        strictly_increasing(v@),
    ensures
        strictly_increasing(r@),
        forall|y: usize| #[trigger] r@.contains(y) <==> (v@.contains(y) || y == x),
{
    let mut i: usize = 0;
    while i < v.len() && v[i] < x
        invariant
            i <= v.len(),
            strictly_increasing(v@),
            forall|k: int| 0 <= k < i ==> v@[k] < x,
        decreases v.len() - i,
    {
        i += 1;
    }
    if i < v.len() && v[i] == x {
        assert(v@.contains(x));
        return v;
    }
    let ghost old_v = v@;
    let mut r = v;
    r.insert(i, x);
    proof {
        assert(r@ =~= old_v.subrange(0, i as int).push(x) + old_v.subrange(i as int, old_v.len() as int));
        assert forall|y: usize| #[trigger] r@.contains(y) <==> (old_v.contains(y) || y == x) by {
            if r@.contains(y) {
                let k = choose|k: int| 0 <= k < r@.len() && r@[k] == y;
                if k < i {
                    assert(old_v[k] == y);
                } else if k > i {
                    assert(old_v[k - 1] == y);
                }
            }
            if old_v.contains(y) {
                let k = choose|k: int| 0 <= k < old_v.len() && old_v[k] == y;
                if k < i {
                    assert(r@[k] == y);
                } else {
                    assert(r@[k + 1] == y);
                }
            }
            if y == x {
                assert(r@[i as int] == x);
            }
        }
    }
    r
}

/// The IC decay ladder: `{max(h/4,1), max(h/2,1), h, 2h, 4h}` ascending,
/// without duplicates.
pub fn decay_ladder(h: usize) -> (v: Vec<usize>)
    requires
        4 * h <= usize::MAX,
    ensures
        strictly_increasing(v@),
        forall|x: usize| v@.contains(x) <==> ladder_candidates(h as nat).contains(x as nat),
{
    let a = if h / 4 > 1 { h / 4 } else { 1 };
    let b = if h / 2 > 1 { h / 2 } else { 1 };
    let v: Vec<usize> = Vec::new();
    let v = insert_unique(v, a);
    let v = insert_unique(v, b);
    let v = insert_unique(v, h);
    let v = insert_unique(v, 2 * h);
    let v = insert_unique(v, 4 * h);
    proof {
        assert forall|x: usize| v@.contains(x) <==> ladder_candidates(h as nat).contains(x as nat) by {
            assert(ladder_candidates(h as nat).contains(x as nat) <==> (x == a || x == b || x == h || x
                == 2 * h || x == 4 * h));
        }
    }
    v
}

} // verus!
