//! Laws of grid expansion: the combinations are exactly the Cartesian product
//! of the axes, each tuple once, in mixed-radix order.
use vstd::prelude::*;
use vstd::arithmetic::div_mod::{lemma_breakdown, lemma_fundamental_div_mod_converse};
use crate::optimize::grid::{combo, lemma_prod_right_pos, lemma_prod_zero, prod_right};

verus! {

/// The index of a tuple in mixed radix: `sum of t[b] * prod_right(b + 1)` over `b >= a`.
pub open spec fn radix_value(sizes: Seq<usize>, t: Seq<usize>, a: int) -> int
    decreases sizes.len() - a,
{
    if a < 0 || a >= sizes.len() {
        0
    } else {
        t[a] * prod_right(sizes, a + 1) + radix_value(sizes, t, a + 1)
    }
}

/// A tuple picks one value on each axis.
pub open spec fn in_grid(sizes: Seq<usize>, t: Seq<usize>) -> bool {
    t.len() == sizes.len() && forall|a: int| 0 <= a < sizes.len() ==> #[trigger] t[a] < sizes[a]
}

proof fn lemma_all_positive(sizes: Seq<usize>, i: int)
    requires
        0 <= i < prod_right(sizes, 0),
    ensures
        forall|a: int| 0 <= a < sizes.len() ==> #[trigger] sizes[a] > 0,
{
    assert forall|a: int| 0 <= a < sizes.len() implies #[trigger] sizes[a] > 0 by {
        if sizes[a] == 0 {
            lemma_prod_zero(sizes, a, 0);
        }
    }
}

proof fn lemma_value_of_combo(sizes: Seq<usize>, i: int, a: int)
    requires
        0 <= i,
        0 <= a <= sizes.len(),
        forall|b: int| 0 <= b < sizes.len() ==> #[trigger] sizes[b] > 0,
    ensures
        radix_value(sizes, combo(sizes, i), a) == i % prod_right(sizes, a),
    decreases sizes.len() - a,
{
    if a == sizes.len() {
        assert(i % 1 == 0);
    } else {
        lemma_value_of_combo(sizes, i, a + 1);
        let p1 = prod_right(sizes, a + 1);
        let s = sizes[a] as int;
        lemma_prod_right_pos(sizes, a + 1);
        lemma_breakdown(i, p1, s);
        assert(prod_right(sizes, a) == s * p1);
        assert(p1 * s == s * p1) by (nonlinear_arith);
        assert(combo(sizes, i)[a] == ((i / p1) % s) as usize);
        assert(p1 * ((i / p1) % s) == ((i / p1) % s) * p1) by (nonlinear_arith);
    }
}

proof fn lemma_value_bound(sizes: Seq<usize>, t: Seq<usize>, a: int)
    requires
        in_grid(sizes, t),
        0 <= a <= sizes.len(),
    ensures
        0 <= radix_value(sizes, t, a) < prod_right(sizes, a),
    decreases sizes.len() - a,
{
    if a < sizes.len() {
        lemma_value_bound(sizes, t, a + 1);
        let p1 = prod_right(sizes, a + 1);
        let r = radix_value(sizes, t, a + 1);
        let d = t[a] as int;
        let s = sizes[a] as int;
        assert(d < s);
        assert(0 <= d * p1 + r < s * p1) by (nonlinear_arith)
            requires 0 <= d < s, 0 <= r < p1;
    }
}

/// `q` accumulates the digits before axis `a` in mixed radix.
spec fn prefix_value(sizes: Seq<usize>, t: Seq<usize>, a: int) -> int
    decreases a,
{
    if a <= 0 {
        0
    } else {
        prefix_value(sizes, t, a - 1) * sizes[a - 1] + t[a - 1]
    }
}

proof fn lemma_split_value(sizes: Seq<usize>, t: Seq<usize>, a: int)
    requires
        in_grid(sizes, t),
        0 <= a <= sizes.len(),
    ensures
        radix_value(sizes, t, 0) == prefix_value(sizes, t, a) * prod_right(sizes, a) + radix_value(sizes, t, a),
        prefix_value(sizes, t, a) >= 0,
    decreases a,
{
    if a > 0 {
        lemma_split_value(sizes, t, a - 1);
        let q = prefix_value(sizes, t, a - 1);
        let s = sizes[a - 1] as int;
        let d = t[a - 1] as int;
        let p1 = prod_right(sizes, a);
        let r = radix_value(sizes, t, a);
        assert(prod_right(sizes, a - 1) == s * p1);
        assert(radix_value(sizes, t, a - 1) == d * p1 + r);
        assert(q * (s * p1) + (d * p1 + r) == (q * s + d) * p1 + r) by (nonlinear_arith);
        assert(q * s + d >= 0) by (nonlinear_arith)
            requires q >= 0, s >= 0, d >= 0;
    }
}

proof fn lemma_combo_of_value(sizes: Seq<usize>, t: Seq<usize>, a: int)
    requires
        in_grid(sizes, t),
        0 <= a < sizes.len(),
    ensures
        combo(sizes, radix_value(sizes, t, 0))[a] == t[a],
{
    let i = radix_value(sizes, t, 0);
    let p = prod_right(sizes, a);
    let p1 = prod_right(sizes, a + 1);
    let s = sizes[a] as int;
    lemma_value_bound(sizes, t, 0);
    lemma_value_bound(sizes, t, a);
    lemma_value_bound(sizes, t, a + 1);
    lemma_all_positive(sizes, i);
    lemma_prod_right_pos(sizes, a + 1);
    lemma_split_value(sizes, t, a);
    lemma_fundamental_div_mod_converse(i, p, prefix_value(sizes, t, a), radix_value(sizes, t, a));
    lemma_split_value(sizes, t, a + 1);
    lemma_fundamental_div_mod_converse(i, p1, prefix_value(sizes, t, a + 1), radix_value(sizes, t, a + 1));
    lemma_breakdown(i, p1, s);
    assert(p == s * p1);
    assert(p1 * s == s * p1) by (nonlinear_arith);
    let c = (i / p1) % s;
    assert(radix_value(sizes, t, a) == t[a] * p1 + radix_value(sizes, t, a + 1));
    assert(p1 * c == t[a] * p1);
    assert(c == t[a]) by (nonlinear_arith)
        requires p1 * c == t[a] * p1, p1 > 0;
}

/// Law: grid expansion is the Cartesian product of the axes. Combination `i`
/// (for `i` below the product of the sizes) picks an in-range value on every
/// axis; different combinations differ; and every choice of one value per
/// axis is some combination, the one whose index is its mixed-radix value.
pub proof fn law_grid_is_cartesian_product(sizes: Seq<usize>)
    ensures
        forall|i: int, a: int| 0 <= i < prod_right(sizes, 0) && 0 <= a < sizes.len()
            ==> #[trigger] combo(sizes, i)[a] < sizes[a],
        forall|i: int, j: int| 0 <= i < j < prod_right(sizes, 0) ==> #[trigger] combo(sizes, i) != #[trigger] combo(sizes, j),
        forall|t: Seq<usize>| #[trigger] in_grid(sizes, t) ==> 0 <= radix_value(sizes, t, 0) < prod_right(sizes, 0)
            && combo(sizes, radix_value(sizes, t, 0)) == t,
{
    assert forall|i: int, a: int| 0 <= i < prod_right(sizes, 0) && 0 <= a < sizes.len()
        implies #[trigger] combo(sizes, i)[a] < sizes[a] by {
        lemma_all_positive(sizes, i);
        lemma_prod_right_pos(sizes, a + 1);
    }
    assert forall|i: int, j: int| 0 <= i < j < prod_right(sizes, 0)
        implies #[trigger] combo(sizes, i) != #[trigger] combo(sizes, j) by {
        lemma_all_positive(sizes, i);
        lemma_value_of_combo(sizes, i, 0);
        lemma_value_of_combo(sizes, j, 0);
        lemma_fundamental_div_mod_converse(i, prod_right(sizes, 0), 0, i);
        lemma_fundamental_div_mod_converse(j, prod_right(sizes, 0), 0, j);
    }
    assert forall|t: Seq<usize>| #[trigger] in_grid(sizes, t) implies 0 <= radix_value(sizes, t, 0) < prod_right(sizes, 0)
        && combo(sizes, radix_value(sizes, t, 0)) == t by {
        lemma_value_bound(sizes, t, 0);
        assert forall|a: int| 0 <= a < sizes.len() implies combo(sizes, radix_value(sizes, t, 0))[a] == t[a] by {
            lemma_combo_of_value(sizes, t, a);
        }
        assert(combo(sizes, radix_value(sizes, t, 0)) =~= t);
    }
}

} // verus!
