//! Cartesian expansion of parameter grids. Axes keep their declaration order
//! and the last axis varies fastest.
use vstd::prelude::*;
use vstd::arithmetic::div_mod::lemma_div_denominator;
use crate::error::Error;
use crate::text::{chars_of, decimal, first_index_from, find_char_from, push_str, split_char, split_from,
    string_from_range, string_views, trim, trim_str, u64_to_decimal};

verus! {

/// Product of `sizes[0..k]`.
pub open spec fn prod_left(sizes: Seq<usize>, k: int) -> int
    decreases k,
{
    if k <= 0 {
        1
    } else {
        prod_left(sizes, k - 1) * sizes[k - 1]
    }
}

/// Product of `sizes[a..]`.
pub open spec fn prod_right(sizes: Seq<usize>, a: int) -> int
    decreases sizes.len() - a,
{
    if a >= sizes.len() {
        1
    } else {
        sizes[a] * prod_right(sizes, a + 1)
    }
}

/// Some running product `sizes[0..k]`, `k = 1..=n`, exceeds `usize::MAX`.
pub open spec fn overflows(sizes: Seq<usize>) -> bool {
    exists|k: int| 1 <= k <= sizes.len() && #[trigger] prod_left(sizes, k) > usize::MAX
}

/// The axis choices of combination `idx`: digit `a` is `(idx / P) % sizes[a]`
/// with `P` the product of the sizes after axis `a`.
pub open spec fn combo(sizes: Seq<usize>, idx: int) -> Seq<usize> {
    Seq::new(sizes.len(), |a: int| ((idx / prod_right(sizes, a + 1)) % sizes[a] as int) as usize)
}


/// The first name, in declaration order, that repeats an earlier one.
pub open spec fn first_repeat(names: Seq<Seq<char>>) -> Option<Seq<char>>
    decreases names.len(),
{
    if names.len() == 0 {
        None
    } else {
        match first_repeat(names.drop_last()) {
            Some(n) => Some(n),
            None => if names.drop_last().contains(names.last()) {
                Some(names.last())
            } else {
                None
            },
        }
    }
}

/// Why a grid is refused, checked in this order: no axis, a repeated name, a
/// size product that overflows, more combinations than `max_combos`.
pub open spec fn grid_problem(names: Seq<Seq<char>>, sizes: Seq<usize>, max_combos: nat) -> Option<Seq<char>> {
    if sizes.len() == 0 {
        Some("optimize: at least one --grid required"@)
    } else if first_repeat(names) is Some {
        Some("optimize: duplicate --grid name '"@ + first_repeat(names)->0 + "'"@)
    } else if overflows(sizes) {
        Some("optimize: grid size overflow"@)
    } else if prod_right(sizes, 0) > max_combos {
        Some("optimize: "@ + decimal(prod_right(sizes, 0) as nat) + " combos exceed --max-combos "@
            + decimal(max_combos) + "; narrow the grid"@)
    } else {
        None
    }
}

proof fn lemma_first_repeat_distinct(names: Seq<Seq<char>>, i: int)
    requires
        0 <= i <= names.len(),
        forall|a: int, b: int| 0 <= b < a < i ==> names[b] != names[a],
    ensures
        first_repeat(names.take(i)) is None,
    decreases i,
{
    if i > 0 {
        assert(names.take(i).drop_last() =~= names.take(i - 1));
        lemma_first_repeat_distinct(names, i - 1);
        if names.take(i - 1).contains(names[i - 1]) {
            let t = names.take(i - 1);
            let b = choose|b: int| 0 <= b < t.len() && #[trigger] t[b] == names[i - 1];
            assert(names[b] == names[i - 1]);
        }
    }
}

proof fn lemma_first_repeat_sticks(names: Seq<Seq<char>>, i: int)
    requires
        0 <= i <= names.len(),
        first_repeat(names.take(i)) is Some,
    ensures
        first_repeat(names) == first_repeat(names.take(i)),
    decreases names.len() - i,
{
    if i < names.len() {
        assert(names.take(i + 1).drop_last() =~= names.take(i));
        lemma_first_repeat_sticks(names, i + 1);
    } else {
        assert(names.take(i) =~= names);
    }
}

/// Every suffix product of positive sizes is positive.
pub proof fn lemma_prod_right_pos(sizes: Seq<usize>, a: int)
    requires
        0 <= a <= sizes.len(),
        forall|k: int| 0 <= k < sizes.len() ==> sizes[k] > 0,
    ensures
        prod_right(sizes, a) > 0,
    decreases sizes.len() - a,
{
    if a < sizes.len() {
        lemma_prod_right_pos(sizes, a + 1);
        assert(sizes[a] * prod_right(sizes, a + 1) > 0) by (nonlinear_arith)
            requires sizes[a] > 0, prod_right(sizes, a + 1) > 0;
    }
}

proof fn lemma_prod_left_right(sizes: Seq<usize>, k: int)
    requires
        0 <= k <= sizes.len(),
    ensures
        prod_left(sizes, k) * prod_right(sizes, k) == prod_right(sizes, 0),
    decreases k,
{
    if k > 0 {
        lemma_prod_left_right(sizes, k - 1);
        let l = prod_left(sizes, k - 1);
        let r = prod_right(sizes, k);
        let x = sizes[k - 1] as int;
        assert(l * x * r == l * (x * r)) by (nonlinear_arith);
    }
}

proof fn lemma_prod_left_monotone(sizes: Seq<usize>, k: int)
    requires
        0 <= k <= sizes.len(),
        forall|i: int| 0 <= i < sizes.len() ==> sizes[i] > 0,
    ensures
        forall|j: int| 0 <= j <= k ==> prod_left(sizes, j) <= prod_left(sizes, k),
        prod_left(sizes, k) >= 1,
    decreases k,
{
    if k > 0 {
        lemma_prod_left_monotone(sizes, k - 1);
        let l = prod_left(sizes, k - 1);
        assert(l <= l * sizes[k - 1]) by (nonlinear_arith)
            requires l >= 1, sizes[k - 1] >= 1;
    }
}

/// The value texts of a `--grid` axis, before they are read as numbers.
#[derive(Debug)]
pub enum AxisValues {
    /// `start:stop:step`.
    Range(String, String, String),
    /// Comma-separated values.
    List(Vec<String>),
}

/// A `--grid name=values` flag split into its name and value texts.
#[derive(Debug)]
pub struct AxisSpec {
    pub name: String,
    pub values: AxisValues,
}

/// How a `--grid` flag splits: at its first `=` into a trimmed name and a
/// trimmed right-hand side; a side with `:` is a range of exactly three
/// parts, otherwise a comma-separated list. `Err` carries the message.
pub open spec fn axis_split(flag: Seq<char>) -> Result<(Seq<char>, Seq<Seq<char>>, bool), Seq<char>> {
    let k = first_index_from(flag, '=', 0);
    if k >= flag.len() {
        Err("grid '"@ + flag + "': expected name=values"@)
    } else {
        let name = trim(flag.take(k));
        let rhs = trim(flag.skip(k + 1));
        if name.len() == 0 {
            Err("grid '"@ + flag + "': empty param name"@)
        } else if rhs.len() == 0 {
            Err("grid '"@ + flag + "': empty values"@)
        } else if first_index_from(rhs, ':', 0) < rhs.len() {
            let parts = split_from(rhs, ':', 0);
            if parts.len() != 3 {
                Err("grid '"@ + flag + "': range needs start:stop:step"@)
            } else {
                Ok((name, parts, true))
            }
        } else {
            Ok((name, split_from(rhs, ',', 0), false))
        }
    }
}

/// Splits a `--grid name=values` flag into its name and value texts (the
/// numbers themselves are read by the caller).
pub fn split_grid_axis(flag: &str) -> (r: Result<AxisSpec, Error>)
    ensures
        match axis_split(flag@) {
            Err(m) => (r matches Err(Error::Data(e)) && e@ == m),
            Ok((name, parts, is_range)) => r matches Ok(a) && a.name@ == name && match a.values {
                AxisValues::Range(x, y, z) => is_range && parts == seq![x@, y@, z@],
                AxisValues::List(v) => !is_range && string_views(v@) == parts,
            },
        },
{
    let cs = chars_of(flag);
    let k = find_char_from(cs.as_slice(), '=', 0);
    if k >= cs.len() {
        let mut m = String::from_str("grid '");
        push_str(&mut m, flag);
        push_str(&mut m, "': expected name=values");
        return Err(Error::Data(m));
    }
    let name_raw = string_from_range(cs.as_slice(), 0, k);
    let rhs_raw = string_from_range(cs.as_slice(), k + 1, cs.len());
    assert(name_raw@ =~= flag@.take(k as int));
    assert(rhs_raw@ =~= flag@.skip(k + 1));
    let name = trim_str(name_raw.as_str());
    let rhs = trim_str(rhs_raw.as_str());
    if name.as_str().is_empty() {
        let mut m = String::from_str("grid '");
        push_str(&mut m, flag);
        push_str(&mut m, "': empty param name");
        return Err(Error::Data(m));
    }
    if rhs.as_str().is_empty() {
        let mut m = String::from_str("grid '");
        push_str(&mut m, flag);
        push_str(&mut m, "': empty values");
        return Err(Error::Data(m));
    }
    let rc = chars_of(rhs.as_str());
    let colon = find_char_from(rc.as_slice(), ':', 0);
    if colon < rc.len() {
        let mut parts = split_char(rhs.as_str(), ':');
        if parts.len() != 3 {
            let mut m = String::from_str("grid '");
            push_str(&mut m, flag);
            push_str(&mut m, "': range needs start:stop:step");
            return Err(Error::Data(m));
        }
        let ghost pv = string_views(parts@);
        let z = parts.pop().unwrap();
        let y = parts.pop().unwrap();
        let x = parts.pop().unwrap();
        assert(pv =~= seq![x@, y@, z@]);
        Ok(AxisSpec { name, values: AxisValues::Range(x, y, z) })
    } else {
        let v = split_char(rhs.as_str(), ',');
        Ok(AxisSpec { name, values: AxisValues::List(v) })
    }
}

fn grid_error(text: &str) -> (e: Error)
    ensures
        e matches Error::Data(m) && m@ == text@,
{
    Error::Data(String::from_str(text))
}

/// The combinations of a parameter grid, given the axis names (declaration
/// order) and the number of values on each axis: combination `i` (for `i` in
/// `0..total`) picks value `combo(sizes, i)[a]` on axis `a`, so the last
/// axis varies fastest. Refused with `Error::Data` when there is no axis,
/// when a name repeats, when the running product of the sizes overflows,
/// and when the number of combinations exceeds `max_combos`.
pub fn grid_combos(names: &[String], sizes: &[usize], max_combos: usize) -> (r: Result<Vec<Vec<usize>>, Error>)
    requires
        names@.len() == sizes@.len(),
    ensures
        match grid_problem(names@.map_values(|n: String| n@), sizes@, max_combos as nat) {
            Some(msg) => (r matches Err(Error::Data(m)) && m@ == msg),
            None => r matches Ok(combos) && {
                &&& combos@.len() == prod_right(sizes@, 0)
                &&& forall|i: int| 0 <= i < combos@.len() ==> #[trigger] combos@[i]@ == combo(sizes@, i)
            },
        },
{
    let ghost nv = names@.map_values(|n: String| n@);
    if names.len() == 0 {
        return Err(grid_error("optimize: at least one --grid required"));
    }
    let mut i: usize = 0;
    while i < names.len()
        invariant
            i <= names.len(),
            names@.len() == sizes@.len(),
            nv == names@.map_values(|n: String| n@),
            forall|a: int, b: int| 0 <= b < a < i ==> nv[b] != nv[a],
        decreases names.len() - i,
    {
        let mut j: usize = 0;
        while j < i
            invariant
                j <= i < names.len(),
                names@.len() == sizes@.len(),
                nv == names@.map_values(|n: String| n@),
                forall|a: int, b: int| 0 <= b < a < i ==> nv[b] != nv[a],
                forall|b: int| 0 <= b < j ==> nv[b] != nv[i as int],
            decreases i - j,
        {
            if names[j] == names[i] {
                let mut msg = String::from_str("optimize: duplicate --grid name '");
                push_str(&mut msg, names[i].as_str());
                push_str(&mut msg, "'");
                proof {
                    lemma_first_repeat_distinct(nv, i as int);
                    assert(nv.take(i + 1).drop_last() =~= nv.take(i as int));
                    assert(nv.take(i as int)[j as int] == nv[i as int]);
                    assert(nv.take(i + 1).last() == nv[i as int]);
                    assert(nv[i as int] == names@[i as int]@);
                    lemma_first_repeat_sticks(nv, i + 1);
                }
                return Err(Error::Data(msg));
            }
            j += 1;
        }
        i += 1;
    }
    proof {
        lemma_first_repeat_distinct(nv, names.len() as int);
        assert(nv.take(names.len() as int) =~= nv);
    }
    let mut total: usize = 1;
    let mut k: usize = 0;
    while k < sizes.len()
        invariant
            k <= sizes.len(),
            total == prod_left(sizes@, k as int),
            sizes@.len() > 0,
            names@.len() == sizes@.len(),
            first_repeat(names@.map_values(|n: String| n@)) is None,
            forall|k2: int| 1 <= k2 <= k ==> #[trigger] prod_left(sizes@, k2) <= usize::MAX,
        decreases sizes.len() - k,
    {
        match total.checked_mul(sizes[k]) {
            Some(t) => {
                total = t;
            },
            None => {
                assert(prod_left(sizes@, k + 1) > usize::MAX);
                return Err(grid_error("optimize: grid size overflow"));
            },
        }
        k += 1;
    }
    proof {
        lemma_prod_left_right(sizes@, sizes@.len() as int);
    }
    if total > max_combos {
        let mut msg = String::from_str("optimize: ");
        let t = u64_to_decimal(total as u64);
        push_str(&mut msg, t.as_str());
        push_str(&mut msg, " combos exceed --max-combos ");
        let m = u64_to_decimal(max_combos as u64);
        push_str(&mut msg, m.as_str());
        push_str(&mut msg, "; narrow the grid");
        return Err(Error::Data(msg));
    }
    let mut combos: Vec<Vec<usize>> = Vec::new();
    let mut idx: usize = 0;
    while idx < total
        invariant
            idx <= total,
            total == prod_right(sizes@, 0),
            combos@.len() == idx,
            forall|c: int| 0 <= c < idx ==> #[trigger] combos@[c]@ == combo(sizes@, c),
        decreases total - idx,
    {
        proof {
            assert forall|a: int| 0 <= a < sizes@.len() implies sizes@[a] > 0 by {
                if sizes@[a] == 0 {
                    lemma_prod_zero(sizes@, a, 0);
                }
            }
        }
        let digits = decode(sizes, idx);
        combos.push(digits);
        idx += 1;
    }
    Ok(combos)
}

/// A zero size makes every suffix product that spans it zero.
pub proof fn lemma_prod_zero(sizes: Seq<usize>, z: int, a: int)
    requires
        0 <= a <= z < sizes.len(),
        sizes[z] == 0,
    ensures
        prod_right(sizes, a) == 0,
    decreases z - a,
{
    if a < z {
        lemma_prod_zero(sizes, z, a + 1);
    }
}

fn decode(sizes: &[usize], idx: usize) -> (digits: Vec<usize>)
    requires
        forall|a: int| 0 <= a < sizes@.len() ==> sizes@[a] > 0,
    ensures
        digits@ == combo(sizes@, idx as int),
{
    let n = sizes.len();
    let mut rev: Vec<usize> = Vec::new();
    let mut rest = idx;
    let mut a = n;
    while a > 0
        invariant
            a <= n == sizes@.len(),
            forall|b: int| 0 <= b < sizes@.len() ==> sizes@[b] > 0,
            rest == idx as int / prod_right(sizes@, a as int),
            rev@.len() == n - a,
            forall|j: int| 0 <= j < n - a ==> #[trigger] rev@[j] == combo(sizes@, idx as int)[n - 1 - j],
        decreases a,
    {
        a -= 1;
        let s = sizes[a];
        proof {
            lemma_prod_right_pos(sizes@, a + 1);
            lemma_div_denominator(idx as int, prod_right(sizes@, a + 1), s as int);
            assert(prod_right(sizes@, a + 1) * s == prod_right(sizes@, a as int)) by (nonlinear_arith)
                requires prod_right(sizes@, a as int) == s * prod_right(sizes@, a + 1);
        }
        rev.push(rest % s);
        rest = rest / s;
    }
    let mut digits: Vec<usize> = Vec::new();
    let mut j: usize = 0;
    while j < n
        invariant
            j <= n == sizes@.len(),
            rev@.len() == n,
            forall|k: int| 0 <= k < n ==> #[trigger] rev@[k] == combo(sizes@, idx as int)[n - 1 - k],
            digits@ == combo(sizes@, idx as int).take(j as int),
        decreases n - j,
    {
        digits.push(rev[n - 1 - j]);
        j += 1;
        assert(digits@ =~= combo(sizes@, idx as int).take(j as int));
    }
    assert(combo(sizes@, idx as int).take(n as int) =~= combo(sizes@, idx as int));
    digits
}

} // verus!
