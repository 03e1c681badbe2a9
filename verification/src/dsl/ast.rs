//! Abstract syntax of DSL expressions, and its mathematical model.
use vstd::prelude::*;

verus! {

/// A decimal numeral as written in the source, held exactly.
///
/// `int_digits` has no leading `'0'` (the empty string stands for zero) and
/// `frac_digits` has no trailing `'0'`, so two numerals denote the same number
/// exactly when their `Decimal`s are equal. The floating-point value used at
/// evaluation time is the correctly rounded value of `int_digits.frac_digits`.
#[derive(Debug, PartialEq)]
pub struct Decimal {
    pub int_digits: String,
    pub frac_digits: String,
}

/// Unary operators.
#[derive(Debug, Clone, Copy, PartialEq, Eq)]
pub enum UnaryOp {
    /// Logical negation `not`.
    Not,
    /// Arithmetic negation `-`.
    Neg,
}

/// Binary operators.
#[derive(Debug, Clone, Copy, PartialEq, Eq)]
pub enum BinaryOp {
    /// `+`
    Add,
    /// `-`
    Sub,
    /// `*`
    Mul,
    /// `/`
    Div,
    /// `>`
    Gt,
    /// `<`
    Lt,
    /// `>=`
    Ge,
    /// `<=`
    Le,
    /// `==`
    Eq,
    /// `!=`
    Ne,
    /// `and`
    And,
    /// `or`
    Or,
}

/// A DSL expression.
#[derive(Debug, PartialEq)]
pub enum Expr {
    /// A numeric literal.
    Number(Decimal),
    /// An identifier naming a series in the context (`close`, `ctx.volume`, ...).
    Ident(String),
    /// Series indexing `expr[k]`; negative indices count back from the latest bar.
    Index(Box<Expr>, i64),
    /// A unary expression.
    Unary(UnaryOp, Box<Expr>),
    /// A binary expression.
    Binary(BinaryOp, Box<Expr>, Box<Expr>),
    /// A function call such as `sma(close, 20)`.
    Call(String, Vec<Expr>),
    /// A memoisation slot wrapped around a factor body by the tree loader.
    Cached(u32, Box<Expr>),
}

/// The mathematical value of an expression: strings become character sequences
/// and argument vectors become sequences.
pub enum ExprV {
    Number(Seq<char>, Seq<char>),
    Ident(Seq<char>),
    Index(Box<ExprV>, int),
    Unary(UnaryOp, Box<ExprV>),
    Binary(BinaryOp, Box<ExprV>, Box<ExprV>),
    Call(Seq<char>, Seq<ExprV>),
    Cached(u32, Box<ExprV>),
}

pub open spec fn expr_view(e: Expr) -> ExprV
    decreases e,
{
    match e {
        Expr::Number(d) => ExprV::Number(d.int_digits@, d.frac_digits@),
        Expr::Ident(s) => ExprV::Ident(s@),
        Expr::Index(b, k) => ExprV::Index(Box::new(expr_view(*b)), k as int),
        Expr::Unary(op, b) => ExprV::Unary(op, Box::new(expr_view(*b))),
        Expr::Binary(op, l, r) => ExprV::Binary(op, Box::new(expr_view(*l)), Box::new(expr_view(*r))),
        Expr::Call(n, args) => ExprV::Call(n@, exprs_view(args@)),
        Expr::Cached(id, b) => ExprV::Cached(id, Box::new(expr_view(*b))),
    }
}

/// Element-wise view of a sequence of expressions.
pub open spec fn exprs_view(a: Seq<Expr>) -> Seq<ExprV>
    decreases a,
{
    if a.len() == 0 {
        seq![]
    } else {
        exprs_view(a.drop_last()).push(expr_view(a.last()))
    }
}

impl View for Expr {
    type V = ExprV;

    open spec fn view(&self) -> ExprV {
        expr_view(*self)
    }
}

pub proof fn lemma_exprs_view_len(a: Seq<Expr>)
    ensures
        exprs_view(a).len() == a.len(),
    decreases a.len(),
{
    if a.len() > 0 {
        lemma_exprs_view_len(a.drop_last());
    }
}

pub proof fn lemma_exprs_view_index(a: Seq<Expr>, i: int)
    requires
        0 <= i < a.len(),
    ensures
        exprs_view(a)[i] == expr_view(a[i]),
        exprs_view(a).len() == a.len(),
    decreases a.len(),
{
    lemma_exprs_view_len(a);
    if i < a.len() - 1 {
        lemma_exprs_view_index(a.drop_last(), i);
    }
}

pub proof fn lemma_exprs_view_push(a: Seq<Expr>, x: Expr)
    ensures
        exprs_view(a.push(x)) == exprs_view(a).push(expr_view(x)),
{
    assert(a.push(x).drop_last() =~= a);
}

/// The value of a digit character (`0` for any other character).
pub open spec fn digit_value(c: char) -> int {
    if '0' <= c && c <= '9' { c as int - '0' as int } else { 0 }
}

/// The number a string of decimal digits denotes.
pub open spec fn digits_value(a: Seq<char>) -> int
    decreases a.len(),
{
    if a.len() == 0 {
        0
    } else {
        digits_value(a.drop_last()) * 10 + digit_value(a.last())
    }
}

/// The index of a postfix `expr[k]` / `expr[-k]`: the integer part of the
/// numeral `k` (its fraction dropped), at most `i64::MAX`, negated for `-k`.
pub open spec fn index_value(neg: bool, int_digits: Seq<char>) -> int {
    let v = if digits_value(int_digits) < i64::MAX { digits_value(int_digits) } else { i64::MAX as int };
    if neg { -v } else { v }
}

proof fn lemma_digits_value_nonneg(a: Seq<char>)
    ensures
        digits_value(a) >= 0,
    decreases a.len(),
{
    if a.len() > 0 {
        lemma_digits_value_nonneg(a.drop_last());
    }
}

/// The index a numeral gives in `expr[k]` (or `expr[-k]` when `neg`).
pub fn numeral_index(neg: bool, d: &Decimal) -> (k: i64)
    ensures
        k == index_value(neg, d.int_digits@),
{
    let cs = crate::text::chars_of(d.int_digits.as_str());
    let ghost m: int = i64::MAX as int;
    let mut v: i64 = 0;
    let mut i: usize = 0;
    while i < cs.len()
        invariant
            i <= cs.len(),
            cs@ == d.int_digits@,
            m == i64::MAX as int,
            0 <= v,
            v == (if digits_value(cs@.take(i as int)) < m { digits_value(cs@.take(i as int)) } else { m }),
        decreases cs.len() - i,
    {
        let c = cs[i];
        let dv: i64 = if '0' <= c && c <= '9' { (c as u32 - '0' as u32) as i64 } else { 0 };
        let ghost x = digits_value(cs@.take(i as int));
        proof {
            lemma_digits_value_nonneg(cs@.take(i as int));
            assert(cs@.take(i + 1).drop_last() =~= cs@.take(i as int));
            assert(cs@.take(i + 1).last() == c);
            assert(dv == digit_value(c));
        }
        let q: i64 = (i64::MAX - dv) / 10;
        if v > q {
            proof {
                assert(10 * v + dv > m) by (nonlinear_arith)
                    requires v > q, q == (m - dv) / 10, 0 <= dv <= 9, m > 0;
                if x < m {
                    assert(x * 10 + dv > m);
                } else {
                    assert(x * 10 + dv >= m) by (nonlinear_arith)
                        requires x >= m, m > 0, dv >= 0;
                }
            }
            v = i64::MAX;
        } else {
            proof {
                assert(10 * v + dv <= m) by (nonlinear_arith)
                    requires v <= q, q == (m - dv) / 10, 0 <= dv <= 9, m > 0, v >= 0;
            }
            v = v * 10 + dv;
        }
        i += 1;
    }
    assert(cs@.take(cs.len() as int) =~= cs@);
    if neg { -v } else { v }
}


/// An owned copy of a decimal numeral.
pub fn copy_decimal(d: &Decimal) -> (r: Decimal)
    ensures
        r == *d,
{
    Decimal { int_digits: d.int_digits.clone(), frac_digits: d.frac_digits.clone() }
}

/// A deep copy of an expression with the same mathematical value.
pub fn copy_expr(e: &Expr) -> (r: Expr)
    ensures
        r@ == e@,
    decreases e,
{
    match e {
        Expr::Number(d) => Expr::Number(copy_decimal(d)),
        Expr::Ident(s) => Expr::Ident(s.clone()),
        Expr::Index(b, k) => Expr::Index(Box::new(copy_expr(b)), *k),
        Expr::Unary(op, b) => Expr::Unary(*op, Box::new(copy_expr(b))),
        Expr::Binary(op, l, r) => Expr::Binary(*op, Box::new(copy_expr(l)), Box::new(copy_expr(r))),
        Expr::Call(n, args) => {
            let mut v: Vec<Expr> = Vec::new();
            let mut i: usize = 0;
            while i < args.len()
                invariant
                    i <= args.len(),
                    *e == Expr::Call(*n, *args),
                    exprs_view(v@) == exprs_view(args@.take(i as int)),
                decreases args.len() - i,
            {
                proof {
                    let ghost a: Vec<Expr> = e->Call_1;
                    assert(decreases_to!(*e => e->Call_1));
                    assert(decreases_to!(a => a@));
                    assert(decreases_to!(a@ => a@[i as int]));
                }
                let c = copy_expr(&args[i]);
                proof {
                    lemma_exprs_view_push(v@, c);
                    lemma_exprs_view_push(args@.take(i as int), args@[i as int]);
                    assert(args@.take(i as int).push(args@[i as int]) =~= args@.take(i + 1));
                }
                v.push(c);
                i += 1;
            }
            assert(args@.take(args.len() as int) =~= args@);
            Expr::Call(n.clone(), v)
        }
        Expr::Cached(id, b) => Expr::Cached(*id, Box::new(copy_expr(b))),
    }
}

/// Whether the identifier `n` occurs in an expression.
pub open spec fn mentions(e: ExprV, n: Seq<char>) -> bool
    decreases e,
{
    match e {
        ExprV::Ident(m) => m == n,
        ExprV::Number(_, _) => false,
        ExprV::Unary(_, b) => mentions(*b, n),
        ExprV::Binary(_, l, r) => mentions(*l, n) || mentions(*r, n),
        ExprV::Call(_, args) => mentions_any(args, n),
        ExprV::Index(b, _) => mentions(*b, n),
        ExprV::Cached(_, b) => mentions(*b, n),
    }
}

/// Whether the identifier `n` occurs in one of the expressions.
pub open spec fn mentions_any(a: Seq<ExprV>, n: Seq<char>) -> bool
    decreases a,
{
    if a.len() == 0 {
        false
    } else {
        mentions_any(a.drop_last(), n) || mentions(a.last(), n)
    }
}

/// No replacement bound in `env` mentions `n`.
pub open spec fn replacements_avoid(env: Seq<(Seq<char>, ExprV)>, n: Seq<char>) -> bool {
    forall|m: Seq<char>| #[trigger] env_lookup(env, m) is Some ==> !mentions(env_lookup(env, m)->0, n)
}

proof fn lemma_subst_avoids(e: ExprV, env: Seq<(Seq<char>, ExprV)>, n: Seq<char>)
    requires
        env_lookup(env, n) is Some,
        replacements_avoid(env, n),
    ensures
        !mentions(subst(e, env), n),
    decreases e,
{
    match e {
        ExprV::Ident(m) => {
            if env_lookup(env, m) is Some {
            }
        },
        ExprV::Number(_, _) => {},
        ExprV::Unary(_, b) => {
            lemma_subst_avoids(*b, env, n);
        },
        ExprV::Binary(_, l, r) => {
            lemma_subst_avoids(*l, env, n);
            lemma_subst_avoids(*r, env, n);
        },
        ExprV::Call(_, args) => {
            lemma_subst_all_avoids(args, env, n);
        },
        ExprV::Index(b, _) => {
            lemma_subst_avoids(*b, env, n);
        },
        ExprV::Cached(_, b) => {
            lemma_subst_avoids(*b, env, n);
        },
    }
}

proof fn lemma_subst_all_avoids(a: Seq<ExprV>, env: Seq<(Seq<char>, ExprV)>, n: Seq<char>)
    requires
        env_lookup(env, n) is Some,
        replacements_avoid(env, n),
    ensures
        !mentions_any(subst_all(a, env), n),
    decreases a,
{
    if a.len() > 0 {
        lemma_subst_all_avoids(a.drop_last(), env, n);
        lemma_subst_avoids(a.last(), env, n);
        assert(subst_all(a, env).drop_last() =~= subst_all(a.drop_last(), env));
    }
}

/// Law: after substitution, a name bound in `env` no longer occurs, provided
/// no replacement itself mentions it (inlined parameters and factors leave
/// no parameter name behind).
pub proof fn law_substitute_eliminates(e: ExprV, env: Seq<(Seq<char>, ExprV)>, n: Seq<char>)
    requires
        env_lookup(env, n) is Some,
        replacements_avoid(env, n),
    ensures
        !mentions(subst(e, env), n),
{
    lemma_subst_avoids(e, env, n);
}

/// Law: substitution leaves an expression that mentions no bound name unchanged.
pub proof fn law_substitute_identity(e: ExprV, env: Seq<(Seq<char>, ExprV)>)
    requires
        forall|m: Seq<char>| #[trigger] env_lookup(env, m) is Some ==> !mentions(e, m),
    ensures
        subst(e, env) == e,
{
    lemma_subst_identity(e, env);
}

proof fn lemma_subst_identity(e: ExprV, env: Seq<(Seq<char>, ExprV)>)
    requires
        forall|m: Seq<char>| #[trigger] env_lookup(env, m) is Some ==> !mentions(e, m),
    ensures
        subst(e, env) == e,
    decreases e,
{
    match e {
        ExprV::Ident(m) => {
            if env_lookup(env, m) is Some {
                assert(mentions(e, m));
            }
        },
        ExprV::Number(_, _) => {},
        ExprV::Unary(_, b) => {
            assert forall|m: Seq<char>| #[trigger] env_lookup(env, m) is Some implies !mentions(*b, m) by {
                assert(!mentions(e, m));
            }
            lemma_subst_identity(*b, env);
        },
        ExprV::Binary(_, l, r) => {
            assert forall|m: Seq<char>| #[trigger] env_lookup(env, m) is Some implies !mentions(*l, m) && !mentions(*r, m) by {
                assert(!mentions(e, m));
            }
            lemma_subst_identity(*l, env);
            lemma_subst_identity(*r, env);
        },
        ExprV::Call(_, args) => {
            assert forall|m: Seq<char>| #[trigger] env_lookup(env, m) is Some implies !mentions_any(args, m) by {
                assert(!mentions(e, m));
            }
            lemma_subst_all_identity(args, env);
        },
        ExprV::Index(b, _) => {
            assert forall|m: Seq<char>| #[trigger] env_lookup(env, m) is Some implies !mentions(*b, m) by {
                assert(!mentions(e, m));
            }
            lemma_subst_identity(*b, env);
        },
        ExprV::Cached(_, b) => {
            assert forall|m: Seq<char>| #[trigger] env_lookup(env, m) is Some implies !mentions(*b, m) by {
                assert(!mentions(e, m));
            }
            lemma_subst_identity(*b, env);
        },
    }
}

proof fn lemma_subst_all_identity(a: Seq<ExprV>, env: Seq<(Seq<char>, ExprV)>)
    requires
        forall|m: Seq<char>| #[trigger] env_lookup(env, m) is Some ==> !mentions_any(a, m),
    ensures
        subst_all(a, env) == a,
    decreases a,
{
    if a.len() > 0 {
        assert forall|m: Seq<char>| #[trigger] env_lookup(env, m) is Some implies !mentions_any(a.drop_last(), m)
            && !mentions(a.last(), m) by {
            assert(!mentions_any(a, m));
        }
        lemma_subst_all_identity(a.drop_last(), env);
        lemma_subst_identity(a.last(), env);
        assert(subst_all(a, env) =~= a);
    }
}


/// View of a substitution environment: names paired with replacement expressions.
pub open spec fn env_view(env: Seq<(String, Expr)>) -> Seq<(Seq<char>, ExprV)> {
    env.map_values(|b: (String, Expr)| (b.0@, b.1@))
}

/// The replacement bound to `name` (the first binding with that name).
pub open spec fn env_lookup(env: Seq<(Seq<char>, ExprV)>, name: Seq<char>) -> Option<ExprV>
    decreases env.len(),
{
    if env.len() == 0 {
        None
    } else if env[0].0 == name {
        Some(env[0].1)
    } else {
        env_lookup(env.drop_first(), name)
    }
}

/// Replaces every identifier bound in `env` by its replacement (deep copy);
/// all other nodes are kept.
pub open spec fn subst(e: ExprV, env: Seq<(Seq<char>, ExprV)>) -> ExprV
    decreases e,
{
    match e {
        ExprV::Ident(n) => match env_lookup(env, n) {
            Some(r) => r,
            None => e,
        },
        ExprV::Number(_, _) => e,
        ExprV::Unary(op, b) => ExprV::Unary(op, Box::new(subst(*b, env))),
        ExprV::Binary(op, l, r) => ExprV::Binary(op, Box::new(subst(*l, env)), Box::new(subst(*r, env))),
        ExprV::Call(n, args) => ExprV::Call(n, subst_all(args, env)),
        ExprV::Index(b, k) => ExprV::Index(Box::new(subst(*b, env)), k),
        ExprV::Cached(id, b) => ExprV::Cached(id, Box::new(subst(*b, env))),
    }
}

/// `subst` applied to each expression of a sequence.
pub open spec fn subst_all(a: Seq<ExprV>, env: Seq<(Seq<char>, ExprV)>) -> Seq<ExprV>
    decreases a,
{
    if a.len() == 0 {
        seq![]
    } else {
        subst_all(a.drop_last(), env).push(subst(a.last(), env))
    }
}

fn lookup(env: &[(String, Expr)], name: &String) -> (r: Option<usize>)
    ensures
        match env_lookup(env_view(env@), name@) {
            Some(x) => r matches Some(i) && i < env.len() && env@[i as int].1@ == x,
            None => r is None,
        },
{
    let ghost ev = env_view(env@);
    let mut i: usize = 0;
    assert(ev.subrange(0, ev.len() as int) =~= ev);
    while i < env.len()
        invariant
            i <= env.len(),
            ev == env_view(env@),
            env_lookup(ev, name@) == env_lookup(ev.subrange(i as int, ev.len() as int), name@),
        decreases env.len() - i,
    {
        let ghost rest = ev.subrange(i as int, ev.len() as int);
        assert(rest[0] == (env@[i as int].0@, env@[i as int].1@));
        if env[i].0 == *name {
            return Some(i);
        }
        assert(rest.drop_first() =~= ev.subrange(i + 1, ev.len() as int));
        i += 1;
    }
    None
}

/// Replaces each identifier bound in `env` by a deep copy of its replacement
/// (used to inline `params`/`factors` at load time). When a name is bound more
/// than once, the first binding counts.
pub fn substitute(expr: &Expr, env: &[(String, Expr)]) -> (r: Expr)
    ensures
        r@ == subst(expr@, env_view(env@)),
    decreases expr,
{
    match expr {
        Expr::Ident(name) => match lookup(env, name) {
            Some(i) => copy_expr(&env[i].1),
            None => Expr::Ident(name.clone()),
        },
        Expr::Number(d) => Expr::Number(copy_decimal(d)),
        Expr::Unary(op, e) => Expr::Unary(*op, Box::new(substitute(e, env))),
        Expr::Binary(op, l, r) => Expr::Binary(*op, Box::new(substitute(l, env)), Box::new(substitute(r, env))),
        Expr::Call(name, args) => {
            let mut v: Vec<Expr> = Vec::new();
            let mut i: usize = 0;
            while i < args.len()
                invariant
                    i <= args.len(),
                    *expr == Expr::Call(*name, *args),
                    exprs_view(v@) == subst_all(exprs_view(args@.take(i as int)), env_view(env@)),
                decreases args.len() - i,
            {
                proof {
                    let ghost a: Vec<Expr> = expr->Call_1;
                    assert(decreases_to!(*expr => expr->Call_1));
                    assert(decreases_to!(a => a@));
                    assert(decreases_to!(a@ => a@[i as int]));
                }
                let c = substitute(&args[i], env);
                proof {
                    lemma_exprs_view_push(v@, c);
                    lemma_exprs_view_push(args@.take(i as int), args@[i as int]);
                    assert(args@.take(i as int).push(args@[i as int]) =~= args@.take(i + 1));
                    let pre = exprs_view(args@.take(i as int));
                    assert(pre.push(expr_view(args@[i as int])).drop_last() =~= pre);
                }
                v.push(c);
                i += 1;
            }
            assert(args@.take(args.len() as int) =~= args@);
            Expr::Call(name.clone(), v)
        },
        Expr::Index(e, k) => Expr::Index(Box::new(substitute(e, env)), *k),
        Expr::Cached(id, e) => Expr::Cached(*id, Box::new(substitute(e, env))),
    }
}

} // verus!
