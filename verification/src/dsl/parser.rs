//! Precedence-climbing parser for the condition DSL.
//!
//! Binding powers, loosest first: `or` (1,2), `and` (3,4), comparisons
//! `> < >= <= == !=` (5,6), `+ -` (7,8), `* /` (9,10); all binary operators
//! are left-associative. Prefix `not` and `-` parse their operand at power 11.
//! Postfix `[k]` / `[-k]` with a numeral `k` applies to any primary.
use vstd::prelude::*;
use crate::dsl::ast::{
    copy_decimal, index_value, numeral_index, Decimal, exprs_view, lemma_exprs_view_push, BinaryOp, Expr, ExprV,
    UnaryOp,
};
use crate::dsl::lexer::{
    lex, strip_leading, strip_leading_zeros, strip_trailing, strip_trailing_zeros, tokenize, toks_view, TokV,
    Token,
};
use crate::error::Error;
use crate::text::{chars_of, decimal, push_char, push_str, string_from_range, u64_to_decimal};

verus! {

/// Left and right binding power, and the operator, of an infix token.
pub open spec fn infix_op(t: TokV) -> Option<(int, int, BinaryOp)> {
    match t {
        TokV::Or => Some((1, 2, BinaryOp::Or)),
        TokV::And => Some((3, 4, BinaryOp::And)),
        TokV::Gt => Some((5, 6, BinaryOp::Gt)),
        TokV::Lt => Some((5, 6, BinaryOp::Lt)),
        TokV::Ge => Some((5, 6, BinaryOp::Ge)),
        TokV::Le => Some((5, 6, BinaryOp::Le)),
        TokV::EqEq => Some((5, 6, BinaryOp::Eq)),
        TokV::Ne => Some((5, 6, BinaryOp::Ne)),
        TokV::Plus => Some((7, 8, BinaryOp::Add)),
        TokV::Minus => Some((7, 8, BinaryOp::Sub)),
        TokV::Star => Some((9, 10, BinaryOp::Mul)),
        TokV::Slash => Some((9, 10, BinaryOp::Div)),
        _ => None,
    }
}

/// The token at position `p`, if any.
pub open spec fn tok_at(ts: Seq<TokV>, p: int) -> Option<TokV> {
    if 0 <= p < ts.len() {
        Some(ts[p])
    } else {
        None
    }
}

/// The digits of a number in scientific form: the first digit, then a point
/// and the others when there are any (`0` for no digits).
pub open spec fn mantissa(m: Seq<char>) -> Seq<char> {
    if m.len() == 0 {
        "0"@
    } else if m.len() == 1 {
        seq![m[0]]
    } else {
        seq![m[0]] + "."@ + m.subrange(1, m.len() as int)
    }
}

/// A numeral with integer digits `a` and fraction digits `b`, shown as Rust's
/// `{:?}` shows a floating-point number: leading zeros of `a` and trailing
/// zeros of `b` dropped; scientific form (`1.5e16`, `2e-5`) at or above
/// `1e16` and below `1e-4`; otherwise integer digits (`0` when none), a
/// point, and fraction digits (`0` when none). This is exact for numerals
/// whose significant digits a `f64` holds (up to 15); for longer ones Rust
/// shows the shortest digits of the nearest `f64` instead.
pub open spec fn numeral_debug(a: Seq<char>, b: Seq<char>) -> Seq<char> {
    let ia = strip_leading_zeros(a);
    let fb = strip_trailing_zeros(b);
    let m = strip_leading_zeros(fb);
    if ia.len() >= 17 {
        mantissa(strip_trailing_zeros(ia + fb)) + "e"@ + decimal((ia.len() - 1) as nat)
    } else if ia.len() == 0 && fb.len() > 0 && fb.len() - m.len() >= 4 {
        mantissa(m) + "e-"@ + decimal((fb.len() - m.len() + 1) as nat)
    } else {
        (if ia.len() == 0 { "0"@ } else { ia }) + "."@ + (if fb.len() == 0 { "0"@ } else { fb })
    }
}

/// How a token is shown in error messages (its `{:?}` form).
pub open spec fn tok_debug(t: TokV) -> Seq<char> {
    match t {
        TokV::Number(a, b) => "Number("@ + numeral_debug(a, b) + ")"@,
        TokV::Ident(n) => "Ident(\""@ + n + "\")"@,
        TokV::Plus => "Plus"@,
        TokV::Minus => "Minus"@,
        TokV::Star => "Star"@,
        TokV::Slash => "Slash"@,
        TokV::Gt => "Gt"@,
        TokV::Lt => "Lt"@,
        TokV::Ge => "Ge"@,
        TokV::Le => "Le"@,
        TokV::EqEq => "EqEq"@,
        TokV::Ne => "Ne"@,
        TokV::And => "And"@,
        TokV::Or => "Or"@,
        TokV::Not => "Not"@,
        TokV::LParen => "LParen"@,
        TokV::RParen => "RParen"@,
        TokV::LBracket => "LBracket"@,
        TokV::RBracket => "RBracket"@,
        TokV::Comma => "Comma"@,
    }
}

/// How an optional token is shown (`None` or `Some(...)`).
pub open spec fn opt_tok_debug(o: Option<TokV>) -> Seq<char> {
    match o {
        Some(t) => "Some("@ + tok_debug(t) + ")"@,
        None => "None"@,
    }
}

/// The message when `expected` is not the token at `p`.
pub open spec fn expected_msg(expected: Seq<char>, ts: Seq<TokV>, p: int) -> Seq<char> {
    "expected "@ + expected + ", got "@ + opt_tok_debug(tok_at(ts, p))
}

/// Postfix index suffixes `[k]` / `[-k]` applied to `e`, starting at `p`.
pub open spec fn parse_postfix_spec(ts: Seq<TokV>, e: ExprV, p: int) -> Result<(ExprV, int), Seq<char>>
    decreases ts.len() - p,
{
    if p >= 0 && tok_at(ts, p) == Some(TokV::LBracket) {
        let neg = tok_at(ts, p + 1) == Some(TokV::Minus);
        let q = if neg { p + 2 } else { p + 1 };
        match tok_at(ts, q) {
            Some(TokV::Number(a, b)) => if tok_at(ts, q + 1) == Some(TokV::RBracket) {
                parse_postfix_spec(ts, ExprV::Index(Box::new(e), index_value(neg, a)), q + 2)
            } else {
                Err(expected_msg("RBracket"@, ts, q + 1))
            },
            other => Err("expected index number, got "@ + opt_tok_debug(other)),
        }
    } else {
        Ok((e, p))
    }
}

/// An expression whose operators all bind at least as tightly as `min_bp`,
/// starting at `p`: the expression and the position after it, or the message
/// of the first syntax error.
pub open spec fn parse_expr_spec(ts: Seq<TokV>, p: int, min_bp: int) -> Result<(ExprV, int), Seq<char>>
    decreases ts.len() - p, 3int,
{
    if p < 0 || p > ts.len() {
        Err(seq![])
    } else {
        match parse_prefix_spec(ts, p) {
            Err(m) => Err(m),
            Ok((lhs, q)) => if p < q <= ts.len() {
                parse_infix_spec(ts, lhs, q, min_bp)
            } else {
                Err(seq![])
            },
        }
    }
}

/// The infix continuation of `lhs` at `p`.
pub open spec fn parse_infix_spec(ts: Seq<TokV>, lhs: ExprV, p: int, min_bp: int) -> Result<(ExprV, int), Seq<char>>
    decreases ts.len() - p, 1int,
{
    if p < 0 || p >= ts.len() {
        Ok((lhs, p))
    } else {
        match infix_op(ts[p]) {
            None => Ok((lhs, p)),
            Some((l, r, op)) => if l < min_bp {
                Ok((lhs, p))
            } else {
                match parse_expr_spec(ts, p + 1, r) {
                    Err(m) => Err(m),
                    Ok((rhs, q)) => if p < q <= ts.len() {
                        parse_infix_spec(ts, ExprV::Binary(op, Box::new(lhs), Box::new(rhs)), q, min_bp)
                    } else {
                        Err(seq![])
                    },
                }
            },
        }
    }
}

/// A prefix form (unary operator, literal, parenthesised expression,
/// identifier or call) followed by its postfix suffixes, starting at `p`.
pub open spec fn parse_prefix_spec(ts: Seq<TokV>, p: int) -> Result<(ExprV, int), Seq<char>>
    decreases ts.len() - p, 2int,
{
    if p < 0 || p >= ts.len() {
        Err("unexpected token: "@ + opt_tok_debug(None))
    } else {
        match ts[p] {
            TokV::Not => match parse_expr_spec(ts, p + 1, 11) {
                Ok((e, q)) => Ok((ExprV::Unary(UnaryOp::Not, Box::new(e)), q)),
                Err(m) => Err(m),
            },
            TokV::Minus => match parse_expr_spec(ts, p + 1, 11) {
                Ok((e, q)) => Ok((ExprV::Unary(UnaryOp::Neg, Box::new(e)), q)),
                Err(m) => Err(m),
            },
            TokV::Number(a, b) => parse_postfix_spec(ts, ExprV::Number(a, b), p + 1),
            TokV::LParen => match parse_expr_spec(ts, p + 1, 0) {
                Ok((e, q)) => if tok_at(ts, q) == Some(TokV::RParen) {
                    parse_postfix_spec(ts, e, q + 1)
                } else {
                    Err(expected_msg("RParen"@, ts, q))
                },
                Err(m) => Err(m),
            },
            TokV::Ident(n) => if tok_at(ts, p + 1) == Some(TokV::LParen) {
                if tok_at(ts, p + 2) == Some(TokV::RParen) {
                    parse_postfix_spec(ts, ExprV::Call(n, seq![]), p + 3)
                } else {
                    match parse_args_spec(ts, p + 2, seq![]) {
                        Ok((args, q)) => if tok_at(ts, q) == Some(TokV::RParen) {
                            parse_postfix_spec(ts, ExprV::Call(n, args), q + 1)
                        } else {
                            Err(expected_msg("RParen"@, ts, q))
                        },
                        Err(m) => Err(m),
                    }
                }
            } else {
                parse_postfix_spec(ts, ExprV::Ident(n), p + 1)
            },
            other => Err("unexpected token: "@ + opt_tok_debug(Some(other))),
        }
    }
}

/// A comma-separated argument list starting at `p`, appended to `acc`.
pub open spec fn parse_args_spec(ts: Seq<TokV>, p: int, acc: Seq<ExprV>) -> Result<(Seq<ExprV>, int), Seq<char>>
    decreases ts.len() - p, 4int,
{
    if p < 0 || p > ts.len() {
        Err(seq![])
    } else {
        match parse_expr_spec(ts, p, 0) {
            Err(m) => Err(m),
            Ok((a, q)) => if p < q < ts.len() && ts[q] == TokV::Comma {
                parse_args_spec(ts, q + 1, acc.push(a))
            } else if p < q <= ts.len() {
                Ok((acc.push(a), q))
            } else {
                Err(seq![])
            },
        }
    }
}

/// A whole token sequence as one expression, with nothing left over.
pub open spec fn parse_tokens(ts: Seq<TokV>) -> Result<ExprV, Seq<char>> {
    match parse_expr_spec(ts, 0, 0) {
        Ok((e, q)) => if q == ts.len() {
            Ok(e)
        } else {
            Err("trailing tokens after expression"@)
        },
        Err(m) => Err(m),
    }
}

/// Source text to expression: tokenize, then parse; `Err` carries the
/// message of the first lexical or syntax error.
pub open spec fn parse_source(src: Seq<char>) -> Result<ExprV, Seq<char>> {
    match lex(src) {
        Err(m) => Err(m),
        Ok(ts) => parse_tokens(ts),
    }
}

// ---------------------------------------------------------------------------
// Executable parser
// ---------------------------------------------------------------------------

fn dsl_error(msg: &str) -> (e: Error)
    ensures
        e matches Error::Dsl(m) && m@ == msg@,
{
    Error::Dsl(String::from_str(msg))
}

fn push_mantissa(s: &mut String, m: &String)
    ensures
        final(s)@ == old(s)@ + mantissa(m@),
{
    let mc = chars_of(m.as_str());
    if mc.len() == 0 {
        push_str(s, "0");
    } else {
        push_char(s, mc[0]);
        if mc.len() > 1 {
            push_str(s, ".");
            let rest = string_from_range(mc.as_slice(), 1, mc.len());
            push_str(s, rest.as_str());
            proof {
                reveal_strlit(".");
                assert(old(s)@ + mantissa(m@) =~= old(s)@.push(mc@[0]) + "."@ + rest@);
            }
        } else {
            assert(old(s)@ + mantissa(m@) =~= old(s)@.push(mc@[0]));
        }
    }
}

proof fn lemma_strip_leading_len(s: Seq<char>)
    ensures
        strip_leading_zeros(s).len() <= s.len(),
        s.len() > 0 && s.last() != '0' ==> strip_leading_zeros(s).len() > 0,
    decreases s.len(),
{
    if s.len() > 0 && s[0] == '0' {
        lemma_strip_leading_len(s.drop_first());
        if s.len() == 1 {
            assert(s.last() == s[0]);
        } else {
            assert(s.drop_first().last() == s.last());
        }
    }
}

proof fn lemma_strip_trailing_last(s: Seq<char>)
    ensures
        strip_trailing_zeros(s).len() > 0 ==> strip_trailing_zeros(s).last() != '0',
    decreases s.len(),
{
    if s.len() > 0 && s.last() == '0' {
        lemma_strip_trailing_last(s.drop_last());
    }
}

fn push_numeral_debug(s: &mut String, d: &Decimal)
    ensures
        final(s)@ == old(s)@ + numeral_debug(d.int_digits@, d.frac_digits@),
{
    let ac = chars_of(d.int_digits.as_str());
    let bc = chars_of(d.frac_digits.as_str());
    assert(ac@.subrange(0, ac.len() as int) =~= ac@);
    assert(bc@.subrange(0, bc.len() as int) =~= bc@);
    let ia = strip_leading(ac.as_slice(), 0, ac.len());
    let fb = strip_trailing(bc.as_slice(), 0, bc.len());
    let fbc = chars_of(fb.as_str());
    assert(fbc@.subrange(0, fbc.len() as int) =~= fbc@);
    let m = strip_leading(fbc.as_slice(), 0, fbc.len());
    let ia_len = ia.as_str().unicode_len();
    let fb_len = fbc.len();
    let m_len = m.as_str().unicode_len();
    proof {
        lemma_strip_trailing_last(bc@);
        lemma_strip_leading_len(fbc@);
    }
    if ia_len >= 17 {
        let mut t = String::from_str(ia.as_str());
        push_str(&mut t, fb.as_str());
        let tc = chars_of(t.as_str());
        assert(tc@.subrange(0, tc.len() as int) =~= tc@);
        let mt = strip_trailing(tc.as_slice(), 0, tc.len());
        push_mantissa(s, &mt);
        push_str(s, "e");
        let e = u64_to_decimal((ia_len - 1) as u64);
        push_str(s, e.as_str());
    } else if ia_len == 0 && fb_len > 0 && fb_len - m_len >= 4 {
        push_mantissa(s, &m);
        push_str(s, "e-");
        let e = u64_to_decimal((fb_len - m_len + 1) as u64);
        push_str(s, e.as_str());
    } else {
        if ia_len == 0 {
            push_str(s, "0");
        } else {
            push_str(s, ia.as_str());
        }
        push_str(s, ".");
        if fb_len == 0 {
            push_str(s, "0");
        } else {
            push_str(s, fb.as_str());
        }
    }
}

fn tok_debug_string(t: &Token) -> (r: String)
    ensures
        r@ == tok_debug(t@),
{
    match t {
        Token::Number(d) => {
            let mut s = String::from_str("Number(");
            push_numeral_debug(&mut s, d);
            push_str(&mut s, ")");
            s
        },
        Token::Ident(n) => {
            let mut s = String::from_str("Ident(\"");
            push_str(&mut s, n.as_str());
            push_str(&mut s, "\")");
            s
        },
        Token::Plus => String::from_str("Plus"),
        Token::Minus => String::from_str("Minus"),
        Token::Star => String::from_str("Star"),
        Token::Slash => String::from_str("Slash"),
        Token::Gt => String::from_str("Gt"),
        Token::Lt => String::from_str("Lt"),
        Token::Ge => String::from_str("Ge"),
        Token::Le => String::from_str("Le"),
        Token::EqEq => String::from_str("EqEq"),
        Token::Ne => String::from_str("Ne"),
        Token::And => String::from_str("And"),
        Token::Or => String::from_str("Or"),
        Token::Not => String::from_str("Not"),
        Token::LParen => String::from_str("LParen"),
        Token::RParen => String::from_str("RParen"),
        Token::LBracket => String::from_str("LBracket"),
        Token::RBracket => String::from_str("RBracket"),
        Token::Comma => String::from_str("Comma"),
    }
}

fn push_opt_tok_debug(s: &mut String, ts: &Vec<Token>, p: usize)
    ensures
        final(s)@ == old(s)@ + opt_tok_debug(tok_at(toks_view(ts@), p as int)),
{
    if p < ts.len() {
        let ghost v = toks_view(ts@);
        assert(v[p as int] == ts@[p as int]@);
        push_str(s, "Some(");
        let t = tok_debug_string(&ts[p]);
        push_str(s, t.as_str());
        push_str(s, ")");
    } else {
        push_str(s, "None");
    }
}

fn expected_error(expected: &str, ts: &Vec<Token>, p: usize) -> (e: Error)
    ensures
        e matches Error::Dsl(m) && m@ == expected_msg(expected@, toks_view(ts@), p as int),
{
    let mut m = String::from_str("expected ");
    push_str(&mut m, expected);
    push_str(&mut m, ", got ");
    push_opt_tok_debug(&mut m, ts, p);
    Error::Dsl(m)
}

fn is_tok(ts: &Vec<Token>, p: usize, t: &Token) -> (b: bool)
    requires
        t is LBracket || t is RBracket || t is LParen || t is RParen || t is Minus || t is Comma,
    ensures
        b == (tok_at(toks_view(ts@), p as int) == Some(t@)),
{
    if p >= ts.len() {
        return false;
    }
    let ghost v = toks_view(ts@);
    assert(v[p as int] == ts@[p as int]@);
    match (&ts[p], t) {
        (Token::LBracket, Token::LBracket) => true,
        (Token::RBracket, Token::RBracket) => true,
        (Token::LParen, Token::LParen) => true,
        (Token::RParen, Token::RParen) => true,
        (Token::Minus, Token::Minus) => true,
        (Token::Comma, Token::Comma) => true,
        _ => false,
    }
}

fn parse_postfix(ts: &Vec<Token>, e: Expr, p: usize) -> (r: Result<(Expr, usize), Error>)
    requires
        p <= ts.len(),
    ensures
        match parse_postfix_spec(toks_view(ts@), e@, p as int) {
            Ok((x, q)) => r matches Ok((y, q2)) && y@ == x && q2 == q && p <= q <= ts.len(),
            Err(m) => (r matches Err(Error::Dsl(msg)) && msg@ == m),
        },
    decreases ts.len() - p,
{
    let ghost v = toks_view(ts@);
    if !is_tok(ts, p, &Token::LBracket) {
        return Ok((e, p));
    }
    let neg = is_tok(ts, p + 1, &Token::Minus);
    let q = if neg { p + 2 } else { p + 1 };
    if q >= ts.len() {
        let mut m = String::from_str("expected index number, got ");
        push_opt_tok_debug(&mut m, ts, q);
        return Err(Error::Dsl(m));
    }
    assert(v[q as int] == ts@[q as int]@);
    let k = match &ts[q] {
        Token::Number(d) => numeral_index(neg, d),
        _ => {
            let mut m = String::from_str("expected index number, got ");
            push_opt_tok_debug(&mut m, ts, q);
            return Err(Error::Dsl(m));
        },
    };
    if !is_tok(ts, q + 1, &Token::RBracket) {
        return Err(expected_error("RBracket", ts, q + 1));
    }
    let idx = Expr::Index(Box::new(e), k);
    parse_postfix(ts, idx, q + 2)
}

fn infix_of(t: &Token) -> (r: Option<(u8, u8, BinaryOp)>)
    ensures
        match infix_op(t@) {
            Some((l, rb, op)) => r matches Some((l2, r2, op2)) && l2 == l && r2 == rb && op2 == op,
            None => r is None,
        },
{
    match t {
        Token::Or => Some((1, 2, BinaryOp::Or)),
        Token::And => Some((3, 4, BinaryOp::And)),
        Token::Gt => Some((5, 6, BinaryOp::Gt)),
        Token::Lt => Some((5, 6, BinaryOp::Lt)),
        Token::Ge => Some((5, 6, BinaryOp::Ge)),
        Token::Le => Some((5, 6, BinaryOp::Le)),
        Token::EqEq => Some((5, 6, BinaryOp::Eq)),
        Token::Ne => Some((5, 6, BinaryOp::Ne)),
        Token::Plus => Some((7, 8, BinaryOp::Add)),
        Token::Minus => Some((7, 8, BinaryOp::Sub)),
        Token::Star => Some((9, 10, BinaryOp::Mul)),
        Token::Slash => Some((9, 10, BinaryOp::Div)),
        _ => None,
    }
}

fn parse_expr(ts: &Vec<Token>, p: usize, min_bp: u8) -> (r: Result<(Expr, usize), Error>)
    requires
        p <= ts.len(),
    ensures
        match parse_expr_spec(toks_view(ts@), p as int, min_bp as int) {
            Ok((x, q)) => r matches Ok((y, q2)) && y@ == x && q2 == q && p < q <= ts.len(),
            Err(m) => (r matches Err(Error::Dsl(msg)) && msg@ == m),
        },
    decreases ts.len() - p, 3int,
{
    let (lhs, q) = parse_prefix(ts, p)?;
    parse_infix(ts, lhs, q, min_bp)
}

fn parse_infix(ts: &Vec<Token>, lhs: Expr, p: usize, min_bp: u8) -> (r: Result<(Expr, usize), Error>)
    requires
        p <= ts.len(),
    ensures
        match parse_infix_spec(toks_view(ts@), lhs@, p as int, min_bp as int) {
            Ok((x, q)) => r matches Ok((y, q2)) && y@ == x && q2 == q && p <= q <= ts.len(),
            Err(m) => (r matches Err(Error::Dsl(msg)) && msg@ == m),
        },
    decreases ts.len() - p, 1int,
{
    let ghost v = toks_view(ts@);
    if p >= ts.len() {
        return Ok((lhs, p));
    }
    assert(v[p as int] == ts@[p as int]@);
    match infix_of(&ts[p]) {
        None => Ok((lhs, p)),
        Some((l, rb, op)) => {
            if l < min_bp {
                return Ok((lhs, p));
            }
            let (rhs, q) = parse_expr(ts, p + 1, rb)?;
            let e = Expr::Binary(op, Box::new(lhs), Box::new(rhs));
            parse_infix(ts, e, q, min_bp)
        },
    }
}

fn parse_prefix(ts: &Vec<Token>, p: usize) -> (r: Result<(Expr, usize), Error>)
    requires
        p <= ts.len(),
    ensures
        match parse_prefix_spec(toks_view(ts@), p as int) {
            Ok((x, q)) => r matches Ok((y, q2)) && y@ == x && q2 == q && p < q <= ts.len(),
            Err(m) => (r matches Err(Error::Dsl(msg)) && msg@ == m),
        },
    decreases ts.len() - p, 2int,
{
    let ghost v = toks_view(ts@);
    if p >= ts.len() {
        let mut m = String::from_str("unexpected token: ");
        push_opt_tok_debug(&mut m, ts, p);
        return Err(Error::Dsl(m));
    }
    assert(v[p as int] == ts@[p as int]@);
    match &ts[p] {
        Token::Not => {
            let (e, q) = parse_expr(ts, p + 1, 11)?;
            Ok((Expr::Unary(UnaryOp::Not, Box::new(e)), q))
        },
        Token::Minus => {
            let (e, q) = parse_expr(ts, p + 1, 11)?;
            Ok((Expr::Unary(UnaryOp::Neg, Box::new(e)), q))
        },
        Token::Number(d) => parse_postfix(ts, Expr::Number(copy_decimal(d)), p + 1),
        Token::LParen => {
            let (e, q) = parse_expr(ts, p + 1, 0)?;
            if !is_tok(ts, q, &Token::RParen) {
                return Err(expected_error("RParen", ts, q));
            }
            parse_postfix(ts, e, q + 1)
        },
        Token::Ident(name) => {
            if is_tok(ts, p + 1, &Token::LParen) {
                if is_tok(ts, p + 2, &Token::RParen) {
                    let call = Expr::Call(name.clone(), Vec::new());
                    assert(exprs_view(Seq::<Expr>::empty()) =~= Seq::<ExprV>::empty());
                    parse_postfix(ts, call, p + 3)
                } else {
                    let args0: Vec<Expr> = Vec::new();
                    assert(exprs_view(args0@) =~= Seq::<ExprV>::empty());
                    let (args, q) = parse_args(ts, p + 2, args0)?;
                    if !is_tok(ts, q, &Token::RParen) {
                        return Err(expected_error("RParen", ts, q));
                    }
                    parse_postfix(ts, Expr::Call(name.clone(), args), q + 1)
                }
            } else {
                parse_postfix(ts, Expr::Ident(name.clone()), p + 1)
            }
        },
        _ => {
            let mut m = String::from_str("unexpected token: ");
            push_opt_tok_debug(&mut m, ts, p);
            Err(Error::Dsl(m))
        },
    }
}

fn parse_args(ts: &Vec<Token>, p: usize, acc: Vec<Expr>) -> (r: Result<(Vec<Expr>, usize), Error>)
    requires
        p <= ts.len(),
    ensures
        match parse_args_spec(toks_view(ts@), p as int, exprs_view(acc@)) {
            Ok((x, q)) => r matches Ok((y, q2)) && exprs_view(y@) == x && q2 == q && p < q
                <= ts.len(),
            Err(m) => (r matches Err(Error::Dsl(msg)) && msg@ == m),
        },
    decreases ts.len() - p, 4int,
{
    let ghost v = toks_view(ts@);
    let (a, q) = parse_expr(ts, p, 0)?;
    let mut acc = acc;
    proof {
        lemma_exprs_view_push(acc@, a);
    }
    acc.push(a);
    if is_tok(ts, q, &Token::Comma) {
        parse_args(ts, q + 1, acc)
    } else {
        Ok((acc, q))
    }
}

/// A parser over a token sequence, positioned at a token index.
pub struct Parser {
    tokens: Vec<Token>,
    pos: usize,
}

impl Parser {
    /// The tokens being parsed.
    pub closed spec fn tokens_view(&self) -> Seq<TokV> {
        toks_view(self.tokens@)
    }

    /// The current token index.
    pub closed spec fn position(&self) -> int {
        self.pos as int
    }

    /// The position lies within the token sequence.
    pub closed spec fn wf(&self) -> bool {
        self.pos <= self.tokens.len()
    }

    /// A parser at the start of `tokens`.
    pub fn new(tokens: Vec<Token>) -> (p: Self)
        ensures
            p.wf(),
            p.tokens_view() == toks_view(tokens@),
            p.position() == 0,
    {
        Parser { tokens, pos: 0 }
    }

    /// Parses one expression from the current position; the remaining tokens
    /// must all be consumed. The result is `parse_expr_spec` from the current
    /// position with minimum binding power 0: its expression, its error
    /// message, or "trailing tokens after expression" when tokens are left over.
    pub fn parse(&mut self) -> (r: Result<Expr, Error>)
        requires
            old(self).wf(),
        ensures
            final(self).wf(),
            final(self).tokens_view() == old(self).tokens_view(),
            match parse_expr_spec(old(self).tokens_view(), old(self).position(), 0) {
                Ok((x, q)) => if q == old(self).tokens_view().len() {
                    r matches Ok(y) && y@ == x && final(self).position() == q
                } else {
                    r matches Err(Error::Dsl(m)) && m@ == "trailing tokens after expression"@
                },
                Err(m) => (r matches Err(Error::Dsl(msg)) && msg@ == m),
            },
    {
        let (e, q) = parse_expr(&self.tokens, self.pos, 0)?;
        self.pos = q;
        if q != self.tokens.len() {
            return Err(dsl_error("trailing tokens after expression"));
        }
        Ok(e)
    }
}

/// Source string to expression: tokenizes, then parses the whole token sequence.
pub fn parse_str(src: &str) -> (r: Result<Expr, Error>)
    ensures
        match parse_source(src@) {
            Ok(x) => r matches Ok(y) && y@ == x,
            Err(m) => (r matches Err(Error::Dsl(msg)) && msg@ == m),
        },
{
    let tokens = tokenize(src)?;
    let mut p = Parser::new(tokens);
    p.parse()
}

} // verus!
