//! Laws of the parser: how prefix operators, binary operators and their
//! precedence and associativity shape the tree.
use vstd::prelude::*;
use crate::dsl::ast::{BinaryOp, ExprV, UnaryOp};
use crate::dsl::lexer::TokV;
use crate::dsl::parser::{
    infix_op, parse_args_spec, parse_expr_spec, parse_infix_spec, parse_postfix_spec, parse_prefix_spec,
    parse_tokens, tok_at,
};

verus! {

/// A token that is an operand on its own: an identifier or a number.
pub open spec fn atom_tok(t: TokV) -> bool {
    t is Ident || t is Number
}

/// The expression of an operand token.
pub open spec fn atom_expr(t: TokV) -> ExprV {
    match t {
        TokV::Ident(n) => ExprV::Ident(n),
        TokV::Number(a, b) => ExprV::Number(a, b),
        _ => ExprV::Ident(seq![]),
    }
}

/// How tightly a binary operator token binds: `or` 1, `and` 2, comparisons
/// 3, `+ -` 4, `* /` 5; 0 for a token that is no binary operator.
pub open spec fn level(t: TokV) -> int {
    match t {
        TokV::Or => 1,
        TokV::And => 2,
        TokV::Gt | TokV::Lt | TokV::Ge | TokV::Le | TokV::EqEq | TokV::Ne => 3,
        TokV::Plus | TokV::Minus => 4,
        TokV::Star | TokV::Slash => 5,
        _ => 0,
    }
}

/// The operator a binary operator token stands for.
pub open spec fn binop(t: TokV) -> BinaryOp {
    match t {
        TokV::Or => BinaryOp::Or,
        TokV::And => BinaryOp::And,
        TokV::Gt => BinaryOp::Gt,
        TokV::Lt => BinaryOp::Lt,
        TokV::Ge => BinaryOp::Ge,
        TokV::Le => BinaryOp::Le,
        TokV::EqEq => BinaryOp::Eq,
        TokV::Ne => BinaryOp::Ne,
        TokV::Plus => BinaryOp::Add,
        TokV::Minus => BinaryOp::Sub,
        TokV::Star => BinaryOp::Mul,
        _ => BinaryOp::Div,
    }
}

/// The binary expression `l op r`.
pub open spec fn bin(t: TokV, l: ExprV, r: ExprV) -> ExprV {
    ExprV::Binary(binop(t), Box::new(l), Box::new(r))
}

proof fn lemma_infix_table(t: TokV)
    ensures
        level(t) > 0 ==> infix_op(t) == Some((2 * level(t) - 1, 2 * level(t), binop(t))),
        level(t) == 0 ==> infix_op(t) is None,
{
}

/// An operand at `p` not followed by `(` or `[` is read alone.
proof fn lemma_atom(ts: Seq<TokV>, p: int)
    requires
        0 <= p < ts.len(),
        atom_tok(ts[p]),
        p + 1 == ts.len() || level(ts[p + 1]) > 0,
    ensures
        parse_prefix_spec(ts, p) == Ok::<(ExprV, int), Seq<char>>((atom_expr(ts[p]), p + 1)),
{
    assert(tok_at(ts, p + 1) != Some(TokV::LBracket));
    assert(tok_at(ts, p + 1) != Some(TokV::LParen));
    assert(parse_postfix_spec(ts, atom_expr(ts[p]), p + 1) == Ok::<(ExprV, int), Seq<char>>((atom_expr(ts[p]), p + 1)));
}

/// An operand at `p` followed by the end, or by an operator binding looser
/// than `min_bp`, is an expression on its own.
proof fn lemma_atom_expr(ts: Seq<TokV>, p: int, min_bp: int)
    requires
        0 <= p < ts.len(),
        atom_tok(ts[p]),
        p + 1 == ts.len() || (level(ts[p + 1]) > 0 && 2 * level(ts[p + 1]) - 1 < min_bp),
    ensures
        parse_expr_spec(ts, p, min_bp) == Ok::<(ExprV, int), Seq<char>>((atom_expr(ts[p]), p + 1)),
{
    lemma_atom(ts, p);
    if p + 1 < ts.len() {
        lemma_infix_table(ts[p + 1]);
    }
    assert(parse_infix_spec(ts, atom_expr(ts[p]), p + 1, min_bp) == Ok::<(ExprV, int), Seq<char>>((atom_expr(ts[p]), p + 1)));
}

/// Law: a binary operator between two operands gives that operator applied
/// to them: `x op y` reads as `Binary(op, x, y)`.
pub proof fn law_parse_binary(x: TokV, o: TokV, y: TokV)
    requires
        atom_tok(x),
        atom_tok(y),
        level(o) > 0,
    ensures
        parse_tokens(seq![x, o, y]) == Ok::<ExprV, Seq<char>>(bin(o, atom_expr(x), atom_expr(y))),
{
    let ts = seq![x, o, y];
    lemma_infix_table(o);
    lemma_atom(ts, 0);
    lemma_atom_expr(ts, 2, 2 * level(o));
    let b = bin(o, atom_expr(x), atom_expr(y));
    assert(parse_infix_spec(ts, b, 3, 0) == Ok::<(ExprV, int), Seq<char>>((b, 3)));
    assert(parse_infix_spec(ts, atom_expr(x), 1, 0) == Ok::<(ExprV, int), Seq<char>>((b, 3)));
    assert(parse_expr_spec(ts, 0, 0) == Ok::<(ExprV, int), Seq<char>>((b, 3)));
}

/// Law: a prefix `-` or `not` applies to the operand right after it only
/// (it binds tighter than any binary operator): `-x op y` reads as
/// `Binary(op, Neg(x), y)` and `not x op y` as `Binary(op, Not(x), y)`.
pub proof fn law_parse_prefix_binds_tightest(u: TokV, x: TokV, o: TokV, y: TokV)
    requires
        u == TokV::Minus || u == TokV::Not,
        atom_tok(x),
        atom_tok(y),
        level(o) > 0,
    ensures
        parse_tokens(seq![u, x, o, y]) == Ok::<ExprV, Seq<char>>(bin(
            o,
            ExprV::Unary(if u == TokV::Minus { UnaryOp::Neg } else { UnaryOp::Not }, Box::new(atom_expr(x))),
            atom_expr(y),
        )),
{
    let ts = seq![u, x, o, y];
    let uop = if u == TokV::Minus { UnaryOp::Neg } else { UnaryOp::Not };
    let ux = ExprV::Unary(uop, Box::new(atom_expr(x)));
    lemma_infix_table(o);
    lemma_atom_expr(ts, 1, 11);
    assert(parse_prefix_spec(ts, 0) == Ok::<(ExprV, int), Seq<char>>((ux, 2)));
    lemma_atom_expr(ts, 3, 2 * level(o));
    let b = bin(o, ux, atom_expr(y));
    assert(parse_infix_spec(ts, b, 4, 0) == Ok::<(ExprV, int), Seq<char>>((b, 4)));
    assert(parse_infix_spec(ts, ux, 2, 0) == Ok::<(ExprV, int), Seq<char>>((b, 4)));
    assert(parse_expr_spec(ts, 0, 0) == Ok::<(ExprV, int), Seq<char>>((b, 4)));
}

/// Law: of two binary operators, the one that binds tighter groups first,
/// and operators that bind alike group from the left: `x o1 y o2 z` reads as
/// `x o1 (y o2 z)` when `o2` binds tighter than `o1`, and as
/// `(x o1 y) o2 z` otherwise.
pub proof fn law_parse_precedence(x: TokV, o1: TokV, y: TokV, o2: TokV, z: TokV)
    requires
        atom_tok(x),
        atom_tok(y),
        atom_tok(z),
        level(o1) > 0,
        level(o2) > 0,
    ensures
        parse_tokens(seq![x, o1, y, o2, z]) == Ok::<ExprV, Seq<char>>(if level(o2) > level(o1) {
            bin(o1, atom_expr(x), bin(o2, atom_expr(y), atom_expr(z)))
        } else {
            bin(o2, bin(o1, atom_expr(x), atom_expr(y)), atom_expr(z))
        }),
{
    let ts = seq![x, o1, y, o2, z];
    let (xe, ye, ze) = (atom_expr(x), atom_expr(y), atom_expr(z));
    lemma_infix_table(o1);
    lemma_infix_table(o2);
    lemma_atom(ts, 0);
    lemma_atom(ts, 2);
    lemma_atom_expr(ts, 4, 2 * level(o2));
    let r1 = 2 * level(o1);
    if level(o2) > level(o1) {
        let inner = bin(o2, ye, ze);
        assert(parse_infix_spec(ts, inner, 5, r1) == Ok::<(ExprV, int), Seq<char>>((inner, 5)));
        assert(parse_infix_spec(ts, ye, 3, r1) == Ok::<(ExprV, int), Seq<char>>((inner, 5)));
        assert(parse_expr_spec(ts, 2, r1) == Ok::<(ExprV, int), Seq<char>>((inner, 5)));
        let b = bin(o1, xe, inner);
        assert(parse_infix_spec(ts, b, 5, 0) == Ok::<(ExprV, int), Seq<char>>((b, 5)));
        assert(parse_infix_spec(ts, xe, 1, 0) == Ok::<(ExprV, int), Seq<char>>((b, 5)));
        assert(parse_expr_spec(ts, 0, 0) == Ok::<(ExprV, int), Seq<char>>((b, 5)));
    } else {
        assert(parse_infix_spec(ts, ye, 3, r1) == Ok::<(ExprV, int), Seq<char>>((ye, 3)));
        assert(parse_expr_spec(ts, 2, r1) == Ok::<(ExprV, int), Seq<char>>((ye, 3)));
        let left = bin(o1, xe, ye);
        let b = bin(o2, left, ze);
        assert(parse_infix_spec(ts, b, 5, 0) == Ok::<(ExprV, int), Seq<char>>((b, 5)));
        assert(parse_infix_spec(ts, left, 3, 0) == Ok::<(ExprV, int), Seq<char>>((b, 5)));
        assert(parse_infix_spec(ts, xe, 1, 0) == Ok::<(ExprV, int), Seq<char>>((b, 5)));
        assert(parse_expr_spec(ts, 0, 0) == Ok::<(ExprV, int), Seq<char>>((b, 5)));
    }
}

/// Law: parentheses group first: `(x o1 y) o2 z` reads as
/// `Binary(o2, Binary(o1, x, y), z)`, whatever the two operators.
pub proof fn law_parse_parens(x: TokV, o1: TokV, y: TokV, o2: TokV, z: TokV)
    requires
        atom_tok(x),
        atom_tok(y),
        atom_tok(z),
        level(o1) > 0,
        level(o2) > 0,
    ensures
        parse_tokens(seq![TokV::LParen, x, o1, y, TokV::RParen, o2, z]) == Ok::<ExprV, Seq<char>>(
            bin(o2, bin(o1, atom_expr(x), atom_expr(y)), atom_expr(z)),
        ),
{
    let ts = seq![TokV::LParen, x, o1, y, TokV::RParen, o2, z];
    let (xe, ye, ze) = (atom_expr(x), atom_expr(y), atom_expr(z));
    lemma_infix_table(o1);
    lemma_infix_table(o2);
    lemma_infix_table(TokV::RParen);
    lemma_atom(ts, 1);
    assert(tok_at(ts, 4) != Some(TokV::LBracket) && tok_at(ts, 4) != Some(TokV::LParen));
    assert(parse_prefix_spec(ts, 3) == Ok::<(ExprV, int), Seq<char>>((ye, 4))) by {
        assert(parse_postfix_spec(ts, ye, 4) == Ok::<(ExprV, int), Seq<char>>((ye, 4)));
    }
    let r1 = 2 * level(o1);
    assert(parse_infix_spec(ts, ye, 4, r1) == Ok::<(ExprV, int), Seq<char>>((ye, 4)));
    assert(parse_expr_spec(ts, 3, r1) == Ok::<(ExprV, int), Seq<char>>((ye, 4)));
    let inner = bin(o1, xe, ye);
    assert(parse_infix_spec(ts, inner, 4, 0) == Ok::<(ExprV, int), Seq<char>>((inner, 4)));
    assert(parse_infix_spec(ts, xe, 2, 0) == Ok::<(ExprV, int), Seq<char>>((inner, 4)));
    assert(parse_expr_spec(ts, 1, 0) == Ok::<(ExprV, int), Seq<char>>((inner, 4)));
    assert(parse_postfix_spec(ts, inner, 5) == Ok::<(ExprV, int), Seq<char>>((inner, 5)));
    assert(parse_prefix_spec(ts, 0) == Ok::<(ExprV, int), Seq<char>>((inner, 5)));
    lemma_atom_expr(ts, 6, 2 * level(o2));
    let b = bin(o2, inner, ze);
    assert(parse_infix_spec(ts, b, 7, 0) == Ok::<(ExprV, int), Seq<char>>((b, 7)));
    assert(parse_infix_spec(ts, inner, 5, 0) == Ok::<(ExprV, int), Seq<char>>((b, 7)));
    assert(parse_expr_spec(ts, 0, 0) == Ok::<(ExprV, int), Seq<char>>((b, 7)));
}

/// Law: a call with two operand arguments reads as a call of that name
/// with the arguments in order: `f(x, y)` is `Call(f, [x, y])`.
pub proof fn law_parse_call(f: Seq<char>, x: TokV, y: TokV)
    requires
        atom_tok(x),
        atom_tok(y),
    ensures
        parse_tokens(seq![TokV::Ident(f), TokV::LParen, x, TokV::Comma, y, TokV::RParen]) == Ok::<ExprV, Seq<char>>(
            ExprV::Call(f, seq![atom_expr(x), atom_expr(y)]),
        ),
{
    let ts = seq![TokV::Ident(f), TokV::LParen, x, TokV::Comma, y, TokV::RParen];
    let (xe, ye) = (atom_expr(x), atom_expr(y));
    lemma_infix_table(TokV::Comma);
    lemma_infix_table(TokV::RParen);
    assert(parse_prefix_spec(ts, 2) == Ok::<(ExprV, int), Seq<char>>((xe, 3))) by {
        assert(parse_postfix_spec(ts, xe, 3) == Ok::<(ExprV, int), Seq<char>>((xe, 3)));
    }
    assert(parse_infix_spec(ts, xe, 3, 0) == Ok::<(ExprV, int), Seq<char>>((xe, 3)));
    assert(parse_expr_spec(ts, 2, 0) == Ok::<(ExprV, int), Seq<char>>((xe, 3)));
    assert(parse_prefix_spec(ts, 4) == Ok::<(ExprV, int), Seq<char>>((ye, 5))) by {
        assert(parse_postfix_spec(ts, ye, 5) == Ok::<(ExprV, int), Seq<char>>((ye, 5)));
    }
    assert(parse_infix_spec(ts, ye, 5, 0) == Ok::<(ExprV, int), Seq<char>>((ye, 5)));
    assert(parse_expr_spec(ts, 4, 0) == Ok::<(ExprV, int), Seq<char>>((ye, 5)));
    let args = seq![xe, ye];
    assert(seq![xe].push(ye) == args);
    assert(Seq::<ExprV>::empty().push(xe) == seq![xe]);
    assert(parse_args_spec(ts, 4, seq![xe]) == Ok::<(Seq<ExprV>, int), Seq<char>>((args, 5)));
    assert(parse_args_spec(ts, 2, seq![]) == Ok::<(Seq<ExprV>, int), Seq<char>>((args, 5)));
    let c = ExprV::Call(f, args);
    assert(parse_postfix_spec(ts, c, 6) == Ok::<(ExprV, int), Seq<char>>((c, 6)));
    assert(parse_prefix_spec(ts, 0) == Ok::<(ExprV, int), Seq<char>>((c, 6)));
    assert(parse_infix_spec(ts, c, 6, 0) == Ok::<(ExprV, int), Seq<char>>((c, 6)));
    assert(parse_expr_spec(ts, 0, 0) == Ok::<(ExprV, int), Seq<char>>((c, 6)));
}

} // verus!
