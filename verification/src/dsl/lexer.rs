//! Tokenizer for the condition DSL.
use vstd::prelude::*;
use crate::dsl::ast::Decimal;
use crate::error::Error;
use crate::text::{
    alnum_char, alpha_char, chars_eq_str, chars_of, digit_char, is_alnum, is_alpha, is_digit,
    push_char, push_str, string_from_chars,
};

verus! {

/// A lexical token.
#[derive(Debug, PartialEq)]
pub enum Token {
    Number(Decimal),
    Ident(String),
    Plus,
    Minus,
    Star,
    Slash,
    Gt,
    Lt,
    Ge,
    Le,
    EqEq,
    Ne,
    And,
    Or,
    Not,
    LParen,
    RParen,
    LBracket,
    RBracket,
    Comma,
}

/// The mathematical value of a token.
pub enum TokV {
    Number(Seq<char>, Seq<char>),
    Ident(Seq<char>),
    Plus,
    Minus,
    Star,
    Slash,
    Gt,
    Lt,
    Ge,
    Le,
    EqEq,
    Ne,
    And,
    Or,
    Not,
    LParen,
    RParen,
    LBracket,
    RBracket,
    Comma,
}

impl View for Token {
    type V = TokV;

    open spec fn view(&self) -> TokV {
        match self {
            Token::Number(d) => TokV::Number(d.int_digits@, d.frac_digits@),
            Token::Ident(s) => TokV::Ident(s@),
            Token::Plus => TokV::Plus,
            Token::Minus => TokV::Minus,
            Token::Star => TokV::Star,
            Token::Slash => TokV::Slash,
            Token::Gt => TokV::Gt,
            Token::Lt => TokV::Lt,
            Token::Ge => TokV::Ge,
            Token::Le => TokV::Le,
            Token::EqEq => TokV::EqEq,
            Token::Ne => TokV::Ne,
            Token::And => TokV::And,
            Token::Or => TokV::Or,
            Token::Not => TokV::Not,
            Token::LParen => TokV::LParen,
            Token::RParen => TokV::RParen,
            Token::LBracket => TokV::LBracket,
            Token::RBracket => TokV::RBracket,
            Token::Comma => TokV::Comma,
        }
    }
}

/// Element-wise view of a token sequence.
pub open spec fn toks_view(ts: Seq<Token>) -> Seq<TokV> {
    ts.map_values(|t: Token| t@)
}

// ---------------------------------------------------------------------------
// Numerals
// ---------------------------------------------------------------------------

/// Index of the first `'.'` at or after `i` (the length when there is none).
pub open spec fn dot_from(s: Seq<char>, i: int) -> int
    decreases s.len() - i,
{
    if i >= s.len() || s[i] == '.' {
        i
    } else {
        dot_from(s, i + 1)
    }
}

/// `s` without its leading `'0'`s.
pub open spec fn strip_leading_zeros(s: Seq<char>) -> Seq<char>
    decreases s.len(),
{
    if s.len() > 0 && s[0] == '0' {
        strip_leading_zeros(s.drop_first())
    } else {
        s
    }
}

/// `s` without its trailing `'0'`s.
pub open spec fn strip_trailing_zeros(s: Seq<char>) -> Seq<char>
    decreases s.len(),
{
    if s.len() > 0 && s.last() == '0' {
        strip_trailing_zeros(s.drop_last())
    } else {
        s
    }
}

/// The exact decimal denoted by a numeral made of digits and dots: `None` when
/// it holds more than one dot (such a numeral is not a number), otherwise the
/// canonical (integer digits, fraction digits) pair.
pub open spec fn decimal_of(s: Seq<char>) -> Option<(Seq<char>, Seq<char>)> {
    let d = dot_from(s, 0);
    if d < s.len() && dot_from(s, d + 1) < s.len() {
        None
    } else {
        let frac = if d < s.len() { s.subrange(d + 1, s.len() as int) } else { Seq::<char>::empty() };
        Some((strip_leading_zeros(s.subrange(0, d)), strip_trailing_zeros(frac)))
    }
}

proof fn lemma_dot_from_bounds(s: Seq<char>, i: int)
    requires
        0 <= i <= s.len(),
    ensures
        i <= dot_from(s, i) <= s.len(),
        dot_from(s, i) < s.len() ==> s[dot_from(s, i)] == '.',
        forall|k: int| i <= k < dot_from(s, i) ==> s[k] != '.',
    decreases s.len() - i,
{
    if i < s.len() && s[i] != '.' {
        lemma_dot_from_bounds(s, i + 1);
    }
}

fn find_dot(s: &[char], i: usize) -> (d: usize)
    requires
        i <= s.len(),
    ensures
        d as int == dot_from(s@, i as int),
{
    let mut k = i;
    while k < s.len() && s[k] != '.'
        invariant
            i <= k <= s.len(),
            dot_from(s@, k as int) == dot_from(s@, i as int),
        decreases s.len() - k,
    {
        k += 1;
    }
    k
}

pub(crate) fn strip_leading(s: &[char], lo: usize, hi: usize) -> (r: String)
    requires
        lo <= hi <= s.len(),
    ensures
        r@ == strip_leading_zeros(s@.subrange(lo as int, hi as int)),
{
    let mut k = lo;
    while k < hi && s[k] == '0'
        invariant
            lo <= k <= hi,
            hi <= s.len(),
            strip_leading_zeros(s@.subrange(k as int, hi as int)) == strip_leading_zeros(
                s@.subrange(lo as int, hi as int),
            ),
        decreases hi - k,
    {
        assert(s@.subrange(k as int, hi as int).drop_first() =~= s@.subrange(k + 1, hi as int));
        k += 1;
    }
    assert(k < hi ==> s@.subrange(k as int, hi as int)[0] == s@[k as int]);
    string_from_chars(&s[k..hi])
}

pub(crate) fn strip_trailing(s: &[char], lo: usize, hi: usize) -> (r: String)
    requires
        lo <= hi <= s.len(),
    ensures
        r@ == strip_trailing_zeros(s@.subrange(lo as int, hi as int)),
{
    let mut k = hi;
    while k > lo && s[k - 1] == '0'
        invariant
            lo <= k <= hi,
            hi <= s.len(),
            strip_trailing_zeros(s@.subrange(lo as int, k as int)) == strip_trailing_zeros(
                s@.subrange(lo as int, hi as int),
            ),
        decreases k,
    {
        assert(s@.subrange(lo as int, k as int).drop_last() =~= s@.subrange(lo as int, k - 1));
        k -= 1;
    }
    assert(k > lo ==> s@.subrange(lo as int, k as int).last() == s@[k - 1]);
    string_from_chars(&s[lo..k])
}

impl Decimal {
    /// The decimal denoted by `s[lo..hi]`, a run of digits and dots; `None`
    /// when the run holds more than one dot.
    pub fn from_numeral(s: &[char], lo: usize, hi: usize) -> (r: Option<Decimal>)
        requires
            lo <= hi <= s.len(),
        ensures
            match decimal_of(s@.subrange(lo as int, hi as int)) {
                None => r is None,
                Some(p) => r matches Some(d) && d.int_digits@ == p.0 && d.frac_digits@ == p.1,
            },
    {
        let ghost sub = s@.subrange(lo as int, hi as int);
        let d = find_dot(s, lo);
        proof {
            lemma_dot_from_bounds(s@, lo as int);
            lemma_dot_from_bounds(sub, 0);
            assert forall|k: int| 0 <= k <= sub.len() implies #[trigger] dot_from(sub, k) + lo
                == (if dot_from(s@, k + lo) <= hi { dot_from(s@, k + lo) } else { hi as int }) by {
                lemma_dot_shift(s@, lo as int, hi as int, k);
            }
        }
        if d < hi {
            let d2 = find_dot(s, d + 1);
            if d2 < hi {
                return None;
            }
            let int_digits = strip_leading(s, lo, d);
            let frac_digits = strip_trailing(s, d + 1, hi);
            assert(sub.subrange(0, d - lo) =~= s@.subrange(lo as int, d as int));
            assert(sub.subrange(d - lo + 1, sub.len() as int) =~= s@.subrange(d + 1, hi as int));
            Some(Decimal { int_digits, frac_digits })
        } else {
            let int_digits = strip_leading(s, lo, hi);
            let frac_digits = String::new();
            assert(sub.subrange(0, sub.len() as int) =~= sub);
            assert(strip_trailing_zeros(Seq::<char>::empty()) == Seq::<char>::empty());
            Some(Decimal { int_digits, frac_digits })
        }
    }
}

proof fn lemma_dot_shift(s: Seq<char>, lo: int, hi: int, k: int)
    requires
        0 <= lo <= hi <= s.len(),
        0 <= k <= hi - lo,
    ensures
        dot_from(s.subrange(lo, hi), k) + lo == (if dot_from(s, k + lo) <= hi {
            dot_from(s, k + lo)
        } else {
            hi
        }),
    decreases hi - lo - k,
{
    let sub = s.subrange(lo, hi);
    if k < hi - lo {
        assert(sub[k] == s[k + lo]);
        if s[k + lo] != '.' {
            lemma_dot_shift(s, lo, hi, k + 1);
        }
    } else {
        lemma_dot_from_bounds(s, hi);
    }
}

// ---------------------------------------------------------------------------
// The tokenizer
// ---------------------------------------------------------------------------

/// Characters that continue a numeral.
pub open spec fn is_num_char(c: char) -> bool {
    is_digit(c) || c == '.'
}

/// Characters that continue an identifier (dots included: `ctx.close`, `aux.idx.v`).
pub open spec fn is_ident_char(c: char) -> bool {
    is_alnum(c) || c == '_' || c == '.'
}

/// End of the run of numeral characters starting at `i`.
pub open spec fn num_end(s: Seq<char>, i: int) -> int
    decreases s.len() - i,
{
    if i >= s.len() || !is_num_char(s[i]) {
        i
    } else {
        num_end(s, i + 1)
    }
}

/// End of the run of identifier characters starting at `i`.
pub open spec fn ident_end(s: Seq<char>, i: int) -> int
    decreases s.len() - i,
{
    if i >= s.len() || !is_ident_char(s[i]) {
        i
    } else {
        ident_end(s, i + 1)
    }
}

pub proof fn lemma_num_end(s: Seq<char>, i: int)
    ensures
        num_end(s, i) >= i,
        i <= s.len() ==> num_end(s, i) <= s.len(),
    decreases s.len() - i,
{
    if i < s.len() && is_num_char(s[i]) {
        lemma_num_end(s, i + 1);
    }
}

pub proof fn lemma_ident_end(s: Seq<char>, i: int)
    ensures
        ident_end(s, i) >= i,
        i <= s.len() ==> ident_end(s, i) <= s.len(),
    decreases s.len() - i,
{
    if i < s.len() && is_ident_char(s[i]) {
        lemma_ident_end(s, i + 1);
    }
}

/// The token for a one-character operator or delimiter.
pub open spec fn single_token(c: char) -> Option<TokV> {
    if c == '+' {
        Some(TokV::Plus)
    } else if c == '-' {
        Some(TokV::Minus)
    } else if c == '*' {
        Some(TokV::Star)
    } else if c == '/' {
        Some(TokV::Slash)
    } else if c == '(' {
        Some(TokV::LParen)
    } else if c == ')' {
        Some(TokV::RParen)
    } else if c == '[' {
        Some(TokV::LBracket)
    } else if c == ']' {
        Some(TokV::RBracket)
    } else if c == ',' {
        Some(TokV::Comma)
    } else {
        None
    }
}

/// The token for a word: the keywords `and`, `or`, `not`, or an identifier.
pub open spec fn word_token(w: Seq<char>) -> TokV {
    if w == "and"@ {
        TokV::And
    } else if w == "or"@ {
        TokV::Or
    } else if w == "not"@ {
        TokV::Not
    } else {
        TokV::Ident(w)
    }
}

/// Whitespace the tokenizer skips.
pub open spec fn is_lex_space(c: char) -> bool {
    c == ' ' || c == '\t' || c == '\n' || c == '\r'
}

/// Puts a token in front of a tokenizing outcome.
pub open spec fn cons_tok(t: TokV, r: Result<Seq<TokV>, Seq<char>>) -> Result<Seq<TokV>, Seq<char>> {
    match r {
        Ok(ts) => Ok(seq![t] + ts),
        Err(m) => Err(m),
    }
}

/// Puts a sequence of tokens in front of a tokenizing outcome.
pub open spec fn prepend_toks(p: Seq<TokV>, r: Result<Seq<TokV>, Seq<char>>) -> Result<Seq<TokV>, Seq<char>> {
    match r {
        Ok(ts) => Ok(p + ts),
        Err(m) => Err(m),
    }
}

/// Tokenizing the characters from position `i` on: the tokens, or the error message.
pub open spec fn lex_from(s: Seq<char>, i: int) -> Result<Seq<TokV>, Seq<char>>
    decreases s.len() - i,
{
    if i < 0 || i >= s.len() {
        Ok(seq![])
    } else {
        let c = s[i];
        let next_is_eq = i + 1 < s.len() && s[i + 1] == '=';
        if is_lex_space(c) {
            lex_from(s, i + 1)
        } else if single_token(c) is Some {
            cons_tok(single_token(c)->0, lex_from(s, i + 1))
        } else if c == '>' {
            if next_is_eq { cons_tok(TokV::Ge, lex_from(s, i + 2)) } else { cons_tok(TokV::Gt, lex_from(s, i + 1)) }
        } else if c == '<' {
            if next_is_eq { cons_tok(TokV::Le, lex_from(s, i + 2)) } else { cons_tok(TokV::Lt, lex_from(s, i + 1)) }
        } else if c == '=' {
            if next_is_eq { cons_tok(TokV::EqEq, lex_from(s, i + 2)) } else { Err("'=' must be '=='"@) }
        } else if c == '!' {
            if next_is_eq { cons_tok(TokV::Ne, lex_from(s, i + 2)) } else { Err("'!' must be '!='"@) }
        } else if is_digit(c) {
            let j = num_end(s, i + 1);
            proof {
                lemma_num_end(s, i + 1);
            }
            let lexeme = s.subrange(i, j);
            match decimal_of(lexeme) {
                Some(p) => cons_tok(TokV::Number(p.0, p.1), lex_from(s, j)),
                None => Err("bad number: "@ + lexeme),
            }
        } else if is_alpha(c) || c == '_' {
            let j = ident_end(s, i + 1);
            proof {
                lemma_ident_end(s, i + 1);
            }
            cons_tok(word_token(s.subrange(i, j)), lex_from(s, j))
        } else {
            Err("unexpected char: "@.push(c))
        }
    }
}

/// Tokenizing a whole source text.
pub open spec fn lex(s: Seq<char>) -> Result<Seq<TokV>, Seq<char>> {
    lex_from(s, 0)
}

proof fn lemma_prepend_cons(p: Seq<TokV>, t: TokV, r: Result<Seq<TokV>, Seq<char>>)
    ensures
        prepend_toks(p, cons_tok(t, r)) == prepend_toks(p.push(t), r),
{
    match r {
        Ok(ts) => {
            assert(p + (seq![t] + ts) =~= p.push(t) + ts);
        },
        Err(_) => {},
    }
}

proof fn lemma_push_view(ts: Seq<Token>, t: Token)
    ensures
        toks_view(ts.push(t)) == toks_view(ts).push(t@),
{
    assert(toks_view(ts.push(t)) =~= toks_view(ts).push(t@));
}

/// Tokenizes DSL source text. On success the tokens are exactly `lex(src)`;
/// on failure the error is `Error::Dsl` carrying `lex`'s message.
pub fn tokenize(src: &str) -> (res: Result<Vec<Token>, Error>)
    ensures
        match lex(src@) {
            Ok(ts) => res matches Ok(v) && toks_view(v@) == ts,
            Err(m) => res matches Err(Error::Dsl(msg)) && msg@ == m,
        },
{
    let chars = chars_of(src);
    let ghost s = chars@;
    let mut tokens: Vec<Token> = Vec::new();
    let mut i: usize = 0;
    assert(toks_view(tokens@) =~= Seq::<TokV>::empty());
    assert(prepend_toks(Seq::<TokV>::empty(), lex_from(s, 0)) == lex_from(s, 0)) by {
        match lex_from(s, 0) {
            Ok(ts) => {
                assert(Seq::<TokV>::empty() + ts =~= ts);
            },
            Err(_) => {},
        }
    }
    while i < chars.len()
        invariant
            s == chars@,
            s == src@,
            i <= chars.len(),
            lex(s) == prepend_toks(toks_view(tokens@), lex_from(s, i as int)),
        decreases chars.len() - i,
    {
        let c = chars[i];
        let next_is_eq = i + 1 < chars.len() && chars[i + 1] == '=';
        let ghost before = toks_view(tokens@);
        if c == ' ' || c == '\t' || c == '\n' || c == '\r' {
            i += 1;
        } else if c == '+' || c == '-' || c == '*' || c == '/' || c == '(' || c == ')' || c == '['
            || c == ']' || c == ',' {
            let t = if c == '+' {
                Token::Plus
            } else if c == '-' {
                Token::Minus
            } else if c == '*' {
                Token::Star
            } else if c == '/' {
                Token::Slash
            } else if c == '(' {
                Token::LParen
            } else if c == ')' {
                Token::RParen
            } else if c == '[' {
                Token::LBracket
            } else if c == ']' {
                Token::RBracket
            } else {
                Token::Comma
            };
            proof {
                lemma_prepend_cons(before, t@, lex_from(s, i + 1));
                lemma_push_view(tokens@, t);
            }
            tokens.push(t);
            i += 1;
        } else if c == '>' || c == '<' {
            let (t, w) = if c == '>' {
                if next_is_eq { (Token::Ge, 2usize) } else { (Token::Gt, 1usize) }
            } else {
                if next_is_eq { (Token::Le, 2usize) } else { (Token::Lt, 1usize) }
            };
            proof {
                lemma_prepend_cons(before, t@, lex_from(s, i + w));
                lemma_push_view(tokens@, t);
            }
            tokens.push(t);
            i += w;
        } else if c == '=' || c == '!' {
            if !next_is_eq {
                let msg = if c == '=' {
                    String::from_str("'=' must be '=='")
                } else {
                    String::from_str("'!' must be '!='")
                };
                return Err(Error::Dsl(msg));
            }
            let t = if c == '=' { Token::EqEq } else { Token::Ne };
            proof {
                lemma_prepend_cons(before, t@, lex_from(s, i + 2));
                lemma_push_view(tokens@, t);
            }
            tokens.push(t);
            i += 2;
        } else if digit_char(c) {
            let start = i;
            i += 1;
            while i < chars.len() && (digit_char(chars[i]) || chars[i] == '.')
                invariant
                    start < i <= chars.len(),
                    s == chars@,
                    num_end(s, i as int) == num_end(s, start + 1),
                decreases chars.len() - i,
            {
                i += 1;
            }
            match Decimal::from_numeral(chars.as_slice(), start, i) {
                Some(d) => {
                    let t = Token::Number(d);
                    proof {
                        lemma_prepend_cons(before, t@, lex_from(s, i as int));
                        lemma_push_view(tokens@, t);
                    }
                    tokens.push(t);
                },
                None => {
                    let mut msg = String::from_str("bad number: ");
                    let lexeme = string_from_chars(&chars[start..i]);
                    push_str(&mut msg, lexeme.as_str());
                    return Err(Error::Dsl(msg));
                },
            }
        } else if alpha_char(c) || c == '_' {
            let start = i;
            i += 1;
            while i < chars.len() && (alnum_char(chars[i]) || chars[i] == '_' || chars[i] == '.')
                invariant
                    start < i <= chars.len(),
                    s == chars@,
                    ident_end(s, i as int) == ident_end(s, start + 1),
                decreases chars.len() - i,
            {
                i += 1;
            }
            let word = &chars[start..i];
            let t = if chars_eq_str(word, "and") {
                Token::And
            } else if chars_eq_str(word, "or") {
                Token::Or
            } else if chars_eq_str(word, "not") {
                Token::Not
            } else {
                Token::Ident(string_from_chars(word))
            };
            proof {
                lemma_prepend_cons(before, t@, lex_from(s, i as int));
                lemma_push_view(tokens@, t);
            }
            tokens.push(t);
        } else {
            let mut msg = String::from_str("unexpected char: ");
            push_char(&mut msg, c);
            return Err(Error::Dsl(msg));
        }
    }
    proof {
        match lex_from(s, i as int) {
            Ok(ts) => {
                assert(toks_view(tokens@) + Seq::<TokV>::empty() =~= toks_view(tokens@));
            },
            Err(_) => {},
        }
    }
    Ok(tokens)
}

} // verus!
