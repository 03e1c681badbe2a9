//! Laws of the tokenizer: which texts it accepts, and how it reads words.
use vstd::prelude::*;
use crate::dsl::lexer::{
    cons_tok, decimal_of, ident_end, is_ident_char, is_lex_space, is_num_char, lemma_ident_end,
    lemma_num_end, lex, lex_from, num_end, single_token, word_token, TokV,
};
use crate::text::{is_alnum, is_alpha, is_digit};

verus! {

/// The characters the tokenizer knows: whitespace, the operators and
/// delimiters, ASCII digits and letters, `'_'` and `'.'`.
pub open spec fn lex_char_allowed(c: char) -> bool {
    ||| is_lex_space(c)
    ||| single_token(c) is Some
    ||| c == '<' || c == '>' || c == '=' || c == '!'
    ||| is_digit(c) || is_alpha(c) || c == '_' || c == '.'
}

/// Character `k` of `s` is allowed; an `'='` there is half of `==`, `<=`,
/// `>=` or `!=`; a `'!'` there is followed by `'='`; a `'.'` there continues
/// a numeral or a word (it follows a letter, digit, `'_'` or `'.'`).
pub open spec fn lex_char_ok(s: Seq<char>, k: int) -> bool {
    &&& lex_char_allowed(s[k])
    &&& s[k] == '=' ==> ((k + 1 < s.len() && s[k + 1] == '=') || (k > 0 && (s[k - 1] == '='
        || s[k - 1] == '<' || s[k - 1] == '>' || s[k - 1] == '!')))
    &&& s[k] == '!' ==> (k + 1 < s.len() && s[k + 1] == '=')
    &&& s[k] == '.' ==> (k > 0 && is_ident_char(s[k - 1]))
}

/// The text of an identifier token: a letter or `'_'`, then letters,
/// digits, `'_'` and `'.'`; never one of the words `and`, `or`, `not`.
pub open spec fn ident_shape(w: Seq<char>) -> bool {
    &&& w.len() > 0
    &&& is_alpha(w[0]) || w[0] == '_'
    &&& forall|k: int| 0 <= k < w.len() ==> is_ident_char(#[trigger] w[k])
    &&& w != "and"@ && w != "or"@ && w != "not"@
}

/// Every identifier token of `ts` has the shape of an identifier.
pub open spec fn idents_shaped(ts: Seq<TokV>) -> bool {
    forall|m: int| 0 <= m < ts.len() ==> (#[trigger] ts[m] matches TokV::Ident(w) ==> ident_shape(w))
}

proof fn lemma_num_run(s: Seq<char>, i: int)
    requires
        0 <= i,
    ensures
        forall|k: int| i <= k < num_end(s, i) ==> is_num_char(#[trigger] s[k]),
    decreases s.len() - i,
{
    if i < s.len() && is_num_char(s[i]) {
        lemma_num_run(s, i + 1);
    }
}

proof fn lemma_ident_run(s: Seq<char>, i: int)
    requires
        0 <= i <= s.len(),
    ensures
        forall|k: int| i <= k < ident_end(s, i) ==> is_ident_char(#[trigger] s[k]),
        ident_end(s, i) == s.len() || !is_ident_char(s[ident_end(s, i)]),
    decreases s.len() - i,
{
    if i < s.len() && is_ident_char(s[i]) {
        lemma_ident_run(s, i + 1);
    }
}

proof fn lemma_cons_shaped(t: TokV, r: Seq<TokV>)
    requires
        idents_shaped(r),
        t matches TokV::Ident(w) ==> ident_shape(w),
    ensures
        idents_shaped(seq![t] + r),
{
    let ts = seq![t] + r;
    assert forall|m: int| 0 <= m < ts.len() implies (#[trigger] ts[m] matches TokV::Ident(w) ==> ident_shape(w)) by {
        if m > 0 {
            assert(ts[m] == r[m - 1]);
        }
    }
}

proof fn lemma_word_shape(s: Seq<char>, i: int, j: int)
    requires
        0 <= i < j <= s.len(),
        is_alpha(s[i]) || s[i] == '_',
        forall|k: int| i < k < j ==> is_ident_char(#[trigger] s[k]),
    ensures
        word_token(s.subrange(i, j)) matches TokV::Ident(w) ==> ident_shape(w),
{
    let w = s.subrange(i, j);
    assert forall|k: int| 0 <= k < w.len() implies is_ident_char(#[trigger] w[k]) by {
        assert(w[k] == s[i + k]);
    }
}

proof fn lemma_lex_from_ok(s: Seq<char>, i: int)
    requires
        0 <= i,
        lex_from(s, i) is Ok,
    ensures
        forall|k: int| i <= k < s.len() ==> #[trigger] lex_char_ok(s, k),
        idents_shaped(lex_from(s, i)->Ok_0),
    decreases s.len() - i,
{
    if i < s.len() {
        let c = s[i];
        let next_is_eq = i + 1 < s.len() && s[i + 1] == '=';
        if is_lex_space(c) {
            lemma_lex_from_ok(s, i + 1);
        } else if single_token(c) is Some {
            lemma_lex_from_ok(s, i + 1);
            lemma_cons_shaped(single_token(c)->0, lex_from(s, i + 1)->Ok_0);
        } else if c == '>' || c == '<' || c == '=' || c == '!' {
            let t = if c == '>' {
                if next_is_eq { TokV::Ge } else { TokV::Gt }
            } else if c == '<' {
                if next_is_eq { TokV::Le } else { TokV::Lt }
            } else if c == '=' {
                TokV::EqEq
            } else {
                TokV::Ne
            };
            if next_is_eq {
                lemma_lex_from_ok(s, i + 2);
                lemma_cons_shaped(t, lex_from(s, i + 2)->Ok_0);
                assert(lex_char_ok(s, i + 1));
            } else {
                lemma_lex_from_ok(s, i + 1);
                lemma_cons_shaped(t, lex_from(s, i + 1)->Ok_0);
            }
            assert(lex_char_ok(s, i));
        } else if is_digit(c) {
            let j = num_end(s, i + 1);
            lemma_num_end(s, i + 1);
            lemma_num_run(s, i + 1);
            let p = decimal_of(s.subrange(i, j))->0;
            lemma_lex_from_ok(s, j);
            lemma_cons_shaped(TokV::Number(p.0, p.1), lex_from(s, j)->Ok_0);
            assert forall|k: int| i <= k < s.len() implies #[trigger] lex_char_ok(s, k) by {
                if i < k < j {
                    assert(is_num_char(s[k]));
                    if k - 1 > i {
                        assert(is_num_char(s[k - 1]));
                    }
                }
            }
        } else if is_alpha(c) || c == '_' {
            let j = ident_end(s, i + 1);
            lemma_ident_end(s, i + 1);
            lemma_ident_run(s, i + 1);
            lemma_lex_from_ok(s, j);
            lemma_word_shape(s, i, j);
            lemma_cons_shaped(word_token(s.subrange(i, j)), lex_from(s, j)->Ok_0);
            assert forall|k: int| i <= k < s.len() implies #[trigger] lex_char_ok(s, k) by {
                if i < k < j {
                    assert(is_ident_char(s[k]));
                    if k - 1 > i {
                        assert(is_ident_char(s[k - 1]));
                    }
                }
            }
        }
    }
}

/// Law: a text that tokenizes without error holds only characters the
/// tokenizer knows (whitespace, `+ - * / ( ) [ ] , < > = !`, ASCII digits and
/// letters, `'_'`, `'.'`); each `'='` in it is half of `==`, `<=`, `>=` or
/// `!=`, each `'!'` is followed by `'='`, and each `'.'` lies inside a
/// numeral or a word. Every identifier token is a
/// letter or `'_'` followed by letters, digits, `'_'` and `'.'`, and is none
/// of the words `and`, `or`, `not`.
pub proof fn law_lex_accepts(s: Seq<char>)
    requires
        lex(s) is Ok,
    ensures
        forall|k: int| 0 <= k < s.len() ==> #[trigger] lex_char_ok(s, k),
        idents_shaped(lex(s)->Ok_0),
{
    lemma_lex_from_ok(s, 0);
}

/// Law: a character the tokenizer does not know makes tokenizing fail.
pub proof fn law_lex_rejects_unknown_char(s: Seq<char>, k: int)
    requires
        0 <= k < s.len(),
        !lex_char_allowed(s[k]),
    ensures
        lex(s) is Err,
{
    if lex(s) is Ok {
        law_lex_accepts(s);
        assert(lex_char_ok(s, k));
    }
}

/// Law: where a word starts (a letter or `'_'`), the tokenizer reads the
/// longest run of letters, digits, `'_'` and `'.'` as one token: `And`, `Or`
/// or `Not` for those three words, an identifier for any other, and goes on
/// after the run.
pub proof fn law_lex_word(s: Seq<char>, i: int)
    requires
        0 <= i < s.len(),
        is_alpha(s[i]) || s[i] == '_',
    ensures
        ({
            let j = ident_end(s, i);
            let w = s.subrange(i, j);
            &&& i < j <= s.len()
            &&& forall|k: int| i <= k < j ==> is_ident_char(#[trigger] s[k])
            &&& j == s.len() || !is_ident_char(s[j])
            &&& w == "and"@ ==> lex_from(s, i) == cons_tok(TokV::And, lex_from(s, j))
            &&& w == "or"@ ==> lex_from(s, i) == cons_tok(TokV::Or, lex_from(s, j))
            &&& w == "not"@ ==> lex_from(s, i) == cons_tok(TokV::Not, lex_from(s, j))
            &&& (w != "and"@ && w != "or"@ && w != "not"@) ==> lex_from(s, i) == cons_tok(
                TokV::Ident(w),
                lex_from(s, j),
            )
        }),
{
    assert(is_ident_char(s[i]));
    assert(ident_end(s, i) == ident_end(s, i + 1));
    lemma_ident_run(s, i);
    lemma_ident_end(s, i + 1);
    assert(!is_lex_space(s[i]));
    assert(single_token(s[i]) is None);
    assert(!is_digit(s[i]));
    reveal_strlit("and");
    reveal_strlit("or");
    reveal_strlit("not");
    let j = ident_end(s, i);
    let w = s.subrange(i, j);
    assert(lex_from(s, i) == cons_tok(word_token(w), lex_from(s, j)));
    if w == "or"@ {
        assert(w.len() != "and"@.len());
        assert(word_token(w) == TokV::Or);
    }
    if w == "not"@ {
        assert(w[0] != "and"@[0]);
        assert(w.len() != "or"@.len());
        assert(word_token(w) == TokV::Not);
    }
}

/// Law: each operator or delimiter character reads as its own token, and
/// tokenizing goes on right after it: `+ - * / ( ) [ ] ,` give `Plus`,
/// `Minus`, `Star`, `Slash`, `LParen`, `RParen`, `LBracket`, `RBracket`,
/// `Comma`; `>` and `<` give `Gt` and `Lt`, or `Ge` and `Le` together with a
/// following `=`; `==` gives `EqEq` and `!=` gives `Ne`.
pub proof fn law_lex_operator(s: Seq<char>, i: int)
    requires
        0 <= i < s.len(),
    ensures
        ({
            let c = s[i];
            let eq_next = i + 1 < s.len() && s[i + 1] == '=';
            &&& c == '+' ==> lex_from(s, i) == cons_tok(TokV::Plus, lex_from(s, i + 1))
            &&& c == '-' ==> lex_from(s, i) == cons_tok(TokV::Minus, lex_from(s, i + 1))
            &&& c == '*' ==> lex_from(s, i) == cons_tok(TokV::Star, lex_from(s, i + 1))
            &&& c == '/' ==> lex_from(s, i) == cons_tok(TokV::Slash, lex_from(s, i + 1))
            &&& c == '(' ==> lex_from(s, i) == cons_tok(TokV::LParen, lex_from(s, i + 1))
            &&& c == ')' ==> lex_from(s, i) == cons_tok(TokV::RParen, lex_from(s, i + 1))
            &&& c == '[' ==> lex_from(s, i) == cons_tok(TokV::LBracket, lex_from(s, i + 1))
            &&& c == ']' ==> lex_from(s, i) == cons_tok(TokV::RBracket, lex_from(s, i + 1))
            &&& c == ',' ==> lex_from(s, i) == cons_tok(TokV::Comma, lex_from(s, i + 1))
            &&& (c == '>' && !eq_next) ==> lex_from(s, i) == cons_tok(TokV::Gt, lex_from(s, i + 1))
            &&& (c == '>' && eq_next) ==> lex_from(s, i) == cons_tok(TokV::Ge, lex_from(s, i + 2))
            &&& (c == '<' && !eq_next) ==> lex_from(s, i) == cons_tok(TokV::Lt, lex_from(s, i + 1))
            &&& (c == '<' && eq_next) ==> lex_from(s, i) == cons_tok(TokV::Le, lex_from(s, i + 2))
            &&& (c == '=' && eq_next) ==> lex_from(s, i) == cons_tok(TokV::EqEq, lex_from(s, i + 2))
            &&& (c == '!' && eq_next) ==> lex_from(s, i) == cons_tok(TokV::Ne, lex_from(s, i + 2))
        }),
{
}

/// Law: whitespace between tokens does not matter: tokenizing from a
/// whitespace character is tokenizing from the character after it.
pub proof fn law_lex_skips_space(s: Seq<char>, i: int)
    requires
        0 <= i < s.len(),
        is_lex_space(s[i]),
    ensures
        lex_from(s, i) == lex_from(s, i + 1),
{
}

} // verus!
