use rquant::dsl::ast::{substitute, BinaryOp, Decimal, Expr, UnaryOp};
use rquant::dsl::lexer::{tokenize, Token};
use rquant::dsl::parser::{parse_str, Parser};
use rquant::error::Error;

fn num(int_digits: &str, frac_digits: &str) -> Decimal {
    Decimal { int_digits: int_digits.to_string(), frac_digits: frac_digits.to_string() }
}

fn ident(s: &str) -> Expr {
    Expr::Ident(s.to_string())
}

#[test]
fn tokenizes_expression_with_dotted_ident_and_keywords() {
    let toks = tokenize("ema(close,20) >= ctx.close and not down").unwrap();
    assert!(toks.contains(&Token::And));
    assert!(toks.contains(&Token::Not));
    assert!(toks.contains(&Token::Ge));
    assert!(toks.iter().any(|t| matches!(t, Token::Ident(s) if s == "ctx.close")));
    assert!(toks.iter().any(|t| *t == Token::Number(num("20", ""))));
}

#[test]
fn tokenizes_comparison_and_brackets() {
    let toks = tokenize("close[-1] < 10.5").unwrap();
    assert_eq!(toks[0], Token::Ident("close".to_string()));
    assert_eq!(toks[1], Token::LBracket);
    assert_eq!(toks[2], Token::Minus);
    assert_eq!(toks[3], Token::Number(num("1", "")));
    assert_eq!(toks[4], Token::RBracket);
    assert_eq!(toks[5], Token::Lt);
    assert_eq!(toks[6], Token::Number(num("10", "5")));
}

#[test]
fn multi_dot_ident_is_single_token() {
    let toks = tokenize("aux.idx.v > 0").unwrap();
    assert_eq!(toks[0], Token::Ident("aux.idx.v".to_string()));
    assert_eq!(toks[1], Token::Gt);
    assert_eq!(toks[2], Token::Number(num("", "")));
}

#[test]
fn fund_dotted_ident_is_single_token() {
    let toks = tokenize("fund.roe > 15").unwrap();
    assert_eq!(toks[0], Token::Ident("fund.roe".to_string()));
}

#[test]
fn numbers_are_held_in_canonical_form() {
    let toks = tokenize("007.500 0.0 3.").unwrap();
    assert_eq!(
        toks,
        vec![
            Token::Number(num("7", "5")),
            Token::Number(num("", "")),
            Token::Number(num("3", "")),
        ]
    );
    assert!(tokenize(".25").is_err());
}

fn dsl_msg(e: Error) -> String {
    match e {
        Error::Dsl(m) => m,
        other => panic!("expected a dsl error, got {other:?}"),
    }
}

#[test]
fn lexer_error_messages() {
    assert_eq!(dsl_msg(tokenize("a = b").unwrap_err()), "'=' must be '=='");
    assert_eq!(dsl_msg(tokenize("!a").unwrap_err()), "'!' must be '!='");
    assert_eq!(dsl_msg(tokenize("1.2.3").unwrap_err()), "bad number: 1.2.3");
    assert_eq!(dsl_msg(tokenize("a $ b").unwrap_err()), "unexpected char: $");
}

#[test]
fn two_char_operators() {
    let toks = tokenize("a<=b!=c==d>e").unwrap();
    assert_eq!(toks[1], Token::Le);
    assert_eq!(toks[3], Token::Ne);
    assert_eq!(toks[5], Token::EqEq);
    assert_eq!(toks[7], Token::Gt);
}

#[test]
fn precedence_mul_binds_tighter_than_add() {
    let e = parse_str("1 + 2 * 3").unwrap();
    match e {
        Expr::Binary(BinaryOp::Add, l, r) => {
            assert_eq!(*l, Expr::Number(num("1", "")));
            assert!(matches!(*r, Expr::Binary(BinaryOp::Mul, _, _)));
        }
        other => panic!("unexpected: {other:?}"),
    }
}

#[test]
fn parses_call_and_comparison() {
    let e = parse_str("close > sma(close,5)").unwrap();
    match e {
        Expr::Binary(BinaryOp::Gt, l, r) => {
            assert_eq!(*l, ident("close"));
            assert!(matches!(*r, Expr::Call(ref name, ref args) if name == "sma" && args.len() == 2));
        }
        other => panic!("unexpected: {other:?}"),
    }
}

#[test]
fn parses_negative_index() {
    let e = parse_str("close[-1]").unwrap();
    assert_eq!(
        e,
        Expr::Index(Box::new(ident("close")), -1)
    );
}

#[test]
fn subtraction_is_left_associative() {
    let e = parse_str("a - b - c").unwrap();
    assert_eq!(
        e,
        Expr::Binary(
            BinaryOp::Sub,
            Box::new(Expr::Binary(BinaryOp::Sub, Box::new(ident("a")), Box::new(ident("b")))),
            Box::new(ident("c")),
        )
    );
}

#[test]
fn and_binds_tighter_than_or_and_not_is_prefix() {
    let e = parse_str("not a or b and c").unwrap();
    assert_eq!(
        e,
        Expr::Binary(
            BinaryOp::Or,
            Box::new(Expr::Unary(UnaryOp::Not, Box::new(ident("a")))),
            Box::new(Expr::Binary(BinaryOp::And, Box::new(ident("b")), Box::new(ident("c")))),
        )
    );
}

#[test]
fn parser_rejects_trailing_and_unbalanced() {
    assert!(parse_str("a b").is_err());
    assert!(parse_str("(a").is_err());
    assert!(parse_str("f(a,").is_err());
    assert!(parse_str("").is_err());
}

#[test]
fn parser_struct_parses_whole_token_list() {
    let toks = tokenize("x[2] * -y").unwrap();
    let mut p = Parser::new(toks);
    let e = p.parse().unwrap();
    assert_eq!(
        e,
        Expr::Binary(
            BinaryOp::Mul,
            Box::new(Expr::Index(Box::new(ident("x")), 2)),
            Box::new(Expr::Unary(UnaryOp::Neg, Box::new(ident("y")))),
        )
    );
}

#[test]
fn substitute_params_and_nested() {
    let env = vec![("n".to_string(), Expr::Number(num("20", "")))];
    let e = substitute(&parse_str("sma(close, n) > n").unwrap(), &env);
    let rendered = format!("{e:?}");
    assert!(!rendered.contains("Ident(\"n\")"));
    assert!(rendered.contains("Ident(\"close\")"));
    assert_eq!(e, parse_str("sma(close, 20) > 20").unwrap());
}

#[test]
fn substitute_first_binding_wins_and_leaves_unbound() {
    let env = vec![
        ("a".to_string(), ident("b")),
        ("a".to_string(), ident("c")),
    ];
    let e = substitute(&parse_str("a + d").unwrap(), &env);
    assert_eq!(e, parse_str("b + d").unwrap());
}

#[test]
fn parser_error_messages() {
    let msg = |s: &str| dsl_msg(parse_str(s).unwrap_err());
    assert_eq!(msg("(a"), "expected RParen, got None");
    assert_eq!(msg("f(a b"), "expected RParen, got Some(Ident(\"b\"))");
    assert_eq!(msg("a[b]"), "expected index number, got Some(Ident(\"b\"))");
    assert_eq!(msg("a[1"), "expected RBracket, got None");
    assert_eq!(msg(")"), "unexpected token: Some(RParen)");
    assert_eq!(msg(""), "unexpected token: None");
    assert_eq!(msg("1 +"), "unexpected token: None");
    assert_eq!(msg("a b"), "trailing tokens after expression");
    assert_eq!(msg("(1 2.50"), "expected RParen, got Some(Number(2.5))");
    assert_eq!(msg("(1 7"), "expected RParen, got Some(Number(7.0))");
    assert_eq!(msg("(1 .5"), "unexpected char: .");
    assert_eq!(msg("(1 000"), "expected RParen, got Some(Number(0.0))");
}

#[test]
fn substitute_leaves_unbound_expression_unchanged() {
    let env = vec![("n".to_string(), Expr::Number(num("5", "")))];
    let e = parse_str("sma(close, 20)[-1] > m").unwrap();
    assert_eq!(substitute(&e, &env), e);
}

#[test]
fn index_numerals_truncate_to_integers() {
    let idx = |src: &str| match parse_str(src).unwrap() {
        Expr::Index(_, k) => k,
        other => panic!("expected an index, got {other:?}"),
    };
    assert_eq!(idx("close[1.5]"), 1);
    assert_eq!(idx("close[-2.9]"), -2);
    assert_eq!(idx("close[007]"), 7);
    assert_eq!(idx("close[0.5]"), 0);
    assert_eq!(idx("close[99999999999999999999999]"), i64::MAX);
    assert_eq!(idx("close[-99999999999999999999999]"), -i64::MAX);
}

#[test]
fn numerals_in_messages_show_as_float_debug() {
    let msg = |s: &str| dsl_msg(parse_str(s).unwrap_err());
    for (src, value) in [
        ("007.0", 7.0f64),
        ("1.50", 1.5),
        ("10000000000000000", 1e16),
        ("15000000000000000.0", 1.5e16),
        ("999999999999999", 999999999999999.0),
        ("0.0001", 0.0001),
        ("0.00001", 0.00001),
        ("0.0000250", 0.000025),
        ("123.456", 123.456),
        ("0", 0.0),
    ] {
        assert_eq!(msg(&format!("(1 {src}")), format!("expected RParen, got Some(Number({value:?}))"));
    }
}

#[test]
fn hand_built_numerals_are_shown_without_padding_zeros() {
    let toks = vec![Token::LParen, Token::Number(num("1", "")), Token::Number(num("007", "500"))];
    let e = Parser::new(toks).parse().unwrap_err();
    assert_eq!(dsl_msg(e), "expected RParen, got Some(Number(7.5))");
}

#[test]
fn tokenizer_alphabet_and_word_runs() {
    // characters the tokenizer does not know, and unpaired '=' / '!'
    for src in ["a # b", "a = b", "a === b", "!a", "x $", "a ~ b"] {
        assert!(tokenize(src).is_err(), "{src}");
    }
    // '=' as half of a two-character operator
    for src in ["a <= b", "a >= b", "a == b", "a != b"] {
        assert!(tokenize(src).is_ok(), "{src}");
    }
    // longest runs of identifier characters, keywords only as whole words
    assert_eq!(
        tokenize("andy and_ or.x not").unwrap(),
        vec![
            Token::Ident("andy".to_string()),
            Token::Ident("and_".to_string()),
            Token::Ident("or.x".to_string()),
            Token::Not,
        ]
    );
}
