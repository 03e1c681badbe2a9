use rquant::dsl::parser::parse_str;
use rquant::error::Error;
use rquant::factor::stats::{decay_ladder, layer_sizes};
use rquant::factor::{check_factor_config, parse_factor_flags, sample_points, FactorConfig, FactorSpecItem};

#[test]
fn layer_sizes_distributes_remainder_to_front() {
    assert_eq!(layer_sizes(11, 5), vec![3, 2, 2, 2, 2]);
    assert_eq!(layer_sizes(10, 5), vec![2, 2, 2, 2, 2]);
}

#[test]
fn decay_ladder_dedups_and_sorts() {
    assert_eq!(decay_ladder(4), vec![1, 2, 4, 8, 16]);
    assert_eq!(decay_ladder(1), vec![1, 2, 4]);
    assert_eq!(decay_ladder(16), vec![4, 8, 16, 32, 64]);
}

#[test]
fn layer_sizes_sum_and_balance_on_small_n() {
    let s = layer_sizes(3, 5);
    assert_eq!(s, vec![1, 1, 1, 0, 0]);
    assert_eq!(s.iter().sum::<usize>(), 3);
}

#[test]
fn decay_ladder_zero_horizon() {
    assert_eq!(decay_ladder(0), vec![0, 1]);
}

fn cfg(factors: Vec<FactorSpecItem>) -> FactorConfig {
    FactorConfig {
        universe_path: "dummy.csv".to_string(),
        factors,
        sample: 4,
        horizon: 4,
        layers: 3,
        warmup: 8,
        window: 20,
        out_path: "out.json".to_string(),
        html_path: None,
        membership_path: None,
    }
}

fn item(name: &str, expr: &str) -> FactorSpecItem {
    FactorSpecItem { name: name.to_string(), expr: expr.to_string() }
}

fn data_msg(e: Error) -> String {
    match e {
        Error::Data(m) => m,
        other => panic!("expected a data error, got {other:?}"),
    }
}

#[test]
fn collect_periods_empty_factors_errors() {
    let e = check_factor_config(&cfg(vec![])).unwrap_err();
    assert_eq!(data_msg(e), "factor: factors list must not be empty");
}

#[test]
fn collect_periods_duplicate_factor_name_errors() {
    let e = check_factor_config(&cfg(vec![item("mom", "close"), item("mom", "close")])).unwrap_err();
    assert_eq!(data_msg(e), "factor: duplicate factor name 'mom'");
}

#[test]
fn collect_periods_bad_expr_includes_factor_name() {
    let err = check_factor_config(&cfg(vec![item("broken", "((( bad expr !!!")])).unwrap_err();
    let msg = err.to_string();
    assert!(msg.contains("broken"), "error should mention factor name 'broken', got: {msg}");
}

#[test]
fn factor_config_checks_in_order() {
    let mut c = cfg(vec![item("", "close")]);
    assert_eq!(data_msg(check_factor_config(&c).unwrap_err()), "factor: factor name must not be empty");
    c = cfg(vec![item("a", "close")]);
    c.sample = 0;
    c.layers = 0;
    assert_eq!(data_msg(check_factor_config(&c).unwrap_err()), "factor: sample must be >= 1");
    c.sample = 1;
    assert_eq!(data_msg(check_factor_config(&c).unwrap_err()), "factor: layers must be >= 1");
    c.layers = 1;
    c.horizon = 0;
    assert_eq!(data_msg(check_factor_config(&c).unwrap_err()), "factor: horizon must be >= 1");
}

#[test]
fn factor_config_parses_every_expression() {
    let v = check_factor_config(&cfg(vec![item("mom", "close/ref(close,4)-1"), item("v", "volume")])).unwrap();
    assert_eq!(v.len(), 2);
    assert_eq!(v[0], parse_str("close/ref(close,4)-1").unwrap());
    assert_eq!(v[1], parse_str("volume").unwrap());
}

#[test]
fn factor_config_lex_error_message() {
    let e = check_factor_config(&cfg(vec![item("ok", "close"), item("bad", "close = 1")])).unwrap_err();
    assert_eq!(data_msg(e), "factor 'bad': DSL parse error: dsl error: '=' must be '=='");
}

#[test]
fn sample_points_steps_from_warmup() {
    assert_eq!(sample_points(8, 20, 4).unwrap(), vec![8, 12, 16]);
    assert_eq!(sample_points(0, 5, 1).unwrap(), vec![0, 1, 2, 3, 4]);
}

#[test]
fn sample_points_needs_two() {
    let e = sample_points(8, 12, 4).unwrap_err();
    assert_eq!(
        data_msg(e),
        "factor: universe timeline too short for warmup/sample (need >= 2 sample points)"
    );
    assert!(sample_points(30, 20, 4).is_err());
}

#[test]
fn factor_config_parse_error_message() {
    let e = check_factor_config(&cfg(vec![item("b", "(close")])).unwrap_err();
    assert_eq!(data_msg(e), "factor 'b': DSL parse error: dsl error: expected RParen, got None");
}

#[test]
fn factor_flags_split_and_checked() {
    let f = |v: &[&str]| v.iter().map(|s| s.to_string()).collect::<Vec<String>>();
    let items = parse_factor_flags(&f(&["mom=close/ref(close,5)", "v=a==b"])).unwrap();
    assert_eq!(items.len(), 2);
    assert_eq!((items[1].name.as_str(), items[1].expr.as_str()), ("v", "a==b"));
    let err = |v: &[&str]| match parse_factor_flags(&f(v)) {
        Err(m) => m,
        Ok(_) => panic!("expected an error"),
    };
    assert_eq!(err(&[]), "--factor: at least one factor expression is required (use --factor 'name=expr')");
    assert_eq!(err(&["x"]), "--factor expects 'NAME=EXPR', got 'x' (missing '=')");
    assert_eq!(err(&["=x"]), "--factor: factor name must not be empty in '=x'");
    assert_eq!(err(&["x="]), "--factor: factor expression must not be empty in 'x='");
    assert_eq!(err(&["x=1", "x=2"]), "--factor: duplicate factor name 'x'");
}
