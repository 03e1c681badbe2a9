use rquant::cli::{check_grid_given, check_signal_modes, check_sim_soft, llm_enabled, parse_aux, SINA_BASE_URL};

#[test]
fn llm_enabled_all_set_is_true() {
    assert!(llm_enabled("gpt-4", "https://api.openai.com", "sk-abc"));
}

#[test]
fn llm_enabled_empty_model_is_false() {
    assert!(!llm_enabled("", "https://api.openai.com", "sk-abc"));
}

#[test]
fn llm_enabled_empty_base_url_is_false() {
    assert!(!llm_enabled("gpt-4", "", "sk-abc"));
}

#[test]
fn llm_enabled_empty_api_key_is_false() {
    assert!(!llm_enabled("gpt-4", "https://api.openai.com", ""));
}

fn flags(v: &[&str]) -> Vec<String> {
    v.iter().map(|s| s.to_string()).collect()
}

#[test]
fn parse_aux_splits_at_first_equals() {
    let r = parse_aux(&flags(&["idx=index.csv", "b=x=y.csv"])).unwrap();
    assert_eq!(r, vec![
        ("idx".to_string(), "index.csv".to_string()),
        ("b".to_string(), "x=y.csv".to_string()),
    ]);
}

#[test]
fn parse_aux_empty_is_empty() {
    assert!(parse_aux(&[]).unwrap().is_empty());
}

#[test]
fn parse_aux_rejects_missing_equals() {
    let e = parse_aux(&flags(&["a=1.csv", "noequals"])).unwrap_err();
    assert_eq!(e, "--aux expects NAME=PATH, got 'noequals'");
}

#[test]
fn parse_aux_rejects_duplicate_name() {
    let e = parse_aux(&flags(&["a=1.csv", "b=2.csv", "a=3.csv"])).unwrap_err();
    assert_eq!(e, "duplicate --aux name 'a'");
}

#[test]
fn parse_aux_first_error_wins() {
    let e = parse_aux(&flags(&["a=1.csv", "a=2.csv", "bad"])).unwrap_err();
    assert_eq!(e, "duplicate --aux name 'a'");
}

#[test]
fn sina_base_url_constant() {
    assert_eq!(SINA_BASE_URL, "https://quotes.sina.cn/cn/api/json_v2.php");
}

#[test]
fn aux_flags_ok_exactly_when_well_formed() {
    let ok = parse_aux(&["a=x.csv".to_string(), "b=y=z".to_string()]).unwrap();
    assert_eq!(ok, vec![("a".to_string(), "x.csv".to_string()), ("b".to_string(), "y=z".to_string())]);
    assert_eq!(parse_aux(&["a".to_string()]).unwrap_err(), "--aux expects NAME=PATH, got 'a'");
    assert_eq!(parse_aux(&["a=1".to_string(), "a=2".to_string()]).unwrap_err(), "duplicate --aux name 'a'");
}

#[test]
fn command_mode_checks() {
    assert!(check_sim_soft(true, false).is_ok());
    assert_eq!(
        check_sim_soft(true, true).unwrap_err(),
        "--sim and --soft are mutually exclusive for optimize (sim target is undefined in soft-score mode)"
    );
    assert!(check_grid_given(1).is_ok());
    assert!(check_grid_given(0).unwrap_err().starts_with("--grid: at least one grid axis"));
    assert_eq!(check_signal_modes(true, true, false).unwrap_err(), "exactly one of --primary or --universe is required");
    assert_eq!(check_signal_modes(false, false, false).unwrap_err(), "exactly one of --primary or --universe is required");
    assert_eq!(check_signal_modes(false, true, true).unwrap_err(), "--fetch requires --primary (single-symbol mode only)");
    assert!(check_signal_modes(true, false, true).is_ok());
}
