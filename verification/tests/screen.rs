use chrono::{Datelike, NaiveDate};
use rquant::error::Error;
use rquant::screen::asof::pick_as_of;
use rquant::screen::config::{default_layers, default_tilt_setups, default_top};
use rquant::screen::lists::{parse_sector_map, parse_symbol_set};

fn day(y: i32, m: u32, d: u32) -> i64 {
    NaiveDate::from_ymd_opt(y, m, d).unwrap().num_days_from_ce() as i64
}

#[test]
fn merge_defaults() {
    assert_eq!(default_top(), 10);
    assert_eq!(default_layers(), 3);
    assert_eq!(default_tilt_setups(), vec!["动量延续".to_string()]);
}

#[test]
fn sector_map_skips_header_blank_and_incomplete_rows() {
    let m = parse_sector_map("symbol,industry\nsh600000, bank \n\nsz000001\nsz000002,,x\nsh600000,insurance,extra\nsz000003,tech\r\n");
    assert_eq!(m, vec![
        ("sh600000".to_string(), "insurance".to_string()),
        ("sz000003".to_string(), "tech".to_string()),
    ]);
    assert!(parse_sector_map("").is_empty());
    assert!(parse_sector_map("a,b").is_empty());
}

#[test]
fn symbol_set_first_column_distinct() {
    let s = parse_symbol_set("symbol\nST1, name\n\n ST2\nST1\n,x\n");
    assert_eq!(s, vec!["ST1".to_string(), "ST2".to_string()]);
}

fn data_msg(e: Error) -> String {
    match e {
        Error::Data(m) => m,
        other => panic!("expected a data error, got {other:?}"),
    }
}

#[test]
fn pick_as_of_latest_or_on_before() {
    let tl: Vec<i64> = vec![day(2024, 1, 2) * 86400 + 54000, day(2024, 1, 3) * 86400 + 54000, day(2024, 1, 5) * 86400 + 54000];
    assert_eq!(pick_as_of(&tl, None).unwrap(), tl[2]);
    assert_eq!(pick_as_of(&tl, Some(day(2024, 1, 4) as i32)).unwrap(), tl[1]);
    assert_eq!(pick_as_of(&tl, Some(day(2024, 1, 3) as i32)).unwrap(), tl[1]);
    assert_eq!(
        data_msg(pick_as_of(&tl, Some(day(2024, 1, 1) as i32)).unwrap_err()),
        "screen: no bar on/before 2024-01-01"
    );
    assert_eq!(data_msg(pick_as_of(&[], None).unwrap_err()), "screen: empty timeline");
}

use rquant::screen::config::{check_screen_config, ScreenShape};

fn shape(quality: usize, setups: &[(&str, usize)], tilts: &[&str]) -> ScreenShape {
    ScreenShape {
        quality_trees: quality,
        setups: setups.iter().map(|(t, n)| (t.to_string(), *n)).collect(),
        unit_ranges_ok: true,
        vote_frac_ok: true,
        top: 10,
        lambda_ok: true,
        tilt_setups: tilts.iter().map(|s| s.to_string()).collect(),
        value_frac_ok: true,
    }
}

#[test]
fn validate_rejects_empty_quality_trees() {
    let e = check_screen_config(&shape(0, &[("x", 1)], &["x"])).unwrap_err();
    assert_eq!(data_msg(e), "screen config: quality_trees must be non-empty");
}

#[test]
fn validate_rejects_bad_vote_frac() {
    let mut c = shape(1, &[("x", 1)], &["x"]);
    c.vote_frac_ok = false;
    assert_eq!(data_msg(check_screen_config(&c).unwrap_err()), "screen config: vote_frac must be in (0,1]");
}

#[test]
fn validate_rejects_negative_lambda() {
    let mut c = shape(1, &[("动量延续", 1)], &["动量延续"]);
    c.lambda_ok = false;
    assert_eq!(data_msg(check_screen_config(&c).unwrap_err()), "screen config: lambda must be >= 0");
}

#[test]
fn validate_rejects_tilt_setup_not_in_setups() {
    let e = check_screen_config(&shape(1, &[("突破临界", 1)], &["动量延续"])).unwrap_err();
    assert_eq!(data_msg(e), "screen config: tilt_setup '动量延续' not found in setup_trees");
}

#[test]
fn validate_accepts_tilt_setup_in_setups() {
    check_screen_config(&shape(1, &[("动量延续", 1), ("突破临界", 1)], &["动量延续"])).unwrap();
}

#[test]
fn screen_check_order_of_problems() {
    assert_eq!(data_msg(check_screen_config(&shape(1, &[], &["x"])).unwrap_err()), "screen config: setup_trees must be non-empty");
    assert_eq!(
        data_msg(check_screen_config(&shape(1, &[("a", 1), ("b", 0), ("c", 0)], &["a"])).unwrap_err()),
        "screen config: setup 'b' has no trees"
    );
    let mut c = shape(1, &[("a", 1)], &[]);
    assert_eq!(data_msg(check_screen_config(&c).unwrap_err()), "screen config: tilt_setups must be non-empty");
    c.top = 0;
    c.unit_ranges_ok = false;
    assert_eq!(data_msg(check_screen_config(&c).unwrap_err()), "screen config: theta_fire/q_floor must be in [0,1]");
    let mut d = shape(1, &[("a", 1)], &["a"]);
    d.top = 0;
    assert_eq!(data_msg(check_screen_config(&d).unwrap_err()), "screen config: top must be >= 1");
    let mut v = shape(1, &[("a", 1)], &["a"]);
    v.value_frac_ok = false;
    assert_eq!(data_msg(check_screen_config(&v).unwrap_err()), "screen config: value_frac must be in (0,1]");
}
