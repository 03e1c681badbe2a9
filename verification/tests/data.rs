use chrono::{Datelike, NaiveDate};
use rquant::data::calendar::{parse_holidays, AShareCalendar};
use rquant::data::membership::Membership;
use rquant::data::time::{date, day_of_week, time_of_day};
use rquant::data::universe::{universe_from_csv_text, universe_from_records};
use rquant::error::Error;

fn day(y: i32, m: u32, d: u32) -> i64 {
    NaiveDate::from_ymd_opt(y, m, d).unwrap().num_days_from_ce() as i64
}

fn at(y: i32, m: u32, d: u32, h: i64, mi: i64) -> i64 {
    day(y, m, d) * 86400 + h * 3600 + mi * 60
}

fn cal() -> AShareCalendar {
    AShareCalendar::new(vec![day(2024, 1, 1)])
}

#[test]
fn weekend_and_holiday_are_not_trading_days() {
    let c = cal();
    assert!(!c.is_trading_day(day(2024, 1, 6)));
    assert!(!c.is_trading_day(day(2024, 1, 1)));
    assert!(c.is_trading_day(day(2024, 1, 2)));
}

#[test]
fn session_boundaries() {
    let c = cal();
    assert!(c.in_session(at(2024, 1, 2, 9, 45)));
    assert!(c.in_session(at(2024, 1, 2, 11, 30)));
    assert!(!c.in_session(at(2024, 1, 2, 12, 0)));
    assert!(c.in_session(at(2024, 1, 2, 13, 15)));
    assert!(c.in_session(at(2024, 1, 2, 15, 0)));
    assert!(!c.in_session(at(2024, 1, 2, 15, 15)));
}

#[test]
fn session_open_instants_are_excluded() {
    let c = cal();
    assert!(!c.in_session(at(2024, 1, 2, 9, 30)));
    assert!(!c.in_session(at(2024, 1, 2, 13, 0)));
    assert!(!c.in_session(at(2024, 1, 6, 10, 0)));
}

#[test]
fn weekday_matches_chrono() {
    for (y, m, d) in [(2024, 1, 1), (2024, 1, 6), (2024, 1, 7), (1970, 1, 1), (1, 1, 1)] {
        let nd = NaiveDate::from_ymd_opt(y, m, d).unwrap();
        assert_eq!(day_of_week(day(y, m, d)), nd.weekday().num_days_from_monday() as i64);
    }
}

#[test]
fn timestamps_split_into_day_and_time() {
    let t = at(2024, 1, 2, 9, 45);
    assert_eq!(date(t), day(2024, 1, 2));
    assert_eq!(time_of_day(t), 9 * 3600 + 45 * 60);
    assert_eq!(date(-1), -1);
    assert_eq!(time_of_day(-1), 86399);
}

#[test]
fn read_holidays_parses_and_skips_comments_blanks() {
    let h = parse_holidays("# 2024 holidays\n2024-01-01\n\n2024-02-10\n").unwrap();
    assert_eq!(h.len(), 2);
    assert!(h.contains(&day(2024, 1, 1)));
    assert!(h.contains(&day(2024, 2, 10)));
}

#[test]
fn read_holidays_rejects_bad_date() {
    assert!(parse_holidays("2024-13-99\n").is_err());
}

#[test]
fn holidays_trim_and_deduplicate() {
    let h = parse_holidays("  2024-01-01 \r\n2024-01-01\n#x\n").unwrap();
    assert_eq!(h, vec![day(2024, 1, 1)]);
    let e = parse_holidays("2024-01-01\n nope \n2024-13-99").unwrap_err();
    assert!(e.starts_with("bad holiday 'nope': "), "{e}");
}

fn row(v: &[&str]) -> Vec<String> {
    v.iter().map(|s| s.to_string()).collect()
}

fn data_msg(e: Error) -> String {
    match e {
        Error::Data(m) => m,
        other => panic!("expected a data error, got {other:?}"),
    }
}

#[test]
fn reads_two_and_three_column_and_sorts() {
    let u = universe_from_csv_text("symbol,primary,context\nsz000001,b.csv,bc.csv\nsh600000,a.csv,\n").unwrap();
    assert_eq!(u.len(), 2);
    assert_eq!(u[0].symbol, "sh600000");
    assert_eq!(u[0].context, u[0].primary);
    assert_eq!(u[1].context, "bc.csv");
    assert_eq!(universe_from_csv_text("symbol,primary\nsh600000,a.csv\n").unwrap()[0].context, "a.csv");
}

#[test]
fn rejects_duplicate_and_empty_symbol() {
    assert!(universe_from_csv_text("symbol,primary\ns1,a.csv\ns1,b.csv\n").is_err());
    assert!(universe_from_csv_text("symbol,primary\n,a.csv\n").is_err());
}

#[test]
fn universe_records_match_text() {
    let hdr = row(&["symbol", "primary"]);
    let u = universe_from_records(&hdr, &[row(&["s2", "b"]), row(&["s1", "a"])]).unwrap();
    let v = universe_from_csv_text("symbol,primary\ns2,b\ns1,a\n").unwrap();
    assert_eq!(u.len(), v.len());
    for (x, y) in u.iter().zip(v.iter()) {
        assert_eq!((&x.symbol, &x.primary, &x.context), (&y.symbol, &y.primary, &y.context));
    }
}

#[test]
fn csv_reader_errors_come_back_as_csv_errors() {
    let e = universe_from_csv_text("symbol,primary\ns1,a.csv,extra\n").unwrap_err();
    assert!(e.to_string().starts_with("csv error: "), "{}", e.to_string());
    assert!(matches!(e, Error::Csv(_)));
    // a data error in an earlier record comes first
    let e2 = universe_from_csv_text("symbol,primary\n,a.csv\ns1,a.csv,extra\n").unwrap_err();
    assert_eq!(data_msg(e2), "universe: empty symbol");
    let e3 = Membership::from_csv_text("date,symbol\n2018-01-31,A\n2018-01-31\n").unwrap_err();
    assert!(matches!(e3, Error::Csv(_)));
    let e4 = universe_from_csv_text("sym,primary\ns1,a,b\n").unwrap_err();
    assert_eq!(data_msg(e4), "universe csv must start with columns: symbol,primary[,context]");
}

#[test]
fn universe_error_messages() {
    let hdr = row(&["symbol", "primary"]);
    assert_eq!(
        data_msg(universe_from_records(&row(&["sym", "primary"]), &[]).unwrap_err()),
        "universe csv must start with columns: symbol,primary[,context]"
    );
    assert_eq!(
        data_msg(universe_from_records(&hdr, &[row(&[" s1 ", "a"]), row(&["s1", "b"])]).unwrap_err()),
        "universe: duplicate symbol 's1'"
    );
    assert_eq!(
        data_msg(universe_from_records(&hdr, &[row(&["  ", "a"])]).unwrap_err()),
        "universe: empty symbol"
    );
}

#[test]
fn universe_trims_and_orders_by_code_point() {
    let u = universe_from_records(
        &row(&["symbol", "primary", "extra"]),
        &[row(&["b", " p2 ", "ignored"]), row(&["B", "p1", "x"]), row(&["a", "p0", "y"])],
    )
    .unwrap();
    let syms: Vec<&str> = u.iter().map(|e| e.symbol.as_str()).collect();
    assert_eq!(syms, vec!["B", "a", "b"]);
    assert_eq!(u[2].primary, "p2");
    assert_eq!(u[2].context, "p2");
}

fn members(m: &Membership, t: i64) -> Option<Vec<String>> {
    m.effective_at(t).cloned()
}

#[test]
fn load_groups_by_date() {
    let m = Membership::from_csv_text("date,symbol\n2018-02-28,sh600000\n2018-01-31,sz000001\n2018-01-31,sh600000\n").unwrap();
    let jan = members(&m, at(2018, 1, 31, 15, 0)).unwrap();
    assert_eq!(jan.len(), 2);
    assert!(jan.contains(&"sh600000".to_string()) && jan.contains(&"sz000001".to_string()));
}

#[test]
fn effective_at_is_point_in_time_non_cumulative() {
    let m = Membership::from_csv_text("date,symbol\n2018-01-31,A\n2018-02-28,B\n").unwrap();
    assert!(members(&m, at(2018, 1, 1, 15, 0)).is_none());
    let s = members(&m, at(2018, 2, 10, 15, 0)).unwrap();
    assert!(s.contains(&"A".to_string()) && !s.contains(&"B".to_string()));
    let s2 = members(&m, at(2018, 3, 1, 15, 0)).unwrap();
    assert!(s2.contains(&"B".to_string()) && !s2.contains(&"A".to_string()));
}

#[test]
fn rejects_bad_header() {
    assert!(Membership::from_csv_text("d,s\n2018-01-31,A\n").is_err());
    let e = Membership::from_records(&row(&["d", "s"]), &[row(&["2018-01-31", "A"])]).unwrap_err();
    assert_eq!(data_msg(e), "membership csv must have columns: date,symbol");
}

#[test]
fn membership_rejects_bad_rows_and_sorts_members() {
    let hdr = row(&["date", "symbol"]);
    let e = Membership::from_records(&hdr, &[row(&["2018-01-31", " "])]).unwrap_err();
    assert_eq!(data_msg(e), "membership: empty symbol");
    let e2 = Membership::from_records(&hdr, &[row(&["31/01/2018", "A"])]).unwrap_err();
    assert!(data_msg(e2).starts_with("membership: bad date '31/01/2018': "));
    let m = Membership::from_records(&hdr, &[row(&["2018-01-31", "b"]), row(&["2018-01-31", "a"]), row(&["2018-01-31", "b"])]).unwrap();
    assert_eq!(members(&m, at(2018, 1, 31, 0, 0)).unwrap(), vec!["a".to_string(), "b".to_string()]);
    assert!(!m.is_empty());
    assert!(Membership::new().is_empty());
}

use rquant::data::quality::time_profile;

#[test]
fn time_profile_of_clean_and_disordered_series() {
    let c = AShareCalendar::new(vec![]);
    let clean: Vec<i64> = [(2024, 1, 2), (2024, 1, 3), (2024, 1, 4), (2024, 1, 5)]
        .iter()
        .map(|&(y, m, d)| at(y, m, d, 15, 0))
        .collect();
    let p = time_profile(&clean, &c);
    assert_eq!((p.n_bars, p.first, p.last, p.strictly_increasing, p.calendar_gaps), (4, clean[0], clean[3], true, 0));
    let mut bad = clean.clone();
    bad.swap(1, 2);
    assert!(!time_profile(&bad, &c).strictly_increasing);
    let gap = vec![at(2024, 1, 2, 15, 0), at(2024, 1, 4, 15, 0)];
    assert_eq!(time_profile(&gap, &c).calendar_gaps, 1);
    let e = time_profile(&[], &c);
    assert_eq!((e.n_bars, e.strictly_increasing, e.calendar_gaps), (0, true, 0));
}

#[test]
fn universe_law_on_concrete_text() {
    let u = universe_from_csv_text("symbol,primary,context\n c , p3 , \nb,p2,c2\na,p1\n");
    // records must have as many fields as the header
    assert!(matches!(u, Err(Error::Csv(_))));
    let u = universe_from_csv_text("symbol,primary,context\n c , p3 , \nb,p2,c2\na,p1,\n").unwrap();
    let syms: Vec<&str> = u.iter().map(|e| e.symbol.as_str()).collect();
    assert_eq!(syms, vec!["a", "b", "c"]);
    assert_eq!((u[0].primary.as_str(), u[0].context.as_str()), ("p1", "p1"));
    assert_eq!((u[1].primary.as_str(), u[1].context.as_str()), ("p2", "c2"));
    assert_eq!((u[2].primary.as_str(), u[2].context.as_str()), ("p3", "p3"));
}
