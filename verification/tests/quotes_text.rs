use chrono::{Datelike, NaiveDate};
use rquant::data::aux_table::aux_from_csv_text;
use rquant::data::bars::{check_bar_rows, check_news_times, sina_bars, BarText, SinaRowText};
use rquant::data::fundamentals::{as_of_row, fundamentals_from_csv_text};
use rquant::data::stamp::bar_stamp;
use rquant::data::tencent_rows::parse_tencent_klines;
use rquant::error::Error;

fn at(y: i32, m: u32, d: u32, h: i64, mi: i64, s: i64) -> i64 {
    NaiveDate::from_ymd_opt(y, m, d).unwrap().num_days_from_ce() as i64 * 86400 + h * 3600 + mi * 60 + s
}

fn day(y: i32, m: u32, d: u32) -> i64 {
    NaiveDate::from_ymd_opt(y, m, d).unwrap().num_days_from_ce() as i64
}

fn f(s: &str) -> f64 {
    s.parse().unwrap()
}

fn data_msg(e: Error) -> String {
    match e {
        Error::Data(m) => m,
        other => panic!("expected a data error, got {other:?}"),
    }
}

fn sina_row(day: &str, o: &str, h: &str, l: &str, c: &str, v: &str) -> SinaRowText {
    SinaRowText {
        day: day.to_string(),
        open: o.to_string(),
        high: h.to_string(),
        low: l.to_string(),
        close: c.to_string(),
        volume: v.to_string(),
    }
}

/// Reads every price of the bars as a number, as the command line does.
fn numbers(bars: &[BarText]) -> Result<Vec<[f64; 5]>, String> {
    bars.iter()
        .map(|b| {
            let n = |s: &str| s.parse::<f64>().map_err(|e| e.to_string());
            Ok([n(&b.open)?, n(&b.high)?, n(&b.low)?, n(&b.close)?, n(&b.volume)?])
        })
        .collect()
}

#[test]
fn parses_and_sorts_ascending() {
    let rows = vec![
        sina_row("2024-01-02 15:00:00", "10.0", "10.5", "9.8", "10.2", "1000"),
        sina_row("2024-01-02 14:45:00", "9.9", "10.1", "9.7", "10.0", "900"),
    ];
    let bars = sina_bars(rows).unwrap();
    assert_eq!(bars.len(), 2);
    assert_eq!(f(&bars[0].close), 10.0);
    assert_eq!(f(&bars[0].volume), 900.0);
    assert_eq!(f(&bars[1].close), 10.2);
    assert!(bars[0].time < bars[1].time);
}

#[test]
fn parses_daily_date_only_rows_as_1500() {
    let rows = vec![
        sina_row("2025-03-17", "6.750", "6.830", "6.740", "6.810", "358619828"),
        sina_row("2025-03-18", "6.830", "6.840", "6.770", "6.800", "236952810"),
    ];
    let bars = sina_bars(rows).unwrap();
    assert_eq!(bars.len(), 2);
    assert_eq!(bars[0].time, at(2025, 3, 17, 15, 0, 0));
    assert_eq!(f(&bars[0].close), 6.81);
}

#[test]
fn empty_array_is_empty_vec() {
    assert!(sina_bars(vec![]).unwrap().is_empty());
}

#[test]
fn rejects_bad_float_field() {
    let rows = vec![sina_row("2024-01-02 15:00:00", "not-a-number", "10.5", "9.8", "10.2", "1000")];
    assert!(numbers(&sina_bars(rows).unwrap()).is_err());
}

#[test]
fn sina_bad_day_and_stable_order() {
    let e = sina_bars(vec![sina_row("02/01/2024", "1", "1", "1", "1", "1")]).unwrap_err();
    assert!(data_msg(e).starts_with("sina bad day '02/01/2024': "));
    let rows = vec![
        sina_row("2024-01-02", "a", "1", "1", "1", "1"),
        sina_row("2024-01-01", "b", "1", "1", "1", "1"),
        sina_row("2024-01-02 15:00:00", "c", "1", "1", "1", "1"),
    ];
    let opens: Vec<String> = sina_bars(rows).unwrap().into_iter().map(|b| b.open).collect();
    assert_eq!(opens, vec!["b", "a", "c"]);
}

#[test]
fn bar_stamp_reads_times_and_bare_dates() {
    assert_eq!(bar_stamp("2024-01-02 09:45:30").unwrap(), at(2024, 1, 2, 9, 45, 30));
    assert_eq!(bar_stamp("2024-01-02").unwrap(), at(2024, 1, 2, 15, 0, 0));
    assert!(bar_stamp("2024-13-02").is_err());
}

const SAMPLE_QFQ: &str = r#"{"code":0,"msg":"","data":{"sh601398":{"qfqday":[
  ["2025-06-09","6.625","6.605","6.635","6.565","2913685.000"],
  ["2025-06-10","6.605","6.625","6.715","6.595","4161322.000"]]}}}"#;

#[test]
fn parses_qfq_rows_with_tencent_field_order() {
    let bars = parse_tencent_klines(SAMPLE_QFQ, "sh601398", "qfq").unwrap();
    assert_eq!(bars.len(), 2);
    let b = &bars[0];
    assert_eq!(f(&b.open), 6.625);
    assert_eq!(f(&b.close), 6.605);
    assert_eq!(f(&b.high), 6.635);
    assert_eq!(f(&b.low), 6.565);
    assert_eq!(f(&b.volume), 2913685.0);
    assert_eq!(b.time, at(2025, 6, 9, 15, 0, 0));
    assert!(bars[0].time < bars[1].time);
}

#[test]
fn raw_key_day_and_extra_row_elements_tolerated() {
    let json = r#"{"code":0,"msg":"","data":{"sh601088":{"day":[
      ["2025-07-04","37.160","37.810","37.900","37.000","350000.000",{"nd":"1"}]]}}}"#;
    let bars = parse_tencent_klines(json, "sh601088", "").unwrap();
    assert_eq!(bars.len(), 1);
    assert_eq!(f(&bars[0].close), 37.81);
}

#[test]
fn errors_on_missing_symbol_bad_price_short_row() {
    assert!(parse_tencent_klines(r#"{"data":{}}"#, "sh600000", "qfq").is_err());
    let bad = r#"{"data":{"sh600000":{"qfqday":[["2025-06-09","x","1","1","1","1"]]}}}"#;
    assert!(numbers(&parse_tencent_klines(bad, "sh600000", "qfq").unwrap()).is_err());
    let short = r#"{"data":{"sh600000":{"qfqday":[["2025-06-09","1","1"]]}}}"#;
    assert!(parse_tencent_klines(short, "sh600000", "qfq").is_err());
}

#[test]
fn tencent_error_messages() {
    let msg = |j: &str, a: &str| data_msg(parse_tencent_klines(j, "s", a).unwrap_err());
    assert!(msg("nope", "qfq").starts_with("tencent bad json: "));
    assert_eq!(msg(r#"{"data":{}}"#, "qfq"), "tencent: no data for 's'");
    assert_eq!(msg(r#"{"data":{"s":{}}}"#, "qfq"), "tencent: no kline array under 'qfqday'");
    assert_eq!(msg(r#"{"data":{"s":{"qfqday":5}}}"#, "qfq"), "tencent: no kline array under 'qfqday'");
    assert_eq!(msg(r#"{"data":{"s":{"day":[7]}}}"#, "qfq"), "tencent: row is not an array");
    assert_eq!(msg(r#"{"data":{"s":{"day":[["2025-06-09","1"]]}}}"#, ""), "tencent: row too short (2 fields)");
    assert_eq!(msg(r#"{"data":{"s":{"day":[[1,"1","1","1","1","1"]]}}}"#, ""), "tencent: day is not a string");
    assert_eq!(msg(r#"{"data":{"s":{"day":[["2025-06-09","1",2,"1","1","1"]]}}}"#, ""), "tencent: close is not a string");
    assert!(msg(r#"{"data":{"s":{"day":[["x","1","1","1","1","1"]]}}}"#, "").starts_with("tencent bad day 'x': "));
    // the fallback key is used only when the preferred one is absent
    let b = parse_tencent_klines(r#" {"data":{"s":{"day":[["2025-06-09","1","2","3","4","5"]]}}} "#, "s", "qfq").unwrap();
    assert_eq!(b[0].close, "2");
}

#[test]
fn reads_valid_csv() {
    let times = vec!["2024-01-02 09:45:00".to_string(), "2024-01-02 10:00:00".to_string()];
    let t = check_bar_rows(&times, &[true, true]).unwrap();
    assert_eq!(t, vec![at(2024, 1, 2, 9, 45, 0), at(2024, 1, 2, 10, 0, 0)]);
}

#[test]
fn reader_rejects_non_increasing_time() {
    let times = vec!["2024-01-02 10:00:00".to_string(), "2024-01-02 09:45:00".to_string()];
    let e = check_bar_rows(&times, &[true, true]).unwrap_err();
    assert_eq!(data_msg(e), "non-increasing time at 2024-01-02 09:45:00");
}

#[test]
fn rejects_high_below_low() {
    let times = vec!["2024-01-02 09:45:00".to_string()];
    let e = check_bar_rows(&times, &[false]).unwrap_err();
    assert_eq!(data_msg(e), "high < low at 2024-01-02 09:45:00");
    let e2 = check_bar_rows(&["2024-01-02".to_string()], &[true]).unwrap_err();
    assert!(data_msg(e2).starts_with("bad time '2024-01-02': "));
}

#[test]
fn reads_news_csv() {
    let times = vec!["2024-01-02 09:30:00".to_string(), "2024-01-02 10:00:00".to_string(), "2024-01-02 10:00:00".to_string()];
    assert_eq!(check_news_times(&times).unwrap().len(), 3);
}

#[test]
fn rejects_out_of_order() {
    let times = vec!["2024-01-02 10:00:00".to_string(), "2024-01-02 09:00:00".to_string()];
    assert_eq!(data_msg(check_news_times(&times).unwrap_err()), "news time out of order at 2024-01-02 09:00:00");
}

#[test]
fn reads_multi_column_and_daily_format() {
    let t = aux_from_csv_text("time,netbuy,pe\n2024-01-02,1.5,12.0\n2024-01-03 10:00:00,-0.5,12.1\n").unwrap();
    assert_eq!(t.times.len(), 2);
    assert_eq!(t.times[0], at(2024, 1, 2, 0, 0, 0));
    assert_eq!(t.names, vec!["netbuy", "pe"]);
    assert_eq!(t.rows.iter().map(|r| f(&r[0])).collect::<Vec<_>>(), vec![1.5, -0.5]);
    assert_eq!(t.rows.iter().map(|r| f(&r[1])).collect::<Vec<_>>(), vec![12.0, 12.1]);
}

#[test]
fn rejects_bad_inputs() {
    assert!(aux_from_csv_text("time,v\n2024-01-03,1\n2024-01-02,2\n").is_err());
    let t = aux_from_csv_text("time,v\n2024-01-02,abc\n").unwrap();
    assert!(t.rows[0][0].trim().parse::<f64>().is_err());
    assert!(aux_from_csv_text("t,v\n2024-01-02,1\n").is_err());
    assert!(aux_from_csv_text("time,a.b\n2024-01-02,1\n").is_err());
    assert!(aux_from_csv_text("time,v\nnot-a-date,1\n").is_err());
}

#[test]
fn aux_error_messages() {
    let m = |s: &str| data_msg(aux_from_csv_text(s).unwrap_err());
    assert_eq!(m("time,v\n2024-01-03,1\n2024-01-02,2\n"), "aux non-increasing time at 2024-01-02 00:00:00");
    assert_eq!(m("t,v\n"), "aux csv first column must be 'time'");
    assert_eq!(m("time, a b \n"), "bad aux column name 'a b'");
    assert_eq!(m("time,\n"), "bad aux column name ''");
    assert_eq!(m("time,v\nnot-a-date,1\n"), "bad aux time 'not-a-date'");
}

fn roe_as_of(text: &str, d: i64) -> Option<String> {
    let t = fundamentals_from_csv_text(text).unwrap();
    as_of_row(&t.days, d).map(|i| t.rows[i][0].clone())
}

#[test]
fn as_of_point_in_time_gate() {
    let text = "time,roe,eps\n2024-04-27,34.1,8.05\n2024-08-20,18.0,4.2\n";
    assert_eq!(roe_as_of(text, day(2024, 4, 26)), None);
    assert_eq!(roe_as_of(text, day(2024, 4, 27)).map(|s| f(&s)), Some(34.1));
    assert_eq!(roe_as_of(text, day(2024, 8, 19)).map(|s| f(&s)), Some(34.1));
    assert_eq!(roe_as_of(text, day(2024, 8, 20)).map(|s| f(&s)), Some(18.0));
    let t = fundamentals_from_csv_text(text).unwrap();
    let i = as_of_row(&t.days, day(2025, 1, 1)).unwrap();
    assert_eq!(f(&t.rows[i][1]), 4.2);
}

#[test]
fn empty_cell_is_absent() {
    let t = fundamentals_from_csv_text("time,roe,eps\n2024-04-27,,8.05\n").unwrap();
    let i = as_of_row(&t.days, day(2024, 5, 1)).unwrap();
    assert!(t.rows[i][0].is_empty());
    assert_eq!(f(&t.rows[i][1]), 8.05);
}

#[test]
fn fundamentals_rejects_non_increasing_time() {
    let e = fundamentals_from_csv_text("time,roe\n2024-08-20,1.0\n2024-04-27,2.0\n").unwrap_err();
    assert_eq!(data_msg(e), "fundamentals time not strictly increasing at 2024-04-27");
}

#[test]
fn fundamentals_last_row_of_a_day_wins() {
    let t = fundamentals_from_csv_text(
        "time,v\n2024-01-02 10:00:00,1\n2024-01-02 15:00:00, 2 \n2024-01-03 09:45:00,3\n",
    )
    .unwrap();
    assert_eq!(t.days, vec![day(2024, 1, 2), day(2024, 1, 3)]);
    assert_eq!(t.rows, vec![vec!["2".to_string()], vec!["3".to_string()]]);
    assert_eq!(t.cells.len(), 3);
    assert!(data_msg(fundamentals_from_csv_text("time,v\nxx,1\n").unwrap_err()).starts_with("fundamentals bad date 'xx': "));
    assert_eq!(
        data_msg(fundamentals_from_csv_text("date,v\n").unwrap_err()),
        "fundamentals csv must start with 'time' column"
    );
}
