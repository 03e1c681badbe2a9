use chrono::{Datelike, NaiveDate};
use rquant::backtest::gaps::{detect_gaps, PartialDay};
use rquant::backtest::portfolio::{build_timeline, is_fresh, last_at, partition_point_le};
use rquant::backtest::settlement::{defer_reduction, next_increase_day};
use rquant::backtest::walkforward::fold_ranges;
use rquant::data::calendar::AShareCalendar;

fn day(y: i32, m: u32, d: u32) -> i64 {
    NaiveDate::from_ymd_opt(y, m, d).unwrap().num_days_from_ce() as i64
}

/// `n` 15-minute bar times from 09:45 of the given day.
fn day_bars(y: i32, m: u32, d: u32, n: i64) -> Vec<i64> {
    let base = day(y, m, d) * 86400 + 9 * 3600 + 45 * 60;
    (0..n).map(|i| base + i * 15 * 60).collect()
}

fn cal(holidays: &[(i32, u32, u32)]) -> AShareCalendar {
    AShareCalendar::new(holidays.iter().map(|&(y, m, d)| day(y, m, d)).collect())
}

#[test]
fn no_gaps_when_complete() {
    let mut bars = day_bars(2024, 1, 2, 4);
    bars.extend(day_bars(2024, 1, 3, 4));
    bars.extend(day_bars(2024, 1, 4, 4));
    assert!(detect_gaps(&bars, &cal(&[])).is_empty());
}

#[test]
fn flags_missing_trading_day() {
    let mut bars = day_bars(2024, 1, 2, 4);
    bars.extend(day_bars(2024, 1, 4, 4));
    let r = detect_gaps(&bars, &cal(&[]));
    assert_eq!(r.missing_trading_days, vec![day(2024, 1, 3)]);
}

#[test]
fn holiday_not_flagged_missing() {
    let mut bars = day_bars(2024, 1, 2, 4);
    bars.extend(day_bars(2024, 1, 4, 4));
    let r = detect_gaps(&bars, &cal(&[(2024, 1, 3)]));
    assert!(r.missing_trading_days.is_empty());
}

#[test]
fn flags_partial_interior_day() {
    let mut bars = day_bars(2024, 1, 2, 4);
    bars.extend(day_bars(2024, 1, 3, 2));
    bars.extend(day_bars(2024, 1, 4, 4));
    let r = detect_gaps(&bars, &cal(&[]));
    assert_eq!(r.partial_days.len(), 1);
    assert_eq!(r.partial_days[0].date, day(2024, 1, 3));
    assert_eq!(r.partial_days[0].bars, 2);
    assert_eq!(r.partial_days[0].expected, 4);
}

#[test]
fn boundary_partial_days_not_flagged() {
    let mut bars = day_bars(2024, 1, 2, 2);
    bars.extend(day_bars(2024, 1, 3, 4));
    bars.extend(day_bars(2024, 1, 4, 2));
    assert!(detect_gaps(&bars, &cal(&[])).partial_days.is_empty());
}

#[test]
fn gaps_skip_weekend_and_report_in_day_order() {
    // Fri 2024-01-05, then Wed 2024-01-10: Mon 8 and Tue 9 are missing, the weekend is not.
    let mut bars = day_bars(2024, 1, 5, 4);
    bars.extend(day_bars(2024, 1, 10, 1));
    bars.extend(day_bars(2024, 1, 11, 4));
    let r = detect_gaps(&bars, &cal(&[]));
    assert_eq!(r.missing_trading_days, vec![day(2024, 1, 8), day(2024, 1, 9)]);
    assert_eq!(r.partial_days, vec![PartialDay { date: day(2024, 1, 10), bars: 1, expected: 4 }]);
    assert!(!r.is_empty());
}

#[test]
fn gaps_of_empty_series() {
    assert!(detect_gaps(&[], &cal(&[])).is_empty());
}

fn t(h: i64, m: i64) -> i64 {
    day(2024, 1, 2) * 86400 + h * 3600 + m * 60
}

#[test]
fn timeline_union_sort_dedup() {
    let (t1, t2, t3, t4) = (t(9, 30), t(10, 0), t(10, 30), t(11, 0));
    let series_a = vec![t1, t3];
    let series_b = vec![t2, t3, t4];
    assert_eq!(build_timeline(&[series_a, series_b]), vec![t1, t2, t3, t4]);
}

#[test]
fn timeline_empty_input() {
    assert!(build_timeline(&[]).is_empty());
}

#[test]
fn timeline_single_series() {
    let (t1, t2) = (t(9, 30), t(10, 0));
    assert_eq!(build_timeline(&[vec![t1, t2]]), vec![t1, t2]);
}

#[test]
fn last_close_at_exact_hit() {
    let times = vec![t(9, 30), t(10, 0), t(10, 30)];
    let closes = [10.0, 20.0, 30.0];
    assert_eq!(last_at(&times, t(10, 0)).map(|i| closes[i]), Some(20.0));
    assert_eq!(last_at(&times, t(10, 30)).map(|i| closes[i]), Some(30.0));
}

#[test]
fn last_close_at_before_first_returns_none() {
    let times = vec![t(10, 0)];
    assert_eq!(last_at(&times, t(9, 0)), None);
}

#[test]
fn last_close_at_between_takes_previous() {
    let times = vec![t(9, 30), t(10, 30)];
    let closes = [10.0, 30.0];
    assert_eq!(last_at(&times, t(10, 0)).map(|i| closes[i]), Some(10.0));
}

#[test]
fn is_fresh_exact_hit() {
    let times = vec![t(9, 30), t(10, 0)];
    assert!(is_fresh(&times, t(9, 30)));
    assert!(is_fresh(&times, t(10, 0)));
}

#[test]
fn is_fresh_miss() {
    let times = vec![t(9, 30), t(10, 30)];
    assert!(!is_fresh(&times, t(10, 0)));
}

#[test]
fn partition_point_counts_times_at_or_before() {
    let times = vec![1, 3, 3, 7];
    assert_eq!(partition_point_le(&times, 0), 0);
    assert_eq!(partition_point_le(&times, 3), 3);
    assert_eq!(partition_point_le(&times, 9), 4);
}

#[test]
fn fold_ranges_three_equal_folds() {
    assert_eq!(fold_ranges(9, 3), vec![(0, 3), (3, 6), (6, 9)]);
}

#[test]
fn fold_ranges_skip_empty_folds() {
    assert_eq!(fold_ranges(2, 5), vec![(0, 1), (1, 2)]);
}

#[test]
fn folds_tile_uneven_lengths() {
    assert_eq!(fold_ranges(10, 3), vec![(0, 3), (3, 6), (6, 10)]);
    assert!(fold_ranges(0, 4).is_empty());
    assert!(fold_ranges(5, 0).is_empty());
}

use rquant::backtest::schedule::{portfolio_schedule, restrict_to_days, screen_schedule, segments_of, step_points};
use rquant::error::Error;
use rquant::features::window::visible_range;

fn data_msg(e: Error) -> String {
    match e {
        Error::Data(m) => m,
        other => panic!("expected a data error, got {other:?}"),
    }
}

#[test]
fn step_points_match_step_by() {
    assert_eq!(step_points(2, 11, 3), (2..11).step_by(3).collect::<Vec<usize>>());
    assert!(step_points(5, 5, 1).is_empty());
}

#[test]
fn segments_close_to_the_final_bar() {
    assert_eq!(segments_of(&[0, 3, 6], 9), vec![(0, 3), (3, 6), (6, 8)]);
    assert_eq!(segments_of(&[0, 4, 8], 9), vec![(0, 4), (4, 8)]);
}

#[test]
fn schedules_refuse_zero_and_short() {
    assert_eq!(data_msg(portfolio_schedule(0, 10, 0).unwrap_err()), "rebalance must be >= 1");
    assert_eq!(
        data_msg(portfolio_schedule(8, 10, 5).unwrap_err()),
        "universe timeline too short for warmup/rebalance"
    );
    assert_eq!(data_msg(screen_schedule(8, 10, 5).unwrap_err()), "timeline too short for warmup/rebalance");
    assert_eq!(portfolio_schedule(2, 10, 3).unwrap(), vec![(2, 5), (5, 8), (8, 9)]);
}

#[test]
fn restrict_to_days_keeps_bounds_inclusive() {
    let d = |y, m, dd| day(y, m, dd);
    let tl: Vec<i64> = vec![d(2024, 1, 2) * 86400 + 54000, d(2024, 1, 3) * 86400, d(2024, 1, 4) * 86400 + 100];
    assert_eq!(restrict_to_days(&tl, Some(d(2024, 1, 3)), Some(d(2024, 1, 4))), tl[1..].to_vec());
    assert_eq!(restrict_to_days(&tl, None, Some(d(2024, 1, 2))), tl[..1].to_vec());
    assert_eq!(restrict_to_days(&tl, None, None), tl);
}

fn series(n: i64) -> Vec<i64> {
    (0..n).map(|i| t(9, 45) + i * 15 * 60).collect()
}

#[test]
fn window_takes_trailing_visible_bars() {
    let primary = series(10);
    let (start, end) = visible_range(&primary, primary[5], 3);
    assert_eq!(end - start, 3);
    assert_eq!(end - 1, 5);
}

#[test]
fn no_future_bar_leaks_property() {
    let primary = series(50);
    for i in 0..primary.len() {
        let at = primary[i];
        let (start, end) = visible_range(&primary, at, 100);
        for b in &primary[start..end] {
            assert!(*b <= at, "future bar leaked at i={i}");
        }
        assert_eq!(end, i + 1);
    }
}

#[test]
fn news_respects_lookahead() {
    let news = vec![t(9, 45), t(12, 15)];
    let primary = series(20);
    let (start, end) = visible_range(&news, primary[3], 5);
    for r in &news[start..end] {
        assert!(*r <= primary[3], "future news leaked");
    }
    assert_eq!(end - start, 1);
}

#[test]
fn aux_tables_gated_by_time() {
    let times = vec![t(9, 45), t(10, 0), t(10, 30)];
    assert_eq!(visible_range(&times, t(10, 0), usize::MAX), (0, 2));
    assert_eq!(visible_range(&times, t(9, 44), usize::MAX), (0, 0));
}

#[test]
fn t_plus_one_defers_same_day_cuts() {
    let d = NaiveDate::from_ymd_opt(2024, 1, 2).unwrap().num_days_from_ce() as i64;
    let t = d * 86400 + 10 * 3600;
    assert!(defer_reduction(true, Some(d), t));
    assert!(!defer_reduction(true, Some(d - 1), t));
    assert!(!defer_reduction(false, Some(d), t));
    assert!(!defer_reduction(true, None, t));
    assert_eq!(next_increase_day(true, Some(d - 3), t), Some(d));
    assert_eq!(next_increase_day(false, Some(d - 3), t), Some(d - 3));
}
