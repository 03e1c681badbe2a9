use rquant::error::Error;
use rquant::optimize::grid::grid_combos;

fn names(v: &[&str]) -> Vec<String> {
    v.iter().map(|s| s.to_string()).collect()
}

fn data_msg(e: Error) -> String {
    match e {
        Error::Data(m) => m,
        other => panic!("expected a data error, got {other:?}"),
    }
}

#[test]
fn expand_cartesian_last_axis_fastest() {
    let a = [1.0, 2.0];
    let b = [10.0, 20.0];
    let combos = grid_combos(&names(&["a", "b"]), &[2, 2], 10).unwrap();
    let get = |i: usize| (a[combos[i][0]], b[combos[i][1]]);
    assert_eq!(combos.len(), 4);
    assert_eq!(get(0), (1.0, 10.0));
    assert_eq!(get(1), (1.0, 20.0));
    assert_eq!(get(2), (2.0, 10.0));
}

#[test]
fn rejects_duplicates_and_cap() {
    assert!(grid_combos(&names(&["a", "a"]), &[1, 1], 10).is_err());
    assert!(grid_combos(&names(&["a"]), &[600], 500).is_err());
    assert!(grid_combos(&[], &[], 10).is_err());
}

#[test]
fn grid_error_messages() {
    assert_eq!(data_msg(grid_combos(&[], &[], 10).unwrap_err()), "optimize: at least one --grid required");
    assert_eq!(
        data_msg(grid_combos(&names(&["a", "b", "b", "a"]), &[1, 1, 1, 1], 10).unwrap_err()),
        "optimize: duplicate --grid name 'b'"
    );
    assert_eq!(
        data_msg(grid_combos(&names(&["a"]), &[600], 500).unwrap_err()),
        "optimize: 600 combos exceed --max-combos 500; narrow the grid"
    );
    assert_eq!(
        data_msg(grid_combos(&names(&["a", "b"]), &[usize::MAX, 2], usize::MAX).unwrap_err()),
        "optimize: grid size overflow"
    );
}

#[test]
fn grid_three_axes_mixed_radix() {
    let combos = grid_combos(&names(&["x", "y", "z"]), &[2, 3, 2], 12).unwrap();
    assert_eq!(combos.len(), 12);
    assert_eq!(combos[0], vec![0, 0, 0]);
    assert_eq!(combos[1], vec![0, 0, 1]);
    assert_eq!(combos[2], vec![0, 1, 0]);
    assert_eq!(combos[7], vec![1, 0, 1]);
    assert_eq!(combos[11], vec![1, 2, 1]);
}

#[test]
fn grid_with_empty_axis_has_no_combos() {
    assert!(grid_combos(&names(&["a", "b"]), &[3, 0], 10).unwrap().is_empty());
}

use rquant::optimize::grid::{split_grid_axis, AxisValues};

#[test]
fn grid_axis_split_range_and_list() {
    let a = split_grid_axis(" ma_n = 10:40:5 ").unwrap();
    assert_eq!(a.name, "ma_n");
    match a.values {
        AxisValues::Range(x, y, z) => assert_eq!((x.as_str(), y.as_str(), z.as_str()), ("10", "40", "5")),
        _ => panic!("expected range"),
    }
    let b = split_grid_axis("k=1, 2,3").unwrap();
    match b.values {
        AxisValues::List(v) => assert_eq!(v, vec!["1".to_string(), " 2".to_string(), "3".to_string()]),
        _ => panic!("expected list"),
    }
}

#[test]
fn grid_axis_split_errors() {
    assert_eq!(data_msg(split_grid_axis("novalues").unwrap_err()), "grid 'novalues': expected name=values");
    assert_eq!(data_msg(split_grid_axis(" =1").unwrap_err()), "grid ' =1': empty param name");
    assert_eq!(data_msg(split_grid_axis("a= ").unwrap_err()), "grid 'a= ': empty values");
    assert_eq!(data_msg(split_grid_axis("a=1:2").unwrap_err()), "grid 'a=1:2': range needs start:stop:step");
}

use rquant::optimize::{fold_plan, objective_mode, ObjectiveMode};

#[test]
fn objective_mode_prefers_sim_then_soft() {
    assert_eq!(objective_mode(true, true), ObjectiveMode::Sim);
    assert_eq!(objective_mode(false, true), ObjectiveMode::ScoreSoft);
    assert_eq!(objective_mode(false, false), ObjectiveMode::ScoreHard);
    assert_eq!(ObjectiveMode::ScoreSoft.names(), ("score_soft", "engaged_mean_expected_net"));
}

#[test]
fn fold_plan_boundaries_and_refusals() {
    let p = fold_plan(false, false, 10, 100, 3).unwrap();
    assert_eq!((p.range_start, p.range_end), (10, 100));
    assert_eq!(p.fold_starts, vec![10, 40, 70, 100]);
    let s = fold_plan(true, false, 10, 100, 4).unwrap();
    assert_eq!(s.range_end, 99);
    assert_eq!(s.fold_starts, vec![10, 32, 54, 76, 99]);
    assert_eq!(data_msg(fold_plan(false, false, 0, 100, 1).unwrap_err()), "optimize: --folds must be >= 2, got 1");
    assert_eq!(
        data_msg(fold_plan(true, false, 95, 100, 3).unwrap_err()),
        "optimize: only 4 eligible points (warmup..range_end) but need >= 6 for 3 folds × 2"
    );
}
