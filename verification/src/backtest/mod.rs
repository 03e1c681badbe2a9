//! Backtest bookkeeping: data-gap detection, walk-forward folds and the
//! cross-sectional timeline.

pub mod gaps;
pub mod gap_laws;
pub mod portfolio;
pub mod schedule;
pub mod settlement;
pub mod timeline;
pub mod walkforward;
