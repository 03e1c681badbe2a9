//! rquant: the verified core of a fuzzy decision-tree backtester for A-share markets.

pub mod cli;
pub mod error;
pub mod text;
pub mod dsl;
pub mod sort;
pub mod data;
pub mod backtest;
pub mod factor;
pub mod optimize;
pub mod eval;
pub mod screen;
pub mod features;
pub mod engine;
