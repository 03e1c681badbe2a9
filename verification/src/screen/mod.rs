//! The daily stock screener's non-numeric parts: configuration defaults,
//! the sector and symbol lists, and the as-of bar choice.

pub mod config;
pub mod lists;
pub mod asof;
