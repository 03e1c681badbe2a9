//! Market data: the time model, the A-share calendar, universe and membership
//! tables, and quote-service request URLs.

pub mod calendar;
pub mod time;
pub mod stamp;
pub mod bars;
pub mod sina;
pub mod tencent;
pub mod tencent_rows;
pub mod table;
pub mod aux_table;
pub mod fundamentals;
pub mod universe;
pub mod membership;
pub mod fetch;
pub mod quality;
