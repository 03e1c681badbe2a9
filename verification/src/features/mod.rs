//! What a decision at time `t` may see of the market data.

pub mod window;
