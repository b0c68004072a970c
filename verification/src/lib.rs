//! Gapless OHLCV candle series maintenance and market-structure analysis.
//!
//! The crate keeps an ordered, step-aligned series of price candles for one
//! symbol/interval pair, detects and groups missing timestamps, fills
//! unresolvable gaps by time-weighted interpolation or dead placeholders, and
//! derives support/resistance domains, strong points, trend lines and
//! line-cross classifications from the reconciled series.
//!
//! Prices and volumes are fixed-point integers (`PRICE_SCALE` units per whole
//! price unit); timestamps are milliseconds since the Unix epoch.

pub mod api;
pub mod candle;
pub mod chart;
pub mod candles;
pub mod command;
pub mod domain;
pub mod config;
pub mod gaps;
pub mod line_cross;
pub mod meta;
pub mod normalized;
pub mod query;
pub mod reconcile;
pub mod select;
pub mod strong_point;
pub mod store;
pub mod trend_line;
pub mod time;

use vstd::prelude::*;

verus! {

/// Fixed-point scale for prices and volumes: 1.0 is represented as 100_000_000.
pub const PRICE_SCALE: i64 = 100_000_000;

} // verus!
