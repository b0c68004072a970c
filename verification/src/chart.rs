//! A chart: one reconciled candle window with its derived strong points,
//! described by its symbol, interval and time bounds.

use vstd::prelude::*;
use crate::candles::Candles;
use crate::strong_point::StrongPoint;

verus! {

/// What window a chart describes.
#[derive(Clone, PartialEq, Debug)]
pub struct ChartMeta {
    pub interval: String,
    pub symbol: String,
    pub step: i64,
    pub start: i64,
    pub end: i64,
}

/// A candle window together with its strong points.
pub struct Chart {
    pub meta: ChartMeta,
    pub candles: Candles,
    pub strong_points: Vec<StrongPoint>,
}

} // verus!
