//! Strong points: candles whose support or resistance domain clears a
//! threshold, emitted in time order with a running extraction index.

use vstd::prelude::*;
use crate::candle::Candle;

verus! {

/// Which extreme of a candle a point or line root anchors to.
#[derive(Clone, Copy, PartialEq, Eq, Structural, Debug)]
pub enum CandlePos {
    HIGH,
    LOW,
}

impl CandlePos {
    /// The numeric code of a polarity: one for high, zero for low.
    pub fn as_u8(self) -> (r: u8)
        ensures
            r == (if self is HIGH {
                1u8
            } else {
                0u8
            }),
    {
        match self {
            CandlePos::HIGH => 1,
            CandlePos::LOW => 0,
        }
    }
}

/// A support or resistance marker derived from one candle.
#[derive(Clone, Copy, PartialEq, Eq, Structural, Debug)]
pub struct StrongPoint {
    pub position: CandlePos,
    pub x: i64,
    pub y: i64,
    pub index: usize,
    pub candle_index: usize,
    pub domain: i32,
}

/// Thresholds for strong-point extraction.
#[derive(Clone, Copy, PartialEq, Eq, Structural, Debug)]
pub struct StrongPointConfig {
    pub min_domain: u16,
    pub count: u16,
}

impl StrongPoint {
    /// The marker a candle yields for one polarity.
    pub open spec fn of_candle(candles: Seq<Candle>, candle_index: int, position: CandlePos,
        index: int) -> StrongPoint {
        StrongPoint {
            x: candles[candle_index].open_time,
            y: if position is HIGH {
                candles[candle_index].high
            } else {
                candles[candle_index].low
            },
            position,
            domain: if position is HIGH {
                candles[candle_index].top_domain
            } else {
                candles[candle_index].bottom_domain
            },
            candle_index: candle_index as usize,
            index: index as usize,
        }
    }

    /// Builds the marker for one candle and polarity.
    pub fn new(candles: &Vec<Candle>, candle_index: usize, position: CandlePos, index: usize) -> (
        sp: StrongPoint)
        requires
            candle_index < candles@.len(),
        ensures
            sp == StrongPoint::of_candle(candles@, candle_index as int, position, index as int),
    {
        let candle = &candles[candle_index];
        StrongPoint {
            x: candle.open_time,
            y: match position {
                CandlePos::HIGH => candle.high,
                CandlePos::LOW => candle.low,
            },
            position,
            domain: match position {
                CandlePos::HIGH => candle.top_domain,
                CandlePos::LOW => candle.bottom_domain,
            },
            candle_index,
            index,
        }
    }
}

/// The strong points of the first `n` candles, in time order: a HIGH marker
/// wherever the top domain clears the threshold, then a LOW marker wherever
/// the bottom domain does, each carrying the running index.
pub open spec fn strong_points_upto(candles: Seq<Candle>, min_domain: int, n: int) -> Seq<
    StrongPoint>
    decreases n,
{
    if n <= 0 {
        Seq::empty()
    } else {
        let p = strong_points_upto(candles, min_domain, n - 1);
        let ph = if candles[n - 1].top_domain >= min_domain {
            p + seq![StrongPoint::of_candle(candles, n - 1, CandlePos::HIGH, p.len() as int)]
        } else {
            p
        };
        if candles[n - 1].bottom_domain >= min_domain {
            ph + seq![StrongPoint::of_candle(candles, n - 1, CandlePos::LOW, ph.len() as int)]
        } else {
            ph
        }
    }
}

/// Extracts every strong point of a window at or above the domain
/// threshold.
pub fn generate_points(candles: &Vec<Candle>, min_domain: i32) -> (r: Vec<StrongPoint>)
    requires
        candles@.len() <= 0x7fffffff,
    ensures
        r@ == strong_points_upto(candles@, min_domain as int, candles@.len() as int),
{
    let mut strong_points: Vec<StrongPoint> = Vec::new();
    let mut index: usize = 0;
    let n = candles.len();
    let mut i: usize = 0;
    while i < n
        invariant
            i <= n == candles@.len(),
            n <= 0x7fffffff,
            strong_points@ == strong_points_upto(candles@, min_domain as int, i as int),
            index == strong_points@.len(),
            index <= 2 * i,
        decreases n - i,
    {
        let candle = &candles[i];
        if candle.top_domain >= min_domain {
            let sp = StrongPoint::new(candles, i, CandlePos::HIGH, index);
            strong_points.push(sp);
            index = index + 1;
        }
        if candle.bottom_domain >= min_domain {
            let sp = StrongPoint::new(candles, i, CandlePos::LOW, index);
            strong_points.push(sp);
            index = index + 1;
        }
        i = i + 1;
    }
    strong_points
}

} // verus!
