//! The OHLCV candle record and candle-level computations.
//!
//! Prices and volumes are fixed-point integers: `crate::PRICE_SCALE` units
//! stand for one whole price unit.  A candle covers the half-open time span
//! `[open_time, close_time + 1)`.

use vstd::prelude::*;
use vstd::arithmetic::div_mod::{lemma_div_is_ordered, lemma_div_by_multiple};

verus! {

/// Largest representable price or volume, in fixed-point units; keeps line
/// geometry exactly computable in 128-bit arithmetic.
pub const MAX_PRICE: i64 = 2000000000000000000;

/// One OHLCV bar.  `dead` marks a placeholder with no trade data; `derived`
/// marks an interpolated bar; `index` is the bar's position in a query result.
#[derive(Clone, Copy, PartialEq, Eq, Structural, Debug)]
pub struct Candle {
    pub id: i32,
    pub open: i64,
    pub high: i64,
    pub low: i64,
    pub close: i64,
    pub volume: i64,
    pub open_time: i64,
    pub close_time: i64,
    pub top_domain: i32,
    pub bottom_domain: i32,
    pub dead: bool,
    pub derived: bool,
    pub fuzzy_domain: bool,
    pub index: usize,
}

impl Candle {
    /// All price and volume fields are non-negative.
    pub open spec fn prices_nonneg(self) -> bool {
        0 <= self.open && 0 <= self.high && 0 <= self.low && 0 <= self.close && 0 <= self.volume
    }

    /// All price and volume fields are at most `MAX_PRICE`.
    pub open spec fn prices_le_max(self) -> bool {
        self.open <= MAX_PRICE && self.high <= MAX_PRICE && self.low <= MAX_PRICE && self.close
            <= MAX_PRICE && self.volume <= MAX_PRICE
    }

    /// The time span is well formed.
    pub open spec fn times_ok(self) -> bool {
        0 <= self.open_time <= self.close_time
    }

    /// The low does not exceed the high and both enclose the body.
    pub open spec fn prices_ordered(self) -> bool {
        self.low <= self.open <= self.high && self.low <= self.close <= self.high
    }

    pub open spec fn contains_ms_spec(self, ms: int) -> bool {
        self.open_time <= ms && self.close_time >= ms
    }

    /// Whether a millisecond instant falls inside this candle's span.
    pub fn contains_ms(&self, ms: i64) -> (r: bool)
        ensures
            r == self.contains_ms_spec(ms as int),
    {
        self.open_time <= ms && self.close_time >= ms
    }

    /// A placeholder candle for a timestamp with no obtainable data.
    pub fn dead(open_time: i64) -> (c: Candle)
        ensures
            c == (Candle { open_time, dead: true, ..Candle::default_spec() }),
            c.dead,
            c.open_time == open_time,
            c.open == 0 && c.high == 0 && c.low == 0 && c.close == 0 && c.volume == 0,
            !c.derived,
    {
        Candle { open_time, dead: true, ..Candle::zeroed() }
    }

    /// The all-zero candle.
    pub open spec fn default_spec() -> Candle {
        Candle {
            id: 0,
            open: 0,
            high: 0,
            low: 0,
            close: 0,
            volume: 0,
            open_time: 0,
            close_time: 0,
            top_domain: 0,
            bottom_domain: 0,
            dead: false,
            derived: false,
            fuzzy_domain: false,
            index: 0,
        }
    }

    /// The all-zero candle.
    pub fn zeroed() -> (c: Candle)
        ensures
            c == Candle::default_spec(),
    {
        Candle {
            id: 0,
            open: 0,
            high: 0,
            low: 0,
            close: 0,
            volume: 0,
            open_time: 0,
            close_time: 0,
            top_domain: 0,
            bottom_domain: 0,
            dead: false,
            derived: false,
            fuzzy_domain: false,
            index: 0,
        }
    }
}

impl Default for Candle {
    fn default() -> (c: Candle)
        ensures
            c == Candle::default_spec(),
    {
        Candle::zeroed()
    }
}

/// Time-weighted linear blend of one field of two neighbouring candles,
/// evaluated at an instant strictly between them.
pub open spec fn interp_field(lv: int, rv: int, lt: int, rt: int, t: int) -> int {
    (lv * (rt - t) + rv * (t - lt)) / (rt - lt)
}

/// The blend of two non-negative fields never leaves the interval the two
/// field values span.
pub proof fn lemma_interp_field_bounds(lv: int, rv: int, lt: int, rt: int, t: int)
    requires
        lt < t < rt,
        0 <= lv,
        0 <= rv,
    ensures
        vstd::math::min(lv, rv) <= interp_field(lv, rv, lt, rt, t),
        interp_field(lv, rv, lt, rt, t) <= vstd::math::max(lv, rv),
{
    let dl = t - lt;
    let dr = rt - t;
    let dt = rt - lt;
    let num = lv * dr + rv * dl;
    let lo = vstd::math::min(lv, rv);
    let hi = vstd::math::max(lv, rv);
    assert(lo * dt <= num && num <= hi * dt) by (nonlinear_arith)
        requires
            0 < dl,
            0 < dr,
            dt == dl + dr,
            num == lv * dr + rv * dl,
            lo <= lv <= hi,
            lo <= rv <= hi,
    ;
    lemma_div_is_ordered(lo * dt, num, dt);
    lemma_div_is_ordered(num, hi * dt, dt);
    lemma_div_by_multiple(lo, dt);
    lemma_div_by_multiple(hi, dt);
}

/// At the midpoint between its neighbours the blend is their plain average:
/// a fill halfway across a gap carries half of each neighbour's field.
pub proof fn lemma_interp_field_midpoint(lv: int, rv: int, lt: int, rt: int, t: int)
    requires
        lt < t < rt,
        t - lt == rt - t,
        0 <= lv,
        0 <= rv,
    ensures
        interp_field(lv, rv, lt, rt, t) == (lv + rv) / 2,
{
    let h = t - lt;
    assert(lv * (rt - t) + rv * (t - lt) == (lv + rv) * h) by (nonlinear_arith)
        requires
            rt - t == h,
            t - lt == h,
    ;
    assert(rt - lt == h * 2);
    vstd::arithmetic::div_mod::lemma_div_denominator((lv + rv) * h, h, 2);
    lemma_div_by_multiple(lv + rv, h);
    assert(((lv + rv) * h) / h == lv + rv);
}

impl Candle {
    /// Builds the interpolated candle for `open_time` from its nearest known
    /// neighbours on each side: every OHLCV field is the time-weighted blend
    /// of the neighbours' fields, and the candle is marked `derived`.
    pub fn linear_regression(open_time: i64, left: &Candle, right: &Candle) -> (c: Candle)
        requires
            left.open_time < open_time < right.open_time,
            left.prices_nonneg(),
            right.prices_nonneg(),
            left.times_ok(),
            open_time + (left.close_time - left.open_time) <= i64::MAX,
        ensures
            c.open == interp_field(left.open as int, right.open as int, left.open_time as int,
                right.open_time as int, open_time as int),
            c.high == interp_field(left.high as int, right.high as int, left.open_time as int,
                right.open_time as int, open_time as int),
            c.low == interp_field(left.low as int, right.low as int, left.open_time as int,
                right.open_time as int, open_time as int),
            c.close == interp_field(left.close as int, right.close as int, left.open_time as int,
                right.open_time as int, open_time as int),
            c.volume == interp_field(left.volume as int, right.volume as int,
                left.open_time as int, right.open_time as int, open_time as int),
            c.open_time == open_time,
            c.close_time == open_time + (left.close_time - left.open_time),
            c.derived && !c.dead,
            c.id == 0 && c.top_domain == 0 && c.bottom_domain == 0 && !c.fuzzy_domain && c.index
                == 0,
            c.prices_nonneg(),
            left.prices_le_max() && right.prices_le_max() ==> c.prices_le_max(),
    {
        let open = interp_exec(left.open, right.open, left.open_time, right.open_time, open_time);
        let high = interp_exec(left.high, right.high, left.open_time, right.open_time, open_time);
        let low = interp_exec(left.low, right.low, left.open_time, right.open_time, open_time);
        let close = interp_exec(left.close, right.close, left.open_time, right.open_time,
            open_time);
        let volume = interp_exec(left.volume, right.volume, left.open_time, right.open_time,
            open_time);
        Candle {
            open,
            high,
            low,
            close,
            volume,
            open_time,
            close_time: open_time + (left.close_time - left.open_time),
            derived: true,
            ..Candle::zeroed()
        }
    }
}

/// Evaluates one interpolated field in 128-bit arithmetic, which cannot
/// overflow on 64-bit operands.
fn interp_exec(lv: i64, rv: i64, lt: i64, rt: i64, t: i64) -> (r: i64)
    requires
        lt < t < rt,
        0 <= lv,
        0 <= rv,
    ensures
        r == interp_field(lv as int, rv as int, lt as int, rt as int, t as int),
        vstd::math::min(lv as int, rv as int) <= r <= vstd::math::max(lv as int, rv as int),
{
    proof {
        lemma_interp_field_bounds(lv as int, rv as int, lt as int, rt as int, t as int);
    }
    let dl = (t as i128) - (lt as i128);
    let dr = (rt as i128) - (t as i128);
    let dt = (rt as i128) - (lt as i128);
    proof {
        let hi = vstd::math::max(lv as int, rv as int);
        assert((lv as int) * (dr as int) + (rv as int) * (dl as int) <= hi * ((dr as int) + (
        dl as int))) by (nonlinear_arith)
            requires
                0 <= lv <= hi,
                0 <= rv <= hi,
                0 < dl as int,
                0 < dr as int,
        ;
        assert(hi * ((dr as int) + (dl as int)) <= 0x7fffffffffffffffint
            * 0xffffffffffffffffint) by (nonlinear_arith)
            requires
                0 <= hi <= 0x7fffffffffffffff,
                0 < (dr as int) + (dl as int) <= 0xffffffffffffffff,
        ;
        assert((lv as int) * (dr as int) >= 0 && (rv as int) * (dl as int) >= 0)
            by (nonlinear_arith)
            requires
                0 <= lv,
                0 <= rv,
                0 < dl as int,
                0 < dr as int,
        ;
    }
    let num = (lv as i128) * dr + (rv as i128) * dl;
    let q = num / dt;
    q as i64
}

} // verus!
