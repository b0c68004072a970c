//! A candle window with its cached extent: highest high, lowest low, the
//! price height between them, and the spanned milliseconds.

use vstd::prelude::*;
use crate::candle::Candle;
use crate::store::all_candles_ok;

verus! {

/// The highest high among the first `n` candles.
pub open spec fn max_high_upto(s: Seq<Candle>, n: int) -> int
    decreases n,
{
    if n <= 1 {
        s[0].high as int
    } else {
        vstd::math::max(max_high_upto(s, n - 1), s[n - 1].high as int)
    }
}

/// The lowest low among the first `n` candles.
pub open spec fn min_low_upto(s: Seq<Candle>, n: int) -> int
    decreases n,
{
    if n <= 1 {
        s[0].low as int
    } else {
        vstd::math::min(min_low_upto(s, n - 1), s[n - 1].low as int)
    }
}

/// An analysis window over a candle sequence.
pub struct Candles {
    pub candles: Vec<Candle>,
    pub ms_width: i64,
    pub high: i64,
    pub low: i64,
    pub height: i64,
}

impl View for Candles {
    type V = Seq<Candle>;

    open spec fn view(&self) -> Seq<Candle> {
        self.candles@
    }
}

impl Candles {
    /// The cached extent matches the candles.
    pub open spec fn wf(self) -> bool {
        &&& self@.len() > 0
        &&& self.high == max_high_upto(self@, self@.len() as int)
        &&& self.low == min_low_upto(self@, self@.len() as int)
        &&& self.height == self.high - self.low
        &&& self.ms_width == self@.last().open_time - self@[0].open_time
    }

    /// Builds the window and computes its extent.
    pub fn new(candles: Vec<Candle>) -> (r: Candles)
        requires
            candles@.len() > 0,
            all_candles_ok(candles@),
        ensures
            r.wf(),
            r@ == candles@,
    {
        let n = candles.len();
        let ms_width = candles[n - 1].open_time - candles[0].open_time;
        let mut high = candles[0].high;
        let mut low = candles[0].low;
        let mut i: usize = 1;
        while i < n
            invariant
                1 <= i <= n == candles@.len(),
                high == max_high_upto(candles@, i as int),
                low == min_low_upto(candles@, i as int),
            decreases n - i,
        {
            let c = &candles[i];
            if c.low < low {
                low = c.low;
            }
            if c.high > high {
                high = c.high;
            }
            i = i + 1;
        }
        proof {
            lemma_extent_bounds(candles@, n as int);
        }
        Candles { candles, ms_width, high, low, height: high - low }
    }

    /// The window candle at a position, by value.
    pub fn first_at(&self, i: usize) -> (c: Candle)
        requires
            i < self@.len(),
        ensures
            c == self@[i as int],
    {
        self.candles[i]
    }

    pub fn get(&self, index: usize) -> (r: Option<&Candle>)
        ensures
            match r {
                Some(c) => index < self@.len() && *c == self@[index as int],
                None => index >= self@.len(),
            },
    {
        if index < self.candles.len() {
            Some(&self.candles[index])
        } else {
            None
        }
    }

    pub fn len(&self) -> (n: usize)
        ensures
            n == self@.len(),
    {
        self.candles.len()
    }

    pub fn first(&self) -> (c: &Candle)
        requires
            self@.len() > 0,
        ensures
            *c == self@[0],
    {
        &self.candles[0]
    }

    pub fn last(&self) -> (c: &Candle)
        requires
            self@.len() > 0,
        ensures
            *c == self@.last(),
    {
        &self.candles[self.candles.len() - 1]
    }
}

/// With bounded candles, the window extent stays within candle bounds.
pub proof fn lemma_extent_bounds(s: Seq<Candle>, n: int)
    requires
        0 < n <= s.len(),
        all_candles_ok(s),
    ensures
        0 <= max_high_upto(s, n) <= crate::candle::MAX_PRICE,
        0 <= min_low_upto(s, n) <= crate::candle::MAX_PRICE,
    decreases n,
{
    if n > 1 {
        lemma_extent_bounds(s, n - 1);
        assert(crate::store::candle_ok(s[n - 1]));
    } else {
        assert(crate::store::candle_ok(s[0]));
    }
}

/// Consecutive candles follow each other by exactly one step, the step
/// being the first candle's own span.
pub open spec fn congruent_spec(s: Seq<Candle>) -> bool {
    forall|i: int|
        0 <= i < s.len() - 1 ==> (#[trigger] s[i + 1]).open_time == s[i].open_time + (
        s[0].close_time - s[0].open_time + 1)
}

/// Checks that a candle series has no hole and no disorder: every candle
/// opens exactly one step after its predecessor.
pub fn ensure_congruent(candles: &Vec<Candle>) -> (r: bool)
    requires
        all_candles_ok(candles@),
    ensures
        r == congruent_spec(candles@),
{
    let n = candles.len();
    if n == 0 {
        return true;
    }
    proof {
        assert(crate::store::candle_ok(candles@[0]));
    }
    let step = candles[0].close_time - candles[0].open_time + 1;
    let mut i: usize = 0;
    while i < n - 1
        invariant
            all_candles_ok(candles@),
            n == candles@.len() > 0,
            i <= n - 1,
            step == candles@[0].close_time - candles@[0].open_time + 1,
            forall|k: int|
                0 <= k < i ==> (#[trigger] candles@[k + 1]).open_time == candles@[k].open_time
                    + step,
        decreases n - 1 - i,
    {
        proof {
            assert(crate::store::candle_ok(candles@[i as int]));
        }
        let expected = candles[i].open_time + step;
        if candles[i + 1].open_time != expected {
            return false;
        }
        i = i + 1;
    }
    true
}


} // verus!
