//! The quote-provider binding: the raw candle row as the provider sends it,
//! and its checked conversion into a store candle.
//!
//! The network call itself lives outside the library; the `Reconciler`
//! plans the windows, and whoever fetched a page converts each row here.
//! Prices arrive as decimal strings and are parsed exactly into fixed-point
//! integers, truncating beyond eight fractional digits.

use vstd::prelude::*;
use crate::candle::{Candle, MAX_PRICE};
use crate::query::{MAX_TS, MAX_STEP};
use crate::store::candle_ok;
use crate::time::{digits_val, all_digits, pow10, lemma_digits_val_bound, lemma_pow10_small,
    lemma_pow10_mono};

verus! {

/// The one supported provider.
pub struct Binance {}

/// The provider dispatch; one exchange is bound today.
pub enum Api {
    Binance(Binance),
}

/// One provider-native candle row: open time, the five OHLCV fields as
/// decimal strings, close time, and the quote fields this library ignores.
pub struct RawCandle(
    pub i64,
    pub String,
    pub String,
    pub String,
    pub String,
    pub String,
    pub i64,
    pub String,
    pub i64,
    pub String,
    pub String,
    pub String,
);

/// Index of the first dot at or after `i`, or the length when none.
pub open spec fn dot_index(s: Seq<char>, i: int) -> int
    decreases s.len() - i,
{
    if i < 0 || i >= s.len() {
        s.len() as int
    } else if s[i] == '.' {
        i
    } else {
        dot_index(s, i + 1)
    }
}

/// A decimal price string: one to ten integer digits, optionally a dot and
/// at least one fractional digit.
pub open spec fn decimal_valid(s: Seq<char>) -> bool {
    let d = dot_index(s, 0);
    let ip = s.take(d);
    &&& 1 <= ip.len() <= 10
    &&& all_digits(ip)
    &&& (d < s.len() ==> s.skip(d + 1).len() >= 1 && all_digits(s.skip(d + 1)))
}

/// The fixed-point value of a decimal string: the integer part scaled by
/// `PRICE_SCALE`, plus the first eight fractional digits; deeper digits are
/// truncated.
pub open spec fn decimal_val(s: Seq<char>) -> int {
    let d = dot_index(s, 0);
    let ip = s.take(d);
    let fp = if d < s.len() {
        s.skip(d + 1)
    } else {
        Seq::empty()
    };
    let f8 = fp.take(vstd::math::min(8, fp.len() as int));
    digits_val(ip) * 100000000 + digits_val(f8) * pow10((8 - f8.len()) as nat)
}

/// A valid decimal never exceeds the price cap.
pub proof fn lemma_decimal_bounds(s: Seq<char>)
    requires
        decimal_valid(s),
    ensures
        0 <= decimal_val(s) < MAX_PRICE,
{
    let d = dot_index(s, 0);
    let ip = s.take(d);
    let fp = if d < s.len() {
        s.skip(d + 1)
    } else {
        Seq::empty()
    };
    let f8 = fp.take(vstd::math::min(8, fp.len() as int));
    lemma_digits_val_bound(ip);
    assert(all_digits(f8)) by {
        assert(forall|i: int| 0 <= i < f8.len() ==> f8[i] == fp[i]);
    }
    lemma_digits_val_bound(f8);
    lemma_pow10_small();
    lemma_pow10_mono(ip.len(), 10);
    lemma_pow10_mono((8 - f8.len()) as nat, 8);
    reveal_with_fuel(pow10, 12);
    assert(pow10(10) == 10000000000);
    assert(pow10(8) == 100000000);
    assert(digits_val(ip) * 100000000 <= (10000000000 - 1) * 100000000) by (nonlinear_arith)
        requires
            0 <= digits_val(ip) <= 10000000000 - 1,
    ;
    assert(digits_val(ip) * 100000000 >= 0) by (nonlinear_arith)
        requires
            0 <= digits_val(ip),
    ;
    assert(pow10(f8.len()) * pow10((8 - f8.len()) as nat) <= 100000000) by {
        lemma_pow10_add(f8.len(), (8 - f8.len()) as nat);
    }
    assert(digits_val(f8) * pow10((8 - f8.len()) as nat) < 100000000) by (nonlinear_arith)
        requires
            0 <= digits_val(f8) < pow10(f8.len()),
            1 <= pow10((8 - f8.len()) as nat),
            pow10(f8.len()) * pow10((8 - f8.len()) as nat) <= 100000000,
            0 <= pow10(f8.len()),
    ;
    assert(digits_val(f8) * pow10((8 - f8.len()) as nat) >= 0) by (nonlinear_arith)
        requires
            0 <= digits_val(f8),
            1 <= pow10((8 - f8.len()) as nat),
    ;
}

/// Powers of ten multiply by adding exponents.
pub proof fn lemma_pow10_add(a: nat, b: nat)
    ensures
        pow10(a) * pow10(b) == pow10((a + b) as nat),
    decreases a,
{
    if a == 0 {
        assert(pow10(0) == 1);
        assert(1 * pow10(b) == pow10(b)) by (nonlinear_arith);
    } else {
        lemma_pow10_add((a - 1) as nat, b);
        assert(pow10(a) * pow10(b) == 10 * (pow10((a - 1) as nat) * pow10(b)))
            by (nonlinear_arith)
            requires
                pow10(a) == 10 * pow10((a - 1) as nat),
        ;
    }
}

/// Scans for the first dot of a string.
fn find_dot(s: &str) -> (d: usize)
    ensures
        d == dot_index(s@, 0),
        d <= s@.len(),
{
    let n = s.unicode_len();
    let mut d: usize = 0;
    while d < n
        invariant
            d <= n == s@.len(),
            dot_index(s@, 0) == dot_index(s@, d as int),
        decreases n - d,
    {
        if s.get_char(d) == '.' {
            return d;
        }
        d = d + 1;
    }
    d
}

/// Parses a provider decimal string into fixed-point price units.
///
/// Returns `None` exactly when the string is not a decimal of the grammar.
pub fn parse_price(s: &str) -> (r: Option<i64>)
    ensures
        r is Some <==> decimal_valid(s@),
        r is Some ==> r.unwrap() == decimal_val(s@) && 0 <= r.unwrap() < MAX_PRICE,
{
    proof {
        if decimal_valid(s@) {
            lemma_decimal_bounds(s@);
        }
    }
    let n = s.unicode_len();
    let d = find_dot(s);
    if d < 1 || d > 10 {
        return None;
    }
    if d < n && n == d + 1 {
        // A dot with no fractional digit.
        proof {
            assert(s@.skip(d as int + 1).len() == 0);
        }
        return None;
    }
    // Integer part.
    let ghost ip = s@.take(d as int);
    let mut acc: i64 = 0;
    let mut i: usize = 0;
    while i < d
        invariant
            i <= d <= 10,
            d <= n == s@.len(),
            d == dot_index(s@, 0),
            ip == s@.take(d as int),
            all_digits(s@.subrange(0, i as int)),
            acc == digits_val(s@.subrange(0, i as int)),
            0 <= acc < pow10(i as nat),
            acc < 10000000000,
        decreases d - i,
    {
        let c = s.get_char(i);
        let code = c as u32;
        if code < 48 || code > 57 {
            proof {
                assert(ip[i as int] == s@[i as int]);
                assert(!all_digits(ip));
            }
            return None;
        }
        proof {
            lemma_pow10_small();
            assert(pow10((i + 1) as nat) == 10 * pow10(i as nat));
            assert(pow10(i as nat) <= pow10(9)) by {
                lemma_pow10_mono(i as nat, 9);
            }
            assert(pow10(9) == 1000000000) by {
                reveal_with_fuel(pow10, 11);
            }
            let pre = s@.subrange(0, i as int);
            let ext = s@.subrange(0, i + 1 as int);
            assert(ext.drop_last() =~= pre);
            assert(ext.last() == s@[i as int]);
        }
        acc = acc * 10 + ((code - 48) as i64);
        i = i + 1;
    }
    proof {
        assert(s@.subrange(0, d as int) =~= ip);
    }
    // Fractional part: the first eight digits count, the rest must still be
    // digits.
    let ghost fp = if (d as int) < s@.len() {
        s@.skip(d as int + 1)
    } else {
        Seq::<char>::empty()
    };
    let mut frac: i64 = 0;
    let mut taken: usize = 0;
    if d < n {
        let mut j: usize = d + 1;
        while j < n
            invariant
                d + 1 <= j <= n == s@.len(),
                d < n,
                1 <= d <= 10,
                d == dot_index(s@, 0),
                all_digits(s@.take(d as int)),
                fp == s@.skip(d as int + 1),
                taken == vstd::math::min(8, j - d - 1),
                all_digits(fp.subrange(0, j - d - 1)),
                frac == digits_val(fp.subrange(0, taken as int)),
                0 <= frac < pow10(taken as nat),
                taken <= 8,
                frac < 100000000,
            decreases n - j,
        {
            let c = s.get_char(j);
            let code = c as u32;
            if code < 48 || code > 57 {
                proof {
                    assert(fp[j - d - 1] == s@[j as int]);
                    assert(!all_digits(fp));
                }
                return None;
            }
            proof {
                lemma_pow10_small();
                let k = j - d - 1;
                let pre = fp.subrange(0, k as int);
                let ext = fp.subrange(0, k + 1 as int);
                assert(ext.drop_last() =~= pre);
                assert(ext.last() == fp[k as int]);
                assert(fp[k as int] == s@[j as int]);
            }
            if taken < 8 {
                proof {
                    assert(pow10((taken + 1) as nat) == 10 * pow10(taken as nat));
                    assert(pow10(taken as nat) <= pow10(7)) by {
                        lemma_pow10_mono(taken as nat, 7);
                    }
                }
                frac = frac * 10 + ((code - 48) as i64);
                taken = taken + 1;
            }
            j = j + 1;
        }
        proof {
            assert(fp.subrange(0, fp.len() as int) =~= fp);
            let f8 = fp.take(vstd::math::min(8, fp.len() as int));
            assert(f8 =~= fp.subrange(0, taken as int));
        }
    }
    proof {
        assert(decimal_valid(s@));
        lemma_decimal_bounds(s@);
        lemma_pow10_small();
        reveal_with_fuel(pow10, 12);
    }
    // Scale the fraction up to eight digits.
    let mut scale: i64 = 1;
    let mut left: usize = 8 - taken;
    while left > 0
        invariant
            left <= 8 - taken,
            taken <= 8,
            scale == pow10((8 - taken - left) as nat),
            1 <= scale <= 100000000,
        decreases left,
    {
        proof {
            lemma_pow10_small();
            assert(pow10((8 - taken - left + 1) as nat) == 10 * pow10((8 - taken - left) as nat));
            assert(pow10((8 - taken - left) as nat) <= pow10(7)) by {
                lemma_pow10_mono((8 - taken - left) as nat, 7);
            }
        }
        scale = scale * 10;
        left = left - 1;
    }
    proof {
        assert(scale == pow10((8 - taken) as nat));
        lemma_pow10_add(taken as nat, (8 - taken) as nat);
        assert(0 <= frac * scale < 100000000) by (nonlinear_arith)
            requires
                0 <= frac < pow10(taken as nat),
                scale == pow10((8 - taken) as nat),
                0 < scale,
                pow10(taken as nat) * pow10((8 - taken) as nat) == 100000000,
        ;
        assert(acc * 100000000 <= 9999999999 * 100000000) by (nonlinear_arith)
            requires
                0 <= acc <= 9999999999,
        ;
        assert(acc * 100000000 >= 0) by (nonlinear_arith)
            requires
                0 <= acc,
        ;
    }
    Some(acc * 100000000 + frac * scale)
}

impl RawCandle {
    /// Converts the provider row into a store candle, parsing every decimal
    /// field exactly; `None` when a field is malformed, a time is out of
    /// the store's bounds, or the low-high span does not enclose the body.
    pub fn to_candle(&self) -> (r: Option<Candle>)
        ensures
            r is Some <==> (decimal_valid(self.1@) && decimal_valid(self.2@) && decimal_valid(
                self.3@) && decimal_valid(self.4@) && decimal_valid(self.5@) && 0 <= self.0
                <= MAX_TS && self.0 <= self.6 <= self.0 + MAX_STEP && decimal_val(self.3@)
                <= decimal_val(self.1@) <= decimal_val(self.2@) && decimal_val(self.3@)
                <= decimal_val(self.4@) <= decimal_val(self.2@)),
            r is Some ==> {
                let c = r.unwrap();
                &&& candle_ok(c)
                &&& c.prices_ordered()
                &&& c.open_time == self.0
                &&& c.close_time == self.6
                &&& c.open == decimal_val(self.1@)
                &&& c.high == decimal_val(self.2@)
                &&& c.low == decimal_val(self.3@)
                &&& c.close == decimal_val(self.4@)
                &&& c.volume == decimal_val(self.5@)
                &&& !c.dead && !c.derived
            },
    {
        let open = parse_price(self.1.as_str());
        let high = parse_price(self.2.as_str());
        let low = parse_price(self.3.as_str());
        let close = parse_price(self.4.as_str());
        let volume = parse_price(self.5.as_str());
        match (open, high, low, close, volume) {
            (Some(open), Some(high), Some(low), Some(close), Some(volume)) => {
                if 0 <= self.0 && self.0 <= MAX_TS && self.0 <= self.6 && self.6 <= self.0
                    + MAX_STEP && low <= open && open <= high && low <= close && close
                    <= high {
                    Some(
                        Candle {
                            open,
                            high,
                            low,
                            close,
                            volume,
                            open_time: self.0,
                            close_time: self.6,
                            ..Candle::zeroed()
                        },
                    )
                } else {
                    None
                }
            },
            _ => None,
        }
    }
}

} // verus!
