//! The domain analyzer: for every candle of a window, the distance to the
//! nearest more-extreme candle on each side, combined into support and
//! resistance "domains" with an explicit don't-know flag.
//!
//! Looking left a strictly higher high (or strictly lower low) counts;
//! looking right an equal extreme already counts.  When a side finds no
//! bound the candle is an extreme as far as the window shows, the domain
//! falls back to the distance to the nearer window edge, and the fuzzy flag
//! records that the true extent is unknowable within the window.

use vstd::prelude::*;
use crate::candle::Candle;
use crate::store::CandleStore;

verus! {

/// Distance from `i` to the nearest candle at or left of `j` whose high is
/// strictly above `s[i]`'s; zero when there is none.
pub open spec fn left_high_dist(s: Seq<Candle>, i: int, j: int) -> int
    decreases j + 1
{
    if j < 0 || j >= s.len() {
        0
    } else if s[j].high > s[i].high {
        i - j
    } else {
        left_high_dist(s, i, j - 1)
    }
}

/// Distance from `i` to the nearest candle at or left of `j` whose low is
/// strictly below `s[i]`'s; zero when there is none.
pub open spec fn left_low_dist(s: Seq<Candle>, i: int, j: int) -> int
    decreases j + 1
{
    if j < 0 || j >= s.len() {
        0
    } else if s[j].low < s[i].low {
        i - j
    } else {
        left_low_dist(s, i, j - 1)
    }
}

/// Distance from `i` to the nearest candle at or right of `j` whose high is
/// at or above `s[i]`'s; zero when there is none.
pub open spec fn right_high_dist(s: Seq<Candle>, i: int, j: int) -> int
    decreases s.len() + 1 - j
{
    if j < 0 || j >= s.len() {
        0
    } else if s[j].high >= s[i].high {
        j - i
    } else {
        right_high_dist(s, i, j + 1)
    }
}

/// Distance from `i` to the nearest candle at or right of `j` whose low is
/// at or below `s[i]`'s; zero when there is none.
pub open spec fn right_low_dist(s: Seq<Candle>, i: int, j: int) -> int
    decreases s.len() + 1 - j
{
    if j < 0 || j >= s.len() {
        0
    } else if s[j].low <= s[i].low {
        j - i
    } else {
        right_low_dist(s, i, j + 1)
    }
}

/// Distance from a window position to the nearer window edge.
pub open spec fn edge_distance(i: int, n: int) -> int {
    vstd::math::min(i, n - 1 - i)
}

/// The domain from a left-scan distance `a` and a right-scan distance `b`
/// (zero meaning the side found no bound): the smaller of the two when both
/// sides found one, the found one otherwise, and the edge distance when the
/// candle is extreme on both sides.
pub open spec fn domain_value(a: int, b: int, i: int, n: int) -> int {
    if a > 0 && b > 0 {
        vstd::math::min(a, b)
    } else {
        let d = vstd::math::max(a, b);
        if d == 0 {
            edge_distance(i, n)
        } else {
            d
        }
    }
}

/// Whether the domain is untrustworthy: a side found no bound and the value
/// reaches at least to the nearer window edge.
pub open spec fn domain_fuzzy(a: int, b: int, i: int, n: int) -> bool {
    &&& !(a > 0 && b > 0)
    &&& domain_value(a, b, i, n) >= edge_distance(i, n)
}

/// The candle at `i` with its domains and fuzzy flag computed over the
/// window `s`.
pub open spec fn domain_stamped(s: Seq<Candle>, i: int) -> Candle {
    let n = s.len() as int;
    let lh = left_high_dist(s, i, i - 1);
    let rh = right_high_dist(s, i, i + 1);
    let ll = left_low_dist(s, i, i - 1);
    let rl = right_low_dist(s, i, i + 1);
    Candle {
        top_domain: domain_value(lh, rh, i, n) as i32,
        bottom_domain: domain_value(ll, rl, i, n) as i32,
        fuzzy_domain: domain_fuzzy(lh, rh, i, n) || domain_fuzzy(ll, rl, i, n),
        ..s[i]
    }
}

/// Finds the left-scan distance for highs.
fn scan_left_high(candles: &Vec<Candle>, i: usize) -> (d: usize)
    requires
        i < candles@.len(),
    ensures
        d == left_high_dist(candles@, i as int, i as int - 1),
{
    let mut j: usize = i;
    while j > 0
        invariant
            j <= i < candles@.len(),
            left_high_dist(candles@, i as int, i as int - 1) == left_high_dist(
                candles@, i as int, j as int - 1),
        decreases j,
    {
        if candles[j - 1].high > candles[i].high {
            return i - (j - 1);
        }
        j = j - 1;
    }
    0
}

/// Finds the left-scan distance for lows.
fn scan_left_low(candles: &Vec<Candle>, i: usize) -> (d: usize)
    requires
        i < candles@.len(),
    ensures
        d == left_low_dist(candles@, i as int, i as int - 1),
{
    let mut j: usize = i;
    while j > 0
        invariant
            j <= i < candles@.len(),
            left_low_dist(candles@, i as int, i as int - 1) == left_low_dist(
                candles@, i as int, j as int - 1),
        decreases j,
    {
        if candles[j - 1].low < candles[i].low {
            return i - (j - 1);
        }
        j = j - 1;
    }
    0
}

/// Finds the right-scan distance for highs.
fn scan_right_high(candles: &Vec<Candle>, i: usize) -> (d: usize)
    requires
        i < candles@.len(),
    ensures
        d == right_high_dist(candles@, i as int, i as int + 1),
{
    let n = candles.len();
    let mut j: usize = i + 1;
    while j < n
        invariant
            i < j <= n == candles@.len(),
            right_high_dist(candles@, i as int, i as int + 1) == right_high_dist(
                candles@, i as int, j as int),
        decreases n - j,
    {
        if candles[j].high >= candles[i].high {
            return j - i;
        }
        j = j + 1;
    }
    0
}

/// Finds the right-scan distance for lows.
fn scan_right_low(candles: &Vec<Candle>, i: usize) -> (d: usize)
    requires
        i < candles@.len(),
    ensures
        d == right_low_dist(candles@, i as int, i as int + 1),
{
    let n = candles.len();
    let mut j: usize = i + 1;
    while j < n
        invariant
            i < j <= n == candles@.len(),
            right_low_dist(candles@, i as int, i as int + 1) == right_low_dist(
                candles@, i as int, j as int),
        decreases n - j,
    {
        if candles[j].low <= candles[i].low {
            return j - i;
        }
        j = j + 1;
    }
    0
}

/// Combines two scan distances into the domain.
fn combine_domain(a: usize, b: usize, i: usize, n: usize) -> (r: (usize, bool))
    requires
        i < n,
        a <= n,
        b <= n,
    ensures
        r.0 == domain_value(a as int, b as int, i as int, n as int),
        r.1 == domain_fuzzy(a as int, b as int, i as int, n as int),
{
    let edge = if i <= n - 1 - i {
        i
    } else {
        n - 1 - i
    };
    if a > 0 && b > 0 {
        let d = if a <= b {
            a
        } else {
            b
        };
        (d, false)
    } else {
        let mut d = if a >= b {
            a
        } else {
            b
        };
        if d == 0 {
            d = edge;
        }
        (d, d >= edge)
    }
}

/// Computes and stamps both domains and the fuzzy flag of the candle at
/// position `i` of a window.
pub fn set_domain(candles: &mut Vec<Candle>, i: usize)
    requires
        i < old(candles)@.len(),
        old(candles)@.len() <= 0x7fffffff,
    ensures
        final(candles)@ == old(candles)@.update(i as int, domain_stamped(old(candles)@, i as int)),
{
    let n = candles.len();
    let lh = scan_left_high(candles, i);
    let rh = scan_right_high(candles, i);
    let ll = scan_left_low(candles, i);
    let rl = scan_right_low(candles, i);
    proof {
        lemma_scan_bounds(candles@, i as int);
    }
    let (top, fuzzy_top) = combine_domain(lh, rh, i, n);
    let (bottom, fuzzy_bottom) = combine_domain(ll, rl, i, n);
    let mut c = candles[i];
    c.top_domain = top as i32;
    c.bottom_domain = bottom as i32;
    c.fuzzy_domain = fuzzy_top || fuzzy_bottom;
    candles[i] = c;
}

/// Scan distances stay within the window.
pub proof fn lemma_scan_bounds(s: Seq<Candle>, i: int)
    requires
        0 <= i < s.len(),
    ensures
        0 <= left_high_dist(s, i, i - 1) <= i,
        0 <= left_low_dist(s, i, i - 1) <= i,
        0 <= right_high_dist(s, i, i + 1) <= s.len() - 1 - i,
        0 <= right_low_dist(s, i, i + 1) <= s.len() - 1 - i,
{
    lemma_left_scan_bounds(s, i, i - 1);
    lemma_right_scan_bounds(s, i, i + 1);
}

proof fn lemma_left_scan_bounds(s: Seq<Candle>, i: int, j: int)
    requires
        0 <= i < s.len(),
        j < i,
    ensures
        j >= 0 ==> left_high_dist(s, i, j) == 0 || i - j <= left_high_dist(s, i, j) <= i,
        j >= 0 ==> left_low_dist(s, i, j) == 0 || i - j <= left_low_dist(s, i, j) <= i,
        j < 0 ==> left_high_dist(s, i, j) == 0 && left_low_dist(s, i, j) == 0,
        0 <= left_high_dist(s, i, j),
        0 <= left_low_dist(s, i, j),
    decreases j + 1,
{
    if j >= 0 {
        lemma_left_scan_bounds(s, i, j - 1);
    }
}

proof fn lemma_right_scan_bounds(s: Seq<Candle>, i: int, j: int)
    requires
        0 <= i < s.len(),
        i < j,
    ensures
        right_high_dist(s, i, j) == 0 || j - i <= right_high_dist(s, i, j) <= s.len() - 1 - i,
        right_low_dist(s, i, j) == 0 || j - i <= right_low_dist(s, i, j) <= s.len() - 1 - i,
        0 <= right_high_dist(s, i, j),
        0 <= right_low_dist(s, i, j),
    decreases s.len() - j,
{
    if j < s.len() {
        lemma_right_scan_bounds(s, i, j + 1);
    }
}

/// Two windows agreeing on highs and lows get the same scan distances:
/// stamping domains does not disturb later scans.
pub open spec fn same_prices(a: Seq<Candle>, b: Seq<Candle>) -> bool {
    a.len() == b.len() && forall|i: int|
        0 <= i < a.len() ==> (#[trigger] a[i]).high == b[i].high && a[i].low == b[i].low
}

proof fn lemma_scans_same_prices_right(a: Seq<Candle>, b: Seq<Candle>, i: int, j: int)
    requires
        same_prices(a, b),
        0 <= i < a.len(),
    ensures
        right_high_dist(a, i, j) == right_high_dist(b, i, j),
        right_low_dist(a, i, j) == right_low_dist(b, i, j),
    decreases a.len() - j
{
    if 0 <= j < a.len() {
        lemma_scans_same_prices_right(a, b, i, j + 1);
    }
}

proof fn lemma_scans_same_prices_left(a: Seq<Candle>, b: Seq<Candle>, i: int, j: int)
    requires
        same_prices(a, b),
        0 <= i < a.len(),
        j < a.len(),
    ensures
        left_high_dist(a, i, j) == left_high_dist(b, i, j),
        left_low_dist(a, i, j) == left_low_dist(b, i, j),
    decreases j + 1
{
    if 0 <= j {
        lemma_scans_same_prices_left(a, b, i, j - 1);
    }
}

/// Computes the domains of every candle of the store's series, in place.
/// Each candle's stamp is what the analyzer computes over the original
/// window, since stamping changes no high or low.
pub fn build_domain(store: &mut CandleStore)
    requires
        old(store).wf(),
        old(store)@.len() <= 0x7fffffff,
    ensures
        final(store).wf(),
        final(store)@.len() == old(store)@.len(),
        forall|i: int|
            0 <= i < old(store)@.len() ==> final(store)@[i] == domain_stamped(
                old(store)@, i),
        final(store).unique_violations == old(store).unique_violations,
{
    let ghost orig = store@;
    let n = store.candles.len();
    let mut i: usize = 0;
    while i < n
        invariant
            i <= n == store.candles@.len(),
            n == orig.len() <= 0x7fffffff,
            same_prices(store.candles@, orig),
            forall|k: int| 0 <= k < i ==> store.candles@[k] == domain_stamped(orig, k),
            forall|k: int| i <= k < n ==> store.candles@[k] == orig[k],
            store.unique_violations == old(store).unique_violations,
            sorted_prices_ok(store.candles@, orig),
        decreases n - i,
    {
        let ghost before = store.candles@;
        set_domain(&mut store.candles, i);
        proof {
            lemma_scans_same_prices_left(before, orig, i as int, i as int - 1);
            lemma_scans_same_prices_right(before, orig, i as int, i as int + 1);
            assert(domain_stamped(before, i as int) == domain_stamped(orig, i as int)) by {
                assert(before[i as int] == orig[i as int]);
            }
            assert(same_prices(store.candles@, orig)) by {
                assert(forall|k: int|
                    0 <= k < n && k != i ==> store.candles@[k] == before[k]);
            }
        }
        i = i + 1;
    }
    proof {
        lemma_stamp_keeps_wf(orig, store.candles@, old(store).wf());
    }
}

/// Whether a stamped series keeps the times and prices of the original.
pub open spec fn sorted_prices_ok(a: Seq<Candle>, orig: Seq<Candle>) -> bool {
    a.len() == orig.len() && forall|i: int|
        0 <= i < a.len() ==> (#[trigger] a[i]).open_time == orig[i].open_time && a[i].close_time
            == orig[i].close_time && a[i].open == orig[i].open && a[i].close == orig[i].close
            && a[i].volume == orig[i].volume
}

/// Stamping domains preserves the store invariant.
proof fn lemma_stamp_keeps_wf(orig: Seq<Candle>, now: Seq<Candle>, was_wf: bool)
    requires
        was_wf ==> crate::store::sorted_by_time(orig) && crate::store::all_candles_ok(orig),
        same_prices(now, orig),
        sorted_prices_ok(now, orig),
    ensures
        was_wf ==> crate::store::sorted_by_time(now) && crate::store::all_candles_ok(now),
{
    if was_wf {
        assert forall|i: int| 0 <= i < now.len() implies crate::store::candle_ok(
            #[trigger] now[i]) by {
            assert(crate::store::candle_ok(orig[i]));
        }
    }
}

/// The single highest-high candle of a window finds no higher high on
/// either side: its top domain falls back to the distance to the nearer
/// window edge, and its fuzzy flag is set.
pub proof fn lemma_highest_high_domain(s: Seq<Candle>, i: int)
    requires
        0 <= i < s.len(),
        s.len() <= 0x7fffffff,
        forall|j: int| 0 <= j < s.len() && j != i ==> (#[trigger] s[j]).high < s[i].high,
    ensures
        domain_stamped(s, i).top_domain == edge_distance(i, s.len() as int),
        domain_stamped(s, i).fuzzy_domain,
{
    lemma_no_left_hit(s, i, i - 1);
    lemma_no_right_hit(s, i, i + 1);
    assert(left_high_dist(s, i, i - 1) == 0);
    assert(right_high_dist(s, i, i + 1) == 0);
    assert(domain_value(0, 0, i, s.len() as int) == edge_distance(i, s.len() as int));
    assert(domain_fuzzy(0, 0, i, s.len() as int));
}

proof fn lemma_no_left_hit(s: Seq<Candle>, i: int, j: int)
    requires
        0 <= i < s.len(),
        j < i,
        forall|k: int| 0 <= k < s.len() && k != i ==> (#[trigger] s[k]).high < s[i].high,
    ensures
        left_high_dist(s, i, j) == 0,
    decreases j + 1
{
    if j >= 0 {
        lemma_no_left_hit(s, i, j - 1);
    }
}

proof fn lemma_no_right_hit(s: Seq<Candle>, i: int, j: int)
    requires
        0 <= i < s.len(),
        i < j,
        forall|k: int| 0 <= k < s.len() && k != i ==> (#[trigger] s[k]).high < s[i].high,
    ensures
        right_high_dist(s, i, j) == 0,
    decreases s.len() - j
{
    if j < s.len() {
        lemma_no_right_hit(s, i, j + 1);
    }
}

} // verus!
