//! Trend lines: bounding lines fit through two candle extremes of one
//! polarity, extended while candles breach them, and committed once they
//! hold wide and clear enough.
//!
//! A line is determined by its two roots alone.  Its value at an instant is
//! the exact rational `y0 + (y1 - y0) * (x - x0) / (x1 - x0)`; every
//! comparison against a price is done by cross multiplication with the
//! positive run `x1 - x0`, so no rounding ever enters a decision.

use vstd::prelude::*;
use crate::candle::{Candle, MAX_PRICE};
use crate::candles::Candles;
use crate::query::MAX_TS;
use crate::store::{sorted_by_time, all_candles_ok, candle_ok};
use crate::strong_point::CandlePos;
use crate::line_cross::LineCross;

verus! {

/// Commit thresholds of the crawl.
#[derive(Clone, Copy, PartialEq, Eq, Structural, Debug)]
pub struct TrendLineMeta {
    pub before_check: u64,
    pub after_check: u64,
    pub min_width: u64,
}

/// One anchor of a line: a candle's extreme.
#[derive(Clone, Copy, PartialEq, Eq, Structural, Debug)]
pub struct LineRoot {
    pub candle_index: usize,
    pub candle_position: CandlePos,
    pub x: i64,
    pub y: i64,
}

/// A line through two roots with distinct, ascending anchor times.
#[derive(Clone, Copy, PartialEq, Eq, Structural, Debug)]
pub struct Line {
    pub root0: LineRoot,
    pub root1: LineRoot,
}

/// An analysis window: time-ordered, bounded candles.
pub open spec fn window_ok(s: Seq<Candle>) -> bool {
    sorted_by_time(s) && all_candles_ok(s)
}

impl LineRoot {
    pub open spec fn bounded(self) -> bool {
        0 <= self.x <= MAX_TS && 0 <= self.y <= MAX_PRICE
    }
}

impl Line {
    /// Roots ascend in both time and window position, within bounds.
    pub open spec fn wf(self) -> bool {
        &&& self.root0.bounded()
        &&& self.root1.bounded()
        &&& self.root0.x < self.root1.x
        &&& self.root0.candle_index < self.root1.candle_index
    }
}

/// The line's value at `x`, scaled by the positive run `x1 - x0`.
pub open spec fn line_num(l: Line, x: int) -> int {
    l.root0.y * (l.root1.x - l.root0.x) + (l.root1.y - l.root0.y) * (x - l.root0.x)
}

/// The line's value at `x` lies strictly above the price `p`.
pub open spec fn line_above(l: Line, x: int, p: int) -> bool {
    line_num(l, x) > p * (l.root1.x - l.root0.x)
}

/// The line's value at `x` lies strictly below the price `p`.
pub open spec fn line_below(l: Line, x: int, p: int) -> bool {
    line_num(l, x) < p * (l.root1.x - l.root0.x)
}

/// Whether the line passes strictly inside a candle's low-high span at the
/// candle's open time.
#[verifier::opaque]
pub open spec fn intersects_spec(l: Line, c: Candle) -> bool {
    line_above(l, c.open_time as int, c.low as int) && line_below(l, c.open_time as int,
        c.high as int)
}

/// `a`'s slope is strictly smaller than `b`'s, by cross multiplication with
/// both positive runs.
pub open spec fn slope_lt(a: Line, b: Line) -> bool {
    (a.root1.y - a.root0.y) * (b.root1.x - b.root0.x) < (b.root1.y - b.root0.y) * (a.root1.x
        - a.root0.x)
}

/// Compares the line's value at `x` with the price `p` exactly:
/// `1` above, `-1` below, `0` on the line.
fn line_cmp(l: &Line, x: i64, p: i64) -> (r: i8)
    requires
        l.wf(),
        0 <= x <= MAX_TS + crate::query::MAX_STEP,
        -MAX_PRICE <= p <= 2 * MAX_PRICE,
    ensures
        (r == 1) == line_above(*l, x as int, p as int),
        (r == -1) == line_below(*l, x as int, p as int),
        (r == 0) == (!line_above(*l, x as int, p as int) && !line_below(*l, x as int, p as int)),
{
    let dx = (l.root1.x as i128) - (l.root0.x as i128);
    let dy = (l.root1.y as i128) - (l.root0.y as i128);
    let off = (x as i128) - (l.root0.x as i128);
    let y0 = l.root0.y as i128;
    let pw = p as i128;
    proof {
        assert((y0 as int) * (dx as int) <= 0x10000000000000000000000000000000 && (y0 as int) * (
        dx as int) >= -0x10000000000000000000000000000000) by (nonlinear_arith)
            requires
                0 <= y0 as int <= MAX_PRICE,
                0 < dx as int <= MAX_TS,
        ;
        assert((dy as int) * (off as int) <= 0x10000000000000000000000000000000 && (dy as int) * (
        off as int) >= -0x10000000000000000000000000000000) by (nonlinear_arith)
            requires
                -MAX_PRICE <= dy as int <= MAX_PRICE,
                -(MAX_TS + crate::query::MAX_STEP) <= off as int <= MAX_TS
                    + crate::query::MAX_STEP,
        ;
        assert((pw as int) * (dx as int) <= 0x10000000000000000000000000000000 && (pw as int) * (
        dx as int) >= -0x10000000000000000000000000000000) by (nonlinear_arith)
            requires
                -MAX_PRICE <= pw as int <= 2 * MAX_PRICE,
                0 < dx as int <= MAX_TS,
        ;
    }
    let num = y0 * dx + dy * off;
    let rhs = pw * dx;
    if num > rhs {
        1
    } else if num < rhs {
        -1
    } else {
        0
    }
}

/// The candle's extreme for a polarity.
pub open spec fn root_y(c: Candle, cp: CandlePos) -> i64 {
    if cp is HIGH {
        c.high
    } else {
        c.low
    }
}

/// The root anchored at a window candle's extreme.
pub open spec fn root_of(s: Seq<Candle>, ci: int, cp: CandlePos) -> LineRoot {
    LineRoot {
        candle_index: ci as usize,
        candle_position: cp,
        x: s[ci].open_time,
        y: root_y(s[ci], cp),
    }
}

/// The line through two window candles' extremes.
pub open spec fn line_of(s: Seq<Candle>, ci1: int, cp1: CandlePos, ci2: int, cp2: CandlePos)
    -> Line {
    Line { root0: root_of(s, ci1, cp1), root1: root_of(s, ci2, cp2) }
}

impl Line {
    /// Fits the line through two candles' extremes.
    pub fn new(candles: &Candles, ci1: usize, cp1: CandlePos, ci2: usize, cp2: CandlePos) -> (l:
        Line)
        requires
            ci1 < ci2 < candles@.len(),
            window_ok(candles@),
        ensures
            l == line_of(candles@, ci1 as int, cp1, ci2 as int, cp2),
            l.wf(),
    {
        let c1 = candles.first_at(ci1);
        let c2 = candles.first_at(ci2);
        proof {
            assert(candle_ok(candles@[ci1 as int]));
            assert(candle_ok(candles@[ci2 as int]));
        }
        Line {
            root0: LineRoot {
                candle_index: ci1,
                candle_position: cp1,
                x: c1.open_time,
                y: match cp1 {
                    CandlePos::HIGH => c1.high,
                    CandlePos::LOW => c1.low,
                },
            },
            root1: LineRoot {
                candle_index: ci2,
                candle_position: cp2,
                x: c2.open_time,
                y: match cp2 {
                    CandlePos::HIGH => c2.high,
                    CandlePos::LOW => c2.low,
                },
            },
        }
    }

    /// Re-anchors one root at another candle's extreme; the roots' order is
    /// preserved.
    pub fn update_root(&mut self, i: usize, candles: &Candles, ci: usize, cp: CandlePos)
        requires
            i <= 1,
            ci < candles@.len(),
            window_ok(candles@),
            old(self).wf(),
            i == 1 ==> old(self).root0.candle_index < ci,
            i == 1 ==> old(self).root0.x < candles@[ci as int].open_time,
            i == 0 ==> ci < old(self).root1.candle_index,
            i == 0 ==> candles@[ci as int].open_time < old(self).root1.x,
        ensures
            final(self).wf(),
            i == 1 ==> *final(self) == (Line {
                root1: root_of(candles@, ci as int, cp),
                ..*old(self)
            }),
            i == 0 ==> *final(self) == (Line {
                root0: root_of(candles@, ci as int, cp),
                ..*old(self)
            }),
    {
        let c = candles.first_at(ci);
        proof {
            assert(candle_ok(candles@[ci as int]));
        }
        let root = LineRoot {
            candle_index: ci,
            candle_position: cp,
            x: c.open_time,
            y: match cp {
                CandlePos::HIGH => c.high,
                CandlePos::LOW => c.low,
            },
        };
        if i == 1 {
            self.root1 = root;
        } else {
            self.root0 = root;
        }
    }

    /// The line's width in candles.
    pub fn width(&self) -> (w: usize)
        requires
            self.wf(),
        ensures
            w == self.root1.candle_index - self.root0.candle_index,
    {
        self.root1.candle_index - self.root0.candle_index
    }

    /// Whether the line passes strictly inside the candle's low-high span
    /// at the candle's open time.
    pub fn intersects(&self, candle: &Candle) -> (r: bool)
        requires
            self.wf(),
            candle_ok(*candle),
        ensures
            r == intersects_spec(*self, *candle),
    {
        proof {
            reveal(intersects_spec);
        }
        let above_low = line_cmp(self, candle.open_time, candle.low);
        if above_low != 1 {
            return false;
        }
        let below_high = line_cmp(self, candle.open_time, candle.high);
        below_high == -1
    }

    /// The line's value at `x`, rounded towards zero.  Exceeds 64 bits only
    /// for far extrapolations of steep lines, hence the wide result.
    pub fn y_at_x(&self, x: i64) -> (r: i128)
        requires
            self.wf(),
            0 <= x <= MAX_TS + crate::query::MAX_STEP,
        ensures
            r == line_y_trunc(*self, x as int),
    {
        proof {
            reveal(line_y_trunc);
        }
        let dx = (self.root1.x as i128) - (self.root0.x as i128);
        let dy = (self.root1.y as i128) - (self.root0.y as i128);
        let off = (x as i128) - (self.root0.x as i128);
        proof {
            assert((dy as int) * (off as int) <= 0x10000000000000000000000000000000 && (
            dy as int) * (off as int) >= -0x10000000000000000000000000000000) by (nonlinear_arith)
                requires
                    -MAX_PRICE <= dy as int <= MAX_PRICE,
                    -(MAX_TS + crate::query::MAX_STEP) <= off as int <= MAX_TS
                        + crate::query::MAX_STEP,
            ;
        }
        let run = dy * off;
        let q = run / dx;
        (self.root0.y as i128) + q
    }
}

/// The line's value at `x` with the slope term rounded towards zero.
#[verifier::opaque]
pub open spec fn line_y_trunc(l: Line, x: int) -> int {
    let dx = l.root1.x - l.root0.x;
    let run = (l.root1.y - l.root0.y) * (x - l.root0.x);
    l.root0.y + (if run >= 0 {
        run / dx
    } else {
        -((-run) / dx)
    })
}

/// Compares two lines' slopes exactly.
pub fn slope_less(a: &Line, b: &Line) -> (r: bool)
    requires
        a.wf(),
        b.wf(),
    ensures
        r == slope_lt(*a, *b),
{
    let ady = (a.root1.y as i128) - (a.root0.y as i128);
    let bdy = (b.root1.y as i128) - (b.root0.y as i128);
    let adx = (a.root1.x as i128) - (a.root0.x as i128);
    let bdx = (b.root1.x as i128) - (b.root0.x as i128);
    proof {
        assert((ady as int) * (bdx as int) <= 2 * MAX_PRICE * MAX_TS && (ady as int) * (
        bdx as int) >= -2 * MAX_PRICE * MAX_TS) by (nonlinear_arith)
            requires
                -MAX_PRICE <= ady as int <= MAX_PRICE,
                0 < bdx as int <= MAX_TS,
        ;
        assert((bdy as int) * (adx as int) <= 2 * MAX_PRICE * MAX_TS && (bdy as int) * (
        adx as int) >= -2 * MAX_PRICE * MAX_TS) by (nonlinear_arith)
            requires
                -MAX_PRICE <= bdy as int <= MAX_PRICE,
                0 < adx as int <= MAX_TS,
        ;
    }
    ady * bdx < bdy * adx
}

/// Start of the look-behind window of a line.
pub open spec fn behind_lo(l: Line, before_check: int) -> int {
    vstd::math::max(l.root0.candle_index as int, before_check) - before_check
}

/// The look-behind check: in the `before_check` candles before its first
/// root, the line stays strictly on its own side of every candle.
pub open spec fn clears_behind(s: Seq<Candle>, l: Line, before_check: int) -> bool {
    forall|j: int|
        behind_lo(l, before_check) <= j < l.root0.candle_index ==> (if l.root0.candle_position
            is LOW {
            line_below(l, (#[trigger] s[j]).open_time as int, s[j].low as int)
        } else {
            line_above(l, s[j].open_time as int, s[j].high as int)
        })
}

/// All committed lines are well formed within the window.
pub open spec fn lines_ok(s: Seq<Candle>, v: Seq<Line>) -> bool {
    forall|i: int|
        0 <= i < v.len() ==> (#[trigger] v[i]).wf() && v[i].root1.candle_index < s.len()
}

/// Consecutive committed lines of one polarity improve in slope: upward
/// bounding lines grow steeper, downward ones shallower.
pub open spec fn slopes_improve(v: Seq<Line>, pos: CandlePos) -> bool {
    forall|i: int|
        0 <= i < v.len() - 1 ==> (if pos is LOW {
            slope_lt(#[trigger] v[i], v[i + 1])
        } else {
            slope_lt(v[i + 1], #[trigger] v[i])
        })
}

/// Whether the candle at `j` stays strictly on the line's own side.
#[verifier::opaque]
pub open spec fn clears_at(s: Seq<Candle>, l: Line, pos: CandlePos, j: int) -> bool {
    if pos is LOW {
        line_below(l, s[j].open_time as int, s[j].low as int)
    } else {
        line_above(l, s[j].open_time as int, s[j].high as int)
    }
}

/// Whether the candle at `j` clears the line by more than the lift margin.
#[verifier::opaque]
pub open spec fn lifted_at(s: Seq<Candle>, l: Line, pos: CandlePos, lift: int, j: int) -> bool {
    if pos is LOW {
        line_below(l, s[j].open_time as int, s[j].low - lift)
    } else {
        line_above(l, s[j].open_time as int, s[j].high + lift)
    }
}

/// How many candles of `(lo, hi]` clear the line by more than the lift.
pub open spec fn lift_count(s: Seq<Candle>, l: Line, pos: CandlePos, lift: int, lo: int,
    hi: int) -> int
    decreases hi - lo,
{
    if hi <= lo {
        0
    } else {
        lift_count(s, l, pos, lift, lo, hi - 1) + if lifted_at(s, l, pos, lift, hi) {
            1int
        } else {
            0int
        }
    }
}

/// The lift margin of a window: three hundredths of its price height.
pub open spec fn min_lift_spec(c: Candles) -> int {
    (if c.height > 0 {
        c.height as int
    } else {
        0
    }) * 3 / 100
}

/// The crawl's commit rule, witnessed: some instant after the line's second
/// root — its last breach — up to which no candle breached the line again,
/// while more than `after_check` of them cleared it by more than the lift.
#[verifier::opaque]
pub open spec fn commit_witnessed(s: Seq<Candle>, l: Line, lift: int) -> bool {
    exists|cw: int|
        l.root1.candle_index < cw < s.len() - 1 && (forall|j: int|
            l.root1.candle_index < j <= cw ==> clears_at(s, l, l.root0.candle_position, j))
            && #[trigger] lift_count(s, l, l.root0.candle_position, lift,
            l.root1.candle_index as int, cw) > 4
}

/// Packs a commit instant into the witness.
proof fn lemma_commit_witness_intro(s: Seq<Candle>, l: Line, lift: int, cw: int)
    requires
        l.root1.candle_index < cw < s.len() - 1,
        forall|j: int|
            l.root1.candle_index < j <= cw ==> clears_at(s, l, l.root0.candle_position, j),
        lift_count(s, l, l.root0.candle_position, lift, l.root1.candle_index as int, cw) > 4,
    ensures
        commit_witnessed(s, l, lift),
{
    reveal(commit_witnessed);
}

/// What the witness packs, unfolded for callers.
pub proof fn lemma_commit_witnessed_parts(s: Seq<Candle>, l: Line, lift: int)
    requires
        commit_witnessed(s, l, lift),
    ensures
        exists|cw: int|
            l.root1.candle_index < cw < s.len() - 1 && (forall|j: int|
                l.root1.candle_index < j <= cw ==> clears_at(s, l, l.root0.candle_position, j))
                && #[trigger] lift_count(s, l, l.root0.candle_position, lift,
                l.root1.candle_index as int, cw) > 4,
{
    reveal(commit_witnessed);
}

/// A root-anchored line touches its second root's extreme exactly, so that
/// candle never clears it strictly.
proof fn lemma_line_touches_root1(s: Seq<Candle>, l: Line, pos: CandlePos)
    requires
        l.wf(),
        l.root1.candle_position == pos,
        0 <= l.root1.candle_index < s.len(),
        l.root1 == root_of(s, l.root1.candle_index as int, pos),
    ensures
        !clears_at(s, l, pos, l.root1.candle_index as int),
{
    reveal(clears_at);
    let ci = l.root1.candle_index as int;
    let dx = l.root1.x - l.root0.x;
    let dy = l.root1.y - l.root0.y;
    assert(line_num(l, l.root1.x as int) == l.root1.y * dx) by (nonlinear_arith)
        requires
            line_num(l, l.root1.x as int) == l.root0.y * dx + dy * (l.root1.x - l.root0.x),
            dx == l.root1.x - l.root0.x,
            dy == l.root1.y - l.root0.y,
    ;
}

/// Commits a candidate line unless its slope fails to improve on the last
/// committed line of the pass, or a candle shortly before its first root
/// already pierced it.  Exactly those two conditions reject a candidate.
pub fn add(candles: &Candles, lines: &mut Vec<Line>, line: &Line) -> (r: bool)
    requires
        window_ok(candles@),
        line.wf(),
        line.root1.candle_index < candles@.len(),
        lines_ok(candles@, old(lines)@),
    ensures
        lines_ok(candles@, final(lines)@),
        r ==> final(lines)@ == old(lines)@.push(*line),
        !r ==> final(lines)@ == old(lines)@,
        r == ((old(lines)@.len() == 0 || (if line.root0.candle_position is LOW {
            slope_lt(old(lines)@.last(), *line)
        } else {
            slope_lt(*line, old(lines)@.last())
        })) && clears_behind(candles@, *line, 4)),
{
    let before_check: usize = 4;
    let i1 = line.root0.candle_index;
    let pos = line.root0.candle_position;
    let ln = lines.len();
    if ln > 0 {
        let last = lines[ln - 1];
        let improved = match pos {
            CandlePos::LOW => slope_less(&last, line),
            CandlePos::HIGH => slope_less(line, &last),
        };
        if !improved {
            return false;
        }
    }
    let lo = if i1 >= before_check {
        i1 - before_check
    } else {
        0
    };
    proof {
        assert(lo == behind_lo(*line, 4));
    }
    let mut j = lo;
    while j < i1
        invariant
            lo <= j <= i1 < candles@.len(),
            lo == behind_lo(*line, 4),
            i1 == line.root0.candle_index,
            line.wf(),
            window_ok(candles@),
            lines@ == old(lines)@,
            lines_ok(candles@, lines@),
            pos == line.root0.candle_position,
            forall|k: int|
                lo <= k < j ==> (if line.root0.candle_position is LOW {
                    line_below(*line, (#[trigger] candles@[k]).open_time as int,
                        candles@[k].low as int)
                } else {
                    line_above(*line, candles@[k].open_time as int, candles@[k].high as int)
                }),
        decreases i1 - j,
    {
        let c = candles.first_at(j);
        proof {
            assert(candle_ok(candles@[j as int]));
        }
        let clear = match pos {
            CandlePos::LOW => line_cmp(line, c.open_time, c.low) == -1,
            CandlePos::HIGH => line_cmp(line, c.open_time, c.high) == 1,
        };
        if !clear {
            proof {
                assert(!clears_behind(candles@, *line, 4)) by {
                    assert(behind_lo(*line, 4) <= j < line.root0.candle_index);
                    if line.root0.candle_position is LOW {
                        assert(!line_below(*line, candles@[j as int].open_time as int,
                            candles@[j as int].low as int));
                    } else {
                        assert(!line_above(*line, candles@[j as int].open_time as int,
                            candles@[j as int].high as int));
                    }
                }
            }
            return false;
        }
        j = j + 1;
    }
    lines.push(*line);
    true
}

/// Crawls the window from `index`, fitting a line of one polarity through
/// the first two candles, extending it over every breach, and committing it
/// whenever it has held wide and clear long enough.  Every committed line
/// starts at `index`, is at least `min_width` wide, cleared its look-behind
/// window, and improves in slope on its predecessor.
pub fn crawl(candles: &Candles, index: usize, pos: CandlePos) -> (r: Vec<Line>)
    requires
        candles.wf(),
        window_ok(candles@),
    ensures
        lines_ok(candles@, r@),
        slopes_improve(r@, pos),
        forall|i: int|
            0 <= i < r@.len() ==> (#[trigger] r@[i]).root0.candle_index == index
                && r@[i].root0.candle_position == pos && r@[i].root1.candle_position == pos
                && r@[i].root1.candle_index - r@[i].root0.candle_index >= 4 && clears_behind(
                candles@, r@[i], 4) && r@[i] == line_of(candles@,
                r@[i].root0.candle_index as int, pos, r@[i].root1.candle_index as int, pos)
                && commit_witnessed(candles@, r@[i], min_lift_spec(*candles)),
{
    let min_width: usize = 4;
    let after_check: usize = 4;
    let mut lines: Vec<Line> = Vec::new();
    let n = candles.len();
    if n < min_width + 1 || index > n - 1 - min_width {
        return lines;
    }
    proof {
        crate::candles::lemma_extent_bounds(candles@, candles@.len() as int);
        assert(-MAX_PRICE <= candles.height <= MAX_PRICE);
    }
    let height = if candles.height > 0 {
        candles.height
    } else {
        0
    };
    let min_lift = height * 3 / 100;
    proof {
        assert(0 <= min_lift <= MAX_PRICE) by (nonlinear_arith)
            requires
                0 <= height <= MAX_PRICE,
                min_lift == (height * 3) / 100,
        ;
        assert(min_lift as int == min_lift_spec(*candles));
    }
    let mut lift_sustain: usize = 0;
    let mut line = Line::new(candles, index, pos, index + 1, pos);
    let mut current_line_added = false;
    let mut i = index + 1;
    while i < n - 1
        invariant
            candles.wf(),
            window_ok(candles@),
            2 <= n == candles@.len(),
            index + 1 <= i <= n - 1,
            index + 4 <= n - 1,
            min_width == 4,
            after_check == 4,
            0 <= min_lift <= MAX_PRICE,
            line.wf(),
            line.root0 == root_of(candles@, index as int, pos),
            line.root1 == root_of(candles@, line.root1.candle_index as int, pos),
            line.root0.candle_index == index,
            line.root0.candle_position == pos,
            line.root1.candle_position == pos,
            index < line.root1.candle_index <= i,
            min_lift as int == min_lift_spec(*candles),
            forall|j: int|
                line.root1.candle_index < j < i ==> clears_at(candles@, line, pos, j),
            lift_sustain as int <= lift_count(candles@, line, pos, min_lift as int,
                line.root1.candle_index as int, i - 1),
            lines_ok(candles@, lines@),
            slopes_improve(lines@, pos),
            forall|k: int|
                0 <= k < lines@.len() ==> (#[trigger] lines@[k]).root0.candle_index == index
                    && lines@[k].root0.candle_position == pos && lines@[k].root1.candle_position
                    == pos && lines@[k].root1.candle_index - lines@[k].root0.candle_index >= 4
                    && clears_behind(candles@, lines@[k], 4) && lines@[k] == line_of(candles@,
                    lines@[k].root0.candle_index as int, pos,
                    lines@[k].root1.candle_index as int, pos) && commit_witnessed(candles@,
                    lines@[k], min_lift_spec(*candles)),
            current_line_added ==> lines@.len() > 0 && lines@.last() == line,
        decreases n - 1 - i,
    {
        let candle = candles.first_at(i);
        proof {
            assert(candle_ok(candles@[i as int]));
        }
        let wrong_side = match pos {
            CandlePos::HIGH => line_cmp(&line, candle.open_time, candle.high) != 1,
            CandlePos::LOW => line_cmp(&line, candle.open_time, candle.low) != -1,
        };
        if wrong_side {
            proof {
                assert(candles@[line.root0.candle_index as int].open_time
                    < candles@[i as int].open_time);
            }
            line.update_root(1, candles, i, pos);
            current_line_added = false;
            lift_sustain = 0;
        } else {
            proof {
                // the candle neither breaches nor touches the line, so it
                // sits past the second root and clears the line
                if line.root1.candle_index == i {
                    lemma_line_touches_root1(candles@, line, pos);
                    assert(clears_at(candles@, line, pos, i as int)) by {
                        reveal(clears_at);
                    }
                }
                assert(line.root1.candle_index < i);
                assert(clears_at(candles@, line, pos, i as int)) by {
                    reveal(clears_at);
                }
            }
            let lifted = match pos {
                CandlePos::HIGH => line_cmp(&line, candle.open_time, candle.high + min_lift)
                    == 1,
                CandlePos::LOW => line_cmp(&line, candle.open_time, candle.low - min_lift)
                    == -1,
            };
            proof {
                let lo = line.root1.candle_index as int;
                assert(lift_count(candles@, line, pos, min_lift as int, lo, i as int)
                    == lift_count(candles@, line, pos, min_lift as int, lo, i - 1) + if
                    lifted_at(candles@, line, pos, min_lift as int, i as int) {
                    1int
                } else {
                    0int
                });
                if lifted {
                    assert(lifted_at(candles@, line, pos, min_lift as int, i as int)) by {
                        reveal(lifted_at);
                    }
                }
            }
            if lifted && lift_sustain < usize::MAX {
                lift_sustain = lift_sustain + 1;
            }
        }
        if !current_line_added && line.width() >= min_width && lift_sustain > after_check {
            proof {
                // this very instant witnesses the commit rule
                let lo = line.root1.candle_index as int;
                assert(lift_sustain as int <= lift_count(candles@, line, pos,
                    min_lift as int, lo, i as int));
                assert(lo < i) by {
                    if lo >= i {
                        assert(lift_count(candles@, line, pos, min_lift as int, lo, i as int)
                            == 0);
                    }
                }
                lemma_commit_witness_intro(candles@, line, min_lift as int, i as int);
            }
            if crate::trend_line::add(candles, &mut lines, &line) {
                current_line_added = true;
                lift_sustain = 0;
            }
        }
        i = i + 1;
    }
    lines
}

/// Compares the line's value at an instant with a price exactly:
/// `1` above, `-1` below, `0` on the line.
pub fn line_price_cmp(l: &Line, x: i64, p: i64) -> (r: i8)
    requires
        l.wf(),
        0 <= x <= MAX_TS + crate::query::MAX_STEP,
        -MAX_PRICE <= p <= 2 * MAX_PRICE,
    ensures
        (r == 1) == line_above(*l, x as int, p as int),
        (r == -1) == line_below(*l, x as int, p as int),
        (r == 0) == (!line_above(*l, x as int, p as int) && !line_below(*l, x as int, p as int)),
{
    line_cmp(l, x, p)
}

/// A committed bounding line with its cross history and its projection to
/// the window's end.
pub struct TrendLine {
    pub line: Line,
    pub crosses: Vec<LineCross>,
    pub strength: i64,
    pub p1: (i64, i64),
    pub p2: (i64, i128),
}

impl TrendLine {
    /// Builds the trend line anchored at two window candles, projecting the
    /// line's value at the window's last open time; `None` when the indices
    /// do not name two distinct candles in order.
    pub fn new_from_candle_indexes(candles: &Candles, i1: usize, i2: usize, pos: CandlePos) -> (r:
        Option<TrendLine>)
        requires
            window_ok(candles@),
            candles@.len() > 0,
        ensures
            match r {
                Some(tl) => {
                    &&& i1 < i2 < candles@.len()
                    &&& tl.line == line_of(candles@, i1 as int, pos, i2 as int, pos)
                    &&& tl.line.wf()
                    &&& tl.crosses@.len() == 0
                    &&& tl.strength == 0
                    &&& tl.p1 == (candles@[i1 as int].open_time, root_y(candles@[i1 as int], pos))
                    &&& tl.p2.0 == candles@.last().open_time
                    &&& tl.p2.1 == line_y_trunc(tl.line, candles@.last().open_time as int)
                },
                None => !(i1 < i2 < candles@.len()),
            },
    {
        if !(i1 < i2 && i2 < candles.len()) {
            return None;
        }
        let c1 = candles.first_at(i1);
        let line = Line::new(candles, i1, pos, i2, pos);
        let max_x = candles.last().open_time;
        proof {
            assert(candle_ok(candles@[candles@.len() - 1]));
            assert(candle_ok(candles@[i1 as int]));
        }
        let max_y = line.y_at_x(max_x);
        let y1 = match pos {
            CandlePos::HIGH => c1.high,
            CandlePos::LOW => c1.low,
        };
        Some(TrendLine {
            line,
            crosses: Vec::new(),
            strength: 0,
            p1: (c1.open_time, y1),
            p2: (max_x, max_y),
        })
    }

    /// Whether the line stayed clear of every candle between its first root
    /// and one root-distance earlier, in the window and in the older,
    /// reverse-ordered spill-over candles.
    pub fn check_backwards(&self, candles: &Vec<Candle>, extra_candles_reverse: &Vec<Candle>) -> (
        r: bool)
        requires
            self.line.wf(),
            window_ok(candles@),
            all_candles_ok(extra_candles_reverse@),
            forall|i: int, j: int|
                0 <= i < j < extra_candles_reverse@.len()
                    ==> (#[trigger] extra_candles_reverse@[i]).open_time
                    > (#[trigger] extra_candles_reverse@[j]).open_time,
            self.line.root0.candle_index < candles@.len(),
        ensures
            r == (back_clear(candles@, self.line, back_min_ot(self.line)) && extra_clear(
                extra_candles_reverse@, self.line, back_min_ot(self.line))),
    {
        let min_open_time = 2 * self.line.root0.x - self.line.root1.x;
        if !back_scan(&self.line, candles, min_open_time) {
            return false;
        }
        extra_scan(&self.line, extra_candles_reverse, min_open_time)
    }
}

/// Walks the window backwards from the line's first root, stopping at the
/// look-back horizon.
fn back_scan(line: &Line, candles: &Vec<Candle>, min_open_time: i64) -> (r: bool)
    requires
        line.wf(),
        window_ok(candles@),
        line.root0.candle_index < candles@.len(),
        min_open_time == back_min_ot(*line),
    ensures
        r == back_clear(candles@, *line, back_min_ot(*line)),
{
    let i1 = line.root0.candle_index;
    let ghost s = candles@;
    let mut j: usize = i1 + 1;
    while j > 0
        invariant
            s == candles@,
            window_ok(s),
            line.wf(),
            j <= i1 + 1,
            i1 < s.len(),
            i1 == line.root0.candle_index,
            min_open_time == back_min_ot(*line),
            forall|k: int|
                j <= k <= i1 && (#[trigger] s[k]).open_time > min_open_time ==> !intersects_spec(
                    *line, s[k]),
        decreases j,
    {
        let c = candles[j - 1];
        proof {
            assert(candle_ok(s[j - 1]));
        }
        if c.open_time <= min_open_time {
            proof {
                assert forall|k: int|
                    0 <= k <= i1 && (#[trigger] s[k]).open_time > min_open_time implies
                    !intersects_spec(*line, s[k]) by {
                    if k < j {
                        assert(s[k].open_time <= s[j - 1].open_time);
                    }
                }
            }
            return true;
        }
        if line.intersects(&c) {
            return false;
        }
        j = j - 1;
    }
    true
}

/// Walks the spill-over candles, newest first, stopping at the look-back
/// horizon.
fn extra_scan(line: &Line, extra: &Vec<Candle>, min_open_time: i64) -> (r: bool)
    requires
        line.wf(),
        all_candles_ok(extra@),
        forall|i: int, j: int|
            0 <= i < j < extra@.len() ==> (#[trigger] extra@[i]).open_time
                > (#[trigger] extra@[j]).open_time,
        min_open_time == back_min_ot(*line),
    ensures
        r == extra_clear(extra@, *line, back_min_ot(*line)),
{
    let ghost es = extra@;
    let en = extra.len();
    let mut k: usize = 0;
    while k < en
        invariant
            es == extra@,
            all_candles_ok(es),
            forall|a: int, b: int|
                0 <= a < b < es.len() ==> (#[trigger] es[a]).open_time
                    > (#[trigger] es[b]).open_time,
            line.wf(),
            k <= en == es.len(),
            min_open_time == back_min_ot(*line),
            forall|a: int|
                0 <= a < k && (#[trigger] es[a]).open_time > min_open_time ==> !intersects_spec(
                    *line, es[a]),
        decreases en - k,
    {
        let c = extra[k];
        proof {
            assert(candle_ok(es[k as int]));
        }
        if c.open_time <= min_open_time {
            proof {
                assert forall|a: int|
                    0 <= a < es.len() && (#[trigger] es[a]).open_time > min_open_time implies
                    !intersects_spec(*line, es[a]) by {
                    if a > k {
                        assert(es[a].open_time < es[k as int].open_time);
                    }
                }
            }
            return true;
        }
        if line.intersects(&c) {
            return false;
        }
        k = k + 1;
    }
    true
}

/// The earliest instant the look-back of a committed line reaches: one
/// root-to-root span before the first root.
pub open spec fn back_min_ot(l: Line) -> int {
    2 * l.root0.x - l.root1.x
}

/// No candle of the window at or before the line's first root, within the
/// look-back span, is pierced by the line.
pub open spec fn back_clear(s: Seq<Candle>, l: Line, min_ot: int) -> bool {
    forall|k: int|
        0 <= k <= l.root0.candle_index && k < s.len() && (#[trigger] s[k]).open_time > min_ot
            ==> !intersects_spec(l, s[k])
}

/// No spill-over candle within the look-back span is pierced by the line.
pub open spec fn extra_clear(s: Seq<Candle>, l: Line, min_ot: int) -> bool {
    forall|k: int|
        0 <= k < s.len() && (#[trigger] s[k]).open_time > min_ot ==> !intersects_spec(l, s[k])
}

/// What every committed bounding line satisfies: one polarity, anchored at
/// its candles' extremes, at least the minimum width, cleared of its
/// look-behind window, and committed by the crawl rule — witnessed by an
/// instant up to which nothing breached it while enough candles cleared it
/// by more than the lift margin.
pub open spec fn committed_line(s: Seq<Candle>, l: Line, lift: int) -> bool {
    &&& l.root0.candle_position == l.root1.candle_position
    &&& l.root1.candle_index - l.root0.candle_index >= 4
    &&& l == line_of(s, l.root0.candle_index as int, l.root0.candle_position,
        l.root1.candle_index as int, l.root1.candle_position)
    &&& clears_behind(s, l, 4)
    &&& commit_witnessed(s, l, lift)
}

/// Crawls the whole window once per polarity and converts every committed
/// bounding line into a trend line with its projection, from a LOW pass
/// and then a HIGH pass over the whole window.
pub fn generate_bounding_lines(candles: &Candles) -> (r: Vec<TrendLine>)
    requires
        candles.wf(),
        window_ok(candles@),
    ensures
        forall|i: int|
            0 <= i < r@.len() ==> (#[trigger] r@[i]).line.wf() && r@[i].line.root1.candle_index
                < candles@.len() && r@[i].crosses@.len() == 0 && r@[i].strength == 0
                && committed_line(candles@, r@[i].line, min_lift_spec(*candles)) && r@[i].p2.0
                == candles@.last().open_time && r@[i].p2.1 == line_y_trunc(r@[i].line,
                candles@.last().open_time as int),
{
    let n = candles.len();
    let mut all_lines: Vec<Line> = Vec::new();
    let mut index: usize = 0;
    while index < n
        invariant
            candles.wf(),
            window_ok(candles@),
            n == candles@.len(),
            lines_ok(candles@, all_lines@),
            forall|k: int|
                0 <= k < all_lines@.len() ==> committed_line(candles@,
                    #[trigger] all_lines@[k], min_lift_spec(*candles)),
        decreases n - index,
    {
        let mut lines = crawl(candles, index, CandlePos::LOW);
        let ln = lines.len();
        index = if ln == 0 {
            index + 1
        } else {
            lines[ln - 1].root1.candle_index
        };
        all_lines.append(&mut lines);
    }
    index = 0;
    while index < n
        invariant
            candles.wf(),
            window_ok(candles@),
            n == candles@.len(),
            lines_ok(candles@, all_lines@),
            forall|k: int|
                0 <= k < all_lines@.len() ==> committed_line(candles@,
                    #[trigger] all_lines@[k], min_lift_spec(*candles)),
        decreases n - index,
    {
        let mut lines = crawl(candles, index, CandlePos::HIGH);
        index = if lines.len() == 0 {
            index + 1
        } else {
            lines[0].root1.candle_index
        };
        all_lines.append(&mut lines);
    }
    let mut res: Vec<TrendLine> = Vec::new();
    let m = all_lines.len();
    let mut i: usize = 0;
    while i < m
        invariant
            candles.wf(),
            window_ok(candles@),
            n == candles@.len() > 0,
            m == all_lines@.len(),
            lines_ok(candles@, all_lines@),
            forall|k: int|
                0 <= k < all_lines@.len() ==> committed_line(candles@,
                    #[trigger] all_lines@[k], min_lift_spec(*candles)),
            forall|k: int|
                0 <= k < res@.len() ==> (#[trigger] res@[k]).line.wf()
                    && res@[k].line.root1.candle_index < candles@.len() && res@[k].crosses@.len()
                    == 0 && res@[k].strength == 0 && committed_line(candles@, res@[k].line,
                    min_lift_spec(*candles)) && res@[k].p2.0 == candles@.last().open_time
                    && res@[k].p2.1 == line_y_trunc(res@[k].line,
                    candles@.last().open_time as int),
        decreases m - i,
    {
        let l = all_lines[i];
        match TrendLine::new_from_candle_indexes(candles, l.root0.candle_index,
            l.root1.candle_index, l.root0.candle_position) {
            Some(tl) => {
                proof {
                    assert(tl.line == all_lines@[i as int]);
                }
                res.push(tl);
            },
            None => {},
        }
        i = i + 1;
    }
    res
}


/// A freshly fit line touches each of its root candles exactly at the
/// root's extreme, so it never passes strictly inside either of them: at a
/// root's instant the line's value equals that candle's anchored high or
/// low, never strictly between low and high on both sides.
pub proof fn lemma_new_line_misses_roots(s: Seq<Candle>, ci1: int, ci2: int, pos: CandlePos)
    requires
        window_ok(s),
        0 <= ci1 < ci2 < s.len(),
    ensures
        !intersects_spec(line_of(s, ci1, pos, ci2, pos), s[ci1]),
        !intersects_spec(line_of(s, ci1, pos, ci2, pos), s[ci2]),
{
    reveal(intersects_spec);
    let l = line_of(s, ci1, pos, ci2, pos);
    let dx = l.root1.x - l.root0.x;
    let dy = l.root1.y - l.root0.y;
    assert(l.root0.x == s[ci1].open_time && l.root1.x == s[ci2].open_time);
    assert(line_num(l, l.root0.x as int) == l.root0.y * dx) by (nonlinear_arith)
        requires
            line_num(l, l.root0.x as int) == l.root0.y * dx + dy * (l.root0.x - l.root0.x),
    ;
    assert(line_num(l, l.root1.x as int) == l.root1.y * dx) by (nonlinear_arith)
        requires
            line_num(l, l.root1.x as int) == l.root0.y * dx + dy * (l.root1.x - l.root0.x),
            dx == l.root1.x - l.root0.x,
            dy == l.root1.y - l.root0.y,
    ;
    if pos is HIGH {
        assert(l.root0.y == s[ci1].high && l.root1.y == s[ci2].high);
        assert(!line_below(l, s[ci1].open_time as int, s[ci1].high as int));
        assert(!line_below(l, s[ci2].open_time as int, s[ci2].high as int));
    } else {
        assert(l.root0.y == s[ci1].low && l.root1.y == s[ci2].low);
        assert(!line_above(l, s[ci1].open_time as int, s[ci1].low as int));
        assert(!line_above(l, s[ci2].open_time as int, s[ci2].low as int));
    }
}


} // verus!
