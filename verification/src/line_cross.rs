//! Line crosses: contiguous spans where price pierces a trend line, grown
//! candle by candle with a one-candle gap tolerance, and classified by the
//! side of the line the span enters and leaves on.

use vstd::prelude::*;
use crate::candle::Candle;
use crate::candles::Candles;
use crate::store::{candle_ok, all_candles_ok};
use crate::trend_line::{Line, TrendLine, line_below, intersects_spec, line_y_trunc};

verus! {

/// How a closed cross span relates to the line: entered and left below
/// (REJECT), crossed upward (UP), crossed downward (DOWN), entered and left
/// above (BOUNCE).  VOID is kept for spans no sign rule covers.
#[derive(Clone, Copy, PartialEq, Eq, Structural, Debug)]
pub enum CrossType {
    REJECT,
    UP,
    DOWN,
    BOUNCE,
    VOID,
}

/// One closed cross span over `[open_index, close_index)`.
#[derive(Clone, Copy, Debug)]
pub struct LineCross {
    pub width: i32,
    pub height: i64,
    pub open_index: usize,
    pub close_index: usize,
    pub t: CrossType,
    pub p1: (i64, i128),
    pub p2: (i64, i128),
}

/// The classification of a span: the entry sign is the first candle's open
/// against the line at its open time, the exit sign the last candle's close
/// against the line at its close time; at or below the line counts as
/// non-positive.
#[verifier::opaque]
pub open spec fn cross_type_spec(l: Line, s: Seq<Candle>, open_index: int, close_index: int)
    -> CrossType {
    let sc = s[open_index];
    let ec = s[close_index - 1];
    let o_nonpos = !line_below(l, sc.open_time as int, sc.open as int);
    let c_nonpos = !line_below(l, ec.close_time as int, ec.close as int);
    if o_nonpos && c_nonpos {
        CrossType::REJECT
    } else if o_nonpos && !c_nonpos {
        CrossType::UP
    } else if !o_nonpos && c_nonpos {
        CrossType::DOWN
    } else {
        CrossType::BOUNCE
    }
}

/// Grows a span forward: while the line still pierces a candle at most one
/// position past it, the span absorbs the candle; a span is closed only
/// when the two positions past it (as far as they exist) are both clear.
fn grow_span(candles: &Candles, line: &Line, close_index: usize, gap: usize) -> (close: usize)
    requires
        all_candles_ok(candles@),
        line.wf(),
        candles@.len() <= 0x7fffffff,
        0 < close_index <= candles@.len(),
        gap <= 1,
        gap == 1 ==> close_index < candles@.len() && !intersects_spec(*line,
            candles@[close_index as int]),
    ensures
        close_index <= close <= candles@.len(),
        close < candles@.len() ==> !intersects_spec(*line, candles@[close as int]),
        close + 1 < candles@.len() ==> !intersects_spec(*line, candles@[close + 1]),
{
    let n = candles.len();
    let mut close = close_index;
    let mut g = gap;
    while close + g < n
        invariant
            all_candles_ok(candles@),
            line.wf(),
            n == candles@.len() <= 0x7fffffff,
            close_index <= close <= n,
            g <= 1,
            g == 1 ==> close < n && !intersects_spec(*line, candles@[close as int]),
        decreases 2 * n + 1 - (2 * close + g),
    {
        let probe = candles.first_at(close + g);
        proof {
            assert(candle_ok(candles@[close + g]));
        }
        if line.intersects(&probe) {
            close = close + 1;
            g = 0;
        } else if g < 1 {
            g = 1;
        } else {
            return close;
        }
    }
    close
}

/// Grows a cross span forward from `[open_index, close_index)` and closes
/// and classifies it.  The closed span's two following positions (as far as
/// they exist) are clear of the line: the span never closes early.
pub fn collect(candles: &Candles, line: &Line, open_index: usize, close_index: usize,
    gap: usize) -> (r: LineCross)
    requires
        all_candles_ok(candles@),
        line.wf(),
        candles@.len() <= 0x7fffffff,
        open_index < close_index <= candles@.len(),
        gap <= 1,
        gap == 1 ==> close_index < candles@.len() && !intersects_spec(*line,
            candles@[close_index as int]),
    ensures
        r.open_index == open_index,
        open_index < r.close_index <= candles@.len(),
        r.width == r.close_index - r.open_index,
        r.close_index < candles@.len() ==> !intersects_spec(*line,
            candles@[r.close_index as int]),
        r.close_index + 1 < candles@.len() ==> !intersects_spec(*line,
            candles@[r.close_index + 1]),
        r.t == cross_type_spec(*line, candles@, open_index as int, r.close_index as int),
        r.p1.0 == candles@[open_index as int].open_time,
        r.p1.1 == line_y_trunc(*line, candles@[open_index as int].open_time as int),
        r.p2.0 == candles@[r.close_index - 1].open_time,
        r.p2.1 == line_y_trunc(*line, candles@[r.close_index - 1].open_time as int),
{
    proof {
        reveal(cross_type_spec);
    }
    let close = grow_span(candles, line, close_index, gap);
    let start_candle = candles.first_at(open_index);
    let end_candle = candles.first_at(close - 1);
    proof {
        assert(candle_ok(candles@[open_index as int]));
        assert(candle_ok(candles@[close - 1]));
    }
    let open_cmp = crate::trend_line::line_price_cmp(line, start_candle.open_time,
        start_candle.open);
    let close_cmp = crate::trend_line::line_price_cmp(line, end_candle.close_time,
        end_candle.close);
    let o_nonpos = open_cmp != -1;
    let c_nonpos = close_cmp != -1;
    let t = if o_nonpos && c_nonpos {
        CrossType::REJECT
    } else if o_nonpos && !c_nonpos {
        CrossType::UP
    } else if !o_nonpos && c_nonpos {
        CrossType::DOWN
    } else {
        CrossType::BOUNCE
    };
    LineCross {
        width: (close - open_index) as i32,
        height: 0,
        open_index,
        close_index: close,
        t,
        p1: (start_candle.open_time, line.y_at_x(start_candle.open_time)),
        p2: (end_candle.open_time, line.y_at_x(end_candle.open_time)),
    }
}

/// The last position the cross walk inspects: the given limit, cut to the
/// window's last position.
pub open spec fn cross_limit(n: int, limit: Option<usize>) -> int {
    match limit {
        Some(l) => if l < n - 1 {
            l as int
        } else {
            n - 1
        },
        None => n - 1,
    }
}

/// Outside the reported spans, no candle of `[lo, hi)` is pierced by the
/// line: reading the spans left to right, everything before the first
/// span's open is clear, and so on after each span's close.  Together with
/// the per-span clauses this says the spans cover every pierced candle of
/// the walked range.
#[verifier::opaque]
pub open spec fn walk_clear(s: Seq<Candle>, l: Line, crosses: Seq<LineCross>, lo: int,
    hi: int) -> bool
    decreases crosses.len(),
{
    if crosses.len() == 0 {
        forall|p: int| lo <= p < hi ==> !(#[trigger] intersects_spec(l, s[p]))
    } else {
        &&& (forall|p: int|
            lo <= p < crosses[0].open_index ==> !(#[trigger] intersects_spec(l, s[p])))
        &&& walk_clear(s, l, crosses.skip(1), crosses[0].close_index as int, hi)
    }
}

/// One more clear candle extends the walked range.
proof fn lemma_walk_grow(s: Seq<Candle>, l: Line, crosses: Seq<LineCross>, lo: int, hi: int)
    requires
        walk_clear(s, l, crosses, lo, hi),
        !intersects_spec(l, s[hi]),
    ensures
        walk_clear(s, l, crosses, lo, hi + 1),
    decreases crosses.len(),
{
    reveal(walk_clear);
    if crosses.len() > 0 {
        lemma_walk_grow(s, l, crosses.skip(1), crosses[0].close_index as int, hi);
    }
}

/// A span appended where the walk stands extends the walked range to the
/// span's close.
proof fn lemma_walk_append(s: Seq<Candle>, l: Line, crosses: Seq<LineCross>, lo: int,
    c: LineCross)
    requires
        walk_clear(s, l, crosses, lo, c.open_index as int),
    ensures
        walk_clear(s, l, crosses.push(c), lo, c.close_index as int),
    decreases crosses.len(),
{
    reveal_with_fuel(walk_clear, 3);
    if crosses.len() == 0 {
        assert(crosses.push(c).skip(1) =~= Seq::<LineCross>::empty());
        assert(walk_clear(s, l, crosses.push(c).skip(1), c.close_index as int,
            c.close_index as int));
    } else {
        assert(crosses.push(c).skip(1) =~= crosses.skip(1).push(c));
        lemma_walk_append(s, l, crosses.skip(1), crosses[0].close_index as int, c);
        assert(crosses.push(c)[0] == crosses[0]);
    }
}

/// The coverage the walk establishes, read pointwise: every pierced candle
/// of the walked range lies inside one of the spans.
pub proof fn lemma_walk_clear_covers(s: Seq<Candle>, l: Line, crosses: Seq<LineCross>, lo: int,
    hi: int, p: int)
    requires
        walk_clear(s, l, crosses, lo, hi),
        forall|i: int|
            0 <= i < crosses.len() ==> (#[trigger] crosses[i]).open_index
                < crosses[i].close_index,
        lo <= p < hi,
        intersects_spec(l, s[p]),
    ensures
        exists|i: int|
            0 <= i < crosses.len() && (#[trigger] crosses[i]).open_index <= p
                < crosses[i].close_index,
    decreases crosses.len(),
{
    reveal(walk_clear);
    if crosses.len() == 0 {
    } else {
        if p < crosses[0].open_index {
        } else if p < crosses[0].close_index {
            assert(crosses[0].open_index <= p < crosses[0].close_index);
        } else {
            lemma_walk_clear_covers(s, l, crosses.skip(1), crosses[0].close_index as int, hi, p);
            let i = choose|i: int|
                0 <= i < crosses.skip(1).len() && (#[trigger] crosses.skip(1)[i]).open_index
                    <= p < crosses.skip(1)[i].close_index;
            assert(crosses[i + 1].open_index <= p < crosses[i + 1].close_index);
        }
    }
}

/// Everything a single reported span satisfies: in bounds, opened strictly
/// after the line's second root and at or before the scan limit, pierced
/// by the line at its open, and classified by its entry and exit signs.
#[verifier::opaque]
pub open spec fn span_ok(s: Seq<Candle>, l: Line, limit_eff: int, c: LineCross) -> bool {
    &&& c.open_index < c.close_index <= s.len()
    &&& l.root1.candle_index < c.open_index <= limit_eff
    &&& intersects_spec(l, s[c.open_index as int])
    &&& c.t == cross_type_spec(l, s, c.open_index as int, c.close_index as int)
}

/// What `span_ok` packs, unfolded for callers.
pub proof fn lemma_span_ok_parts(s: Seq<Candle>, l: Line, limit_eff: int, c: LineCross)
    requires
        span_ok(s, l, limit_eff, c),
    ensures
        c.open_index < c.close_index <= s.len(),
        l.root1.candle_index < c.open_index <= limit_eff,
        intersects_spec(l, s[c.open_index as int]),
        c.t == cross_type_spec(l, s, c.open_index as int, c.close_index as int),
{
    reveal(span_ok);
}

/// Packs the clauses of one reported span.
proof fn lemma_span_ok_intro(s: Seq<Candle>, l: Line, limit_eff: int, c: LineCross)
    requires
        c.open_index < c.close_index <= s.len(),
        l.root1.candle_index < c.open_index <= limit_eff,
        intersects_spec(l, s[c.open_index as int]),
        c.t == cross_type_spec(l, s, c.open_index as int, c.close_index as int),
    ensures
        span_ok(s, l, limit_eff, c),
{
    reveal(span_ok);
}

/// A shorter walked range stays clear.
proof fn lemma_walk_shrink(s: Seq<Candle>, l: Line, crosses: Seq<LineCross>, lo: int, hi: int,
    hi2: int)
    requires
        walk_clear(s, l, crosses, lo, hi),
        hi2 <= hi,
    ensures
        walk_clear(s, l, crosses, lo, hi2),
    decreases crosses.len(),
{
    reveal(walk_clear);
    if crosses.len() > 0 {
        lemma_walk_shrink(s, l, crosses.skip(1), crosses[0].close_index as int, hi, hi2);
    }
}

/// An empty walk over an empty range is clear.
proof fn lemma_walk_empty(s: Seq<Candle>, l: Line, lo: int, hi: int)
    requires
        hi <= lo,
    ensures
        walk_clear(s, l, Seq::<LineCross>::empty(), lo, hi),
{
    reveal(walk_clear);
}

/// One step of the cross walk: either skips a clear candle or collects the
/// span it opens.  Each reported span satisfies `span_ok`; spans stay
/// ordered and disjoint; and the walked range stays clear outside them.
#[verifier::rlimit(100)]
fn scan_step(candles: &Candles, trend_line: &TrendLine, limit_eff: usize,
    crosses: &mut Vec<LineCross>, index: usize) -> (next: usize)
    requires
        all_candles_ok(candles@),
        trend_line.line.wf(),
        candles@.len() <= 0x7fffffff,
        limit_eff < candles@.len(),
        trend_line.line.root1.candle_index < index <= limit_eff,
        forall|i: int|
            0 <= i < old(crosses)@.len() ==> span_ok(candles@, trend_line.line,
                limit_eff as int, #[trigger] old(crosses)@[i]),
        forall|i: int|
            0 <= i < old(crosses)@.len() - 1 ==> (#[trigger] old(crosses)@[i]).close_index < old(
                crosses)@[i + 1].open_index,
        walk_clear(candles@, trend_line.line, old(crosses)@,
            trend_line.line.root1.candle_index + 1, vstd::math::min(index as int,
            limit_eff + 1)),
        old(crosses)@.len() > 0 ==> old(crosses)@.last().close_index < index,
    ensures
        index < next,
        forall|i: int|
            0 <= i < final(crosses)@.len() ==> span_ok(candles@, trend_line.line,
                limit_eff as int, #[trigger] final(crosses)@[i]),
        forall|i: int|
            0 <= i < final(crosses)@.len() - 1 ==> (#[trigger] final(crosses)@[i]).close_index
                < final(crosses)@[i + 1].open_index,
        walk_clear(candles@, trend_line.line, final(crosses)@,
            trend_line.line.root1.candle_index + 1, vstd::math::min(next as int,
            limit_eff + 1)),
        final(crosses)@.len() > 0 ==> final(crosses)@.last().close_index < next,
{
    let candle = candles.first_at(index);
    proof {
        assert(candle_ok(candles@[index as int]));
    }
    if trend_line.line.intersects(&candle) {
        let cross = collect(candles, &trend_line.line, index, index + 1, 0);
        let next = cross.close_index + 1;
        let ghost before = crosses@;
        crosses.push(cross);
        proof {
            let l = trend_line.line;
            lemma_span_ok_intro(candles@, l, limit_eff as int, cross);
            assert forall|i: int|
                0 <= i < crosses@.len() implies span_ok(candles@, l, limit_eff as int,
                #[trigger] crosses@[i]) by {
                if i < crosses@.len() - 1 {
                    assert(crosses@[i] == before[i]);
                } else {
                    assert(crosses@[i] == cross);
                }
            }
            assert forall|i: int|
                0 <= i < crosses@.len() - 1 implies (#[trigger] crosses@[i]).close_index
                    < crosses@[i + 1].open_index by {
                if i < crosses@.len() - 2 {
                    assert(crosses@[i] == before[i] && crosses@[i + 1] == before[i + 1]);
                } else {
                    assert(crosses@[i] == before.last() && crosses@[i + 1] == cross);
                }
            }
            lemma_walk_append(candles@, l, before, l.root1.candle_index + 1, cross);
            if cross.close_index <= limit_eff {
                lemma_walk_grow(candles@, l, crosses@, l.root1.candle_index + 1,
                    cross.close_index as int);
                lemma_walk_shrink(candles@, l, crosses@, l.root1.candle_index + 1,
                    cross.close_index + 1, vstd::math::min(next as int, limit_eff + 1));
            } else {
                lemma_walk_shrink(candles@, l, crosses@, l.root1.candle_index + 1,
                    cross.close_index as int, vstd::math::min(next as int, limit_eff + 1));
            }
        }
        next
    } else {
        proof {
            lemma_walk_grow(candles@, trend_line.line, crosses@,
                trend_line.line.root1.candle_index + 1, index as int);
            lemma_walk_shrink(candles@, trend_line.line, crosses@,
                trend_line.line.root1.candle_index + 1, index + 1, vstd::math::min(
                index + 1 as int, limit_eff + 1));
        }
        index + 1
    }
}

/// Walks the candles after a trend line's second root and collects every
/// cross span, in order and disjoint, each satisfying `span_ok`: in
/// bounds, opened strictly after the roots and at or before the limit,
/// pierced at its open, and classified by its entry and exit signs.
/// Outside the spans the walked range is clear: every pierced candle up to
/// the limit lies inside some span (`lemma_walk_clear_covers`).
#[verifier::rlimit(100)]
pub fn generate_crosses(candles: &Candles, trend_line: &TrendLine, limit: Option<usize>) -> (r:
    Vec<LineCross>)
    requires
        all_candles_ok(candles@),
        trend_line.line.wf(),
        candles@.len() <= 0x7fffffff,
        candles@.len() > 0,
    ensures
        forall|i: int|
            0 <= i < r@.len() ==> span_ok(candles@, trend_line.line, cross_limit(
                candles@.len() as int, limit), #[trigger] r@[i]),
        forall|i: int|
            0 <= i < r@.len() - 1 ==> (#[trigger] r@[i]).close_index < r@[i + 1].open_index,
        walk_clear(candles@, trend_line.line, r@, trend_line.line.root1.candle_index + 1,
            cross_limit(candles@.len() as int, limit) + 1),
{
    let n = candles.len();
    let limit_eff = match limit {
        Some(l) => if l < n - 1 {
            l
        } else {
            n - 1
        },
        None => n - 1,
    };
    let mut crosses: Vec<LineCross> = Vec::new();
    let start = trend_line.line.root1.candle_index;
    let mut index = if start < usize::MAX {
        start + 1
    } else {
        proof {
            lemma_walk_empty(candles@, trend_line.line, start + 1, limit_eff + 1);
        }
        return crosses;
    };
    proof {
        lemma_walk_empty(candles@, trend_line.line, start + 1, vstd::math::min(index as int,
            limit_eff + 1));
    }
    while index <= limit_eff
        invariant
            all_candles_ok(candles@),
            trend_line.line.wf(),
            n == candles@.len() <= 0x7fffffff,
            limit_eff < n,
            limit_eff == cross_limit(n as int, limit),
            start == trend_line.line.root1.candle_index,
            start + 1 <= index,
            forall|i: int|
                0 <= i < crosses@.len() ==> span_ok(candles@, trend_line.line,
                    limit_eff as int, #[trigger] crosses@[i]),
            forall|i: int|
                0 <= i < crosses@.len() - 1 ==> (#[trigger] crosses@[i]).close_index < crosses@[i
                    + 1].open_index,
            walk_clear(candles@, trend_line.line, crosses@, start + 1, vstd::math::min(
                index as int, limit_eff + 1)),
            crosses@.len() > 0 ==> crosses@.last().close_index < index,
        decreases vstd::math::max(0, limit_eff + 1 - index),
    {
        index = scan_step(candles, trend_line, limit_eff, &mut crosses, index);
    }
    proof {
        assert(vstd::math::min(index as int, limit_eff + 1) == limit_eff + 1);
    }
    crosses
}

} // verus!
