//! Gap detection: the expected timestamp grid of a query's range, the
//! timestamps no stored candle covers, and their grouping into maximal
//! contiguous half-open ranges.

use vstd::prelude::*;
use vstd::arithmetic::div_mod::{lemma_fundamental_div_mod, lemma_div_plus_one, lemma_div_by_self,
    lemma_small_mod, lemma_sub_mod_noop, lemma_mod_add_multiples_vanish, lemma_mod_self_0,
    lemma_mod_multiples_basic};
use core::ops::Range;
use crate::candle::Candle;
use crate::query::{Query, MAX_TS};
use crate::store::{CandleStore, has_ts};

verus! {

/// The `k`-th expected timestamp of a grid.
pub open spec fn grid_slot(start: int, step: int, k: int) -> int {
    start + k * step
}

/// The timestamps among the first `n` grid slots that no stored candle
/// opens at, in ascending order.
pub open spec fn missing_upto(s: Seq<Candle>, start: int, step: int, n: int) -> Seq<i64>
    decreases n,
{
    if n <= 0 {
        Seq::empty()
    } else {
        missing_upto(s, start, step, n - 1) + if has_ts(s, grid_slot(start, step, n - 1)) {
            Seq::empty()
        } else {
            seq![grid_slot(start, step, n - 1) as i64]
        }
    }
}

/// How many of the first `n` grid slots some stored candle opens at.
pub open spec fn present_upto(s: Seq<Candle>, start: int, step: int, n: int) -> int
    decreases n,
{
    if n <= 0 {
        0
    } else {
        present_upto(s, start, step, n - 1) + if has_ts(s, grid_slot(start, step, n - 1)) {
            1int
        } else {
            0int
        }
    }
}

impl Query {
    /// The missing timestamps of this query's whole range; empty when the
    /// range spans no slot.
    pub open spec fn missing_spec(self, s: Seq<Candle>) -> Seq<i64> {
        match (self.start_opt, self.end_opt) {
            (Some(st), Some(e)) => if st < e {
                missing_upto(s, st as int, self.step as int, self.num_candles_spec())
            } else {
                Seq::empty()
            },
            _ => Seq::empty(),
        }
    }
}

/// Missing plus present slots account for every slot of the grid: with `k`
/// persisted timestamps inside a range of `n` slots, exactly `n - k`
/// timestamps are reported missing.
pub proof fn lemma_gap_count(s: Seq<Candle>, start: int, step: int, n: int)
    requires
        0 <= n,
    ensures
        missing_upto(s, start, step, n).len() + present_upto(s, start, step, n) == n,
        0 <= present_upto(s, start, step, n) <= n,
    decreases n,
{
    if n > 0 {
        lemma_gap_count(s, start, step, n - 1);
    }
}

/// Every reported timestamp is a missing grid slot; they ascend by at least
/// one step; and every missing grid slot is reported.
pub proof fn lemma_missing_upto_props(s: Seq<Candle>, start: int, step: int, n: int)
    requires
        0 < step,
        0 <= start,
        0 <= n,
        start + n * step <= MAX_TS,
    ensures
        forall|i: int|
            0 <= i < missing_upto(s, start, step, n).len() ==> start <= #[trigger] missing_upto(
                s, start, step, n)[i] as int && missing_upto(s, start, step, n)[i] + step <= start
                + n * step,
        forall|i: int|
            0 <= i < missing_upto(s, start, step, n).len() ==> (#[trigger] missing_upto(s, start,
            step, n)[i] as int - start) % step == 0,
        forall|i: int|
            0 <= i < missing_upto(s, start, step, n).len() ==> !has_ts(
                s, #[trigger] missing_upto(s, start, step, n)[i] as int),
        forall|i: int, j: int|
            0 <= i < j < missing_upto(s, start, step, n).len() ==> #[trigger] missing_upto(
                s, start, step, n)[i] + step <= #[trigger] missing_upto(s, start, step, n)[j],
        forall|k: int|
            0 <= k < n && !has_ts(s, grid_slot(start, step, k)) ==> missing_upto(
                s, start, step, n).contains(grid_slot(start, step, k) as i64),
    decreases n,
{
    if n > 0 {
        assert((n - 1) * step <= n * step && 0 <= (n - 1) * step && (n - 1) * step + step == n
            * step) by (nonlinear_arith)
            requires
                0 < step,
                1 <= n,
        ;
        lemma_missing_upto_props(s, start, step, n - 1);
        let m = missing_upto(s, start, step, n);
        let pre = missing_upto(s, start, step, n - 1);
        let t = grid_slot(start, step, n - 1);
        assert((t - start) % step == 0) by {
            lemma_mod_multiples_basic(n - 1, step);
        }
        assert forall|i: int, j: int| 0 <= i < j < m.len() implies #[trigger] m[i] + step
            <= #[trigger] m[j] by {
            if j < pre.len() {
            } else {
                assert(m[j] == t as i64);
                assert(pre[i] + step <= start + (n - 1) * step);
            }
        }
        assert forall|k: int| 0 <= k < n && !has_ts(s, grid_slot(start, step, k)) implies m
            .contains(grid_slot(start, step, k) as i64) by {
            if k < n - 1 {
                assert(pre.contains(grid_slot(start, step, k) as i64));
                let idx = choose|idx: int|
                    0 <= idx < pre.len() && pre[idx] == grid_slot(start, step, k) as i64;
                assert(m[idx] == pre[idx]);
            } else {
                assert(m[m.len() - 1] == t as i64);
            }
        }
    }
}

/// Groups a sorted sequence of missing timestamps into maximal contiguous
/// runs, each written as a half-open pair `(first, last + step)`.
pub open spec fn group_pairs(ts: Seq<i64>, step: int) -> Seq<(int, int)>
    decreases ts.len(),
{
    if ts.len() == 0 {
        Seq::empty()
    } else {
        let p = group_pairs(ts.drop_last(), step);
        let t = ts.last() as int;
        if p.len() > 0 && p.last().1 == t {
            p.update(p.len() - 1, (p.last().0, t + step))
        } else {
            p.push((t, t + step))
        }
    }
}

/// Total number of grid slots the groups cover.
pub open spec fn sum_slots(p: Seq<(int, int)>, step: int) -> int
    decreases p.len(),
{
    if p.len() == 0 {
        0
    } else {
        sum_slots(p.drop_last(), step) + (p.last().1 - p.last().0) / step
    }
}

/// A sequence of missing timestamps suitable for grouping: aligned to the
/// grid, inside the range, ascending by at least one step.
pub open spec fn groupable(ts: Seq<i64>, step: int, start0: int, end_b: int) -> bool {
    &&& 0 < step
    &&& 0 <= start0
    &&& end_b <= MAX_TS
    &&& forall|i: int|
        0 <= i < ts.len() ==> start0 <= #[trigger] ts[i] as int && ts[i] + step <= end_b
    &&& forall|i: int| 0 <= i < ts.len() ==> ((#[trigger] ts[i]) as int - start0) % step == 0
    &&& forall|i: int, j: int| 0 <= i < j < ts.len() ==> #[trigger] ts[i] + step <= #[trigger] ts[j]
}

/// The grouping of a sorted missing sequence is exactly the set of maximal
/// contiguous runs: groups are non-empty, aligned, ordered and separated;
/// every missing timestamp lies in a group together with its whole slot;
/// every slot inside a group is a missing timestamp; and the group widths
/// sum back to the number of missing timestamps.
#[verifier::rlimit(100)]
pub proof fn lemma_group_pairs_props(ts: Seq<i64>, step: int, start0: int, end_b: int)
    requires
        groupable(ts, step, start0, end_b),
    ensures
        (group_pairs(ts, step).len() == 0) <==> (ts.len() == 0),
        ts.len() > 0 ==> group_pairs(ts, step)[0].0 == ts[0] as int && group_pairs(
            ts, step).last().1 == ts.last() + step,
        forall|g: int|
            0 <= g < group_pairs(ts, step).len() ==> start0 <= (#[trigger] group_pairs(
                ts, step)[g]).0 && group_pairs(ts, step)[g].1 <= end_b && group_pairs(
                ts, step)[g].0 + step <= group_pairs(ts, step)[g].1,
        forall|g: int|
            0 <= g < group_pairs(ts, step).len() ==> ((#[trigger] group_pairs(ts, step)[g]).0
                - start0) % step == 0 && (group_pairs(ts, step)[g].1 - group_pairs(
                ts, step)[g].0) % step == 0,
        forall|g1: int, g2: int|
            0 <= g1 < g2 < group_pairs(ts, step).len() ==> (#[trigger] group_pairs(
                ts, step)[g1]).1 < (#[trigger] group_pairs(ts, step)[g2]).0,
        forall|i: int|
            0 <= i < ts.len() ==> exists|g: int|
                0 <= g < group_pairs(ts, step).len() && (#[trigger] group_pairs(ts, step)[g]).0
                    <= #[trigger] ts[i] as int && ts[i] + step <= group_pairs(ts, step)[g].1,
        forall|g: int, x: int|
            0 <= g < group_pairs(ts, step).len() && (#[trigger] group_pairs(ts, step)[g]).0 <= x
                < group_pairs(ts, step)[g].1 && #[trigger] ((x - group_pairs(ts, step)[g].0)
                % step) == 0 ==> ts.contains(x as i64),
        sum_slots(group_pairs(ts, step), step) == ts.len(),
    decreases ts.len(),
{
    if ts.len() > 0 {
        let pre = ts.drop_last();
        assert(groupable(pre, step, start0, end_b)) by {
            assert(forall|i: int| 0 <= i < pre.len() ==> pre[i] == ts[i]);
        }
        lemma_group_pairs_props(pre, step, start0, end_b);
        let p0 = group_pairs(pre, step);
        let p = group_pairs(ts, step);
        let t = ts.last() as int;
        assert((t - start0) % step == 0);
        if p0.len() > 0 && p0.last().1 == t {
            // The new timestamp extends the last run by one slot.
            let li = p0.len() - 1;
            let a = p0.last().0;
            assert(p == p0.update(li, (a, t + step)));
            assert(p.len() == p0.len());
            assert(p.last() == (a, t + step));
            assert(forall|g: int| 0 <= g < li ==> p[g] == p0[g]);
            assert(((t + step) - a) % step == 0) by {
                lemma_mod_add_multiples_vanish(t - a, step);
            }
            assert forall|g: int| 0 <= g < p.len() implies start0 <= (#[trigger] p[g]).0
                && p[g].1 <= end_b && p[g].0 + step <= p[g].1 by {
                if g == li {
                    assert(p0[g].0 + step <= p0[g].1);
                }
            }
            assert forall|i: int| 0 <= i < ts.len() implies exists|g: int|
                0 <= g < p.len() && (#[trigger] p[g]).0 <= #[trigger] ts[i] as int && ts[i] + step
                    <= p[g].1 by {
                if i < ts.len() - 1 {
                    assert(pre[i] == ts[i]);
                    let g = choose|g: int|
                        0 <= g < p0.len() && (#[trigger] p0[g]).0 <= pre[i] as int && pre[i] + step
                            <= p0[g].1;
                    assert(p[g].0 <= ts[i] as int && ts[i] + step <= p[g].1);
                } else {
                    assert(p[li].0 <= t && t + step <= p[li].1) by {
                        assert(a + step <= p0[li].1);
                    }
                }
            }
            assert forall|g: int, x: int|
                0 <= g < p.len() && (#[trigger] p[g]).0 <= x < p[g].1 && #[trigger] ((x - p[g].0)
                    % step) == 0 implies ts.contains(x as i64) by {
                if g < li {
                    assert(pre.contains(x as i64));
                    let idx = choose|idx: int| 0 <= idx < pre.len() && pre[idx] == x as i64;
                    assert(ts[idx] == x as i64);
                } else {
                    if x < t {
                        assert(p0[li].0 <= x < p0[li].1);
                        assert(pre.contains(x as i64));
                        let idx = choose|idx: int| 0 <= idx < pre.len() && pre[idx] == x as i64;
                        assert(ts[idx] == x as i64);
                    } else {
                        assert((t - a) % step == 0);
                        assert((x - t) % step == 0) by {
                            lemma_sub_mod_noop(x - a, t - a, step);
                            assert(((x - a) % step - (t - a) % step) % step == ((x - a) - (t - a))
                                % step);
                            assert((x - a) % step == 0 && (t - a) % step == 0);
                            assert((x - a) - (t - a) == x - t);
                            assert((0int - 0int) % step == 0) by {
                                lemma_small_mod(0 as nat, step as nat);
                            }
                        }
                        assert(0 <= x - t < step);
                        assert((x - t) % step == x - t) by {
                            lemma_small_mod((x - t) as nat, step as nat);
                        }
                        assert(x == t);
                        assert(ts[ts.len() - 1] == x as i64);
                    }
                }
            }
            assert(sum_slots(p, step) == ts.len()) by {
                assert(p.drop_last() =~= p0.drop_last());
                assert(((t + step) - a) / step == (t - a) / step + 1) by {
                    lemma_div_plus_one(t - a, step);
                }
            }
        } else {
            // The new timestamp opens a run of its own.
            assert(p == p0.push((t, t + step)));
            let li = p0.len() as int;
            assert(p.last() == (t, t + step));
            assert(forall|g: int| 0 <= g < li ==> p[g] == p0[g]);
            assert(((t + step) - t) % step == 0) by {
                lemma_mod_multiples_basic(1, step);
            }
            assert(step / step == 1) by {
                lemma_div_by_self(step);
            }
            if p0.len() > 0 {
                // The previous run ends strictly before the new one starts.
                assert(p0.last().1 == pre.last() + step);
                assert(pre.last() + step <= t) by {
                    assert(ts[ts.len() - 2] + step <= ts[ts.len() - 1]);
                }
                assert(p0.last().1 < t || p0.last().1 == t);
                assert(p0.last().1 != t);
                assert forall|g1: int, g2: int| 0 <= g1 < g2 < p.len() implies (#[trigger] p[g1]).1
                    < (#[trigger] p[g2]).0 by {
                    if g2 < li {
                    } else {
                        if g1 < li - 1 {
                            assert(p0[g1].1 < p0[li - 1].0);
                            assert(p0[li - 1].0 + step <= p0[li - 1].1);
                        } else {
                            assert(p[g1] == p0[li - 1]);
                        }
                    }
                }
            }
            assert forall|i: int| 0 <= i < ts.len() implies exists|g: int|
                0 <= g < p.len() && (#[trigger] p[g]).0 <= #[trigger] ts[i] as int && ts[i] + step
                    <= p[g].1 by {
                if i < ts.len() - 1 {
                    assert(pre[i] == ts[i]);
                    let g = choose|g: int|
                        0 <= g < p0.len() && (#[trigger] p0[g]).0 <= pre[i] as int && pre[i] + step
                            <= p0[g].1;
                    assert(p[g].0 <= ts[i] as int && ts[i] + step <= p[g].1);
                } else {
                    assert(p[li].0 <= t && t + step <= p[li].1);
                }
            }
            assert forall|g: int, x: int|
                0 <= g < p.len() && (#[trigger] p[g]).0 <= x < p[g].1 && #[trigger] ((x - p[g].0)
                    % step) == 0 implies ts.contains(x as i64) by {
                if g < li {
                    assert(pre.contains(x as i64));
                    let idx = choose|idx: int| 0 <= idx < pre.len() && pre[idx] == x as i64;
                    assert(ts[idx] == x as i64);
                } else {
                    assert(t <= x < t + step);
                    assert((x - t) % step == x - t) by {
                        lemma_small_mod((x - t) as nat, step as nat);
                    }
                    assert(x == t);
                    assert(ts[ts.len() - 1] == x as i64);
                }
            }
            assert(sum_slots(p, step) == ts.len()) by {
                assert(p.drop_last() =~= p0);
            }
        }
    }
}

/// Matches a vector of half-open ranges against its mathematical pairs.
pub open spec fn ranges_match(rs: Seq<Range<i64>>, ps: Seq<(int, int)>) -> bool {
    rs.len() == ps.len() && forall|i: int|
        0 <= i < rs.len() ==> (#[trigger] rs[i]).start == ps[i].0 && rs[i].end == ps[i].1
}

impl Query {
    /// The missing timestamps of the stored series over this query's range,
    /// in ascending order; empty when the range spans no slot.
    pub fn missing_candles_ungrouped(&self, store: &CandleStore) -> (r: Vec<i64>)
        requires
            self.wf(),
            store.wf(),
        ensures
            r@ == self.missing_spec(store@),
    {
        let mut result: Vec<i64> = Vec::new();
        let (start, end) = match (self.start(), self.end()) {
            (Some(s), Some(e)) => (s, e),
            _ => {
                return result;
            },
        };
        if start >= end {
            return result;
        }
        let n = self.num_candles();
        let step = self.step();
        proof {
            lemma_fundamental_div_mod(end - start, step as int);
            assert(0 <= (end - start) % (step as int) < step) by (nonlinear_arith)
                requires
                    0 < step,
                    0 <= end - start,
            ;
        }
        let ghost sv = store@;
        let mut k: usize = 0;
        let mut t: i64 = start;
        while k < n
            invariant
                store.wf(),
                sv == store@,
                0 <= start,
                end <= MAX_TS,
                0 < step,
                k <= n,
                t == start + k * step,
                start + n * step <= end,
                result@ == missing_upto(sv, start as int, step as int, k as int),
            decreases n - k,
        {
            proof {
                assert(k * step + step == (k + 1) * step) by (nonlinear_arith);
                assert((k + 1) * step <= n * step) by (nonlinear_arith)
                    requires
                        k + 1 <= n,
                        0 < step,
                ;
                assert(0 <= k * step) by (nonlinear_arith)
                    requires
                        0 <= k,
                        0 < step,
                ;
            }
            if !store.has(t) {
                result.push(t);
            }
            t = t + step;
            k = k + 1;
        }
        result
    }

    /// Whether any timestamp of the range is missing from the store.
    pub fn is_missing_candles(&self, store: &CandleStore) -> (r: bool)
        requires
            self.wf(),
            store.wf(),
        ensures
            r == (self.missing_spec(store@).len() > 0),
    {
        let missing = self.missing_candles_ungrouped(store);
        missing.len() > 0
    }

    /// Groups the missing timestamps into maximal contiguous half-open
    /// ranges: a new group starts wherever the previous missing timestamp
    /// is not exactly one step earlier.
    pub fn missing_candles(&self, store: &CandleStore) -> (r: Vec<Range<i64>>)
        requires
            self.wf(),
            store.wf(),
        ensures
            ranges_match(r@, group_pairs(self.missing_spec(store@), self.spec_step())),
    {
        let missing = self.missing_candles_ungrouped(store);
        let step = self.step();
        let ghost ms = missing@;
        proof {
            self.lemma_missing_spec_groupable(store@);
            assert(ms.take(0) =~= Seq::<i64>::empty());
        }
        let mut result: Vec<Range<i64>> = Vec::new();
        let n = missing.len();
        let mut i: usize = 0;
        while i < n
            invariant
                i <= n == ms.len(),
                groupable(ms, self.spec_step(), self.group_start0(), self.group_end0()),
                step == self.spec_step(),
                ranges_match(result@, group_pairs(ms.take(i as int), step as int)),
                missing@ == ms,
            decreases n - i,
        {
            let t = missing[i];
            proof {
                let prefix = ms.take(i as int);
                let ext = ms.take(i + 1 as int);
                assert(ext.drop_last() =~= prefix);
                assert(ext.last() == ms[i as int]);
                lemma_group_pairs_props(prefix, step as int, self.group_start0(),
                    self.group_end0());
                assert(forall|j: int| 0 <= j < prefix.len() ==> prefix[j] == ms[j]);
            }
            let rn = result.len();
            if rn > 0 && result[rn - 1].end == t {
                let prev = result.pop().unwrap();
                result.push(prev.start..t + step);
            } else {
                result.push(t..t + step);
            }
            i = i + 1;
        }
        proof {
            assert(ms.take(n as int) =~= ms);
        }
        result
    }

    /// The lower grid anchor used by the grouping facts.
    pub open spec fn group_start0(self) -> int {
        match self.start_opt {
            Some(s) => s as int,
            None => 0,
        }
    }

    /// The upper bound used by the grouping facts.
    pub open spec fn group_end0(self) -> int {
        match self.end_opt {
            Some(e) => e as int,
            None => 0,
        }
    }

    /// The missing sequence of a well-formed query is groupable.
    pub proof fn lemma_missing_spec_groupable(self, s: Seq<Candle>)
        requires
            self.wf(),
        ensures
            groupable(self.missing_spec(s), self.spec_step(), self.group_start0(),
                self.group_end0()),
    {
        let m = self.missing_spec(s);
        let step = self.spec_step();
        match (self.start_opt, self.end_opt) {
            (Some(st), Some(e)) => {
                if st < e {
                    let n = self.num_candles_spec();
                    lemma_fundamental_div_mod(e - st, step);
                    assert(0 <= (e - st) % step < step) by (nonlinear_arith)
                        requires
                            0 < step,
                            0 <= e - st,
                    ;
                    lemma_missing_upto_props(s, st as int, step, n);
                    assert(groupable(m, step, st as int, st + n * step)) by {
                        assert(forall|i: int|
                            0 <= i < m.len() ==> st <= #[trigger] m[i] as int && m[i] + step <= st
                                + n * step);
                    }
                    assert(st + n * step <= e);
                } else {
                    assert(m.len() == 0);
                }
            },
            _ => {
                assert(m.len() == 0);
            },
        }
    }
}

/// The grid timestamps among the first `n` slots that no row of a present
/// list covers.
pub open spec fn ma_missing_upto(pres: Seq<i64>, start: int, step: int, n: int) -> Seq<i64>
    decreases n,
{
    if n <= 0 {
        Seq::empty()
    } else {
        ma_missing_upto(pres, start, step, n - 1) + if pres.contains(
            grid_slot(start, step, n - 1) as i64) {
            Seq::empty()
        } else {
            seq![grid_slot(start, step, n - 1) as i64]
        }
    }
}

impl Query {
    /// The missing moving-average timestamps of the range, given the
    /// moving-average rows already present; requires a length and kind to
    /// be set, as the rows are keyed by them.
    pub open spec fn missing_ma_spec(self, pres: Seq<i64>) -> Seq<i64> {
        match (self.start_opt, self.end_opt) {
            (Some(st), Some(e)) => if st < e {
                ma_missing_upto(pres, st as int, self.step as int, self.num_candles_spec())
            } else {
                Seq::empty()
            },
            _ => Seq::empty(),
        }
    }

    /// Lists the grid timestamps with no moving-average row yet.
    pub fn missing_ma_ungrouped(&self, present_ms: &Vec<i64>) -> (r: Vec<i64>)
        requires
            self.wf(),
            self.spec_len() is Some,
            self.spec_exp() is Some,
        ensures
            r@ == self.missing_ma_spec(present_ms@),
    {
        let mut result: Vec<i64> = Vec::new();
        let (start, end) = match (self.start(), self.end()) {
            (Some(s), Some(e)) => (s, e),
            _ => {
                return result;
            },
        };
        if start >= end {
            return result;
        }
        let n = self.num_candles();
        let step = self.step();
        proof {
            lemma_fundamental_div_mod(end - start, step as int);
            assert(0 <= (end - start) % (step as int) < step) by (nonlinear_arith)
                requires
                    0 < step,
                    0 <= end - start,
            ;
        }
        let ghost pv = present_ms@;
        let mut k: usize = 0;
        let mut t: i64 = start;
        while k < n
            invariant
                pv == present_ms@,
                0 <= start,
                end <= MAX_TS,
                0 < step,
                k <= n,
                t == start + k * step,
                start + n * step <= end,
                result@ == ma_missing_upto(pv, start as int, step as int, k as int),
            decreases n - k,
        {
            proof {
                assert(k * step + step == (k + 1) * step) by (nonlinear_arith);
                assert((k + 1) * step <= n * step) by (nonlinear_arith)
                    requires
                        k + 1 <= n,
                        0 < step,
                ;
                assert(0 <= k * step) by (nonlinear_arith)
                    requires
                        0 <= k,
                        0 < step,
                ;
            }
            if !vec_has_ms(present_ms, t) {
                result.push(t);
            }
            t = t + step;
            k = k + 1;
        }
        result
    }
}

/// Whether a present-timestamp list holds an instant.
fn vec_has_ms(v: &Vec<i64>, t: i64) -> (r: bool)
    ensures
        r == v@.contains(t),
{
    let n = v.len();
    let mut i: usize = 0;
    while i < n
        invariant
            i <= n == v@.len(),
            forall|k: int| 0 <= k < i ==> v@[k] != t,
        decreases n - i,
    {
        if v[i] == t {
            return true;
        }
        i = i + 1;
    }
    false
}


/// The gap detector's count law: over a range of `n` slots holding `k`
/// persisted timestamps, `n - k` timestamps are reported missing, and the
/// group widths cover exactly those timestamps.
pub proof fn lemma_gap_detector_total(q: Query, s: Seq<Candle>)
    requires
        q.wf(),
        q.start_opt is Some,
        q.end_opt is Some,
        (q.start_opt.unwrap() as int) < q.end_opt.unwrap(),
    ensures
        q.missing_spec(s).len() == q.num_candles_spec() - present_upto(s,
            q.start_opt.unwrap() as int, q.spec_step(), q.num_candles_spec()),
        sum_slots(group_pairs(q.missing_spec(s), q.spec_step()), q.spec_step())
            == q.missing_spec(s).len(),
{
    let st = q.start_opt.unwrap() as int;
    let e = q.end_opt.unwrap() as int;
    let step = q.spec_step();
    let n = q.num_candles_spec();
    lemma_fundamental_div_mod(e - st, step);
    assert(0 <= (e - st) % step < step) by (nonlinear_arith)
        requires
            0 < step,
            0 <= e - st,
    ;
    lemma_gap_count(s, st, step, n);
    q.lemma_missing_spec_groupable(s);
    lemma_group_pairs_props(q.missing_spec(s), step, q.group_start0(), q.group_end0());
}

/// Grouping minimality: two adjacent missing timestamps always land inside
/// one group, and a group never reaches across a non-adjacent pair.
pub proof fn lemma_grouping_minimality(ts: Seq<i64>, step: int, start0: int, end_b: int)
    requires
        groupable(ts, step, start0, end_b),
    ensures
        forall|i: int|
            0 <= i < ts.len() - 1 && ts[i + 1] == #[trigger] ts[i] + step ==> exists|g: int|
                0 <= g < group_pairs(ts, step).len() && (#[trigger] group_pairs(ts, step)[g]).0
                    <= ts[i] as int && ts[i + 1] + step <= group_pairs(ts, step)[g].1,
        forall|i: int, g: int|
            0 <= i < ts.len() - 1 && ts[i + 1] > #[trigger] ts[i] + step && 0 <= g < group_pairs(
                ts, step).len() ==> !((#[trigger] group_pairs(ts, step)[g]).0 <= ts[i] as int
                && ts[i + 1] < group_pairs(ts, step)[g].1),
{
    lemma_group_pairs_props(ts, step, start0, end_b);
    let p = group_pairs(ts, step);
    assert forall|i: int| 0 <= i < ts.len() - 1 && ts[i + 1] == #[trigger] ts[i]
        + step implies exists|g: int|
        0 <= g < p.len() && (#[trigger] p[g]).0 <= ts[i] as int && ts[i + 1] + step
            <= p[g].1 by {
        let g = choose|g: int|
            0 <= g < p.len() && (#[trigger] p[g]).0 <= ts[i] as int && ts[i] + step <= p[g].1;
        let g2 = choose|g2: int|
            0 <= g2 < p.len() && (#[trigger] p[g2]).0 <= ts[i + 1] as int && ts[i + 1] + step
                <= p[g2].1;
        if g2 > g {
            assert(p[g].1 < p[g2].0);
        } else if g2 < g {
            assert(p[g2].1 < p[g].0);
            assert(p[g2].0 + step <= p[g2].1);
        }
        assert(g2 == g);
        assert(p[g].0 <= ts[i] as int && ts[i + 1] + step <= p[g].1);
    }
    assert forall|i: int, g: int|
        0 <= i < ts.len() - 1 && ts[i + 1] > #[trigger] ts[i] + step && 0 <= g
            < p.len() implies !((#[trigger] p[g]).0 <= ts[i] as int && ts[i + 1]
        < p[g].1) by {
        if p[g].0 <= ts[i] as int && ts[i + 1] < p[g].1 {
            let x = ts[i] + step;
            assert((ts[i] - start0) % step == 0);
            assert((p[g].0 - start0) % step == 0);
            assert((ts[i] - p[g].0) % step == 0) by {
                lemma_sub_mod_noop(ts[i] - start0, p[g].0 - start0, step);
                lemma_mod_self_0(step);
                lemma_small_mod(0, step as nat);
            }
            assert((x - p[g].0) % step == 0) by {
                lemma_mod_add_multiples_vanish(ts[i] - p[g].0, step);
            }
            assert(p[g].0 <= x < p[g].1);
            assert(ts.contains(x as i64));
            let j = choose|j: int| 0 <= j < ts.len() && ts[j] == x as i64;
            assert(ts[j] as int == x);
            if j <= i {
                if j < i {
                    assert(ts[j] + step <= ts[i]);
                }
            } else {
                if j > i + 1 {
                    assert(ts[i + 1] + step <= ts[j]);
                }
            }
        }
    }
}


} // verus!
