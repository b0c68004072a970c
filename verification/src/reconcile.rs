//! Reconciliation of a candle range: planning page-sized fetch windows,
//! inserting delivered candles idempotently with a bounded retry budget, and
//! interpolating or placeholding whatever remains, so that the range is
//! provably gapless afterwards.
//!
//! The network fetch itself happens outside the library: the `Reconciler`
//! hands out the next window to fetch and takes back the rows, fetched in
//! strictly ascending order, one window at a time.

use vstd::prelude::*;
use core::ops::Range;
use vstd::arithmetic::div_mod::{lemma_fundamental_div_mod, lemma_div_is_ordered,
    lemma_div_by_multiple, lemma_div_pos_is_pos};
use crate::candle::{Candle, interp_field};
use crate::query::{Query, MAX_TS, MAX_STEP};
use crate::store::{CandleStore, has_ts, keep_real, candle_ok, sorted_by_time,
    lemma_keep_real_props};
use crate::gaps::{grid_slot, missing_upto, lemma_missing_upto_props, group_pairs, ranges_match,
    groupable, lemma_group_pairs_props};

verus! {

/// The provider's page limit: one fetch window spans at most this many
/// candles.
pub const CANDLE_LIMIT: i64 = 500;

/// How many times the missing ranges are re-checked and re-fetched before
/// interpolation takes over.
pub const MAX_TRIES: u64 = 2;

/// Some stored candle opens strictly before `t`.
pub open spec fn has_earlier(s: Seq<Candle>, t: int) -> bool {
    exists|i: int| 0 <= i < s.len() && (#[trigger] s[i]).open_time < t
}

/// Some stored candle opens strictly after `t`.
pub open spec fn has_later(s: Seq<Candle>, t: int) -> bool {
    exists|i: int| 0 <= i < s.len() && (#[trigger] s[i]).open_time > t
}

/// Whether the fill for the `j`-th missing timestamp interpolates: by the
/// time it is filled, the slots before it are covered (by real data or by
/// earlier fills) and the series holds data after it; otherwise the fill is
/// a dead placeholder.
pub open spec fn fill_is_derived(base: Seq<Candle>, ms: Seq<i64>, j: int) -> bool {
    (j > 0 || has_earlier(base, ms[j] as int)) && has_later(base, ms[j] as int)
}

/// The stored candle opening latest strictly before `t`.
#[verifier::opaque]
pub open spec fn nearest_before(s: Seq<Candle>, t: int) -> Candle {
    s[choose|i: int|
        0 <= i < s.len() && s[i].open_time < t && forall|k: int|
            0 <= k < s.len() && #[trigger] s[k].open_time < t ==> s[k].open_time
                <= s[i].open_time]
}

/// The stored candle opening earliest strictly after `t`.
#[verifier::opaque]
pub open spec fn nearest_after(s: Seq<Candle>, t: int) -> Candle {
    s[choose|i: int|
        0 <= i < s.len() && s[i].open_time > t && forall|k: int|
            0 <= k < s.len() && #[trigger] s[k].open_time > t ==> s[k].open_time
                >= s[i].open_time]
}

/// A contained candle below `t` that no other below `t` exceeds is the
/// nearest one before `t`.
proof fn lemma_nearest_before_is(s: Seq<Candle>, t: int, c: Candle)
    requires
        sorted_by_time(s),
        s.contains(c),
        c.open_time < t,
        forall|k: int|
            0 <= k < s.len() && #[trigger] s[k].open_time < t ==> s[k].open_time <= c.open_time,
    ensures
        nearest_before(s, t) == c,
{
    reveal(nearest_before);
    let ci = choose|ci: int| 0 <= ci < s.len() && s[ci] == c;
    assert(0 <= ci < s.len() && s[ci].open_time < t && forall|k: int|
        0 <= k < s.len() && #[trigger] s[k].open_time < t ==> s[k].open_time
            <= s[ci].open_time);
    let i = choose|i: int|
        0 <= i < s.len() && s[i].open_time < t && forall|k: int|
            0 <= k < s.len() && #[trigger] s[k].open_time < t ==> s[k].open_time
                <= s[i].open_time;
    assert(s[i].open_time <= s[ci].open_time);
    assert(s[ci].open_time <= s[i].open_time);
    if i < ci {
        assert(s[i].open_time < s[ci].open_time);
    } else if ci < i {
        assert(s[ci].open_time < s[i].open_time);
    }
}

/// A contained candle above `t` that no other above `t` undercuts is the
/// nearest one after `t`.
proof fn lemma_nearest_after_is(s: Seq<Candle>, t: int, c: Candle)
    requires
        sorted_by_time(s),
        s.contains(c),
        c.open_time > t,
        forall|k: int|
            0 <= k < s.len() && #[trigger] s[k].open_time > t ==> s[k].open_time >= c.open_time,
    ensures
        nearest_after(s, t) == c,
{
    reveal(nearest_after);
    let ci = choose|ci: int| 0 <= ci < s.len() && s[ci] == c;
    assert(0 <= ci < s.len() && s[ci].open_time > t && forall|k: int|
        0 <= k < s.len() && #[trigger] s[k].open_time > t ==> s[k].open_time
            >= s[ci].open_time);
    let i = choose|i: int|
        0 <= i < s.len() && s[i].open_time > t && forall|k: int|
            0 <= k < s.len() && #[trigger] s[k].open_time > t ==> s[k].open_time
                >= s[i].open_time;
    assert(s[i].open_time >= s[ci].open_time);
    assert(s[ci].open_time >= s[i].open_time);
    if i < ci {
        assert(s[i].open_time < s[ci].open_time);
    } else if ci < i {
        assert(s[ci].open_time < s[i].open_time);
    }
}

/// An ordered series with something before `t` has a boundary: a last
/// element before `t`.
proof fn lemma_max_below_exists(s: Seq<Candle>, t: int)
    requires
        sorted_by_time(s),
        has_earlier(s, t),
    ensures
        exists|i: int|
            0 <= i < s.len() && (#[trigger] s[i]).open_time < t && (i + 1 == s.len() || s[i
                + 1].open_time >= t),
    decreases s.len(),
{
    let w = choose|w: int| 0 <= w < s.len() && (#[trigger] s[w]).open_time < t;
    if s.last().open_time < t {
        let i = s.len() - 1;
        assert(s[i].open_time < t && i + 1 == s.len());
    } else {
        let pre = s.drop_last();
        assert(w < s.len() - 1);
        assert(pre[w] == s[w]);
        assert(sorted_by_time(pre)) by {
            assert(forall|a: int| 0 <= a < pre.len() ==> pre[a] == s[a]);
        }
        assert(has_earlier(pre, t));
        lemma_max_below_exists(pre, t);
        let i = choose|i: int|
            0 <= i < pre.len() && (#[trigger] pre[i]).open_time < t && (i + 1 == pre.len()
                || pre[i + 1].open_time >= t);
        assert(s[i].open_time < t);
        if i + 1 == pre.len() {
            assert(s[i + 1].open_time >= t);
        } else {
            assert(s[i + 1] == pre[i + 1]);
        }
    }
}

/// Inserting a candle at or after `t` does not change the nearest candle
/// before `t`.
#[verifier::rlimit(100)]
proof fn lemma_nearest_before_stable(prev: Seq<Candle>, now: Seq<Candle>, k: int, cins: Candle,
    t: int)
    requires
        sorted_by_time(prev),
        sorted_by_time(now),
        0 <= k <= prev.len(),
        now == prev.insert(k, cins),
        cins.open_time >= t,
        has_earlier(prev, t),
    ensures
        nearest_before(now, t) == nearest_before(prev, t),
{
    lemma_max_below_exists(prev, t);
    let i = choose|i: int|
        0 <= i < prev.len() && (#[trigger] prev[i]).open_time < t && (i + 1 == prev.len()
            || prev[i + 1].open_time >= t);
    let c = prev[i];
    assert(prev.contains(c));
    assert forall|kk: int| 0 <= kk < prev.len() && #[trigger] prev[kk].open_time < t implies
        prev[kk].open_time <= c.open_time by {
        if kk > i {
            assert(prev[i + 1].open_time <= prev[kk].open_time);
        }
    }
    lemma_nearest_before_is(prev, t, c);
    assert(now.contains(c)) by {
        if i < k {
            assert(now[i] == c);
        } else {
            assert(now[i + 1] == c);
        }
    }
    assert forall|kk: int| 0 <= kk < now.len() && #[trigger] now[kk].open_time < t implies
        now[kk].open_time <= c.open_time by {
        if kk < k {
            assert(now[kk] == prev[kk]);
        } else if kk == k {
        } else {
            assert(now[kk] == prev[kk - 1]);
        }
    }
    lemma_nearest_before_is(now, t, c);
}

/// What a derived fill must carry: the time-weighted blend of its nearest
/// neighbours at fill time — to its left in the filled series (a real
/// candle or an earlier fill), to its right among the real candles.
#[verifier::opaque]
pub open spec fn fill_value_ok(filled: Seq<Candle>, base: Seq<Candle>, c: Candle) -> bool {
    let l = nearest_before(filled, c.open_time as int);
    let r = nearest_after(base, c.open_time as int);
    &&& c.open == interp_field(l.open as int, r.open as int, l.open_time as int,
        r.open_time as int, c.open_time as int)
    &&& c.high == interp_field(l.high as int, r.high as int, l.open_time as int,
        r.open_time as int, c.open_time as int)
    &&& c.low == interp_field(l.low as int, r.low as int, l.open_time as int,
        r.open_time as int, c.open_time as int)
    &&& c.close == interp_field(l.close as int, r.close as int, l.open_time as int,
        r.open_time as int, c.open_time as int)
    &&& c.volume == interp_field(l.volume as int, r.volume as int, l.open_time as int,
        r.open_time as int, c.open_time as int)
    &&& c.close_time == c.open_time + (l.close_time - l.open_time)
    &&& c.id == 0 && c.top_domain == 0 && c.bottom_domain == 0 && !c.fuzzy_domain && c.index == 0
    &&& !c.dead
}

/// What a dead placeholder must be: the zero candle at its instant,
/// spanning one step.
pub open spec fn dead_fill_ok(c: Candle, step: int) -> bool {
    c == (Candle {
        open_time: c.open_time,
        close_time: (c.open_time + step - 1) as i64,
        dead: true,
        ..Candle::default_spec()
    })
}

/// One more fill, inserted later than every earlier fill's instant, leaves
/// the earlier fills' blends intact.
#[verifier::rlimit(100)]
proof fn lemma_fill_values_step(prev: Seq<Candle>, now: Seq<Candle>, k: int, c: Candle,
    base: Seq<Candle>, t: int)
    requires
        sorted_by_time(prev),
        sorted_by_time(now),
        0 <= k <= prev.len(),
        now == prev.insert(k, c),
        c.open_time == t,
        forall|i: int|
            0 <= i < prev.len() && (#[trigger] prev[i]).derived ==> prev[i].open_time < t
                && has_earlier(prev, prev[i].open_time as int) && fill_value_ok(prev, base,
                prev[i]),
    ensures
        forall|i: int|
            0 <= i < now.len() && (#[trigger] now[i]).derived && now[i].open_time
                != c.open_time ==> fill_value_ok(now, base, now[i]),
{
    reveal(fill_value_ok);
    assert forall|i: int|
        0 <= i < now.len() && (#[trigger] now[i]).derived && now[i].open_time
            != c.open_time implies fill_value_ok(now, base, now[i]) by {
        if i == k {
            assert(now[i] == c);
        } else {
            let pi = if i < k {
                i
            } else {
                i - 1
            };
            assert(now[i] == prev[pi]);
            lemma_nearest_before_stable(prev, now, k, c, prev[pi].open_time as int);
        }
    }
}

impl Query {
    /// Whether `x` is one of the expected timestamps of this query's range.
    pub open spec fn in_grid(self, x: int) -> bool {
        exists|k: int|
            0 <= k < self.num_candles_spec() && x == grid_slot(self.group_start0(),
            self.spec_step(), k)
    }

    /// An aligned timestamp with room for a whole slot inside the range is a
    /// grid slot.
    proof fn lemma_slot_in_grid(self, x: int)
        requires
            self.wf(),
            self.start_opt is Some,
            self.end_opt is Some,
            (self.start_opt.unwrap() as int) < self.end_opt.unwrap(),
            self.group_start0() <= x,
            x + self.spec_step() <= self.group_start0() + self.num_candles_spec()
                * self.spec_step(),
            (x - self.group_start0()) % self.spec_step() == 0,
        ensures
            self.in_grid(x),
    {
        let st = self.group_start0();
        let step = self.spec_step();
        let n = self.num_candles_spec();
        let k = (x - st) / step;
        lemma_fundamental_div_mod(x - st, step);
        lemma_div_pos_is_pos(x - st, step);
        assert(step * k == k * step) by (nonlinear_arith);
        assert(x == grid_slot(st, step, k));
        assert(1 <= n) by (nonlinear_arith)
            requires
                0 < step,
                st <= x,
                x + step <= st + n * step,
        ;
        assert((n - 1) * step == n * step - step) by (nonlinear_arith);
        lemma_div_is_ordered(x - st, (n - 1) * step, step);
        lemma_div_by_multiple(n - 1, step);
        assert(k < n);
    }

    /// Deletes every transient fill, then hands every still-missing
    /// timestamp of the range a candle: the time-weighted blend of its
    /// nearest neighbours where both sides exist, a dead placeholder
    /// otherwise.  Afterwards the range is gapless.
    #[verifier::rlimit(100)]
    pub fn linear_regression(&self, store: &mut CandleStore)
        requires
            self.wf(),
            old(store).wf(),
        ensures
            final(store).wf(),
            forall|x: int|
                has_ts(final(store)@, x) <==> (has_ts(keep_real(old(store)@), x)
                    || self.in_grid(x)),
            forall|x: int| self.in_grid(x) ==> has_ts(final(store)@, x),
            forall|i: int|
                0 <= i < keep_real(old(store)@).len() ==> final(store)@.contains(
                    #[trigger] keep_real(old(store)@)[i]),
            forall|i: int, j: int|
                0 <= i < final(store)@.len() && 0 <= j < self.missing_spec(keep_real(
                    old(store)@)).len() && (#[trigger] final(store)@[i]).open_time
                    == #[trigger] self.missing_spec(keep_real(old(store)@))[j] ==> (
                final(store)@[i].derived <==> fill_is_derived(keep_real(old(store)@),
                    self.missing_spec(keep_real(old(store)@)), j)) && (final(store)@[i].dead
                    <==> !fill_is_derived(keep_real(old(store)@), self.missing_spec(
                    keep_real(old(store)@)), j)),
            forall|i: int|
                0 <= i < final(store)@.len() && (#[trigger] final(store)@[i]).derived
                    ==> fill_value_ok(final(store)@, keep_real(old(store)@),
                    final(store)@[i]),
            forall|i: int|
                0 <= i < final(store)@.len() && (#[trigger] final(store)@[i]).dead
                    ==> dead_fill_ok(final(store)@[i], self.spec_step()),
            final(store).unique_violations == old(store).unique_violations,
    {
        proof {
            lemma_keep_real_props(old(store)@);
        }
        store.remove_fills();
        let ghost base = store@;
        let missing = self.missing_candles_ungrouped(store);
        let ghost ms = missing@;
        let step = self.step();
        proof {
            if self.start_opt is Some && self.end_opt is Some {
                let st = self.start_opt.unwrap() as int;
                let e = self.end_opt.unwrap() as int;
                if st < e {
                    let n0 = self.num_candles_spec();
                    lemma_fundamental_div_mod(e - st, step as int);
                    assert(0 <= (e - st) % (step as int) < step) by (nonlinear_arith)
                        requires
                            0 < step,
                            0 <= e - st,
                    ;
                    assert((step as int) * n0 == n0 * (step as int)) by (nonlinear_arith);
                    assert(st + n0 * (step as int) <= e);
                    lemma_missing_upto_props(base, st, step as int, n0);
                    assert forall|j: int| 0 <= j < ms.len() implies self.in_grid(
                        #[trigger] ms[j] as int) by {
                        self.lemma_slot_in_grid(ms[j] as int);
                    }
                }
            }
        }
        proof {
            assert forall|i: int| 0 <= i < base.len() implies store@.contains(
                #[trigger] base[i]) by {
                assert(store@[i] == base[i]);
            }
            assert forall|i: int| 0 <= i < store@.len() implies !(#[trigger] store@[i]).dead by {
                assert(base[i] == keep_real(old(store)@)[i]);
                assert(!keep_real(old(store)@)[i].derived && !keep_real(old(store)@)[i].dead);
                assert(store@[i] == base[i]);
            }
        }
        let n = missing.len();
        let ghost uv0 = store.unique_violations;
        let mut idx: usize = 0;
        while idx < n
            invariant
                self.wf(),
                store.wf(),
                idx <= n == ms.len(),
                ms == self.missing_spec(base),
                step == self.spec_step(),
                missing@ == ms,
                forall|j: int|
                    0 <= j < ms.len() ==> 0 <= #[trigger] ms[j] && ms[j] + step <= MAX_TS,
                forall|j: int| 0 <= j < ms.len() ==> !has_ts(base, #[trigger] ms[j] as int),
                forall|j1: int, j2: int|
                    0 <= j1 < j2 < ms.len() ==> #[trigger] ms[j1] < #[trigger] ms[j2],
                forall|j: int| 0 <= j < ms.len() ==> self.in_grid(#[trigger] ms[j] as int),
                forall|x: int|
                    has_ts(store@, x) <==> (has_ts(base, x) || exists|j: int|
                        0 <= j < idx && #[trigger] ms[j] as int == x),
                forall|i: int| 0 <= i < base.len() ==> store@.contains(#[trigger] base[i]),
                forall|i: int, j: int|
                    0 <= i < store@.len() && 0 <= j < idx && (#[trigger] store@[i]).open_time
                        == #[trigger] ms[j] ==> (store@[i].derived <==> fill_is_derived(base, ms,
                        j)) && (store@[i].dead <==> !fill_is_derived(base, ms, j)),
                sorted_by_time(base),
                forall|i: int|
                    0 <= i < base.len() ==> !(#[trigger] base[i]).derived && !base[i].dead,
                forall|i: int|
                    0 <= i < store@.len() && (#[trigger] store@[i]).derived ==> fill_value_ok(
                        store@, base, store@[i]),
                forall|i: int|
                    0 <= i < store@.len() && (#[trigger] store@[i]).dead ==> dead_fill_ok(
                        store@[i], step as int),
                store.unique_violations == uv0,
            decreases n - idx,
        {
            let t = missing[idx];
            let (left, right) = store.known_siblings(t);
            proof {
                // the sibling the store offers matches the flag the spec
                // assigns to this fill
                match left {
                    Some(l) => {
                        let li = choose|li: int| 0 <= li < store@.len() && store@[li] == l;
                        assert(has_ts(store@, l.open_time as int));
                        if !has_ts(base, l.open_time as int) {
                            let j = choose|j: int|
                                0 <= j < idx && #[trigger] ms[j] as int == l.open_time as int;
                            assert(idx > 0);
                        } else {
                            let bi = choose|bi: int|
                                0 <= bi < base.len() && #[trigger] base[bi].open_time
                                    == l.open_time;
                            assert(has_earlier(base, t as int));
                        }
                    },
                    None => {
                        assert(!has_earlier(base, t as int)) by {
                            if has_earlier(base, t as int) {
                                let bi = choose|bi: int|
                                    0 <= bi < base.len() && (#[trigger] base[bi]).open_time
                                        < t;
                                assert(store@.contains(base[bi]));
                                let si = choose|si: int|
                                    0 <= si < store@.len() && store@[si] == base[bi];
                                assert(store@[si].open_time >= t);
                            }
                        }
                        assert(idx == 0) by {
                            if idx > 0 {
                                assert(ms[idx - 1] as int == ms[idx - 1]);
                                assert(has_ts(store@, ms[idx - 1] as int));
                                let si = choose|si: int|
                                    0 <= si < store@.len() && #[trigger] store@[si].open_time
                                        == ms[idx - 1];
                                assert(ms[idx - 1] < ms[idx as int]);
                                assert(store@[si].open_time >= t);
                            }
                        }
                    },
                }
                match right {
                    Some(r) => {
                        assert(store@.contains(r));
                        let ri = choose|ri: int| 0 <= ri < store@.len() && store@[ri] == r;
                        assert(has_ts(store@, r.open_time as int));
                        if !has_ts(base, r.open_time as int) {
                            let j = choose|j: int|
                                0 <= j < idx && #[trigger] ms[j] as int == r.open_time as int;
                            assert(ms[j] < ms[idx as int]);
                        }
                        assert(has_later(base, t as int));
                    },
                    None => {
                        assert(!has_later(base, t as int)) by {
                            if has_later(base, t as int) {
                                let bi = choose|bi: int|
                                    0 <= bi < base.len() && (#[trigger] base[bi]).open_time
                                        > t;
                                assert(store@.contains(base[bi]));
                                let si = choose|si: int|
                                    0 <= si < store@.len() && store@[si] == base[bi];
                                assert(store@[si].open_time <= t);
                            }
                        }
                    },
                }
            }
            let ghost mut l0 = Candle::default_spec();
            let ghost mut r0 = Candle::default_spec();
            let c: Candle = match (left, right) {
                (Some(l), Some(r)) => {
                    proof {
                        let li = choose|li: int| 0 <= li < store@.len() && store@[li] == l;
                        let ri = choose|ri: int| 0 <= ri < store@.len() && store@[ri] == r;
                        assert(candle_ok(store@[li]) && candle_ok(store@[ri]));
                        assert(fill_is_derived(base, ms, idx as int));
                        l0 = l;
                        r0 = r;
                    }
                    Candle::linear_regression(t, &l, &r)
                },
                _ => {
                    proof {
                        assert(!fill_is_derived(base, ms, idx as int));
                    }
                    let mut d = Candle::dead(t);
                    d.close_time = t + step - 1;
                    d
                },
            };
            proof {
                assert(!has_ts(store@, t as int)) by {
                    if has_ts(base, t as int) {
                        assert(!has_ts(base, ms[idx as int] as int));
                    }
                    if exists|j: int| 0 <= j < idx && #[trigger] ms[j] as int == t as int {
                        let j = choose|j: int| 0 <= j < idx && #[trigger] ms[j] as int == t as int;
                        assert(ms[j] < ms[idx as int]);
                    }
                }
            }
            let ghost prev = store@;
            let _inserted = store.insert_candle(&c);
            idx = idx + 1;
            proof {
                assert forall|x: int| has_ts(store@, x) implies (has_ts(base, x) || exists|j: int|
                    0 <= j < idx && #[trigger] ms[j] as int == x) by {
                    if !has_ts(base, x) && x != t as int {
                        let j = choose|j: int| 0 <= j < idx - 1 && #[trigger] ms[j] as int == x;
                        assert(0 <= j < idx && ms[j] as int == x);
                    } else if x == t as int {
                        assert(ms[idx - 1] as int == x);
                    }
                }
                let k = choose|k: int| 0 <= k <= prev.len() && store@ == prev.insert(k, c);
                assert forall|i: int| 0 <= i < base.len() implies store@.contains(
                    #[trigger] base[i]) by {
                    let si = choose|si: int| 0 <= si < prev.len() && prev[si] == base[i];
                    if si < k {
                        assert(store@[si] == base[i]);
                    } else {
                        assert(store@[si + 1] == base[i]);
                    }
                }
                assert forall|i: int, j: int|
                    0 <= i < store@.len() && 0 <= j < idx && (#[trigger] store@[i]).open_time
                        == #[trigger] ms[j] implies (store@[i].derived <==> fill_is_derived(
                    base, ms, j)) && (store@[i].dead <==> !fill_is_derived(base, ms, j)) by {
                    if i == k {
                        assert(store@[i] == c);
                        assert(c.open_time == ms[idx - 1]);
                        if j < idx - 1 {
                            assert(ms[j] < ms[idx - 1]);
                        }
                        assert(j == idx - 1);
                    } else {
                        let pi = if i < k {
                            i
                        } else {
                            i - 1
                        };
                        assert(store@[i] == prev[pi]);
                        if j == idx - 1 {
                            assert(!has_ts(prev, ms[idx - 1] as int));
                            assert(prev[pi].open_time != ms[idx - 1]);
                        }
                    }
                }
                // earlier fills sit before this one and still have a left
                // neighbour, so their blends survive the insert
                assert forall|i: int| 0 <= i < prev.len() && (#[trigger] prev[i]).derived implies
                    prev[i].open_time < t && has_earlier(prev, prev[i].open_time as int) by {
                    assert(has_ts(prev, prev[i].open_time as int));
                    assert(!has_ts(base, prev[i].open_time as int)) by {
                        if has_ts(base, prev[i].open_time as int) {
                            let bi = choose|bi: int|
                                0 <= bi < base.len() && #[trigger] base[bi].open_time
                                    == prev[i].open_time;
                            assert(prev.contains(base[bi]));
                            let si = choose|si: int|
                                0 <= si < prev.len() && prev[si] == base[bi];
                            if si < i {
                                assert(prev[si].open_time < prev[i].open_time);
                            } else if si > i {
                                assert(prev[i].open_time < prev[si].open_time);
                            }
                            assert(prev[i] == base[bi]);
                        }
                    }
                    let j = choose|j: int|
                        0 <= j < idx - 1 && #[trigger] ms[j] as int == prev[i].open_time as int;
                    assert(ms[j] < ms[idx - 1]);
                    assert(prev[i].derived <==> fill_is_derived(base, ms, j));
                    if j > 0 {
                        assert(ms[j - 1] as int == ms[j - 1]);
                        assert(has_ts(prev, ms[j - 1] as int));
                        let si = choose|si: int|
                            0 <= si < prev.len() && #[trigger] prev[si].open_time == ms[j - 1];
                        assert(ms[j - 1] < ms[j]);
                    } else {
                        assert(has_earlier(base, ms[0] as int));
                        let bi = choose|bi: int|
                            0 <= bi < base.len() && (#[trigger] base[bi]).open_time < ms[0];
                        assert(prev.contains(base[bi]));
                        let si = choose|si: int|
                            0 <= si < prev.len() && prev[si] == base[bi];
                        assert(prev[si].open_time < prev[i].open_time);
                    }
                }
                lemma_fill_values_step(prev, store@, k, c, base, t as int);
                if c.derived {
                    // the new fill's neighbours are exactly the nearest
                    // candle before it and the nearest real candle after it
                    assert(left == Some(l0) && right == Some(r0));
                    assert(store@.contains(l0)) by {
                        let li = choose|li: int| 0 <= li < prev.len() && prev[li] == l0;
                        if li < k {
                            assert(store@[li] == l0);
                        } else {
                            assert(store@[li + 1] == l0);
                        }
                    }
                    assert forall|kk: int|
                        0 <= kk < store@.len() && #[trigger] store@[kk].open_time < t implies
                        store@[kk].open_time <= l0.open_time by {
                        if kk < k {
                            assert(store@[kk] == prev[kk]);
                        } else if kk > k {
                            assert(store@[kk] == prev[kk - 1]);
                        } else {
                            assert(store@[kk] == c);
                        }
                    }
                    lemma_nearest_before_is(store@, t as int, l0);
                    assert(has_ts(prev, r0.open_time as int)) by {
                        let ri = choose|ri: int| 0 <= ri < prev.len() && prev[ri] == r0;
                        assert(prev[ri].open_time == r0.open_time);
                    }
                    assert(has_ts(base, r0.open_time as int)) by {
                        if !has_ts(base, r0.open_time as int) {
                            let j = choose|j: int|
                                0 <= j < idx - 1 && #[trigger] ms[j] as int
                                    == r0.open_time as int;
                            assert(ms[j] < ms[idx - 1]);
                        }
                    }
                    let bi = choose|bi: int|
                        0 <= bi < base.len() && #[trigger] base[bi].open_time == r0.open_time;
                    assert(base[bi] == r0) by {
                        assert(prev.contains(base[bi]));
                        let si = choose|si: int| 0 <= si < prev.len() && prev[si] == base[bi];
                        assert(prev.contains(r0));
                        let ri = choose|ri: int| 0 <= ri < prev.len() && prev[ri] == r0;
                        if si < ri {
                            assert(prev[si].open_time < prev[ri].open_time);
                        } else if ri < si {
                            assert(prev[ri].open_time < prev[si].open_time);
                        }
                    }
                    assert(base.contains(r0));
                    assert forall|kk: int|
                        0 <= kk < base.len() && #[trigger] base[kk].open_time > t implies
                        base[kk].open_time >= r0.open_time by {
                        assert(prev.contains(base[kk]));
                        let si = choose|si: int| 0 <= si < prev.len() && prev[si] == base[kk];
                        assert(prev[si].open_time >= r0.open_time);
                    }
                    lemma_nearest_after_is(base, t as int, r0);
                    assert(fill_value_ok(store@, base, c)) by {
                        reveal(fill_value_ok);
                    }
                }
                assert forall|i: int|
                    0 <= i < store@.len() && (#[trigger] store@[i]).derived implies
                    fill_value_ok(store@, base, store@[i]) by {
                    if store@[i].open_time == t {
                        if i < k {
                            assert(store@[i] == prev[i]);
                            assert(has_ts(prev, t as int));
                        } else if i > k {
                            assert(store@[i] == prev[i - 1]);
                            assert(has_ts(prev, t as int));
                        }
                        assert(store@[i] == c);
                    }
                }
            }
        }
        proof {
            assert forall|x: int| has_ts(store@, x) implies (has_ts(base, x) || self.in_grid(
                x)) by {
                if !has_ts(base, x) {
                    let j = choose|j: int| 0 <= j < n && #[trigger] ms[j] as int == x;
                    assert(self.in_grid(ms[j] as int));
                }
            }
            assert forall|x: int| (has_ts(base, x) || self.in_grid(x)) implies has_ts(
                store@, x) by {
                if self.in_grid(x) && !has_ts(base, x) {
                    let st = self.start_opt.unwrap() as int;
                    let e = self.end_opt.unwrap() as int;
                    let step_i = self.spec_step();
                    let n0 = self.num_candles_spec();
                    let k = choose|k: int| 0 <= k < n0 && x == grid_slot(st, step_i, k);
                    assert(0 <= k * step_i && k * step_i + step_i <= n0 * step_i)
                        by (nonlinear_arith)
                        requires
                            0 <= k < n0,
                            0 < step_i,
                    ;
                    lemma_fundamental_div_mod(e - st, step_i);
                    assert(0 <= (e - st) % step_i < step_i) by (nonlinear_arith)
                        requires
                            0 < step_i,
                            0 <= e - st,
                    ;
                    assert(step_i * n0 == n0 * step_i) by (nonlinear_arith);
                    assert(st + n0 * step_i <= e);
                    lemma_missing_upto_props(base, st, step_i, n0);
                    assert(0 <= x <= MAX_TS);
                    assert(ms.contains(grid_slot(st, step_i, k) as i64));
                    let j = choose|j: int| 0 <= j < ms.len() && ms[j] == grid_slot(
                        st, step_i, k) as i64;
                    assert(ms[j] as int == x);
                }
            }
        }
    }
}

/// Splits a half-open range into consecutive fetch windows of at most
/// `CANDLE_LIMIT` slots each, in ascending order.
pub fn chunk_range(range: &Range<i64>, step: i64) -> (r: Vec<Range<i64>>)
    requires
        0 < step <= MAX_STEP,
        0 <= range.start < range.end <= MAX_TS,
    ensures
        r@.len() > 0,
        r@[0].start == range.start,
        r@[r@.len() - 1].end == range.end,
        forall|i: int| 0 <= i < r@.len() - 1 ==> (#[trigger] r@[i]).end == r@[i + 1].start,
        forall|i: int|
            0 <= i < r@.len() ==> (#[trigger] r@[i]).start < r@[i].end && r@[i].end - r@[i].start
                <= CANDLE_LIMIT * step,
        forall|i: int|
            0 <= i < r@.len() ==> range.start <= (#[trigger] r@[i]).start && r@[i].end
                <= range.end,
    {
    let start = range.start;
    let end = range.end;
    let big = step > i64::MAX / CANDLE_LIMIT;
    proof {
        if !big {
            lemma_fundamental_div_mod(i64::MAX as int, CANDLE_LIMIT as int);
            assert(step * CANDLE_LIMIT <= (i64::MAX / CANDLE_LIMIT) * CANDLE_LIMIT)
                by (nonlinear_arith)
                requires
                    step <= i64::MAX / CANDLE_LIMIT,
                    0 < CANDLE_LIMIT,
            ;
        } else {
            assert(step >= 18446744073709552);
            assert(CANDLE_LIMIT * step > MAX_TS) by (nonlinear_arith)
                requires
                    step >= 18446744073709552,
            ;
        }
    }
    let fetch: i64 = if big {
        0
    } else {
        step * CANDLE_LIMIT
    };
    let mut result: Vec<Range<i64>> = Vec::new();
    let mut t = start;
    while t < end
        invariant
            0 <= start <= t <= end <= MAX_TS,
            0 < step,
            big ==> CANDLE_LIMIT * step > MAX_TS,
            !big ==> fetch == CANDLE_LIMIT * step && 0 < fetch <= i64::MAX,
            t == start ==> result@.len() == 0,
            t > start ==> result@.len() > 0 && result@[0].start == start && result@[result@.len()
                - 1].end == t,
            forall|i: int|
                0 <= i < result@.len() - 1 ==> (#[trigger] result@[i]).end == result@[i + 1].start,
            forall|i: int|
                0 <= i < result@.len() ==> (#[trigger] result@[i]).start < result@[i].end
                    && result@[i].end - result@[i].start <= CANDLE_LIMIT * step,
            forall|i: int|
                0 <= i < result@.len() ==> start <= (#[trigger] result@[i]).start
                    && result@[i].end <= end,
        decreases end - t,
    {
        let e: i64 = if big {
            end
        } else {
            if end - t > fetch {
                t + fetch
            } else {
                end
            }
        };
        result.push(t..e);
        t = e;
    }
    result
}

/// Consecutive windows starting at `start` and ending at `end` cover every
/// instant between them.
proof fn lemma_windows_cover(ws: Seq<Range<i64>>, x: int)
    requires
        ws.len() > 0,
        forall|i: int| 0 <= i < ws.len() ==> (#[trigger] ws[i]).start < ws[i].end,
        forall|i: int| 0 <= i < ws.len() - 1 ==> (#[trigger] ws[i]).end == ws[i + 1].start,
        ws[0].start <= x < ws[ws.len() - 1].end,
    ensures
        exists|w: int| 0 <= w < ws.len() && (#[trigger] ws[w]).start <= x < ws[w].end,
    decreases ws.len(),
{
    if ws.len() == 1 {
        assert(ws[0].start <= x < ws[0].end);
    } else if x < ws[ws.len() - 2].end {
        let pre = ws.drop_last();
        assert(forall|i: int| 0 <= i < pre.len() ==> pre[i] == ws[i]);
        lemma_windows_cover(pre, x);
        let w = choose|w: int| 0 <= w < pre.len() && (#[trigger] pre[w]).start <= x < pre[w].end;
        assert(ws[w].start <= x < ws[w].end);
    } else {
        let w = ws.len() - 1;
        assert(ws[w - 1].end == ws[w].start);
        assert(ws[w].start <= x < ws[w].end);
    }
}

/// Consecutive windows never step backwards: any earlier window ends at or
/// before a later one starts.
proof fn lemma_windows_chain(ws: Seq<Range<i64>>, a: int, b: int)
    requires
        forall|i: int| 0 <= i < ws.len() ==> (#[trigger] ws[i]).start < ws[i].end,
        forall|i: int| 0 <= i < ws.len() - 1 ==> (#[trigger] ws[i]).end == ws[i + 1].start,
        0 <= a < b < ws.len(),
    ensures
        ws[a].end <= ws[b].start,
    decreases b - a,
{
    if a + 1 < b {
        lemma_windows_chain(ws, a + 1, b);
    }
}

/// The fetch windows come in ascending order, none overlapping.
#[verifier::opaque]
pub open spec fn windows_ordered(pending: Seq<Range<i64>>) -> bool {
    forall|w1: int, w2: int|
        0 <= w1 < w2 < pending.len() ==> (#[trigger] pending[w1]).end
            <= (#[trigger] pending[w2]).start
}

/// Some fetch window holds the instant.
#[verifier::opaque]
pub open spec fn covered_by(pending: Seq<Range<i64>>, t: i64) -> bool {
    exists|w: int| 0 <= w < pending.len() && (#[trigger] pending[w]).start <= t < pending[w].end
}

/// Every one of the given timestamps lies inside some fetch window.
#[verifier::opaque]
pub open spec fn windows_cover(pending: Seq<Range<i64>>, ts: Seq<i64>) -> bool {
    forall|j: int| 0 <= j < ts.len() ==> #[trigger] covered_by(pending, ts[j])
}

/// The window order, unfolded for callers.
pub proof fn lemma_windows_ordered_parts(pending: Seq<Range<i64>>)
    requires
        windows_ordered(pending),
    ensures
        forall|w1: int, w2: int|
            0 <= w1 < w2 < pending.len() ==> (#[trigger] pending[w1]).end
                <= (#[trigger] pending[w2]).start,
{
    reveal(windows_ordered);
}

/// The coverage of one timestamp, unfolded for callers.
pub proof fn lemma_windows_cover_at(pending: Seq<Range<i64>>, ts: Seq<i64>, j: int)
    requires
        windows_cover(pending, ts),
        0 <= j < ts.len(),
    ensures
        exists|w: int|
            0 <= w < pending.len() && (#[trigger] pending[w]).start <= ts[j] < pending[w].end,
{
    reveal(windows_cover);
    assert(covered_by(pending, ts[j]));
    reveal(covered_by);
}

/// Packs the window order and coverage.
proof fn lemma_windows_plan_intro(pending: Seq<Range<i64>>, ts: Seq<i64>)
    requires
        forall|w1: int, w2: int|
            0 <= w1 < w2 < pending.len() ==> (#[trigger] pending[w1]).end
                <= (#[trigger] pending[w2]).start,
        forall|j: int|
            0 <= j < ts.len() ==> exists|w: int|
                0 <= w < pending.len() && (#[trigger] pending[w]).start <= #[trigger] ts[j]
                    < pending[w].end,
    ensures
        windows_ordered(pending),
        windows_cover(pending, ts),
{
    reveal(windows_ordered);
    reveal(windows_cover);
    assert forall|j: int| 0 <= j < ts.len() implies #[trigger] covered_by(pending, ts[j]) by {
        let w = choose|w: int|
            0 <= w < pending.len() && (#[trigger] pending[w]).start <= ts[j] < pending[w].end;
        assert(covered_by(pending, ts[j])) by {
            reveal(covered_by);
        }
    }
}

/// The reconciliation driver: what remains to be fetched, and how many
/// passes over the gaps were made.  The caller performs each fetch and hands
/// the rows back; the library decides everything else.
pub struct Reconciler {
    pub query: Query,
    pub tries: u64,
    pub pending: Vec<Range<i64>>,
}

/// Fetch windows the driver may hold: bounded, non-empty, ascending spans.
pub open spec fn windows_ok(w: Seq<Range<i64>>) -> bool {
    forall|i: int| 0 <= i < w.len() ==> 0 <= (#[trigger] w[i]).start < w[i].end <= MAX_TS
}

impl Reconciler {
    /// The query is well formed; the windows are bounded spans inside the
    /// query's range, each at most one provider page wide; the retry budget
    /// is never exceeded; and a driver whose budget is spent has no window
    /// left to fetch.
    pub open spec fn wf(self) -> bool {
        &&& self.query.wf()
        &&& windows_ok(self.pending@)
        &&& forall|w: int|
            0 <= w < self.pending@.len() ==> (#[trigger] self.pending@[w]).end
                - self.pending@[w].start <= CANDLE_LIMIT * self.query.spec_step()
                && self.query.group_start0() <= self.pending@[w].start && self.pending@[w].end
                <= self.query.group_end0()
        &&& self.tries <= MAX_TRIES
        &&& (self.tries == MAX_TRIES ==> self.pending@.len() == 0)
    }

    /// Plans the fetch windows for everything currently missing: the gap
    /// groups, each split to the provider's page limit, in ascending order.
    /// Every window stays inside the query's range and spans at most one
    /// provider page.
    fn plan(query: &Query, store: &CandleStore) -> (r: Vec<Range<i64>>)
        requires
            query.wf(),
            store.wf(),
        ensures
            windows_ok(r@),
            r@.len() == 0 <==> query.missing_spec(store@).len() == 0,
            forall|w: int|
                0 <= w < r@.len() ==> (#[trigger] r@[w]).end - r@[w].start <= CANDLE_LIMIT
                    * query.spec_step(),
            forall|w: int|
                0 <= w < r@.len() ==> query.group_start0() <= (#[trigger] r@[w]).start
                    && r@[w].end <= query.group_end0(),
            windows_ordered(r@),
            windows_cover(r@, query.missing_spec(store@)),
    {
        let groups = query.missing_candles(store);
        let ghost ms = query.missing_spec(store@);
        let step = query.step();
        proof {
            query.lemma_missing_spec_groupable(store@);
            lemma_group_pairs_props(ms, query.spec_step(), query.group_start0(),
                query.group_end0());
            let pairs = group_pairs(ms, query.spec_step());
            assert forall|j: int| 0 <= j < ms.len() implies exists|g: int|
                0 <= g < groups@.len() && (#[trigger] groups@[g]).start <= #[trigger] ms[j]
                    && ms[j] + step <= groups@[g].end by {
                let g = choose|g: int|
                    0 <= g < pairs.len() && (#[trigger] pairs[g]).0 <= ms[j] as int && ms[j]
                        + query.spec_step() <= pairs[g].1;
                assert(groups@[g].start <= ms[j] && ms[j] + step <= groups@[g].end);
            }
            assert forall|g1: int, g2: int| 0 <= g1 < g2 < groups@.len() implies
                (#[trigger] groups@[g1]).end < (#[trigger] groups@[g2]).start by {
                assert(pairs[g1].1 < pairs[g2].0);
            }
        }
        let mut result: Vec<Range<i64>> = Vec::new();
        let n = groups.len();
        let mut i: usize = 0;
        while i < n
            invariant
                i <= n == groups@.len(),
                0 < step <= MAX_STEP,
                step == query.spec_step(),
                ms == query.missing_spec(store@),
                windows_ok(result@),
                forall|g: int|
                    0 <= g < n ==> 0 <= (#[trigger] groups@[g]).start < groups@[g].end <= MAX_TS,
                forall|g: int|
                    0 <= g < n ==> query.group_start0() <= (#[trigger] groups@[g]).start
                        && groups@[g].end <= query.group_end0(),
                forall|g1: int, g2: int|
                    0 <= g1 < g2 < n ==> (#[trigger] groups@[g1]).end
                        < (#[trigger] groups@[g2]).start,
                forall|j: int|
                    0 <= j < ms.len() ==> exists|g: int|
                        0 <= g < n && (#[trigger] groups@[g]).start <= #[trigger] ms[j] && ms[j]
                            + step <= groups@[g].end,
                forall|w: int|
                    0 <= w < result@.len() ==> (#[trigger] result@[w]).end - result@[w].start
                        <= CANDLE_LIMIT * step,
                forall|w: int|
                    0 <= w < result@.len() ==> query.group_start0()
                        <= (#[trigger] result@[w]).start && result@[w].end
                        <= query.group_end0(),
                forall|w1: int, w2: int|
                    0 <= w1 < w2 < result@.len() ==> (#[trigger] result@[w1]).end
                        <= (#[trigger] result@[w2]).start,
                i < n ==> forall|w: int|
                    0 <= w < result@.len() ==> (#[trigger] result@[w]).end
                        <= groups@[i as int].start,
                forall|j: int|
                    0 <= j < ms.len() && (i == n || #[trigger] ms[j] < groups@[i as int].start)
                        ==> exists|w: int|
                        0 <= w < result@.len() && (#[trigger] result@[w]).start <= ms[j]
                            < result@[w].end,
                i > 0 ==> result@.len() > 0,
                i == 0 ==> result@.len() == 0,
            decreases n - i,
        {
            let g = groups[i].start..groups[i].end;
            let mut chunks = chunk_range(&g, step);
            let ghost old_result = result@;
            let ghost cw = chunks@;
            result.append(&mut chunks);
            proof {
                assert(result@ == old_result + cw);
                assert(cw.len() > 0);
                // the appended windows follow every earlier one and each
                // other, and tile this gap group exactly
                assert forall|w1: int, w2: int|
                    0 <= w1 < w2 < result@.len() implies (#[trigger] result@[w1]).end
                    <= (#[trigger] result@[w2]).start by {
                    if w2 < old_result.len() {
                        assert(result@[w1] == old_result[w1] && result@[w2] == old_result[w2]);
                    } else if w1 < old_result.len() {
                        assert(result@[w1] == old_result[w1]);
                        assert(result@[w2] == cw[w2 - old_result.len()]);
                        assert(old_result[w1].end <= groups@[i as int].start);
                    } else {
                        assert(result@[w1] == cw[w1 - old_result.len()]);
                        assert(result@[w2] == cw[w2 - old_result.len()]);
                        lemma_windows_chain(cw, w1 - old_result.len(), w2 - old_result.len());
                    }
                }
                if i + 1 < n {
                    assert forall|w: int| 0 <= w < result@.len() implies
                        (#[trigger] result@[w]).end <= groups@[i + 1].start by {
                        if w < old_result.len() {
                            assert(result@[w] == old_result[w]);
                        } else {
                            assert(result@[w] == cw[w - old_result.len()]);
                        }
                        assert(groups@[i as int].end < groups@[i + 1].start);
                    }
                }
                assert forall|j: int|
                    0 <= j < ms.len() && (i + 1 == n || #[trigger] ms[j] < groups@[i
                        + 1].start) implies exists|w: int|
                        0 <= w < result@.len() && (#[trigger] result@[w]).start <= ms[j]
                            < result@[w].end by {
                    let g = choose|g: int|
                        0 <= g < n && (#[trigger] groups@[g]).start <= ms[j] && ms[j] + step
                            <= groups@[g].end;
                    if g < i {
                        assert(ms[j] < groups@[i as int].start) by {
                            assert(groups@[g].end < groups@[i as int].start);
                        }
                        let w = choose|w: int|
                            0 <= w < old_result.len() && (#[trigger] old_result[w]).start
                                <= ms[j] < old_result[w].end;
                        assert(result@[w].start <= ms[j] < result@[w].end);
                    } else if g == i {
                        lemma_windows_cover(cw, ms[j] as int);
                        let w = choose|w: int|
                            0 <= w < cw.len() && (#[trigger] cw[w]).start <= ms[j]
                                < cw[w].end;
                        assert(result@[old_result.len() + w].start <= ms[j] < result@[
                        old_result.len() + w].end);
                    } else {
                        // this timestamp belongs to a later group, past the
                        // bound of the coverage claim
                        assert(i + 1 < n);
                        if g > i + 1 {
                            assert(groups@[i + 1].end < groups@[g].start);
                        }
                        assert(groups@[i + 1].start <= groups@[g].start);
                    }
                }
            }
            i = i + 1;
        }
        proof {
            if n == 0 && ms.len() > 0 {
                assert(0 <= 0 < ms.len() && ms[0] == ms[0]);
                let g = choose|g: int|
                    0 <= g < n && (#[trigger] groups@[g]).start <= ms[0] && ms[0] + step
                        <= groups@[g].end;
            }
            lemma_windows_plan_intro(result@, ms);
        }
        result
    }

    /// Starts a reconciliation of the query's range: the first fetch pass
    /// covers every currently missing timestamp.
    pub fn new(query: Query, store: &CandleStore) -> (r: Reconciler)
        requires
            query.wf(),
            store.wf(),
        ensures
            r.wf(),
            r.query == query,
            r.tries == 0,
            r.pending@.len() == 0 <==> query.missing_spec(store@).len() == 0,
            forall|w: int|
                0 <= w < r.pending@.len() ==> (#[trigger] r.pending@[w]).end
                    - r.pending@[w].start <= CANDLE_LIMIT * query.spec_step(),
            forall|w: int|
                0 <= w < r.pending@.len() ==> query.group_start0()
                    <= (#[trigger] r.pending@[w]).start && r.pending@[w].end
                    <= query.group_end0(),
            windows_ordered(r.pending@),
            windows_cover(r.pending@, query.missing_spec(store@)),
    {
        let pending = Reconciler::plan(&query, store);
        Reconciler { query, tries: 0, pending }
    }

    /// The next window to fetch, oldest first; `None` when the
    /// reconciliation needs no further provider call.
    pub fn next_fetch(&self) -> (r: Option<Range<i64>>)
        ensures
            match r {
                Some(w) => self.pending@.len() > 0 && w.start == self.pending@[0].start && w.end
                    == self.pending@[0].end,
                None => self.pending@.len() == 0,
            },
    {
        if self.pending.len() > 0 {
            Some(self.pending[0].start..self.pending[0].end)
        } else {
            None
        }
    }

    /// Takes the rows fetched for the current window, at distinct open
    /// times as the provider sends them: every new row is stored as given
    /// (duplicates tallied, never fatal), the window is retired, and when
    /// the pass is over the gaps are re-checked up to the retry budget.
    /// Each call either shortens the pending windows or spends one retry
    /// with only one window left, so a driver's fetch loop ends after at
    /// most the budgeted passes.
    ///
    /// A failed fetch is delivered as an empty row set: only that window's
    /// pass is lost, the re-check of the next pass plans the still-missing
    /// span again, and after the budget is spent `finish` fills what
    /// remains — a fetch failure never aborts the reconciliation.
    pub fn deliver(&mut self, store: &mut CandleStore, candles: &Vec<Candle>)
        requires
            old(self).wf(),
            old(store).wf(),
            old(self).pending@.len() > 0,
            forall|i: int| 0 <= i < candles@.len() ==> candle_ok(#[trigger] candles@[i]),
            forall|i: int, j: int|
                0 <= i < j < candles@.len() ==> (#[trigger] candles@[i]).open_time
                    != (#[trigger] candles@[j]).open_time,
        ensures
            final(self).wf(),
            final(store).wf(),
            final(self).query == old(self).query,
            forall|x: int|
                has_ts(final(store)@, x) <==> (has_ts(old(store)@, x) || exists|i: int|
                    0 <= i < candles@.len() && (#[trigger] candles@[i]).open_time == x),
            forall|j: int|
                0 <= j < candles@.len() && !has_ts(old(store)@, candles@[j].open_time as int)
                    ==> final(store)@.contains(#[trigger] candles@[j]),
            final(self).tries >= old(self).tries,
            final(self).tries == old(self).tries ==> final(self).pending@.len() == old(
                self).pending@.len() - 1,
            final(self).tries != old(self).tries ==> final(self).tries == old(self).tries + 1
                && old(self).pending@.len() == 1,
            final(self).tries != old(self).tries && final(self).tries < MAX_TRIES
                ==> windows_ordered(final(self).pending@) && windows_cover(
                final(self).pending@, old(self).query.missing_spec(final(store)@)),
    {
        let n = candles.len();
        let mut i: usize = 0;
        while i < n
            invariant
                store.wf(),
                i <= n == candles@.len(),
                forall|j: int| 0 <= j < candles@.len() ==> candle_ok(#[trigger] candles@[j]),
                forall|x: int|
                    has_ts(store@, x) <==> (has_ts(old(store)@, x) || exists|j: int|
                        0 <= j < i && (#[trigger] candles@[j]).open_time == x),
                forall|j1: int, j2: int|
                    0 <= j1 < j2 < candles@.len() ==> (#[trigger] candles@[j1]).open_time
                        != (#[trigger] candles@[j2]).open_time,
                forall|j: int|
                    0 <= j < i && !has_ts(old(store)@, candles@[j].open_time as int)
                        ==> store@.contains(#[trigger] candles@[j]),
            decreases n - i,
        {
            let c = candles[i];
            proof {
                if !has_ts(old(store)@, c.open_time as int) {
                    assert(!has_ts(store@, c.open_time as int)) by {
                        if exists|j: int|
                            0 <= j < i && (#[trigger] candles@[j]).open_time
                                == c.open_time {
                            let j = choose|j: int|
                                0 <= j < i && (#[trigger] candles@[j]).open_time
                                    == c.open_time;
                            assert(candles@[j].open_time != candles@[i as int].open_time);
                        }
                    }
                }
            }
            let ghost prev = store@;
            let _inserted = store.insert_candle(&c);
            i = i + 1;
            proof {
                assert forall|x: int|
                    (has_ts(old(store)@, x) || exists|j: int|
                        0 <= j < i && (#[trigger] candles@[j]).open_time == x) implies has_ts(
                    store@, x) by {
                    if !has_ts(old(store)@, x) {
                        let j = choose|j: int|
                            0 <= j < i && (#[trigger] candles@[j]).open_time == x;
                        assert(j == i - 1 || has_ts(old(store)@, x) || exists|k: int|
                            0 <= k < i - 1 && (#[trigger] candles@[k]).open_time == x);
                    }
                }
                assert forall|j: int|
                    0 <= j < i && !has_ts(old(store)@, candles@[j].open_time as int) implies
                    store@.contains(#[trigger] candles@[j]) by {
                    if j < i - 1 {
                        let sj = choose|sj: int|
                            0 <= sj < prev.len() && prev[sj] == candles@[j];
                        if _inserted {
                            let k = choose|k: int|
                                0 <= k <= prev.len() && store@ == prev.insert(k, c);
                            if sj < k {
                                assert(store@[sj] == candles@[j]);
                            } else {
                                assert(store@[sj + 1] == candles@[j]);
                            }
                        } else {
                            assert(store@ == prev);
                        }
                    } else {
                        let k = choose|k: int|
                            0 <= k <= prev.len() && store@ == prev.insert(k, c);
                        assert(store@[k] == c);
                    }
                }
            }
        }
        let _ = self.pending.remove(0);
        if self.pending.len() == 0 && self.tries < MAX_TRIES {
            self.tries = self.tries + 1;
            if self.tries < MAX_TRIES {
                self.pending = Reconciler::plan(&self.query, store);
            }
        }
    }

    /// Ends the reconciliation: every timestamp still missing is filled by
    /// interpolation or a dead placeholder, and the reconciled candles of
    /// the range are read back.  The range is gapless afterwards, and the
    /// interpolator's exactness carries through: the store holds the real
    /// candles plus the grid's fills, each derived fill the blend of its
    /// neighbours, each dead fill the zero candle of its slot, with the
    /// duplicate tally untouched.
    pub fn finish(&self, store: &mut CandleStore) -> (r: Vec<Candle>)
        requires
            self.wf(),
            old(store).wf(),
        ensures
            final(store).wf(),
            forall|x: int|
                has_ts(final(store)@, x) <==> (has_ts(keep_real(old(store)@), x)
                    || self.query.in_grid(x)),
            forall|x: int| self.query.in_grid(x) ==> has_ts(final(store)@, x),
            forall|i: int|
                0 <= i < keep_real(old(store)@).len() ==> final(store)@.contains(
                    #[trigger] keep_real(old(store)@)[i]),
            forall|i: int, j: int|
                0 <= i < final(store)@.len() && 0 <= j < self.query.missing_spec(keep_real(
                    old(store)@)).len() && (#[trigger] final(store)@[i]).open_time
                    == #[trigger] self.query.missing_spec(keep_real(old(store)@))[j] ==> (
                final(store)@[i].derived <==> fill_is_derived(keep_real(old(store)@),
                    self.query.missing_spec(keep_real(old(store)@)), j)) && (
                final(store)@[i].dead <==> !fill_is_derived(keep_real(old(store)@),
                    self.query.missing_spec(keep_real(old(store)@)), j)),
            forall|i: int|
                0 <= i < final(store)@.len() && (#[trigger] final(store)@[i]).derived
                    ==> fill_value_ok(final(store)@, keep_real(old(store)@),
                    final(store)@[i]),
            forall|i: int|
                0 <= i < final(store)@.len() && (#[trigger] final(store)@[i]).dead
                    ==> dead_fill_ok(final(store)@[i], self.query.spec_step()),
            final(store).unique_violations == old(store).unique_violations,
            r@ == crate::select::with_index(crate::select::limited_filter(final(store)@,
                self.query)),
    {
        self.query.linear_regression(store);
        self.query.query_candles(store)
    }
}

/// A range whose every expected timestamp is covered reports nothing
/// missing: reconciling an already reconciled range plans no fetch and
/// inserts nothing, so the final candle count stands.
pub proof fn lemma_reconcile_idempotent(q: Query, s: Seq<Candle>)
    requires
        q.wf(),
        forall|x: int| q.in_grid(x) ==> has_ts(s, x),
    ensures
        q.missing_spec(s).len() == 0,
{
    match (q.start_opt, q.end_opt) {
        (Some(st), Some(e)) => {
            if (st as int) < e {
                let n = q.num_candles_spec();
                lemma_fundamental_div_mod(e - st, q.spec_step());
                assert(0 <= (e - st) % q.spec_step() < q.spec_step()) by (nonlinear_arith)
                    requires
                        0 < q.spec_step(),
                        0 <= e - st,
                ;
                assert forall|k: int| 0 <= k < n implies has_ts(
                    s, grid_slot(st as int, q.spec_step(), k)) by {
                    assert(grid_slot(st as int, q.spec_step(), k) == grid_slot(q.group_start0(),
                        q.spec_step(), k));
                    assert(q.in_grid(grid_slot(q.group_start0(), q.spec_step(), k)));
                }
                lemma_missing_all_present(s, st as int, q.spec_step(), n);
            }
        },
        _ => {},
    }
}

/// A grid whose every slot is covered has no missing timestamps.
proof fn lemma_missing_all_present(s: Seq<Candle>, start: int, step: int, n: int)
    requires
        forall|k: int| 0 <= k < n ==> has_ts(s, grid_slot(start, step, k)),
    ensures
        missing_upto(s, start, step, n).len() == 0,
    decreases n,
{
    if n > 0 {
        lemma_missing_all_present(s, start, step, n - 1);
    }
}

/// Two ordered stores that hold candles at exactly the same timestamps hold
/// the same number of candles: reconciling twice yields an identical final
/// count.
pub proof fn lemma_same_timestamps_same_count(a: Seq<Candle>, b: Seq<Candle>)
    requires
        sorted_by_time(a),
        sorted_by_time(b),
        forall|x: int| has_ts(a, x) <==> has_ts(b, x),
    ensures
        a.len() == b.len(),
    decreases a.len(),
{
    if a.len() == 0 {
        if b.len() > 0 {
            assert(has_ts(b, b[0].open_time as int));
            assert(has_ts(a, b[0].open_time as int));
        }
    } else if b.len() == 0 {
        assert(has_ts(a, a[0].open_time as int));
        assert(has_ts(b, a[0].open_time as int));
    } else {
        let ta = a.last().open_time as int;
        let tb = b.last().open_time as int;
        assert(has_ts(a, ta));
        assert(has_ts(b, tb));
        assert(ta <= tb) by {
            let j = choose|j: int| 0 <= j < b.len() && b[j].open_time == ta;
            if j < b.len() - 1 {
                assert(b[j].open_time < b[b.len() - 1].open_time);
            }
        }
        assert(tb <= ta) by {
            let j = choose|j: int| 0 <= j < a.len() && a[j].open_time == tb;
            if j < a.len() - 1 {
                assert(a[j].open_time < a[a.len() - 1].open_time);
            }
        }
        let pa = a.drop_last();
        let pb = b.drop_last();
        assert(sorted_by_time(pa) && sorted_by_time(pb)) by {
            assert(forall|i: int| 0 <= i < pa.len() ==> pa[i] == a[i]);
            assert(forall|i: int| 0 <= i < pb.len() ==> pb[i] == b[i]);
        }
        assert forall|x: int| has_ts(pa, x) <==> has_ts(pb, x) by {
            lemma_drop_last_ts(a, x);
            lemma_drop_last_ts(b, x);
        }
        lemma_same_timestamps_same_count(pa, pb);
    }
}

/// Dropping the last candle of an ordered store removes exactly its
/// (maximal) timestamp.
proof fn lemma_drop_last_ts(s: Seq<Candle>, x: int)
    requires
        sorted_by_time(s),
        s.len() > 0,
    ensures
        has_ts(s.drop_last(), x) <==> (has_ts(s, x) && x != s.last().open_time as int),
{
    let p = s.drop_last();
    if has_ts(p, x) {
        let j = choose|j: int| 0 <= j < p.len() && p[j].open_time == x;
        assert(s[j].open_time == x);
        assert(s[j].open_time < s[s.len() - 1].open_time);
    }
    if has_ts(s, x) && x != s.last().open_time as int {
        let j = choose|j: int| 0 <= j < s.len() && s[j].open_time == x;
        assert(j < s.len() - 1);
        assert(p[j].open_time == x);
    }
}

} // verus!
