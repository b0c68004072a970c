//! The persisted candle series for one symbol/interval pair: an ordered
//! in-memory store with idempotent, duplicate-counting inserts.
//!
//! The surrounding program mirrors this store to its relational database;
//! every rule about what the series holds is stated and proved here.

use vstd::prelude::*;
use crate::candle::Candle;
use crate::query::{MAX_TS, MAX_STEP};

verus! {

/// A candle the store accepts: bounded times, a sane span, non-negative
/// prices.
pub open spec fn candle_ok(c: Candle) -> bool {
    &&& 0 <= c.open_time <= MAX_TS
    &&& c.open_time <= c.close_time <= c.open_time + MAX_STEP
    &&& c.prices_nonneg()
    &&& c.prices_le_max()
}

/// Open times are strictly increasing: at most one candle per timestamp.
pub open spec fn sorted_by_time(s: Seq<Candle>) -> bool {
    forall|i: int, j: int| 0 <= i < j < s.len() ==> s[i].open_time < s[j].open_time
}

pub open spec fn all_candles_ok(s: Seq<Candle>) -> bool {
    forall|i: int| 0 <= i < s.len() ==> candle_ok(#[trigger] s[i])
}

/// Some stored candle opens at instant `t`.
pub open spec fn has_ts(s: Seq<Candle>, t: int) -> bool {
    exists|i: int| 0 <= i < s.len() && #[trigger] s[i].open_time == t
}

/// The series without its transient fills: neither derived nor dead candles.
pub open spec fn keep_real(s: Seq<Candle>) -> Seq<Candle>
    decreases s.len(),
{
    if s.len() == 0 {
        Seq::empty()
    } else {
        keep_real(s.drop_last()) + if s.last().derived || s.last().dead {
            Seq::empty()
        } else {
            seq![s.last()]
        }
    }
}

/// The ordered candle store, with the tally of duplicate-key inserts that
/// were swallowed.
#[derive(Clone)]
pub struct CandleStore {
    pub candles: Vec<Candle>,
    pub unique_violations: u64,
}

impl View for CandleStore {
    type V = Seq<Candle>;

    open spec fn view(&self) -> Seq<Candle> {
        self.candles@
    }
}

impl CandleStore {
    /// Ordered, unique and bounded.
    pub open spec fn wf(self) -> bool {
        sorted_by_time(self@) && all_candles_ok(self@)
    }

    /// An empty store.
    pub fn new() -> (s: CandleStore)
        ensures
            s.wf(),
            s@.len() == 0,
            s.unique_violations == 0,
    {
        CandleStore { candles: Vec::new(), unique_violations: 0 }
    }

    pub fn len(&self) -> (n: usize)
        ensures
            n == self@.len(),
    {
        self.candles.len()
    }

    /// The stored candle at a position.
    pub fn candle_at(&self, i: usize) -> (c: Candle)
        requires
            i < self@.len(),
        ensures
            c == self@[i as int],
    {
        self.candles[i]
    }

    /// First position whose candle opens at or after `t`.
    fn find_index(&self, t: i64) -> (r: usize)
        requires
            self.wf(),
        ensures
            r <= self@.len(),
            forall|i: int| 0 <= i < r ==> self@[i].open_time < t,
            r < self@.len() ==> self@[r as int].open_time >= t,
    {
        let n = self.candles.len();
        let mut i: usize = 0;
        while i < n
            invariant
                i <= n == self@.len(),
                forall|j: int| 0 <= j < i ==> self@[j].open_time < t,
            decreases n - i,
        {
            if self.candles[i].open_time >= t {
                return i;
            }
            i = i + 1;
        }
        i
    }

    /// Whether a candle opening at `t` is stored.
    pub fn has(&self, t: i64) -> (r: bool)
        requires
            self.wf(),
        ensures
            r == has_ts(self@, t as int),
    {
        let i = self.find_index(t);
        if i < self.candles.len() && self.candles[i].open_time == t {
            true
        } else {
            proof {
                if has_ts(self@, t as int) {
                    let k = choose|k: int| 0 <= k < self@.len() && self@[k].open_time == t;
                    assert(k >= i);
                    assert(self@[k].open_time == t);
                    if i < self@.len() && k > i {
                        assert(self@[i as int].open_time < self@[k].open_time);
                    }
                }
            }
            false
        }
    }

    /// Inserts a candle unless one already opens at the same instant; a
    /// duplicate is swallowed and tallied, never an error.
    pub fn insert_candle(&mut self, candle: &Candle) -> (inserted: bool)
        requires
            old(self).wf(),
            candle_ok(*candle),
        ensures
            final(self).wf(),
            inserted == !has_ts(old(self)@, candle.open_time as int),
            inserted ==> exists|k: int|
                0 <= k <= old(self)@.len() && final(self)@ == old(self)@.insert(k, *candle),
            inserted ==> final(self)@.len() == old(self)@.len() + 1,
            inserted ==> final(self).unique_violations == old(self).unique_violations,
            !inserted ==> final(self)@ == old(self)@ && final(self).unique_violations == (
            if old(self).unique_violations < u64::MAX {
                old(self).unique_violations + 1
            } else {
                old(self).unique_violations as int
            }),
            forall|x: int|
                has_ts(final(self)@, x) <==> (has_ts(old(self)@, x) || x
                    == candle.open_time as int),
    {
        let i = self.find_index(candle.open_time);
        if i < self.candles.len() && self.candles[i].open_time == candle.open_time {
            if self.unique_violations < u64::MAX {
                self.unique_violations = self.unique_violations + 1;
            }
            proof {
                assert(has_ts(self@, candle.open_time as int));
            }
            false
        } else {
            proof {
                if has_ts(self@, candle.open_time as int) {
                    let k = choose|k: int|
                        0 <= k < self@.len() && self@[k].open_time == candle.open_time;
                    assert(k >= i);
                    if i < self@.len() && k > i {
                        assert(self@[i as int].open_time < self@[k].open_time);
                    }
                }
            }
            self.candles.insert(i, *candle);
            proof {
                let s = old(self)@;
                let f = self@;
                assert(f == s.insert(i as int, *candle));
                assert forall|a: int, b: int| 0 <= a < b < f.len() implies f[a].open_time
                    < f[b].open_time by {
                    if b < i {
                    } else if a < i && b == i {
                    } else if a < i && b > i {
                        assert(f[b] == s[b - 1]);
                    } else if a == i {
                        assert(f[b] == s[b - 1]);
                        assert(s[b - 1].open_time >= s[i as int].open_time);
                    } else {
                        assert(f[a] == s[a - 1] && f[b] == s[b - 1]);
                    }
                }
                assert forall|x: int| has_ts(f, x) implies (has_ts(s, x) || x
                    == candle.open_time as int) by {
                    let k = choose|k: int| 0 <= k < f.len() && f[k].open_time == x;
                    if k < i {
                        assert(s[k] == f[k]);
                    } else if k > i {
                        assert(s[k - 1] == f[k]);
                    }
                }
                assert forall|x: int| (has_ts(s, x) || x == candle.open_time as int) implies
                    has_ts(f, x) by {
                    if has_ts(s, x) {
                        let k = choose|k: int| 0 <= k < s.len() && s[k].open_time == x;
                        if k < i {
                            assert(f[k] == s[k]);
                            assert(f[k].open_time == x);
                        } else {
                            assert(f[k + 1] == s[k]);
                            assert(f[k + 1].open_time == x);
                        }
                    } else {
                        assert(f[i as int].open_time == x);
                    }
                }
            }
            true
        }
    }

    /// The nearest stored candles strictly before and strictly after `t`,
    /// searching the whole series.
    pub fn known_siblings(&self, t: i64) -> (r: (Option<Candle>, Option<Candle>))
        requires
            self.wf(),
        ensures
            match r.0 {
                Some(c) => {
                    &&& self@.contains(c)
                    &&& c.open_time < t
                    &&& forall|i: int|
                        0 <= i < self@.len() && #[trigger] self@[i].open_time < t
                            ==> self@[i].open_time <= c.open_time
                },
                None => forall|i: int|
                    0 <= i < self@.len() ==> #[trigger] self@[i].open_time >= t,
            },
            match r.1 {
                Some(c) => {
                    &&& self@.contains(c)
                    &&& c.open_time > t
                    &&& forall|i: int|
                        0 <= i < self@.len() && #[trigger] self@[i].open_time > t
                            ==> self@[i].open_time >= c.open_time
                },
                None => forall|i: int|
                    0 <= i < self@.len() ==> #[trigger] self@[i].open_time <= t,
            },
    {
        let i = self.find_index(t);
        let n = self.candles.len();
        let left: Option<Candle> = if i > 0 {
            proof {
                assert(self@.contains(self@[i - 1]));
            }
            Some(self.candles[i - 1])
        } else {
            None
        };
        let mut j = i;
        if j < n && self.candles[j].open_time == t {
            j = j + 1;
        }
        let right: Option<Candle> = if j < n {
            proof {
                assert(self@.contains(self@[j as int]));
                assert forall|k: int| 0 <= k < self@.len() && #[trigger] self@[k].open_time > t
                    implies self@[k].open_time >= self@[j as int].open_time by {
                    if k < j {
                        assert(self@[k].open_time <= self@[j as int].open_time);
                    }
                }
            }
            Some(self.candles[j])
        } else {
            None
        };
        (left, right)
    }

    /// Drops every derived and every dead candle, keeping real ones in
    /// order.
    pub fn remove_fills(&mut self)
        requires
            old(self).wf(),
        ensures
            final(self).wf(),
            final(self)@ == keep_real(old(self)@),
            final(self).unique_violations == old(self).unique_violations,
    {
        let n = self.candles.len();
        let mut kept: Vec<Candle> = Vec::new();
        let mut i: usize = 0;
        proof {
            assert(self@.take(0) =~= Seq::<Candle>::empty());
        }
        while i < n
            invariant
                i <= n == self@.len(),
                kept@ == keep_real(self@.take(i as int)),
            decreases n - i,
        {
            let c = self.candles[i];
            proof {
                let pre = self@.take(i as int);
                let ext = self@.take(i + 1 as int);
                assert(ext.drop_last() =~= pre);
                assert(ext.last() == self@[i as int]);
            }
            if !(c.derived || c.dead) {
                kept.push(c);
            }
            i = i + 1;
        }
        proof {
            assert(self@.take(n as int) =~= self@);
            lemma_keep_real_props(self@);
        }
        self.candles = kept;
    }
}

/// Every candle kept by `keep_real` stands in the original series, in the
/// same relative order; so order, bounds and timestamps are preserved.
pub proof fn lemma_keep_real_props(s: Seq<Candle>)
    ensures
        keep_real(s).len() <= s.len(),
        forall|i: int| 0 <= i < keep_real(s).len() ==> s.contains(#[trigger] keep_real(s)[i]),
        sorted_by_time(s) ==> sorted_by_time(keep_real(s)),
        all_candles_ok(s) ==> all_candles_ok(keep_real(s)),
        forall|x: int| has_ts(keep_real(s), x) ==> has_ts(s, x),
        forall|i: int|
            0 <= i < keep_real(s).len() ==> !(#[trigger] keep_real(s)[i].derived) && !keep_real(
                s,
            )[i].dead,
        forall|i: int|
            0 <= i < s.len() && !(#[trigger] s[i].derived) && !s[i].dead ==> has_ts(
                keep_real(s), s[i].open_time as int),
    decreases s.len(),
{
    if s.len() > 0 {
        let pre = s.drop_last();
        lemma_keep_real_props(pre);
        assert forall|i: int| 0 <= i < keep_real(s).len() implies s.contains(#[trigger] keep_real(
            s,
        )[i]) by {
            if i < keep_real(pre).len() {
                assert(pre.contains(keep_real(pre)[i]));
                let k = choose|k: int| 0 <= k < pre.len() && pre[k] == keep_real(pre)[i];
                assert(s[k] == keep_real(s)[i]);
            } else {
                assert(keep_real(s)[i] == s.last());
                assert(s[s.len() - 1] == s.last());
            }
        }
        if sorted_by_time(s) {
            assert(sorted_by_time(pre)) by {
                assert forall|a: int, b: int| 0 <= a < b < pre.len() implies pre[a].open_time
                    < pre[b].open_time by {
                    assert(s[a] == pre[a] && s[b] == pre[b]);
                }
            }
            assert forall|a: int, b: int| 0 <= a < b < keep_real(s).len() implies keep_real(
                s,
            )[a].open_time < keep_real(s)[b].open_time by {
                if b < keep_real(pre).len() {
                } else {
                    assert(keep_real(s)[a] == keep_real(pre)[a]);
                    assert(keep_real(s)[b] == s.last());
                    assert(pre.contains(keep_real(pre)[a]));
                    let kk = choose|k: int| 0 <= k < pre.len() && pre[k] == keep_real(pre)[a];
                    assert(s[kk] == keep_real(s)[a]);
                    assert(s[kk].open_time < s[s.len() - 1].open_time);
                }
            }
        }
        if all_candles_ok(s) {
            assert(all_candles_ok(pre)) by {
                assert forall|i: int| 0 <= i < pre.len() implies candle_ok(#[trigger] pre[i]) by {
                    assert(pre[i] == s[i]);
                }
            }
        }
        assert forall|x: int| has_ts(keep_real(s), x) implies has_ts(s, x) by {
            let k = choose|k: int|
                0 <= k < keep_real(s).len() && #[trigger] keep_real(s)[k].open_time == x;
            assert(s.contains(keep_real(s)[k]));
            let j = choose|j: int| 0 <= j < s.len() && s[j] == keep_real(s)[k];
            assert(s[j].open_time == x);
        }
        assert forall|i: int| 0 <= i < s.len() && !(#[trigger] s[i].derived) && !s[i].dead implies
            has_ts(keep_real(s), s[i].open_time as int) by {
            if i < s.len() - 1 {
                assert(pre[i] == s[i]);
                assert(has_ts(keep_real(pre), pre[i].open_time as int));
                let k = choose|k: int|
                    0 <= k < keep_real(pre).len() && #[trigger] keep_real(pre)[k].open_time
                        == pre[i].open_time;
                assert(keep_real(s)[k] == keep_real(pre)[k]);
            } else {
                let last = keep_real(s).len() - 1;
                assert(keep_real(s)[last] == s.last());
            }
        }
    }
}

} // verus!
