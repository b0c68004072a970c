//! Reading candles back from the store: the half-open time window and
//! domain filters, ordering, limit, and result indexing.

use vstd::prelude::*;
use crate::candle::Candle;
use crate::query::{Query, Order};
use crate::store::CandleStore;

verus! {

/// Whether a stored candle satisfies the query's filters: inside the
/// half-open `[start, end)` time window and at or above the domain
/// thresholds.
pub open spec fn matches_query(q: Query, c: Candle) -> bool {
    &&& (q.start_opt is Some ==> c.open_time >= q.start_opt.unwrap())
    &&& (q.end_opt is Some ==> c.open_time < q.end_opt.unwrap())
    &&& (q.top_domain_opt is Some ==> c.top_domain >= q.top_domain_opt.unwrap())
    &&& (q.bottom_domain_opt is Some ==> c.bottom_domain >= q.bottom_domain_opt.unwrap())
}

/// The stored candles that satisfy the query's filters, in store order.
pub open spec fn query_filter(s: Seq<Candle>, q: Query) -> Seq<Candle>
    decreases s.len(),
{
    if s.len() == 0 {
        Seq::empty()
    } else {
        query_filter(s.drop_last(), q) + if matches_query(q, s.last()) {
            seq![s.last()]
        } else {
            Seq::empty()
        }
    }
}

/// A sequence reversed.
pub open spec fn rev_seq(s: Seq<Candle>) -> Seq<Candle> {
    Seq::new(s.len(), |i: int| s[s.len() - 1 - i])
}

/// The filtered candles in the query's order: ascending by default,
/// descending when asked.
pub open spec fn ordered_filter(s: Seq<Candle>, q: Query) -> Seq<Candle> {
    if q.order_opt == Some(Order::DESC) {
        rev_seq(query_filter(s, q))
    } else {
        query_filter(s, q)
    }
}

/// The ordered candles cut to the query's limit.
pub open spec fn limited_filter(s: Seq<Candle>, q: Query) -> Seq<Candle> {
    let f = ordered_filter(s, q);
    match q.limit_opt {
        Some(l) => if l < f.len() {
            f.take(l as int)
        } else {
            f
        },
        None => f,
    }
}

/// Each result candle stamped with its position in the result.
pub open spec fn with_index(s: Seq<Candle>) -> Seq<Candle> {
    Seq::new(s.len(), |i: int| Candle { index: i as usize, ..s[i] })
}

impl Query {
    /// The candles of the store that satisfy this query, ordered, limited,
    /// and stamped with their result positions.
    pub fn query_candles(&self, store: &CandleStore) -> (r: Vec<Candle>)
        ensures
            r@ == with_index(limited_filter(store@, *self)),
    {
        let n = store.len();
        let mut picked: Vec<Candle> = Vec::new();
        proof {
            assert(store@.take(0) =~= Seq::<Candle>::empty());
        }
        let mut i: usize = 0;
        while i < n
            invariant
                i <= n == store@.len(),
                picked@ == query_filter(store@.take(i as int), *self),
            decreases n - i,
        {
            let c = store.candle_at(i);
            proof {
                let pre = store@.take(i as int);
                let ext = store@.take(i + 1 as int);
                assert(ext.drop_last() =~= pre);
                assert(ext.last() == store@[i as int]);
            }
            let keep = (match self.start() {
                Some(s) => c.open_time >= s,
                None => true,
            }) && (match self.end() {
                Some(e) => c.open_time < e,
                None => true,
            }) && (match self.top_domain() {
                Some(v) => c.top_domain >= v,
                None => true,
            }) && (match self.bottom_domain() {
                Some(v) => c.bottom_domain >= v,
                None => true,
            });
            if keep {
                picked.push(c);
            }
            i = i + 1;
        }
        proof {
            assert(store@.take(n as int) =~= store@);
        }
        // Order.
        let mut ordered: Vec<Candle>;
        let desc = match self.order() {
            Some(Order::DESC) => true,
            _ => false,
        };
        if desc {
            let m = picked.len();
            let mut revd: Vec<Candle> = Vec::new();
            let mut j: usize = 0;
            while j < m
                invariant
                    j <= m == picked@.len(),
                    revd@.len() == j,
                    forall|k: int| 0 <= k < j ==> revd@[k] == picked@[m - 1 - k],
                decreases m - j,
            {
                revd.push(picked[m - 1 - j]);
                j = j + 1;
            }
            proof {
                assert(revd@ =~= rev_seq(picked@));
            }
            ordered = revd;
        } else {
            ordered = picked;
        }
        // Limit.
        match self.limit() {
            Some(l) => {
                if l < ordered.len() {
                    ordered.truncate(l);
                }
            },
            None => {},
        }
        // Stamp result positions.
        let ghost base = ordered@;
        let m = ordered.len();
        let mut j: usize = 0;
        while j < m
            invariant
                j <= m == ordered@.len(),
                base.len() == m,
                forall|k: int| 0 <= k < j ==> ordered@[k] == with_index(base)[k],
                forall|k: int| j <= k < m ==> ordered@[k] == base[k],
            decreases m - j,
        {
            let mut c = ordered[j];
            c.index = j;
            ordered[j] = c;
            j = j + 1;
        }
        proof {
            assert(ordered@ =~= with_index(base));
        }
        ordered
    }

    /// How many stored candles satisfy this query's filters; the limit and
    /// order take no part in counting.
    pub fn count_candles(&self, store: &CandleStore) -> (r: usize)
        ensures
            r == query_filter(store@, *self).len(),
    {
        let n = store.len();
        let mut count: usize = 0;
        proof {
            assert(store@.take(0) =~= Seq::<Candle>::empty());
            lemma_query_filter_len(store@.take(0), *self);
        }
        let mut i: usize = 0;
        while i < n
            invariant
                i <= n == store@.len(),
                count == query_filter(store@.take(i as int), *self).len(),
                count <= i,
            decreases n - i,
        {
            let c = store.candle_at(i);
            proof {
                let pre = store@.take(i as int);
                let ext = store@.take(i + 1 as int);
                assert(ext.drop_last() =~= pre);
                assert(ext.last() == store@[i as int]);
            }
            let keep = (match self.start() {
                Some(s) => c.open_time >= s,
                None => true,
            }) && (match self.end() {
                Some(e) => c.open_time < e,
                None => true,
            }) && (match self.top_domain() {
                Some(v) => c.top_domain >= v,
                None => true,
            }) && (match self.bottom_domain() {
                Some(v) => c.bottom_domain >= v,
                None => true,
            });
            if keep {
                count = count + 1;
            }
            i = i + 1;
        }
        proof {
            assert(store@.take(n as int) =~= store@);
        }
        count
    }

    /// The stored top-domain threshold.
    pub fn top_domain(&self) -> (r: Option<i32>)
        ensures
            r == self.top_domain_opt,
    {
        self.top_domain_opt
    }

    /// The stored bottom-domain threshold.
    pub fn bottom_domain(&self) -> (r: Option<i32>)
        ensures
            r == self.bottom_domain_opt,
    {
        self.bottom_domain_opt
    }
}

/// The filtered sequence is never longer than its source.
pub proof fn lemma_query_filter_len(s: Seq<Candle>, q: Query)
    ensures
        query_filter(s, q).len() <= s.len(),
    decreases s.len(),
{
    if s.len() > 0 {
        lemma_query_filter_len(s.drop_last(), q);
    }
}

} // verus!
