//! The query description for one symbol/interval pair: an explicit option
//! bag (start, end, limit, order, domain thresholds, moving-average length
//! and kind) with start and end rounded to the interval's step.

use vstd::prelude::*;
use crate::time::{interval_ms, interval_ms_spec, lemma_interval_ms_bound, round_ms,
    round_ms_spec, range_num_candles, FOUR_DAYS_MS};

verus! {

/// Largest timestamp the queries handle; almost eight millennia beyond any
/// real epoch millisecond, but small enough that grid arithmetic cannot
/// overflow and slot counts fit a `usize` on every platform.
pub const MAX_TS: i64 = 250000000000000;

/// Smallest step an interval string can denote: one minute.
pub const MIN_STEP: i64 = 60000;

/// Largest step an interval string can denote.
pub const MAX_STEP: i64 = 32000000000000000;

#[derive(Clone, Copy, PartialEq, Eq, Structural, Debug)]
pub enum Order {
    ASC,
    DESC,
}

/// One settable query option.
#[derive(Clone, Copy, PartialEq, Eq, Structural, Debug)]
pub enum QueryOpt {
    Start(i64),
    End(i64),
    Limit(usize),
    Order(Order),
    TopDomain(i32),
    BottomDomain(i32),
    Exp(bool),
    Len(i32),
}

/// A candle query: symbol, interval and the option bag.
#[derive(Clone, Debug)]
pub struct Query {
    pub symbol: String,
    pub interval: String,
    pub step: i64,
    pub start_opt: Option<i64>,
    pub end_opt: Option<i64>,
    pub limit_opt: Option<usize>,
    pub order_opt: Option<Order>,
    pub top_domain_opt: Option<i32>,
    pub bottom_domain_opt: Option<i32>,
    pub exp_opt: Option<bool>,
    pub len_opt: Option<i32>,
}

/// A timestamp option is absent or a bounded, non-negative instant.
pub open spec fn ts_opt_ok(v: Option<i64>) -> bool {
    v is Some ==> 0 <= v.unwrap() <= MAX_TS
}

impl Query {
    /// The step matches the interval string and every stored timestamp is in
    /// range.
    pub open spec fn wf(self) -> bool {
        &&& interval_ms_spec(self.interval@) == Some(self.step as int)
        &&& MIN_STEP <= self.step <= MAX_STEP
        &&& ts_opt_ok(self.start_opt)
        &&& ts_opt_ok(self.end_opt)
    }

    pub open spec fn spec_symbol(self) -> Seq<char> {
        self.symbol@
    }

    pub open spec fn spec_interval(self) -> Seq<char> {
        self.interval@
    }

    pub open spec fn spec_step(self) -> int {
        self.step as int
    }

    pub open spec fn spec_start(self) -> Option<i64> {
        self.start_opt
    }

    pub open spec fn spec_end(self) -> Option<i64> {
        self.end_opt
    }

    pub open spec fn spec_limit(self) -> Option<usize> {
        self.limit_opt
    }

    pub open spec fn spec_order(self) -> Option<Order> {
        self.order_opt
    }

    pub open spec fn spec_top_domain(self) -> Option<i32> {
        self.top_domain_opt
    }

    pub open spec fn spec_bottom_domain(self) -> Option<i32> {
        self.bottom_domain_opt
    }

    pub open spec fn spec_exp(self) -> Option<bool> {
        self.exp_opt
    }

    pub open spec fn spec_len(self) -> Option<i32> {
        self.len_opt
    }

    /// A query with no options set.
    pub fn new(symbol: &str, interval: &str) -> (q: Query)
        requires
            interval_ms_spec(interval@) is Some,
            interval_ms_spec(interval@).unwrap() > 0,
        ensures
            q.wf(),
            q.spec_symbol() == symbol@,
            q.spec_interval() == interval@,
            Some(q.spec_step()) == interval_ms_spec(interval@),
            q.spec_start() is None && q.spec_end() is None && q.spec_limit() is None,
            q.spec_order() is None && q.spec_top_domain() is None,
            q.spec_bottom_domain() is None && q.spec_exp() is None && q.spec_len() is None,
    {
        proof {
            lemma_interval_ms_bound(interval@);
        }
        let step = interval_ms(interval).unwrap();
        Query {
            symbol: symbol.to_owned(),
            interval: interval.to_owned(),
            step,
            start_opt: None,
            end_opt: None,
            limit_opt: None,
            order_opt: None,
            top_domain_opt: None,
            bottom_domain_opt: None,
            exp_opt: None,
            len_opt: None,
        }
    }

    /// The default query: BTCUSDT at fifteen minutes.
    pub fn default() -> (q: Query)
        ensures
            q.wf(),
            q.spec_step() == 900000,
            q.spec_start() is None && q.spec_end() is None,
    {
        let sym = "BTCUSDT";
        let itv = "15m";
        proof {
            reveal_strlit("15m");
            lemma_15m_parses(itv@);
        }
        Query::new(sym, itv)
    }

    /// What `get` returns for each option discriminant.
    pub open spec fn get_spec(self, opt: QueryOpt) -> Option<QueryOpt> {
        match opt {
            QueryOpt::Start(_) => match self.start_opt {
                Some(v) => Some(QueryOpt::Start(v)),
                None => None,
            },
            QueryOpt::End(_) => match self.end_opt {
                Some(v) => Some(QueryOpt::End(v)),
                None => None,
            },
            QueryOpt::Limit(_) => match self.limit_opt {
                Some(v) => Some(QueryOpt::Limit(v)),
                None => None,
            },
            QueryOpt::Order(_) => match self.order_opt {
                Some(v) => Some(QueryOpt::Order(v)),
                None => None,
            },
            QueryOpt::TopDomain(_) => match self.top_domain_opt {
                Some(v) => Some(QueryOpt::TopDomain(v)),
                None => None,
            },
            QueryOpt::BottomDomain(_) => match self.bottom_domain_opt {
                Some(v) => Some(QueryOpt::BottomDomain(v)),
                None => None,
            },
            QueryOpt::Exp(_) => match self.exp_opt {
                Some(v) => Some(QueryOpt::Exp(v)),
                None => None,
            },
            QueryOpt::Len(_) => match self.len_opt {
                Some(v) => Some(QueryOpt::Len(v)),
                None => None,
            },
        }
    }

    /// Returns the stored option with the same discriminant as `opt`.
    pub fn get(&self, opt: &QueryOpt) -> (r: Option<QueryOpt>)
        ensures
            r == self.get_spec(*opt),
    {
        match opt {
            QueryOpt::Start(_) => match self.start_opt {
                Some(v) => Some(QueryOpt::Start(v)),
                None => None,
            },
            QueryOpt::End(_) => match self.end_opt {
                Some(v) => Some(QueryOpt::End(v)),
                None => None,
            },
            QueryOpt::Limit(_) => match self.limit_opt {
                Some(v) => Some(QueryOpt::Limit(v)),
                None => None,
            },
            QueryOpt::Order(_) => match self.order_opt {
                Some(v) => Some(QueryOpt::Order(v)),
                None => None,
            },
            QueryOpt::TopDomain(_) => match self.top_domain_opt {
                Some(v) => Some(QueryOpt::TopDomain(v)),
                None => None,
            },
            QueryOpt::BottomDomain(_) => match self.bottom_domain_opt {
                Some(v) => Some(QueryOpt::BottomDomain(v)),
                None => None,
            },
            QueryOpt::Exp(_) => match self.exp_opt {
                Some(v) => Some(QueryOpt::Exp(v)),
                None => None,
            },
            QueryOpt::Len(_) => match self.len_opt {
                Some(v) => Some(QueryOpt::Len(v)),
                None => None,
            },
        }
    }

    pub fn symbol(&self) -> (r: &str)
        ensures
            r@ == self.spec_symbol(),
    {
        self.symbol.as_str()
    }

    pub fn interval(&self) -> (r: &str)
        ensures
            r@ == self.spec_interval(),
    {
        self.interval.as_str()
    }

    /// Whether the values carried by an option are in range for `set`.
    pub open spec fn opt_in_range(opt: QueryOpt) -> bool {
        match opt {
            QueryOpt::Start(v) => 0 <= v && v + FOUR_DAYS_MS <= MAX_TS,
            QueryOpt::End(v) => 0 <= v && v + FOUR_DAYS_MS <= MAX_TS,
            _ => true,
        }
    }

    /// The query after one option is stored; start and end are rounded to
    /// the step first.
    pub open spec fn set_spec(self, opt: QueryOpt) -> Query {
        match opt {
            QueryOpt::Start(v) => Query {
                start_opt: Some(round_ms_spec(v as int, self.step as int) as i64),
                ..self
            },
            QueryOpt::End(v) => Query {
                end_opt: Some(round_ms_spec(v as int, self.step as int) as i64),
                ..self
            },
            QueryOpt::Limit(v) => Query { limit_opt: Some(v), ..self },
            QueryOpt::Order(v) => Query { order_opt: Some(v), ..self },
            QueryOpt::TopDomain(v) => Query { top_domain_opt: Some(v), ..self },
            QueryOpt::BottomDomain(v) => Query { bottom_domain_opt: Some(v), ..self },
            QueryOpt::Exp(v) => Query { exp_opt: Some(v), ..self },
            QueryOpt::Len(v) => Query { len_opt: Some(v), ..self },
        }
    }

    /// Stores one option, rounding time values to the interval's step.
    pub fn set(&mut self, opt: QueryOpt)
        requires
            old(self).wf(),
            Query::opt_in_range(opt),
        ensures
            final(self).wf(),
            *final(self) == old(self).set_spec(opt),
    {
        proof {
            lemma_round_in_range(self.step as int);
        }
        match opt {
            QueryOpt::Start(v) => {
                self.start_opt = Some(round_ms(v, self.step));
            },
            QueryOpt::End(v) => {
                self.end_opt = Some(round_ms(v, self.step));
            },
            QueryOpt::Limit(v) => {
                self.limit_opt = Some(v);
            },
            QueryOpt::Order(v) => {
                self.order_opt = Some(v);
            },
            QueryOpt::TopDomain(v) => {
                self.top_domain_opt = Some(v);
            },
            QueryOpt::BottomDomain(v) => {
                self.bottom_domain_opt = Some(v);
            },
            QueryOpt::Exp(v) => {
                self.exp_opt = Some(v);
            },
            QueryOpt::Len(v) => {
                self.len_opt = Some(v);
            },
        }
    }

    /// The query after a sequence of options is stored in order.
    pub open spec fn set_all_spec(self, opts: Seq<QueryOpt>) -> Query
        decreases opts.len(),
    {
        if opts.len() == 0 {
            self
        } else {
            self.set_spec(opts[0]).set_all_spec(opts.skip(1))
        }
    }

    /// Stores every option of the vector, in order.
    pub fn set_all(&mut self, opt: Vec<QueryOpt>)
        requires
            old(self).wf(),
            forall|i: int| 0 <= i < opt@.len() ==> Query::opt_in_range(#[trigger] opt@[i]),
        ensures
            final(self).wf(),
            *final(self) == old(self).set_all_spec(opt@),
    {
        let n = opt.len();
        proof {
            assert(opt@.skip(0) =~= opt@);
        }
        let mut i: usize = 0;
        while i < n
            invariant
                i <= n == opt@.len(),
                self.wf(),
                forall|j: int| 0 <= j < opt@.len() ==> Query::opt_in_range(#[trigger] opt@[j]),
                old(self).set_all_spec(opt@) == self.set_all_spec(opt@.skip(i as int)),
            decreases n - i,
        {
            let o = opt[i];
            proof {
                let rest = opt@.skip(i as int);
                assert(rest[0] == opt@[i as int]);
                assert(rest.skip(1) =~= opt@.skip(i + 1));
            }
            self.set(o);
            i = i + 1;
        }
        proof {
            assert(opt@.skip(n as int) =~= Seq::<QueryOpt>::empty());
        }
    }

    /// Drops every stored option.
    pub fn clear(&mut self)
        requires
            old(self).wf(),
        ensures
            final(self).wf(),
            final(self).spec_symbol() == old(self).spec_symbol(),
            final(self).spec_interval() == old(self).spec_interval(),
            final(self).spec_step() == old(self).spec_step(),
            final(self).spec_start() is None && final(self).spec_end() is None,
            final(self).spec_limit() is None && final(self).spec_order() is None,
            final(self).spec_top_domain() is None && final(self).spec_bottom_domain() is None,
            final(self).spec_exp() is None && final(self).spec_len() is None,
    {
        self.start_opt = None;
        self.end_opt = None;
        self.limit_opt = None;
        self.order_opt = None;
        self.top_domain_opt = None;
        self.bottom_domain_opt = None;
        self.exp_opt = None;
        self.len_opt = None;
    }

    /// The query after the option with `opt`'s discriminant is dropped.
    pub open spec fn remove_spec(self, opt: QueryOpt) -> Query {
        match opt {
            QueryOpt::Start(_) => Query { start_opt: None, ..self },
            QueryOpt::End(_) => Query { end_opt: None, ..self },
            QueryOpt::Limit(_) => Query { limit_opt: None, ..self },
            QueryOpt::Order(_) => Query { order_opt: None, ..self },
            QueryOpt::TopDomain(_) => Query { top_domain_opt: None, ..self },
            QueryOpt::BottomDomain(_) => Query { bottom_domain_opt: None, ..self },
            QueryOpt::Exp(_) => Query { exp_opt: None, ..self },
            QueryOpt::Len(_) => Query { len_opt: None, ..self },
        }
    }

    /// Drops the stored option with the same discriminant as `opt`.
    pub fn remove(&mut self, opt: &QueryOpt)
        requires
            old(self).wf(),
        ensures
            final(self).wf(),
            *final(self) == old(self).remove_spec(*opt),
    {
        match opt {
            QueryOpt::Start(_) => {
                self.start_opt = None;
            },
            QueryOpt::End(_) => {
                self.end_opt = None;
            },
            QueryOpt::Limit(_) => {
                self.limit_opt = None;
            },
            QueryOpt::Order(_) => {
                self.order_opt = None;
            },
            QueryOpt::TopDomain(_) => {
                self.top_domain_opt = None;
            },
            QueryOpt::BottomDomain(_) => {
                self.bottom_domain_opt = None;
            },
            QueryOpt::Exp(_) => {
                self.exp_opt = None;
            },
            QueryOpt::Len(_) => {
                self.len_opt = None;
            },
        }
    }

    /// Switches the query to another interval; the step follows.
    pub fn set_interval(&mut self, interval: &str)
        requires
            old(self).wf(),
            interval_ms_spec(interval@) is Some,
            interval_ms_spec(interval@).unwrap() > 0,
        ensures
            final(self).wf(),
            final(self).spec_interval() == interval@,
            Some(final(self).spec_step()) == interval_ms_spec(interval@),
            final(self).spec_symbol() == old(self).spec_symbol(),
            final(self).spec_start() == old(self).spec_start(),
            final(self).spec_end() == old(self).spec_end(),
            final(self).spec_limit() == old(self).spec_limit(),
            final(self).spec_order() == old(self).spec_order(),
            final(self).spec_top_domain() == old(self).spec_top_domain(),
            final(self).spec_bottom_domain() == old(self).spec_bottom_domain(),
            final(self).spec_exp() == old(self).spec_exp(),
            final(self).spec_len() == old(self).spec_len(),
    {
        proof {
            lemma_interval_ms_bound(interval@);
        }
        self.interval = interval.to_owned();
        self.step = interval_ms(interval).unwrap();
    }

    /// Stores both bounds of a half-open range.
    pub fn set_range(&mut self, range: core::ops::Range<i64>)
        requires
            old(self).wf(),
            0 <= range.start && range.start + FOUR_DAYS_MS <= MAX_TS,
            0 <= range.end && range.end + FOUR_DAYS_MS <= MAX_TS,
        ensures
            final(self).wf(),
            *final(self) == old(self).set_spec(QueryOpt::Start(range.start)).set_spec(
                QueryOpt::End(range.end)),
    {
        let start = range.start;
        let end = range.end;
        self.set(QueryOpt::Start(start));
        self.set(QueryOpt::End(end));
    }

    /// The stored range, when both bounds are set.
    pub fn range(&self) -> (r: Option<core::ops::Range<i64>>)
        ensures
            match (self.spec_start(), self.spec_end()) {
                (Some(s), Some(e)) => r is Some && r.unwrap().start == s && r.unwrap().end == e,
                _ => r is None,
            },
    {
        match (self.start_opt, self.end_opt) {
            (Some(s), Some(e)) => Some(s..e),
            _ => None,
        }
    }

    pub fn start(&self) -> (r: Option<i64>)
        ensures
            r == self.spec_start(),
    {
        self.start_opt
    }

    pub fn end(&self) -> (r: Option<i64>)
        ensures
            r == self.spec_end(),
    {
        self.end_opt
    }

    pub fn step(&self) -> (r: i64)
        ensures
            r == self.spec_step(),
    {
        self.step
    }

    pub fn len(&self) -> (r: Option<i32>)
        ensures
            r == self.spec_len(),
    {
        self.len_opt
    }

    pub fn exp(&self) -> (r: Option<bool>)
        ensures
            r == self.spec_exp(),
    {
        self.exp_opt
    }

    pub fn limit(&self) -> (r: Option<usize>)
        ensures
            r == self.spec_limit(),
    {
        self.limit_opt
    }

    pub fn order(&self) -> (r: Option<Order>)
        ensures
            r == self.spec_order(),
    {
        self.order_opt
    }

    /// Number of step-wide slots between the stored bounds; zero unless both
    /// bounds are set with `start < end`.
    pub open spec fn num_candles_spec(self) -> int {
        match (self.start_opt, self.end_opt) {
            (Some(s), Some(e)) => if s < e {
                (e - s) / (self.step as int)
            } else {
                0
            },
            _ => 0,
        }
    }

    pub fn num_candles(&self) -> (n: usize)
        requires
            self.wf(),
        ensures
            n == self.num_candles_spec(),
    {
        match (self.start_opt, self.end_opt) {
            (Some(s), Some(e)) => {
                if s < e {
                    proof {
                        lemma_slots_fit(s as int, e as int, self.step as int);
                    }
                    range_num_candles(s, e, self.step)
                } else {
                    0
                }
            },
            _ => 0,
        }
    }

    /// Whether the stored bounds span no slot at all.
    pub fn is_empty(&self) -> (r: bool)
        requires
            self.wf(),
        ensures
            r == (self.num_candles_spec() == 0),
    {
        self.num_candles() == 0
    }

    /// The zero-based slot of a candle inside the stored range; zero when no
    /// start is set.
    pub fn candle_index(&self, candle: &crate::candle::Candle) -> (r: usize)
        requires
            self.wf(),
            self.spec_start() is Some ==> candle.open_time >= self.spec_start().unwrap(),
            candle.open_time <= MAX_TS,
        ensures
            r == match self.spec_start() {
                Some(s) => (candle.open_time - s) / self.spec_step(),
                None => 0int,
            },
    {
        match self.start_opt {
            Some(start) => {
                proof {
                    lemma_slots_fit(start as int, candle.open_time as int, self.step as int);
                }
                range_num_candles(start, candle.open_time, self.step)
            },
            None => 0,
        }
    }
}

/// The slot count of a bounded range fits in `usize` on every platform.
pub proof fn lemma_slots_fit(s: int, e: int, step: int)
    requires
        0 <= s <= e <= MAX_TS,
        MIN_STEP <= step,
    ensures
        0 <= (e - s) / step <= 4166666666,
{
    let d = e - s;
    vstd::arithmetic::div_mod::lemma_div_is_ordered_by_denominator(d, MIN_STEP as int, step);
    vstd::arithmetic::div_mod::lemma_div_is_ordered(d, MAX_TS as int, MIN_STEP as int);
    assert(MAX_TS as int / (MIN_STEP as int) == 4166666666);
    assert(0 <= d / step) by (nonlinear_arith)
        requires
            0 <= d,
            0 < step,
    ;
}

/// Rounding to a positive step keeps a bounded timestamp in range.
proof fn lemma_round_in_range(step: int)
    requires
        0 < step,
    ensures
        forall|v: int|
            0 <= v && v + FOUR_DAYS_MS <= MAX_TS ==> 0 <= #[trigger] round_ms_spec(v, step)
                <= MAX_TS,
{
    assert forall|v: int| 0 <= v && v + FOUR_DAYS_MS <= MAX_TS implies 0 <= #[trigger]
        round_ms_spec(v, step) <= MAX_TS by {
        assert(0 <= v % step <= v) by (nonlinear_arith)
            requires
                0 <= v,
                0 < step,
        ;
    }
}

/// The literal "15m" is a valid interval denoting fifteen minutes.
proof fn lemma_15m_parses(s: Seq<char>)
    requires
        s =~= seq!['1', '5', 'm'],
    ensures
        interval_ms_spec(s) == Some(900000int),
{
    let body = crate::time::interval_body(s);
    assert(body == s);
    let digits = body.take(2);
    assert(digits =~= seq!['1', '5']);
    assert(body.last() == 'm');
    assert(crate::time::all_digits(digits));
    let d1 = seq!['1'];
    let d15 = seq!['1', '5'];
    assert(d1.drop_last() =~= Seq::<char>::empty());
    assert(d15.drop_last() =~= d1);
    assert(crate::time::digits_val(Seq::<char>::empty()) == 0);
    assert(d1.last() == '1');
    assert(crate::time::digits_val(d1) == 1);
    assert(d15.last() == '5');
    assert(crate::time::digits_val(d15) == 15);
    assert(crate::time::interval_valid(s));
}

} // verus!
