use chrono::TimeZone;
use chrono::Utc;
use market_bomb::candle::Candle;
use market_bomb::query::{Query, QueryOpt};
use market_bomb::store::CandleStore;
use market_bomb::reconcile::Reconciler;
use market_bomb::time::{interval_ms, round_ms, ago};
use market_bomb::api::RawCandle;

const SYMBOL: &str = "BTCUSDT";

/// A plain real candle for one slot.
fn slot_candle(open_time: i64, step: i64) -> Candle {
    Candle {
        open: 100_000_000,
        high: 200_000_000,
        low: 50_000_000,
        close: 150_000_000,
        volume: 1_000_000_000,
        open_time,
        close_time: open_time + step - 1,
        ..Candle::default()
    }
}

/// What the provider would return for one fetch window: one candle per
/// slot of the half-open window.
fn fake_fetch(start: i64, end: i64, step: i64) -> Vec<Candle> {
    let mut result = Vec::new();
    let mut t = start;
    while t < end {
        result.push(slot_candle(t, step));
        t += step;
    }
    result
}

/// Drives a whole reconciliation against the emulated provider.
fn save_candles(query: &Query, store: &mut CandleStore) -> Vec<Candle> {
    let mut rec = Reconciler::new(query.clone(), store);
    while let Some(window) = rec.next_fetch() {
        let candles = fake_fetch(window.start, window.end, query.step());
        rec.deliver(store, &candles);
    }
    rec.finish(store)
}

#[test]
fn calculates_missing_candles() {
    let mut query = Query::new(SYMBOL, "15m");
    let step = query.step();
    let t1_ms = Utc.with_ymd_and_hms(2017, 12, 12, 0, 0, 0).unwrap().timestamp_millis();
    let t2_ms = Utc.with_ymd_and_hms(2017, 12, 12, 1, 0, 0).unwrap().timestamp_millis();
    let t3_ms = Utc.with_ymd_and_hms(2017, 12, 12, 2, 0, 0).unwrap().timestamp_millis();
    let t4_ms = Utc.with_ymd_and_hms(2017, 12, 12, 3, 0, 0).unwrap().timestamp_millis();

    let mut store = CandleStore::new();

    let result = fake_fetch(t1_ms, t2_ms, step);
    assert_eq!(result.len(), 4);
    assert_eq!(result[0].open_time, t1_ms);
    assert_eq!(result.last().unwrap().open_time, t2_ms - step);
    for c in &result {
        store.insert_candle(c);
    }
    let result = fake_fetch(t3_ms, t4_ms, step);
    assert_eq!(result.len(), 4);
    assert_eq!(result[0].open_time, t3_ms);
    assert_eq!(result.last().unwrap().open_time, t4_ms - step);
    for c in &result {
        store.insert_candle(c);
    }

    query.set_all(vec![QueryOpt::Start(t1_ms), QueryOpt::End(t4_ms)]);
    let missing = query.missing_candles(&store);

    // one group (groups are split if candles are not adjacent); the group
    // is the half-open span of the missing hour
    assert_eq!(missing.len(), 1);
    assert_eq!(missing[0].start, t2_ms);
    assert_eq!(missing[0].end, t3_ms);
    assert!(missing[0].end <= t3_ms);

    let candles = query.query_candles(&store);
    assert_eq!(candles.len(), 8);

    // fetch the missing candles, and check that they were saved
    for c in &fake_fetch(t2_ms, t3_ms, step) {
        store.insert_candle(c);
    }
    let thirteen_candles = query.query_candles(&store);
    assert_eq!(thirteen_candles.len(), 12);
}

#[test]
fn linear_regression() {
    let query = Query::default();
    let step = query.step();
    let mut store = CandleStore::new();

    let t1 = round_ms(ago("3h").unwrap(), step);
    let t2 = round_ms(ago("1h").unwrap(), step);
    let c1 = Candle {
        open: 300 * 100_000_000,
        high: 400 * 100_000_000,
        low: 100 * 100_000_000,
        close: 200 * 100_000_000,
        volume: 100 * 100_000_000,
        open_time: t1,
        close_time: t1 + step,
        ..Candle::default()
    };
    let c2 = Candle {
        open: 75 * 100_000_000,
        high: 100 * 100_000_000,
        low: 25 * 100_000_000,
        close: 50 * 100_000_000,
        volume: 50 * 100_000_000,
        open_time: t2,
        close_time: t2 + step,
        ..Candle::default()
    };

    store.insert_candle(&c1);
    store.insert_candle(&c2);

    // red herrings
    store.insert_candle(&Candle {
        open_time: round_ms(ago("1d").unwrap(), step),
        ..Candle::default()
    });
    store.insert_candle(&Candle {
        open_time: round_ms(ago("15m").unwrap(), step),
        ..Candle::default()
    });

    // ensure that known_siblings works first
    match store.known_siblings(ago("2h").unwrap()) {
        (Some(left), Some(right)) => {
            assert_eq!(left.open_time, c1.open_time);
            assert_eq!(right.open_time, c2.open_time);
        },
        _ => panic!("known_siblings is not returning two candles as expected."),
    }

    let mut query = query;
    query.set_all(vec![QueryOpt::Start(c1.open_time), QueryOpt::End(c2.open_time)]);
    query.linear_regression(&mut store);
    let count = query.count_candles(&store);

    // 3h      2h      1h
    // | | | | | | | |
    // the half-open window ends just before the right neighbour
    assert_eq!(count, 8);

    query.set_all(vec![
        QueryOpt::Start(c1.open_time + step),
        QueryOpt::End(c1.open_time + 2 * step),
    ]);
    let candles = query.query_candles(&store);
    assert_eq!(candles.len(), 1);

    // seven eighths of the left neighbour plus one eighth of the right
    assert_eq!(candles[0].open, (c1.open * 7 + c2.open) / 8);
    assert_eq!(candles[0].high, (c1.high * 7 + c2.high) / 8);
    assert_eq!(candles[0].close, (c1.close * 7 + c2.close) / 8);
    assert_eq!(candles[0].low, (c1.low * 7 + c2.low) / 8);
    assert!(candles[0].derived);
}

#[test]
fn test_api_is_inclusive() {
    let mut query = Query::default();

    query.set_all(vec![
        QueryOpt::Start(ago("4h").unwrap()),
        QueryOpt::End(ago("3h").unwrap()),
    ]);
    assert_eq!(
        query.end().unwrap() - query.start().unwrap(),
        interval_ms("1h").unwrap()
    );

    let mut store = CandleStore::new();
    assert_eq!(query.missing_candles_ungrouped(&store).len(), 4);
    let groups = query.missing_candles(&store);
    assert_eq!(((groups[0].end - groups[0].start) / query.step()), 4);

    let candles = save_candles(&query, &mut store);
    for c in &candles {
        println!("time: {}", c.open_time);
    }
    assert_eq!(candles.len(), 4);
}

#[test]
fn week_interval_works() {
    let mut query = Query::new(SYMBOL, "1w");
    query.set_all(vec![
        QueryOpt::Start(ago("20w").unwrap()),
        QueryOpt::End(market_bomb::time::now()),
    ]);

    let mut store = CandleStore::new();
    let candles = save_candles(&query, &mut store);
    assert_eq!(candles.len(), 20);
}

#[test]
fn functional_frames() {
    let mut query = Query::new(SYMBOL, "15m");
    let step = query.step();

    let start = round_ms(
        Utc.with_ymd_and_hms(2020, 1, 1, 0, 0, 0).unwrap().timestamp_millis(),
        step,
    );
    let end = start + step * 100;

    query.set_all(vec![QueryOpt::Start(start), QueryOpt::End(end)]);
    let mut store = CandleStore::new();
    let missing = query.missing_candles(&store);

    assert_eq!(missing.len(), 1);
    assert_eq!(missing[0].start, start);
    assert_eq!(missing[0].end, end);

    let candles = save_candles(&query, &mut store);
    assert_eq!(candles.len(), 100);
}

#[test]
fn reconciliation_is_idempotent() {
    // a second run over the same range plans no fetch and keeps the count
    let mut query = Query::new(SYMBOL, "15m");
    let step = query.step();
    query.set_all(vec![QueryOpt::Start(0), QueryOpt::End(8 * step)]);

    let mut store = CandleStore::new();
    // the provider can only supply half of the range
    let mut rec = Reconciler::new(query.clone(), &store);
    while let Some(window) = rec.next_fetch() {
        let candles = fake_fetch(window.start, window.start + 4 * step, step);
        rec.deliver(&mut store, &candles);
    }
    let first = rec.finish(&mut store);
    assert_eq!(first.len(), 8);

    let count_before = store.len();
    let rec = Reconciler::new(query.clone(), &store);
    assert!(rec.next_fetch().is_none());
    let second = rec.finish(&mut store);
    assert_eq!(second.len(), 8);
    assert_eq!(store.len(), count_before);
}

#[test]
fn duplicate_inserts_are_tallied_not_fatal() {
    let mut store = CandleStore::new();
    let c = slot_candle(900000, 900000);
    assert!(store.insert_candle(&c));
    assert!(!store.insert_candle(&c));
    assert_eq!(store.len(), 1);
    assert_eq!(store.unique_violations, 1);
}

#[test]
fn gap_scenario_fills_and_interpolates() {
    // candles at minute offsets 0,15,30,45 and 90,105 within [0,120)
    let step = interval_ms("15m").unwrap();
    let mut query = Query::new(SYMBOL, "15m");
    query.set_all(vec![QueryOpt::Start(0), QueryOpt::End(8 * step)]);

    let mut store = CandleStore::new();
    for k in [0i64, 1, 2, 3, 6, 7] {
        store.insert_candle(&slot_candle(k * step, step));
    }

    let missing = query.missing_candles(&store);
    assert_eq!(missing.len(), 1);
    assert_eq!(missing[0].start, 4 * step);
    assert_eq!(missing[0].end, 6 * step);

    // the provider backfills both missing candles
    let mut filled = store.clone();
    for c in &fake_fetch(4 * step, 6 * step, step) {
        filled.insert_candle(c);
    }
    let candles = query.query_candles(&filled);
    assert_eq!(candles.len(), 8);
    assert_eq!(candles.iter().filter(|c| c.dead).count(), 0);
    assert_eq!(candles.iter().filter(|c| !c.dead && !c.derived).count(), 8);

    // the provider cannot supply offset 75: interpolation fills it from the
    // neighbours at 60 and 90
    let mut partial = store.clone();
    partial.insert_candle(&slot_candle(4 * step, step));
    query.linear_regression(&mut partial);
    let candles = query.query_candles(&partial);
    assert_eq!(candles.len(), 8);
    let c75 = candles.iter().find(|c| c.open_time == 5 * step).unwrap();
    assert!(c75.derived);
    let left = candles.iter().find(|c| c.open_time == 4 * step).unwrap();
    let right = candles.iter().find(|c| c.open_time == 6 * step).unwrap();
    assert_eq!(c75.open, (left.open + right.open) / 2);
    assert!(c75.high >= left.high.min(right.high) && c75.high <= left.high.max(right.high));
}

#[test]
fn provider_rows_convert_exactly() {
    let raw = RawCandle(
        900000,
        String::from("300.5"),
        String::from("400"),
        String::from("100.25"),
        String::from("200"),
        String::from("10.5"),
        1799999,
        String::from("0"),
        0,
        String::from("0"),
        String::from("0"),
        String::from("0"),
    );
    let c = raw.to_candle().unwrap();
    assert_eq!(c.open, 30050000000);
    assert_eq!(c.high, 40000000000);
    assert_eq!(c.low, 10025000000);
    assert_eq!(c.close, 20000000000);
    assert_eq!(c.volume, 1050000000);
    assert_eq!(c.open_time, 900000);
    assert_eq!(c.close_time, 1799999);

    let unordered = RawCandle(
        900000,
        String::from("300"),
        String::from("100"),
        String::from("200"),
        String::from("250"),
        String::from("10"),
        1799999,
        String::from("0"),
        0,
        String::from("0"),
        String::from("0"),
        String::from("0"),
    );
    // the high sits below the open: the row is rejected
    assert!(unordered.to_candle().is_none());

    let bad = RawCandle(
        900000,
        String::from("bad"),
        String::from("400"),
        String::from("100"),
        String::from("200"),
        String::from("10"),
        1799999,
        String::from("0"),
        0,
        String::from("0"),
        String::from("0"),
        String::from("0"),
    );
    assert!(bad.to_candle().is_none());
}

#[test]
fn edge_gaps_get_dead_placeholders() {
    let step = interval_ms("15m").unwrap();
    let mut query = Query::new(SYMBOL, "15m");
    query.set_all(vec![QueryOpt::Start(0), QueryOpt::End(4 * step)]);

    // a gap at the leading edge: no left neighbour for the first slot
    let mut store = CandleStore::new();
    store.insert_candle(&slot_candle(2 * step, step));
    store.insert_candle(&slot_candle(3 * step, step));
    query.linear_regression(&mut store);
    let candles = query.query_candles(&store);
    let c0 = candles.iter().find(|c| c.open_time == 0).unwrap();
    assert!(c0.dead && !c0.derived);
    let c1 = candles.iter().find(|c| c.open_time == step).unwrap();
    assert!(c1.derived && !c1.dead);

    // a gap at the trailing edge: no right neighbour at all
    let mut store = CandleStore::new();
    store.insert_candle(&slot_candle(0, step));
    store.insert_candle(&slot_candle(step, step));
    query.linear_regression(&mut store);
    let candles = query.query_candles(&store);
    assert!(candles.iter().filter(|c| c.dead).count() == 2);
    assert!(candles.iter().all(|c| c.open_time >= 2 * step || !c.dead));
}
