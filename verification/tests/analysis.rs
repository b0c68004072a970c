use market_bomb::candle::Candle;
use market_bomb::candles::{Candles, ensure_congruent};
use market_bomb::domain::{build_domain, set_domain};
use market_bomb::query::{Query, QueryOpt, Order};
use market_bomb::store::CandleStore;
use market_bomb::strong_point::{generate_points, CandlePos, StrongPoint};
use market_bomb::trend_line::{Line, slope_less, TrendLine};
use market_bomb::line_cross::{generate_crosses, CrossType};
use market_bomb::time::interval_ms;

const STEP: i64 = 900000;
const S: i64 = 100_000_000;

fn candle(k: i64, high: i64, low: i64) -> Candle {
    Candle {
        open: (high + low) / 2,
        high,
        low,
        close: (high + low) / 2,
        volume: S,
        open_time: k * STEP,
        close_time: k * STEP + STEP - 1,
        ..Candle::default()
    }
}

fn store_of(candles: &[Candle]) -> CandleStore {
    let mut store = CandleStore::new();
    for c in candles {
        store.insert_candle(c);
    }
    store
}

#[test]
fn calculates_domain() {
    // a tent: the middle candle carries the single highest high
    let cs = vec![
        candle(0, 10 * S, 9 * S),
        candle(1, 12 * S, 11 * S),
        candle(2, 20 * S, 12 * S),
        candle(3, 13 * S, 11 * S),
        candle(4, 11 * S, 9 * S),
    ];
    let mut store = store_of(&cs);
    build_domain(&mut store);

    // the single highest-high candle falls back to the distance to the
    // nearer window edge and is flagged fuzzy
    let peak = store.candle_at(2);
    assert_eq!(peak.top_domain, 2);
    assert!(peak.fuzzy_domain);

    // an inner candle bounded on both sides gets the nearer bound
    let c1 = store.candle_at(1);
    assert_eq!(c1.top_domain, 1);
}

#[test]
fn set_domain_counts_both_sides() {
    let mut cs = vec![
        candle(0, 15 * S, 1 * S),
        candle(1, 10 * S, 5 * S),
        candle(2, 11 * S, 4 * S),
        candle(3, 12 * S, 3 * S),
        candle(4, 16 * S, 2 * S),
    ];
    set_domain(&mut cs, 2);
    // nearest strictly higher high on the left is at 3 away? no: candle 3
    // has a higher high one step right, candle 0 three steps left
    assert_eq!(cs[2].top_domain, 1);
    // lows: candle 1 above, candle 3 below on the right side
    assert_eq!(cs[2].bottom_domain, 1);
}

#[test]
fn strong_points_carry_running_index() {
    let mut cs = vec![
        candle(0, 10 * S, 9 * S),
        candle(1, 12 * S, 8 * S),
        candle(2, 11 * S, 7 * S),
    ];
    cs[0].top_domain = 4;
    cs[0].bottom_domain = 0;
    cs[1].top_domain = 5;
    cs[1].bottom_domain = 6;
    cs[2].top_domain = 0;
    cs[2].bottom_domain = 0;
    let pts: Vec<StrongPoint> = generate_points(&cs, 4);
    assert_eq!(pts.len(), 3);
    assert!(matches!(pts[0].position, CandlePos::HIGH));
    assert_eq!(pts[0].candle_index, 0);
    assert_eq!(pts[0].index, 0);
    assert!(matches!(pts[1].position, CandlePos::HIGH));
    assert_eq!(pts[1].y, 12 * S);
    assert!(matches!(pts[2].position, CandlePos::LOW));
    assert_eq!(pts[2].y, 8 * S);
    assert_eq!(pts[2].index, 2);
}

#[test]
fn fresh_lines_never_intersect_their_roots() {
    let cs = vec![
        candle(0, 10 * S, 9 * S),
        candle(1, 11 * S, 8 * S),
        candle(2, 12 * S, 7 * S),
    ];
    let window = Candles::new(cs.clone());
    let low_line = Line::new(&window, 0, CandlePos::LOW, 2, CandlePos::LOW);
    assert!(!low_line.intersects(&cs[0]));
    assert!(!low_line.intersects(&cs[2]));
    let high_line = Line::new(&window, 0, CandlePos::HIGH, 2, CandlePos::HIGH);
    assert!(!high_line.intersects(&cs[0]));
    assert!(!high_line.intersects(&cs[2]));
}

#[test]
fn flat_line_rejected_when_slope_does_not_improve() {
    // two LOW lines: the committed one rises, the candidate is flat twenty
    // candles apart, so its slope does not improve on the previous one
    let mut cs = Vec::new();
    for k in 0..30i64 {
        cs.push(candle(k, (100 + k) * S, (50 + k) * S));
    }
    // make the candidate's roots flat
    cs[5].low = 40 * S;
    cs[25].low = 40 * S;
    let window = Candles::new(cs.clone());

    let committed = Line::new(&window, 0, CandlePos::LOW, 4, CandlePos::LOW);
    let mut lines = vec![committed];

    let flat = Line::new(&window, 5, CandlePos::LOW, 25, CandlePos::LOW);
    assert!(!slope_less(&committed, &flat));
    let accepted = market_bomb::trend_line::add(&window, &mut lines, &flat);
    assert!(!accepted);
    assert_eq!(lines.len(), 1);
}

#[test]
fn crosses_classify_by_entry_and_exit() {
    // a flat LOW line at 50; later candles pierce it downward
    let mut cs = Vec::new();
    for k in 0..10i64 {
        cs.push(candle(k, 100 * S, 60 * S));
    }
    cs[0].low = 50 * S;
    cs[4].low = 50 * S;
    // candle 6 pierces the line: its body sits above, so it bounces
    cs[6].low = 40 * S;
    let window = Candles::new(cs.clone());
    let line = Line::new(&window, 0, CandlePos::LOW, 4, CandlePos::LOW);
    let tl = TrendLine {
        line,
        crosses: Vec::new(),
        strength: 0,
        p1: (0, 50 * S),
        p2: (0, 0),
    };
    let crosses = generate_crosses(&window, &tl, None);
    assert_eq!(crosses.len(), 1);
    assert_eq!(crosses[0].open_index, 6);
    assert!(matches!(crosses[0].t, CrossType::BOUNCE));
}

#[test]
fn gap_groups_are_maximal_runs() {
    // missing at slots 1,2 and 5: adjacent slots share a group, the
    // separated slot gets its own
    let step = interval_ms("15m").unwrap();
    let mut query = Query::new("BTCUSDT", "15m");
    query.set_all(vec![QueryOpt::Start(0), QueryOpt::End(7 * step)]);
    let present: Vec<Candle> = [0i64, 3, 4, 6]
        .iter()
        .map(|k| candle(*k, 10 * S, 9 * S))
        .collect();
    let store = store_of(&present);

    let ungrouped = query.missing_candles_ungrouped(&store);
    // seven slots, four present: exactly three missing
    assert_eq!(ungrouped.len(), 7 - 4);

    let groups = query.missing_candles(&store);
    assert_eq!(groups.len(), 2);
    assert_eq!(groups[0].start, step);
    assert_eq!(groups[0].end, 3 * step);
    assert_eq!(groups[1].start, 5 * step);
    assert_eq!(groups[1].end, 6 * step);
}

#[test]
fn interpolation_stays_between_neighbours() {
    let left = candle(0, 10 * S, 2 * S);
    let mut right = candle(8, 20 * S, 6 * S);
    right.open = 14 * S;
    right.close = 18 * S;
    let c = Candle::linear_regression(3 * STEP, &left, &right);
    assert!(c.derived);
    assert_eq!(c.open_time, 3 * STEP);
    for (v, lo, hi) in [
        (c.open, left.open.min(right.open), left.open.max(right.open)),
        (c.high, left.high.min(right.high), left.high.max(right.high)),
        (c.low, left.low.min(right.low), left.low.max(right.low)),
        (c.close, left.close.min(right.close), left.close.max(right.close)),
    ] {
        assert!(lo <= v && v <= hi);
    }
    // the exact blend at three eighths of the way
    assert_eq!(c.high, (left.high * 5 + right.high * 3) / 8);
}

#[test]
fn congruence_spots_holes() {
    let cs = vec![
        candle(0, 10 * S, 9 * S),
        candle(1, 10 * S, 9 * S),
        candle(2, 10 * S, 9 * S),
    ];
    assert!(ensure_congruent(&cs));
    let holed = vec![
        candle(0, 10 * S, 9 * S),
        candle(2, 10 * S, 9 * S),
    ];
    assert!(!ensure_congruent(&holed));
    assert!(ensure_congruent(&Vec::new()));
}

#[test]
fn missing_moving_averages_follow_the_grid() {
    let step = interval_ms("15m").unwrap();
    let mut query = Query::new("BTCUSDT", "15m");
    query.set_all(vec![
        QueryOpt::Start(0),
        QueryOpt::End(4 * step),
        QueryOpt::Len(10),
        QueryOpt::Exp(true),
    ]);
    let present = vec![step, 3 * step];
    let missing = query.missing_ma_ungrouped(&present);
    assert_eq!(missing, vec![0, 2 * step]);
}

#[test]
fn queries_order_and_limit() {
    let cs: Vec<Candle> = (0i64..5).map(|k| candle(k, (10 + k) * S, 9 * S)).collect();
    let store = store_of(&cs);
    let mut query = Query::new("BTCUSDT", "15m");
    query.set_all(vec![
        QueryOpt::Start(0),
        QueryOpt::End(10 * STEP),
        QueryOpt::Order(Order::DESC),
        QueryOpt::Limit(2),
    ]);
    let got = query.query_candles(&store);
    assert_eq!(got.len(), 2);
    assert_eq!(got[0].open_time, 4 * STEP);
    assert_eq!(got[1].open_time, 3 * STEP);
    assert_eq!(got[0].index, 0);
    assert_eq!(got[1].index, 1);
    assert_eq!(query.count_candles(&store), 5);
    assert_eq!(query.candle_index(&cs[3]), 3);
}
