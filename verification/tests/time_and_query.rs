use chrono::Datelike;
use chrono::TimeZone;
use chrono::Utc;
use market_bomb::time::{interval_ms, round_ms, range_num_candles, ago, now, WEEK_MS};
use market_bomb::query::{Query, QueryOpt, Order};
use market_bomb::normalized::MAD;
use market_bomb::api::parse_price;
use market_bomb::meta::Meta;
use market_bomb::command::{parse_command, Command, CommandError};

#[test]
fn calculates_step() {
    assert_eq!(interval_ms("15m").unwrap(), 900000);
    assert_eq!(interval_ms("1h").unwrap(), 3600000);
    assert_eq!(interval_ms("1d").unwrap(), 86400000);
}

#[test]
fn to_ms_cleans_datetime() {
    let step = interval_ms("15m").unwrap();
    let date = Utc.with_ymd_and_hms(2017, 12, 12, 12, 11, 12).unwrap();
    assert_eq!(round_ms(date.timestamp_millis(), step), 1513080000000);
    let date = Utc.with_ymd_and_hms(2017, 12, 12, 12, 14, 15).unwrap();
    assert_eq!(round_ms(date.timestamp_millis(), step), 1513080000000);
    let date = Utc.with_ymd_and_hms(2017, 12, 12, 12, 16, 15).unwrap();
    assert_eq!(round_ms(date.timestamp_millis(), step), 1513080900000);
}

#[test]
fn week_rounding_lands_on_mondays() {
    // 2020-01-08 13:00 UTC rounds down to Monday 2020-01-06 00:00 UTC.
    assert_eq!(round_ms(1578488400000, WEEK_MS), 1578268800000);
}

#[test]
fn negative_intervals_parse() {
    assert_eq!(interval_ms("-2h").unwrap(), -7200000);
    assert_eq!(interval_ms(""), None);
    assert_eq!(interval_ms("15"), None);
    assert_eq!(interval_ms("x5m"), None);
    assert_eq!(interval_ms("15q"), None);
    assert_eq!(interval_ms("1234567m"), None);
}

#[test]
fn query_works() {
    let mut query = Query::new("BTCUSDT", "15m");
    query.set_all(vec![
        QueryOpt::Start(ago("1h").unwrap()),
        QueryOpt::End(ago("0m").unwrap()),
    ]);
    assert!(!query.is_empty());
}

#[test]
fn time_weeks() {
    let start = ago("7w").unwrap();
    let end = ago("1w").unwrap();

    println!("start: {}", start);
    println!("end:   {}", end);

    assert_eq!(range_num_candles(start, end, interval_ms("1w").unwrap()), 6);
}

#[test]
fn range() {
    let noon = Utc.with_ymd_and_hms(2020, 1, 1, 12, 0, 0).unwrap().timestamp_millis();
    let step = interval_ms("15m").unwrap();
    let hour = interval_ms("1h").unwrap();

    // there are four fifteen minute candles in an hour
    assert_eq!(range_num_candles(noon, noon + hour, step), 4);
}

#[test]
fn query_options_round_and_clear() {
    let mut query = Query::default();
    assert_eq!(query.step(), 900000);
    query.set(QueryOpt::Start(1513080672000));
    assert_eq!(query.start().unwrap(), 1513080000000);
    query.set(QueryOpt::End(1513080975000));
    assert_eq!(query.end().unwrap(), 1513080900000);
    query.set(QueryOpt::Limit(5));
    query.set(QueryOpt::Order(Order::DESC));
    query.set(QueryOpt::Len(10));
    query.set(QueryOpt::Exp(true));
    assert!(matches!(query.get(&QueryOpt::Limit(0)), Some(QueryOpt::Limit(5))));
    assert_eq!(query.len(), Some(10));
    assert_eq!(query.exp(), Some(true));
    query.remove(&QueryOpt::Limit(0));
    assert_eq!(query.limit(), None);
    query.clear();
    assert_eq!(query.start(), None);
    assert_eq!(query.end(), None);
    assert_eq!(query.num_candles(), 0);
    let t = now();
    assert!(t != 0 || t == 0);
}

#[test]
fn prices_parse_exactly() {
    assert_eq!(parse_price("123.45").unwrap(), 12345000000);
    assert_eq!(parse_price("0.00001234").unwrap(), 1234);
    assert_eq!(parse_price("300").unwrap(), 30000000000);
    // a ninth fractional digit is truncated
    assert_eq!(parse_price("1.000000019").unwrap(), 100000001);
    assert_eq!(parse_price(""), None);
    assert_eq!(parse_price("."), None);
    assert_eq!(parse_price("12."), None);
    assert_eq!(parse_price("a.5"), None);
    assert_eq!(parse_price("1.5x"), None);
    assert_eq!(parse_price("12345678901"), None);
}

#[test]
fn mad_descriptions_parse() {
    let mad = MAD::from("4h:200:true").unwrap();
    assert_eq!(mad.interval, "4h");
    assert_eq!(mad.len, 200);
    assert!(mad.exp);
    let mad = MAD::from("1d:50:false").unwrap();
    assert_eq!(mad.interval, "1d");
    assert_eq!(mad.len, 50);
    assert!(!mad.exp);
    assert!(MAD::from("4h:200").is_none());
    assert!(MAD::from("4h:x:true").is_none());
    assert!(MAD::from("4h:200:yes").is_none());
}

#[test]
fn command_history_deduplicates_front() {
    let mut meta = Meta::new();
    meta.log_command("download 15m 4h..1h");
    meta.log_command("download 15m 4h..1h");
    assert_eq!(meta.cmds.len(), 1);
    meta.log_command("reset");
    assert_eq!(meta.cmds.len(), 2);
    assert_eq!(meta.cmds[0], "reset");
    assert_eq!(meta.cmds[1], "download 15m 4h..1h");
}

#[test]
fn parse_command_recognizes_verbs() {
    let now_ms: i64 = 1_700_000_000_000;
    assert!(matches!(parse_command("reset", now_ms), Ok(Command::Reset)));
    assert!(matches!(parse_command("predict", now_ms), Ok(Command::Predict)));
    assert!(matches!(parse_command("build_csv", now_ms), Ok(Command::BuildCsv)));
    assert!(matches!(parse_command("hodl", now_ms), Ok(Command::Unrecognized)));
    assert!(matches!(parse_command("download 15m", now_ms), Ok(Command::Unrecognized)));
}

#[test]
fn parse_command_translates_download_ranges() {
    let now_ms: i64 = 1_700_000_000_000;
    match parse_command("download 15m 4h..1h", now_ms) {
        Ok(Command::Download { interval, start, end }) => {
            assert_eq!(interval, "15m");
            assert_eq!(start, now_ms - 4 * 3600000);
            assert_eq!(end, now_ms - 3600000);
        },
        other => panic!("unexpected parse: {:?}", other.is_ok()),
    }
    match parse_command("download 1h 4h", now_ms) {
        Ok(Command::Download { interval, start, end }) => {
            assert_eq!(interval, "1h");
            assert_eq!(start, now_ms - 4 * 3600000);
            assert_eq!(end, now_ms);
        },
        other => panic!("unexpected parse: {:?}", other.is_ok()),
    }
    assert!(matches!(
        parse_command("download 15m 1h..4h", now_ms),
        Err(CommandError::StartAfterEnd)
    ));
    assert!(matches!(
        parse_command("download quick 4h..1h", now_ms),
        Err(CommandError::BadInterval)
    ));
    assert!(matches!(
        parse_command("download 15m soon", now_ms),
        Err(CommandError::BadRange)
    ));
}

#[test]
fn ago_works() {
    let now = Utc::now();
    let one_y_ago = chrono::DateTime::from_timestamp_millis(ago("1y").unwrap()).unwrap();

    assert_eq!(now.year() - 1, one_y_ago.year());
    assert_eq!(now.day(), one_y_ago.day());
    assert_eq!(now.month(), one_y_ago.month());
}

#[test]
fn months_ago_steps_the_calendar() {
    let now = Utc::now();
    let three_m_ago = chrono::DateTime::from_timestamp_millis(ago("3M").unwrap()).unwrap();

    let months_now = now.year() * 12 + now.month0() as i32;
    let months_then = three_m_ago.year() * 12 + three_m_ago.month0() as i32;
    assert_eq!(months_now - months_then, 3);
    // the day of month survives unless the target month is shorter
    assert!(three_m_ago.day() <= now.day());
}
