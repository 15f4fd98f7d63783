use tick_aggregator::agg::aggregate_ticker;
use tick_aggregator::job::{run_tick_aggregation, Job, OhlcStore};
use tick_aggregator::model::{AggError, OhlcBar, RawTick};
use tick_aggregator::table::{find_watermark, upsert_bar};
use tick_aggregator::timeframe::{day_start, trunc, OhlcTimeframe};
use tick_aggregator::watermark::resolve_watermarks;

fn tick(ticker: &str, timestamp: u64, price: i64, volume: u64) -> RawTick {
    RawTick { ticker: ticker.to_string(), timestamp, price, volume }
}

fn bar(ticker: &str, timestamp: u64, open: i64, high: i64, low: i64, close: i64, volume: u64) -> OhlcBar {
    OhlcBar { ticker: ticker.to_string(), timestamp, open, high, low, close, volume }
}

fn assert_bar(b: &OhlcBar, ticker: &str, timestamp: u64, open: i64, high: i64, low: i64, close: i64, volume: u64) {
    assert_eq!(b.ticker, ticker);
    assert_eq!(b.timestamp, timestamp);
    assert_eq!(b.open, open);
    assert_eq!(b.high, high);
    assert_eq!(b.low, low);
    assert_eq!(b.close, close);
    assert_eq!(b.volume, volume);
}

fn same_rows(a: &[OhlcBar], b: &[OhlcBar]) -> bool {
    a.len() == b.len()
        && a.iter().all(|x| {
            b.iter().any(|y| {
                x.ticker == y.ticker
                    && x.timestamp == y.timestamp
                    && x.open == y.open
                    && x.high == y.high
                    && x.low == y.low
                    && x.close == y.close
                    && x.volume == y.volume
            })
        })
}

#[test]
fn registry_maps_all_timeframes() {
    assert_eq!(OhlcTimeframe::Minute.resolve(), ("minute", "minute_ohlc_data"));
    assert_eq!(OhlcTimeframe::Hour.resolve(), ("hour", "hour_ohlc_data"));
    assert_eq!(OhlcTimeframe::Daily.resolve(), ("day", "daily_ohlc_data"));
}

#[test]
fn truncation_buckets() {
    assert_eq!(trunc(60, 32430), 32400);
    assert_eq!(trunc(60, 32400), 32400);
    assert_eq!(trunc(3600, 32430), 32400);
    assert_eq!(trunc(86400, 90000), 86400);
    assert_eq!(day_start(90000), 86400);
    assert_eq!(day_start(0), 0);
}

#[test]
fn minute_scenario_two_buckets() {
    // 09:00 price 10 vol 100, 09:00:30 price 12 vol 50, 09:01 price 11 vol 200
    let raw = vec![
        tick("ABC", 32400, 10, 100),
        tick("ABC", 32430, 12, 50),
        tick("ABC", 32460, 11, 200),
    ];
    let bars = aggregate_ticker(&raw, &"ABC".to_string(), OhlcTimeframe::Minute, None).unwrap();
    assert_eq!(bars.len(), 2);
    assert_bar(&bars[0], "ABC", 32400, 10, 12, 10, 12, 150);
    assert_bar(&bars[1], "ABC", 32460, 11, 11, 11, 11, 200);
}

#[test]
fn hour_scenario_one_bucket() {
    let raw = vec![
        tick("ABC", 32400, 10, 100),
        tick("ABC", 32430, 12, 50),
        tick("ABC", 32460, 11, 200),
    ];
    let bars = aggregate_ticker(&raw, &"ABC".to_string(), OhlcTimeframe::Hour, None).unwrap();
    assert_eq!(bars.len(), 1);
    assert_bar(&bars[0], "ABC", 32400, 10, 12, 10, 11, 350);
}

#[test]
fn open_close_ties_are_deterministic() {
    // two ticks share one timestamp: the first opens, the last closes
    let raw = vec![
        tick("ABC", 100, 7, 1),
        tick("ABC", 100, 9, 1),
    ];
    let bars = aggregate_ticker(&raw, &"ABC".to_string(), OhlcTimeframe::Minute, None).unwrap();
    assert_eq!(bars.len(), 1);
    assert_bar(&bars[0], "ABC", 60, 7, 9, 7, 9, 2);
}

#[test]
fn volume_overflow_fails_the_ticker() {
    let raw = vec![
        tick("BAD", 10, 1, u64::MAX),
        tick("BAD", 20, 2, 1),
    ];
    let r = aggregate_ticker(&raw, &"BAD".to_string(), OhlcTimeframe::Minute, None);
    assert_eq!(r.unwrap_err(), AggError::VolumeOverflow);
}

#[test]
fn aggregation_skips_other_tickers() {
    let raw = vec![
        tick("ABC", 10, 1, 1),
        tick("DEF", 20, 2, 2),
        tick("ABC", 30, 3, 3),
    ];
    let bars = aggregate_ticker(&raw, &"ABC".to_string(), OhlcTimeframe::Minute, None).unwrap();
    assert_eq!(bars.len(), 1);
    assert_bar(&bars[0], "ABC", 0, 1, 3, 1, 3, 4);
}

#[test]
fn watermark_bounds_the_scan_to_its_day() {
    // watermark on day 1: the tick on day 0 is out of the window,
    // the whole of day 1 is rescanned
    let raw = vec![
        tick("ABC", 100, 99, 10),
        tick("ABC", 90060, 5, 20),
    ];
    let bars =
        aggregate_ticker(&raw, &"ABC".to_string(), OhlcTimeframe::Minute, Some(90000)).unwrap();
    assert_eq!(bars.len(), 1);
    assert_bar(&bars[0], "ABC", 90060, 5, 5, 5, 5, 20);
}

#[test]
fn resolver_lists_every_ticker_once() {
    let raw = vec![
        tick("ABC", 10, 1, 1),
        tick("DEF", 20, 2, 2),
        tick("ABC", 30, 3, 3),
        tick("GHI", 40, 4, 4),
    ];
    let table = vec![
        bar("ABC", 100, 1, 1, 1, 1, 1),
        bar("ABC", 200, 2, 2, 2, 2, 2),
        bar("DEF", 50, 3, 3, 3, 3, 3),
    ];
    let wms = resolve_watermarks(&raw, &table);
    assert_eq!(wms.len(), 3);
    assert_eq!(wms[0].0, "ABC");
    assert_eq!(wms[0].1, Some(200));
    assert_eq!(wms[1].0, "DEF");
    assert_eq!(wms[1].1, Some(50));
    assert_eq!(wms[2].0, "GHI");
    assert_eq!(wms[2].1, None);
}

#[test]
fn find_watermark_takes_the_latest() {
    let table = vec![
        bar("ABC", 300, 1, 1, 1, 1, 1),
        bar("ABC", 100, 2, 2, 2, 2, 2),
        bar("DEF", 500, 3, 3, 3, 3, 3),
    ];
    assert_eq!(find_watermark(&table, &"ABC".to_string()), Some(300));
    assert_eq!(find_watermark(&table, &"DEF".to_string()), Some(500));
    assert_eq!(find_watermark(&table, &"XYZ".to_string()), None);
}

#[test]
fn upsert_overwrites_in_place() {
    let mut table = vec![bar("ABC", 60, 1, 1, 1, 1, 1)];
    upsert_bar(&mut table, bar("ABC", 60, 2, 3, 1, 3, 9));
    assert_eq!(table.len(), 1);
    assert_bar(&table[0], "ABC", 60, 2, 3, 1, 3, 9);
    upsert_bar(&mut table, bar("ABC", 120, 5, 5, 5, 5, 5));
    assert_eq!(table.len(), 2);
    assert_bar(&table[1], "ABC", 120, 5, 5, 5, 5, 5);
}

#[test]
fn run_is_idempotent() {
    let raw = vec![
        tick("ABC", 32400, 10, 100),
        tick("ABC", 32430, 12, 50),
        tick("ABC", 32460, 11, 200),
        tick("DEF", 90060, 5, 20),
    ];
    let mut dest: Vec<OhlcBar> = Vec::new();
    let failed1 = run_tick_aggregation(&raw, &mut dest, OhlcTimeframe::Minute);
    assert!(failed1.is_empty());
    let after_first = dest.clone();
    let failed2 = run_tick_aggregation(&raw, &mut dest, OhlcTimeframe::Minute);
    assert!(failed2.is_empty());
    assert!(same_rows(&dest, &after_first));
}

#[test]
fn rerun_after_new_ticks_touches_only_new_days() {
    let raw1 = vec![tick("ABC", 100, 10, 1)];
    let mut dest: Vec<OhlcBar> = Vec::new();
    run_tick_aggregation(&raw1, &mut dest, OhlcTimeframe::Minute);
    assert_eq!(dest.len(), 1);
    assert_bar(&dest[0], "ABC", 60, 10, 10, 10, 10, 1);
    // new raw data arrives on a later day only
    let mut raw2 = raw1.clone();
    raw2.push(tick("ABC", 90060, 5, 20));
    run_tick_aggregation(&raw2, &mut dest, OhlcTimeframe::Minute);
    assert_eq!(dest.len(), 2);
    // the day-0 bar is untouched
    assert_bar(&dest[0], "ABC", 60, 10, 10, 10, 10, 1);
    assert_bar(&dest[1], "ABC", 90060, 5, 5, 5, 5, 20);
}

#[test]
fn one_failing_ticker_does_not_block_the_rest() {
    let raw = vec![
        tick("BAD", 10, 1, u64::MAX),
        tick("GOOD", 15, 4, 7),
        tick("BAD", 20, 2, 1),
        tick("ALSO", 75, 6, 8),
    ];
    let mut dest: Vec<OhlcBar> = Vec::new();
    let failed = run_tick_aggregation(&raw, &mut dest, OhlcTimeframe::Minute);
    assert_eq!(failed, vec!["BAD".to_string()]);
    assert_eq!(dest.len(), 2);
    assert_bar(&dest[0], "GOOD", 0, 4, 4, 4, 4, 7);
    assert_bar(&dest[1], "ALSO", 60, 6, 6, 6, 6, 8);
}

#[test]
fn new_ticker_gets_a_first_full_pass() {
    let raw = vec![
        tick("NEW", 100, 3, 5),
        tick("NEW", 86500, 4, 6),
    ];
    let dest: Vec<OhlcBar> = vec![bar("OLD", 60, 1, 1, 1, 1, 1)];
    let wms = resolve_watermarks(&raw, &dest);
    assert_eq!(wms.len(), 1);
    assert_eq!(wms[0].0, "NEW");
    assert_eq!(wms[0].1, None);
    let mut table = dest.clone();
    run_tick_aggregation(&raw, &mut table, OhlcTimeframe::Minute);
    // both days of the new ticker are aggregated
    assert_eq!(table.len(), 3);
    assert_bar(&table[1], "NEW", 60, 3, 3, 3, 3, 5);
    assert_bar(&table[2], "NEW", 86460, 4, 4, 4, 4, 6);
}

#[test]
fn job_runs_against_the_store() {
    let mut store = OhlcStore {
        raw: vec![
            tick("ABC", 32400, 10, 100),
            tick("ABC", 32430, 12, 50),
            tick("ABC", 32460, 11, 200),
        ],
        minute: Vec::new(),
        hour: Vec::new(),
        daily: Vec::new(),
    };
    let job = Job::TickAggrigate { timeframe: OhlcTimeframe::Minute };
    let failed = job.run(&mut store);
    assert!(failed.is_empty());
    assert_eq!(store.minute.len(), 2);
    assert_bar(&store.minute[0], "ABC", 32400, 10, 12, 10, 12, 150);
    assert_bar(&store.minute[1], "ABC", 32460, 11, 11, 11, 11, 200);
    assert!(store.hour.is_empty());
    assert!(store.daily.is_empty());
    assert_eq!(store.raw.len(), 3);
}

#[test]
fn daily_job_fills_the_daily_table() {
    let mut store = OhlcStore {
        raw: vec![
            tick("ABC", 100, 10, 1),
            tick("ABC", 86500, 20, 2),
            tick("ABC", 86600, 15, 3),
        ],
        minute: Vec::new(),
        hour: Vec::new(),
        daily: Vec::new(),
    };
    let job = Job::TickAggrigate { timeframe: OhlcTimeframe::Daily };
    let failed = job.run(&mut store);
    assert!(failed.is_empty());
    assert_eq!(store.daily.len(), 2);
    assert_bar(&store.daily[0], "ABC", 0, 10, 10, 10, 10, 1);
    assert_bar(&store.daily[1], "ABC", 86400, 20, 20, 15, 15, 5);
    assert!(store.minute.is_empty());
}
