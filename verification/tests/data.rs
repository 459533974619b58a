//! Reading data: file names, ticker maps, rows, ticks and metadata records.

use std::collections::{HashMap, VecDeque};

use backtester::bar::{Bar, MarketSession};
use backtester::calendar::Date;
use backtester::context::Context;
use backtester::data::{file_year_month, SubscriptionMask, TickerMap};
use backtester::decimal::Decimal;
use backtester::engine::driver::{plan_file, FilePlan};
use backtester::engine::pending::ActionLoader;
use backtester::error::BacktestError;
use backtester::files::{parquet_file, sorted_parquet_files};
use backtester::insider::{
    load_insider_transactions, load_insider_transactions_from, InsiderRecord, TransCode,
};
use backtester::metadata::{
    load_dividends, load_dividends_from, load_renames, load_splits, load_splits_from,
    load_ticker_map, load_ticker_map_from, output_place, read_ticker_pairs, resolve_data_file, wants_dividend,
    DividendRecord, Loaded, RenameRecord, SplitRecord,
};
use backtester::reader::{read_bars, Reading, TickReader};
use backtester::symbol::Symbol;
use backtester::tick::{group_rows, Row, Tick};
use backtester::tick_stream::{
    choose_threads, deal, decode_batch, Message, Step, TickStream, MAX_AUTO_THREADS,
};
use rustc_hash::FxHashSet;

/// Whole units and hundredths.
fn dec(hundredths: i64) -> Decimal {
    Decimal { units: hundredths * 10_000 }
}

fn row(ticker: u16, at: i64, open: i64, high: i64, low: i64, close: i64, volume: u32) -> Row<Decimal> {
    Row {
        ticker,
        volume,
        open: dec(open),
        high: dec(high),
        low: dec(low),
        close: dec(close),
        window_start: at,
    }
}

fn names(list: &[&str]) -> FxHashSet<String> {
    list.iter().map(|s| s.to_string()).collect()
}

fn date(y: i32, m: u32, d: u32) -> Date {
    Date::from_ymd(y, m, d).unwrap()
}

// Rows

/// Rows of AAPL (id 47) from 2023-01-03T04:00 ET on, and one of an id without
/// a name.
fn aapl_rows() -> Vec<Row<Decimal>> {
    let start = 1_672_736_400_000_000_000;
    vec![
        row(47, start, 13028, 13100, 13028, 13100, 3_847),
        row(48, start, 1, 1, 1, 1, 1),
        row(47, start + 60_000_000_000, 13100, 13120, 13090, 13105, 0),
    ]
}

fn load() -> Vec<(String, Bar<Decimal>)> {
    let ticker_map = load_ticker_map("/data", Ok("{\"47\": \"AAPL\"}".to_string())).unwrap();
    read_bars(&aapl_rows(), &ticker_map)
}

#[test]
fn maps_columns_to_the_right_fields() {
    let bars = load();
    assert_eq!(bars.len(), 2, "a row without a name is left out");
    assert!(bars.iter().all(|(s, _)| s == "AAPL"));

    let (_, first) = &bars[0];
    assert_eq!(first.open, dec(13028));
    assert_eq!(first.close, dec(13100));
    assert_eq!(first.high, dec(13100));
    assert_eq!(first.low, dec(13028));
    assert_eq!(first.session(), MarketSession::PreMarket);
    assert_eq!(first.time.to_rfc3339(), "2023-01-03T09:00:00+00:00");
}

#[test]
fn volume_is_loaded() {
    let bars = load();
    assert!(bars.iter().any(|(_, b)| b.volume > 0), "all volumes are zero");
}

#[test]
fn every_bar_satisfies_ohlc_invariants() {
    for (sym, b) in load() {
        assert!(b.high.units >= b.low.units, "{sym}: high below low");
        assert!(b.high.units >= b.open.units && b.high.units >= b.close.units);
        assert!(b.low.units <= b.open.units && b.low.units <= b.close.units);
    }
}

// File names

#[test]
fn file_year_month_parses_hive_partition_dirs() {
    let hive = "/data/minute/year=2023/month=7/part-0.parquet";
    assert_eq!(file_year_month(hive), Some((2023, 7)));

    let bare = "/data/minute/2023/7/part-0.parquet";
    assert_eq!(file_year_month(bare), Some((2023, 7)));
}

#[test]
fn a_file_outside_a_partition_lies_in_no_month() {
    assert_eq!(file_year_month("part-0.parquet"), None);
    assert_eq!(file_year_month("/data/minute/part-0.parquet"), None);
    assert_eq!(file_year_month("/data/2023/june/part-0.parquet"), None);
    assert_eq!(file_year_month("/data/year=2023//month=7/./part-0.parquet"), Some((2023, 7)));
}

#[test]
fn files_are_read_by_month_then_by_path() {
    let entries: Vec<String> = [
        "/d/year=2023/month=10/part-0.parquet",
        "/d/year=2023/month=2/part-1.parquet",
        "/d/year=2023/month=2/part-0.parquet",
        "/d/year=2022/month=12/part-0.parquet",
        "/d/encoded_tickers.json",
        "/d/year=2023/month=2",
        "/d/loose.parquet",
        "/d/year=2023/month=2/.parquet",
    ]
    .iter()
    .map(|s| s.to_string())
    .collect();
    assert_eq!(
        sorted_parquet_files(&entries),
        vec![
            "/d/loose.parquet",
            "/d/year=2022/month=12/part-0.parquet",
            "/d/year=2023/month=2/part-0.parquet",
            "/d/year=2023/month=2/part-1.parquet",
            "/d/year=2023/month=10/part-0.parquet",
        ]
    );
    assert!(parquet_file("a.parquet"));
    assert!(!parquet_file(".parquet"));
    assert!(!parquet_file("a.parquet/b"));
}

#[test]
fn whole_months_outside_the_range_are_planned_away() {
    let (start, end) = (Date::from_ymd(2023, 2, 15), Date::from_ymd(2023, 3, 1));
    assert_eq!(plan_file("/d/2023/1/p.parquet", start, end), FilePlan::Skip);
    assert_eq!(plan_file("/d/2023/2/p.parquet", start, end), FilePlan::Read);
    assert_eq!(plan_file("/d/2023/3/p.parquet", start, end), FilePlan::Read);
    assert_eq!(plan_file("/d/2023/4/p.parquet", start, end), FilePlan::Stop);
    assert_eq!(plan_file("/d/p.parquet", start, end), FilePlan::Read);
    assert_eq!(plan_file("/d/2023/4/p.parquet", None, None), FilePlan::Read);
}

#[test]
fn metadata_paths_resolve_against_the_data_root() {
    let resolve = |custom: Option<&str>| {
        resolve_data_file("/data", &custom.map(|s| s.to_string()), "default.json")
    };
    assert_eq!(resolve(None), ("/data/default.json".to_string(), false));
    assert_eq!(resolve(Some("mine.json")), ("/data/mine.json".to_string(), true));
    assert_eq!(resolve(Some("/else/mine.json")), ("/else/mine.json".to_string(), true));
    assert_eq!(resolve_data_file("/data/", &None, "x").0, "/data/x");
}

// Subscriptions

#[test]
fn pushdown_pays_off_only_for_a_selective_subscription() {
    let mut mask = SubscriptionMask::with_id_space(1_000);
    assert!(mask.is_empty());
    for id in 0..100 {
        mask.insert(Symbol::from_ticker_id(id));
    }
    assert_eq!(mask.len(), 100);
    assert!(mask.worth_pushing_down(), "10% of the id space is worth filtering");

    for id in 100..600 {
        mask.insert(Symbol::from_ticker_id(id));
    }
    assert!(!mask.worth_pushing_down(), "60% of the id space is not");

    // Inserting the same id twice must not inflate the count.
    mask.insert(Symbol::from_ticker_id(0));
    assert_eq!(mask.len(), 600);
}

/// Drain every tick of a file through a reader, `batch` rows at a time.
fn drain(rows: &[Row<Decimal>], mask: &SubscriptionMask, batch: usize) -> Vec<Tick<Decimal>> {
    let mut reader: TickReader<Decimal> = TickReader::new("file");
    let mut batches = rows.chunks(batch);
    let mut out = Vec::new();
    loop {
        match reader.next_tick() {
            Reading::Tick(tick) => out.push(tick),
            Reading::NeedRows => match batches.next() {
                Some(rows) => reader.accept(&rows.to_vec(), mask).unwrap(),
                None => reader.exhaust(),
            },
            Reading::End => return out,
        }
    }
}

/// What a list of ticks says, for comparing.
#[allow(clippy::type_complexity)]
fn said(ticks: &[Tick<Decimal>]) -> Vec<(i64, Vec<(u16, String, i64, i64, i64, i64, u64)>)> {
    ticks
        .iter()
        .map(|(ts, bars)| {
            let bars = bars
                .iter()
                .map(|(s, b)| {
                    let (o, h, l, c) = (b.open.units, b.high.units, b.low.units, b.close.units);
                    (s.ticker_id(), b.time.to_rfc3339(), o, h, l, c, b.volume)
                })
                .collect();
            (*ts, bars)
        })
        .collect()
}

#[test]
fn a_pushed_down_subscription_reads_the_same_bars() {
    // AAPL alone out of a wide id space is selective enough to filter on;
    // every id up to it is not. Rows filtered beforehand and rows filtered
    // while reading must come to the same bars.
    let mut selective = SubscriptionMask::with_id_space(20_000);
    selective.insert(Symbol::from_ticker_id(47));
    assert!(selective.worth_pushing_down(), "expected the narrow mask to push down");

    let mut wide = SubscriptionMask::new();
    for id in 0..=47 {
        wide.insert(Symbol::from_ticker_id(id));
    }
    assert!(!wide.worth_pushing_down(), "expected the wide mask to read unfiltered");

    let rows: Vec<Row<Decimal>> = aapl_rows().into_iter().take(3).collect();
    let kept: Vec<Row<Decimal>> =
        rows.iter().filter(|r| selective.contains(r.ticker)).copied().collect();
    let filtered = drain(&kept, &selective, 10);
    let unfiltered = drain(&rows, &wide, 10);
    assert!(!filtered.is_empty());
    assert_eq!(said(&filtered), said(&unfiltered));
}

// Ticks

/// A dataset of `files` files, each holding `ticks` timestamps with `symbols`
/// rows apiece. Prices encode the row's identity, so that a dropped or moved
/// row shows.
fn files_of(files: i64, ticks: i64, symbols: u16) -> Vec<Vec<Row<Decimal>>> {
    (1..=files)
        .map(|file| {
            let base = 1_700_000_000_000_000_000 + file * 86_400_000_000_000;
            let mut rows = Vec::new();
            for tick in 0..ticks {
                for id in 0..symbols {
                    let price = id as i64 * 100 + tick;
                    let at = base + tick * 60_000_000_000;
                    rows.push(row(id, at, price, price * 2, price / 2, price + 1, id as u32 * 10));
                }
            }
            rows
        })
        .collect()
}

fn all_symbols(n: u16) -> SubscriptionMask {
    let mut mask = SubscriptionMask::with_id_space(n as usize);
    for id in 0..n {
        mask.insert(Symbol::from_ticker_id(id));
    }
    mask
}

/// Everything a sequential sweep yields, a tick split across two files put
/// together.
fn sequential(files: &[Vec<Row<Decimal>>], mask: &SubscriptionMask) -> Vec<Tick<Decimal>> {
    let mut out: Vec<Tick<Decimal>> = Vec::new();
    for rows in files {
        for (ts, bars) in drain(rows, mask, 50) {
            match out.last_mut() {
                Some((last, whole)) if *last == ts => whole.extend(bars),
                _ => out.push((ts, bars)),
            }
        }
    }
    out
}

/// The messages a worker sends for its units of (file, rows), `batch` rows at a
/// time.
fn worker(
    units: &[(usize, usize)],
    files: &[Vec<Row<Decimal>>],
    mask: &SubscriptionMask,
    batch: usize,
) -> VecDeque<Message<Decimal>> {
    let mut out = VecDeque::new();
    for &(file, group) in units {
        let path = format!("file-{file}");
        let rows: Vec<Row<Decimal>> =
            files[file].chunks(64).nth(group).unwrap().to_vec();
        let mut last_ts = None;
        for rows in rows.chunks(batch) {
            match decode_batch(&path, &rows.to_vec(), mask, last_ts) {
                Ok((message, stamp)) => {
                    last_ts = stamp;
                    out.extend(message);
                }
                Err(error) => {
                    out.push_back(Message::Failed(error));
                    return out;
                }
            }
        }
        out.push_back(Message::UnitDone);
    }
    out.push_back(Message::Finished);
    out
}

/// Everything the stream yields with a number of threads, or its error.
fn parallel(
    files: &[Vec<Row<Decimal>>],
    mask: &SubscriptionMask,
    threads: usize,
) -> Result<Vec<Tick<Decimal>>, BacktestError> {
    let mut units: Vec<(usize, usize)> = Vec::new();
    for (file, rows) in files.iter().enumerate() {
        for group in 0..rows.chunks(64).len() {
            units.push((file, group));
        }
    }
    let threads = choose_threads(threads, 1, units.len());
    let mut inboxes: Vec<VecDeque<Message<Decimal>>> =
        deal(&units, threads).iter().map(|queue| worker(queue, files, mask, 10)).collect();
    let mut stream: TickStream<Decimal> = TickStream::new(threads);
    let mut out = Vec::new();
    loop {
        match stream.next_tick()? {
            Step::Tick(tick) => out.push(tick),
            Step::Receive(turn) => {
                stream.receive(inboxes[turn].pop_front().unwrap_or(Message::Lost))?
            }
            Step::End => return Ok(out),
        }
    }
}

#[test]
fn parallel_decode_matches_a_sequential_sweep() {
    let files = files_of(4, 25, 7); // 175 rows a file in units of 64: plenty of straddles
    let mask = all_symbols(7);
    let expected = sequential(&files, &mask);
    assert_eq!(expected.len(), 100, "4 months x 25 ticks");
    assert!(expected.iter().all(|(_, bars)| bars.len() == 7), "every tick holds every symbol");

    // Thread counts on both sides of the unit count, so the rotation is
    // exercised with workers that get several units, one unit, and none.
    for threads in [1, 2, 3, 8, 32] {
        let got = parallel(&files, &mask, threads).unwrap();
        assert_eq!(said(&got), said(&expected), "{threads} thread(s)");
    }
}

#[test]
fn a_selective_subscription_still_matches() {
    let files = files_of(2, 40, 9);
    // Two of nine ids.
    let mut mask = SubscriptionMask::with_id_space(9);
    mask.insert(Symbol::from_ticker_id(1));
    mask.insert(Symbol::from_ticker_id(6));
    assert!(mask.worth_pushing_down());

    let expected = sequential(&files, &mask);
    assert!(expected.iter().all(|(_, bars)| bars.len() == 2));
    for threads in [1, 4] {
        let got = parallel(&files, &mask, threads).unwrap();
        assert_eq!(said(&got), said(&expected), "{threads} thread(s)");
    }
}

#[test]
fn ticks_that_straddle_a_file_boundary_arrive_whole() {
    // Two months whose last and first timestamps coincide - the awkward case
    // for a stream that hands out a tick only once it is complete.
    let shared = 1_700_000_000_000_000_000;
    let at = |id: u16, ts: i64| row(id, ts, 100, 100, 100, 100, 1);
    let files = vec![
        vec![at(0, shared - 60_000_000_000), at(0, shared), at(1, shared)],
        vec![at(2, shared), at(3, shared + 60_000_000_000)],
    ];
    let ticks = parallel(&files, &all_symbols(4), 4).unwrap();

    assert_eq!(ticks.len(), 3, "one tick per distinct timestamp");
    assert_eq!(ticks[1].0, shared);
    let mut ids: Vec<u16> = ticks[1].1.iter().map(|(s, _)| s.ticker_id()).collect();
    ids.sort_unstable();
    assert_eq!(ids, vec![0, 1, 2], "bars from both files land in one tick");
}

#[test]
fn unsorted_data_fails_the_stream_at_the_first_bad_row() {
    let base = 1_700_000_000_000_000_000;
    // One backwards step early in the file and another later: whichever
    // worker notices first, the error reported must be the earlier one.
    let mut stamps: Vec<i64> = (0..200).map(|i| base + i * 60_000_000_000).collect();
    stamps[80] = base - 60_000_000_000;
    stamps[150] = base - 120_000_000_000;
    let rows: Vec<Row<Decimal>> =
        stamps.iter().map(|&ts| row(0, ts, 100, 100, 100, 100, 1)).collect();

    for threads in [1, 2, 8] {
        match parallel(&[rows.clone()], &all_symbols(1), threads) {
            Err(BacktestError::OutOfOrderData { at, .. }) => {
                assert_eq!(at.timestamp(), (base - 60_000_000_000) / 1_000_000_000);
            }
            Err(_) => panic!("expected OutOfOrderData with {threads} thread(s)"),
            Ok(_) => panic!("unsorted data was accepted with {threads} thread(s)"),
        }
    }
}

#[test]
fn a_stream_that_steps_back_between_units_is_an_error() {
    // Each chunk is in order by itself; the second lies before the first.
    let chunk = |ts: i64| {
        let rows = vec![row(0, ts, 1, 1, 1, 1, 1)];
        group_rows("f", &rows, &all_symbols(1), None).unwrap().0
    };
    let mut stream: TickStream<Decimal> = TickStream::new(1);
    stream.receive(Message::Ticks("f".to_string(), chunk(2_000_000_000))).unwrap();
    stream.receive(Message::Ticks("g".to_string(), chunk(1_000_000_000))).unwrap();
    match stream.next_tick() {
        Err(BacktestError::OutOfOrderData { path, at, stream_at }) => {
            assert_eq!(path, "g");
            assert_eq!((at.timestamp(), stream_at.timestamp()), (1, 2));
        }
        _ => panic!("expected OutOfOrderData"),
    }
}

#[test]
fn a_lost_worker_is_an_error_not_the_end() {
    let mut stream: TickStream<Decimal> = TickStream::new(2);
    match stream.next_tick() {
        Ok(Step::Receive(turn)) => assert_eq!(turn, 0),
        _ => panic!("expected to be told whom to hear"),
    }
    stream.receive(Message::UnitDone).unwrap();
    assert!(matches!(stream.next_tick(), Ok(Step::Receive(1))));
    let err = stream.receive(Message::Lost).unwrap_err();
    assert!(matches!(err, BacktestError::ReaderThreadDied));
    assert_eq!(err.message(), "a decode thread ended early");
    let err = stream.receive(Message::Failed(BacktestError::NoData { path: "p".to_string() }));
    assert_eq!(err.unwrap_err().message(), "no .parquet files found under p");
}

#[test]
fn units_are_dealt_in_rotation() {
    assert_eq!(deal(&vec![10, 11, 12, 13, 14], 2), vec![vec![10, 12, 14], vec![11, 13]]);
    assert_eq!(choose_threads(0, 64, 1_000), MAX_AUTO_THREADS);
    assert_eq!(choose_threads(0, 0, 1_000), 1);
    assert_eq!(choose_threads(32, 4, 5), 5);
    assert_eq!(choose_threads(3, 4, 0), 1);
}

#[test]
fn how_rows_are_batched_does_not_show() {
    let rows = files_of(1, 10, 7).pop().unwrap();
    let mask = all_symbols(7);
    let whole = said(&drain(&rows, &mask, 1_000));
    for batch in [1, 2, 3, 8, 69] {
        assert_eq!(said(&drain(&rows, &mask, batch)), whole);
    }
}

#[test]
fn a_row_that_runs_back_is_reported_even_if_unsubscribed() {
    let mut reader: TickReader<Decimal> = TickReader::new("/d/f.parquet");
    let rows = vec![
        row(0, 2_000_000_000, 1, 1, 1, 1, 1),
        row(9, 1_000_000_000, 1, 1, 1, 1, 1),
    ];
    match reader.accept(&rows, &all_symbols(1)) {
        Err(BacktestError::OutOfOrderData { path, at, stream_at }) => {
            assert_eq!(path, "/d/f.parquet");
            assert_eq!((at.timestamp(), stream_at.timestamp()), (1, 2));
        }
        _ => panic!("expected OutOfOrderData"),
    }
    // The rows before the bad one were taken in.
    reader.exhaust();
    match reader.next_tick() {
        Reading::Tick((ts, bars)) => assert_eq!((ts, bars.len()), (2_000_000_000, 1)),
        _ => panic!("expected the first row"),
    }
    assert!(matches!(reader.next_tick(), Reading::End));
}

#[test]
fn results_go_where_they_were_set_to_go() {
    let set = || Some("/set".to_string());
    let env = || Some("/env".to_string());
    assert_eq!(output_place(set(), env()), set());
    assert_eq!(output_place(None, env()), env());
    assert_eq!(output_place(None, Some(String::new())), None);
    assert_eq!(output_place(None, None), None);
}

// Ticker maps

#[test]
fn a_ticker_map_names_its_ids_both_ways() {
    let map = TickerMap::load("/d/t.json", Ok("{\"1\": \"AAPL\", \"47\": \"MSFT\"}".to_string())).unwrap();
    assert_eq!(map.symbol("MSFT"), Some(Symbol::from_ticker_id(47)));
    assert_eq!(map.symbol("TSLA"), None);
    assert_eq!(map.name(Symbol::from_ticker_id(1)), Some("AAPL"));
    assert_eq!(map.name(Symbol::from_ticker_id(2)), None);
    assert_eq!(map.id_space(), 48);
    assert_eq!(map.symbols().len(), 2);
    assert!(!map.is_empty());
    assert!(TickerMap::default().is_empty());
}

#[test]
fn a_ticker_map_with_a_bad_key_or_bad_json_is_an_error() {
    match load_ticker_map("/d", Ok("{\"1\": \"AAPL\", \"70000\": \"BIG\"}".to_string())) {
        Err(BacktestError::InvalidTickerKey { path, key }) => {
            assert_eq!(path, "/d/encoded_tickers.json");
            assert_eq!(key, "70000");
        }
        _ => panic!("expected InvalidTickerKey"),
    }
    let err = load_ticker_map_from("/d/x.json", Ok("[1, 2]".to_string())).unwrap_err();
    assert!(matches!(err, BacktestError::Json { .. }));
    assert!(err.message().starts_with("/d/x.json: "));
    let pairs = vec![("x".to_string(), "AAPL".to_string())];
    let err = read_ticker_pairs("/d/x.json", &pairs).unwrap_err();
    assert_eq!(err.message(), "/d/x.json: ticker key `x` is not a u16 id");
}

#[test]
fn errors_say_what_went_wrong() {
    let err = BacktestError::MissingColumn { path: "f".to_string(), column: "open".to_string() };
    assert_eq!(err.message(), "f: missing or mistyped column `open`");
    let err = BacktestError::Parquet { path: "f".to_string(), message: "bad".to_string() };
    assert_eq!(err.message(), "f: bad");
}

// Splits, dividends and renames

fn split(date: &str, ticker: &str, from: i64, to: i64) -> SplitRecord<Decimal> {
    SplitRecord {
        execution_date: date.to_string(),
        ticker: ticker.to_string(),
        split_from: dec(from),
        split_to: dec(to),
    }
}

#[test]
fn splits_of_a_day_multiply_and_bad_records_are_skipped() {
    let records = vec![
        split("2023-06-07", "AAPL", 100, 300),
        split("2023-06-07", "AAPL", 100, 200),
        split("2023-06-07", "MSFT", 100, 200),
        split("2023-06-08", "AAPL", 0, 200),
        split("2023-06-09", "AAPL", 100, -200),
        split("no date", "AAPL", 100, 200),
    ];
    let table =
        load_splits("/d", Loaded::Parsed(records), &names(&["AAPL"])).unwrap();
    assert_eq!(table.get("AAPL", date(2023, 6, 7)), Some(dec(600)));
    assert_eq!(table.get("MSFT", date(2023, 6, 7)), None, "not asked for");
    assert_eq!(table.get("AAPL", date(2023, 6, 8)), None);
    assert_eq!(table.get("AAPL", date(2023, 6, 9)), None);
    assert_eq!(table.listed().len(), 1);
}

#[test]
fn dividends_of_a_day_sum() {
    let record = |date: &str, amount: i64| DividendRecord {
        ex_dividend_date: date.to_string(),
        ticker: "AAPL".to_string(),
        cash_amount: dec(amount),
    };
    let asked = names(&["AAPL"]);
    assert!(wants_dividend(&record("2023-06-07", 25), &asked));
    assert!(!wants_dividend(&record("2023-06-07", 0), &asked));
    assert!(!wants_dividend(&record("never", 25), &asked));
    assert!(!wants_dividend(&record("2023-06-07", 25), &names(&[])));
    let records = vec![record("2023-06-07", 25), record("2023-06-07", 75), record("2023-06-08", 0)];
    let table = load_dividends("/d", Loaded::Parsed(records), &asked).unwrap();
    assert_eq!(table.get("AAPL", date(2023, 6, 7)), Some(dec(100)));
    assert_eq!(table.get("AAPL", date(2023, 6, 8)), None);
}

fn rename(date: &str, old: &str, new: &str) -> RenameRecord {
    RenameRecord { date: date.to_string(), old: old.to_string(), new: new.to_string() }
}

#[test]
fn renames_are_queued_by_date() {
    let records = vec![
        rename("2023-06-07", "FB", "META"),
        rename("2023-06-07", "XX", "YY"),
        rename("soon", "FB", "META"),
    ];
    let pairs = load_renames("/d", Loaded::Parsed(records), &names(&["FB"])).unwrap();
    assert_eq!(pairs.days(), vec![date(2023, 6, 7).day_number()]);
    let listed = pairs.listed();
    assert_eq!(listed.len(), 1);
    assert_eq!(*listed[0].1, ("FB".to_string(), "META".to_string()));
}

#[test]
fn a_missing_metadata_file_is_an_error_only_where_it_was_asked_for() {
    let missing = || Loaded::<Vec<SplitRecord<Decimal>>>::Missing("no such file".to_string());
    let table = load_splits_from("/d/s.json", missing(), &names(&[]), false).unwrap();
    assert!(table.listed().is_empty());
    let err = load_splits_from("/d/s.json", missing(), &names(&[]), true).err().unwrap();
    assert_eq!(err.message(), "/d/s.json: no such file");
    let unreadable = Loaded::<Vec<DividendRecord<Decimal>>>::Unreadable("denied".to_string());
    let err = load_dividends_from("/d/x.json", unreadable, &names(&[]), false).err().unwrap();
    assert!(matches!(err, BacktestError::Io { .. }));
    let malformed = Loaded::<Vec<DividendRecord<Decimal>>>::Malformed("line 3".to_string());
    let err = load_dividends("/d", malformed, &names(&[])).err().unwrap();
    assert_eq!(err.message(), "/d/get_dividends.json: not valid dividends JSON: line 3");
}

#[test]
fn a_rename_subscribes_its_target_and_lets_it_split() {
    let pairs = HashMap::from([
        (1, "FB".to_string()),
        (2, "META".to_string()),
        (3, "GONE".to_string()),
    ]);
    let mut ctx: Context<Decimal> = Context::with_tickers(TickerMap::from_pairs(pairs));
    ctx.add_equity("FB");
    let mut loader = ActionLoader::new(&ctx);
    let renames = vec![
        rename("2023-06-07", "FB", "META"),
        rename("2023-06-08", "FB", "NOWHERE"), // the dataset has no such ticker
    ];
    loader.load_renames(&mut ctx, "/d/r.json", Loaded::Parsed(renames), false).unwrap();
    let splits = vec![split("2023-06-09", "META", 100, 200), split("2023-06-09", "GONE", 100, 200)];
    loader.load_splits(&ctx, "/d/s.json", Loaded::Parsed(splits), false).unwrap();
    let (mask, pending) = loader.finish(&ctx);

    let (fb, meta) = (Symbol::from_ticker_id(1), Symbol::from_ticker_id(2));
    assert_eq!(ctx.subscribed(), vec![fb, meta]);
    assert!(mask.contains(1) && mask.contains(2) && !mask.contains(3));
    assert_eq!(mask.len(), 2);
    assert_eq!(pending.renames.on(date(2023, 6, 7).day_number()), vec![(fb, meta)]);
    assert_eq!(pending.renames.days().len(), 1);
    assert_eq!(pending.splits.on(date(2023, 6, 9).day_number()), vec![(meta, dec(200))]);
    assert!(pending.dividends.days().is_empty());
}

#[test]
fn due_items_leave_the_agenda_oldest_first() {
    let mut loader = backtester::agenda::Agenda::new();
    loader.push(date(2023, 6, 9), "c");
    loader.push(date(2023, 6, 7), "a");
    loader.push(date(2023, 6, 7), "b");
    loader.push(date(2023, 7, 1), "d");
    assert_eq!(loader.drain_due(date(2023, 6, 10)), vec!["a", "b", "c"]);
    assert!(loader.drain_due(date(2023, 6, 30)).is_empty());
    assert_eq!(loader.drain_due(date(2023, 7, 1)), vec!["d"]);
}

#[test]
fn draining_day_by_day_loses_nothing() {
    let queue = |at: &mut backtester::agenda::Agenda<u32>| {
        for (day, item) in [(9, 1), (7, 2), (7, 3), (8, 4), (12, 5)] {
            at.push(date(2023, 6, day), item);
        }
    };
    let (mut once, mut daily) = (backtester::agenda::Agenda::new(), backtester::agenda::Agenda::new());
    queue(&mut once);
    queue(&mut daily);
    let mut seen = Vec::new();
    for day in 6..=12 {
        seen.extend(daily.drain_due(date(2023, 6, day)));
    }
    assert_eq!(seen, once.drain_due(date(2023, 6, 12)));
    assert_eq!(seen, vec![2, 3, 4, 1, 5]);
}

// Insider transactions

fn filing(date: &str, ticker: &str, code: &str, shares: i64, price: i64) -> InsiderRecord<Decimal> {
    InsiderRecord {
        filing_date: date.to_string(),
        trans_date: None,
        ticker: ticker.to_string(),
        code: code.to_string(),
        shares: dec(shares * 100),
        price: dec(price * 100),
        value: dec(shares * price * 100),
        owner_name: None,
        is_officer: false,
        is_director: false,
        is_ten_pct_owner: false,
        officer_title: None,
        shares_owned_after: None,
    }
}

fn sample() -> Vec<InsiderRecord<Decimal>> {
    vec![
        InsiderRecord {
            trans_date: Some("2023-01-04".to_string()),
            owner_name: Some("DOE JANE".to_string()),
            is_officer: true,
            officer_title: Some("Chief Executive Officer".to_string()),
            shares_owned_after: Some(dec(500_000)),
            ..filing("2023-01-06", "AAPL", "P", 1000, 125)
        },
        filing("2023-01-06", "AAPL", "S", 10, 120),
        filing("2023-02-01", "MSFT", "P", 50, 240),
        filing("2023-02-02", "AAPL", "X", 1, 1),
        filing("not-a-date", "AAPL", "P", 1, 1),
        filing("2023-02-03", "AAPL", "P", 0, 1),
    ]
}

#[test]
fn parses_and_filters_to_requested_symbols() {
    let map = load_insider_transactions_from(
        "/d/i.json",
        Loaded::Parsed(sample()),
        &names(&["AAPL"]),
        true,
    )
    .unwrap();

    assert_eq!(map.len(), 1, "MSFT was not requested");
    let by_date = map.get("AAPL").unwrap();
    // Bad code, bad date and zero shares are skipped; the two valid
    // 2023-01-06 records group under one date.
    assert_eq!(by_date.days().len(), 1);
    let day = by_date.get(date(2023, 1, 6).day_number()).unwrap();
    assert_eq!(day.len(), 2);

    let buy = &day[0];
    assert_eq!(buy.code, TransCode::Purchase);
    assert_eq!(buy.trans_date, Date::from_ymd(2023, 1, 4));
    assert_eq!(buy.value, dec(12_500_000));
    assert!(buy.is_officer);
    assert_eq!(buy.officer_title.as_deref(), Some("Chief Executive Officer"));

    let sell = &day[1];
    assert_eq!(sell.code, TransCode::Sale);
    assert_eq!(sell.owner_name, None, "optional fields default");
    assert!(!sell.is_officer);
}

#[test]
fn missing_file_is_empty_unless_required() {
    let missing = || Loaded::<Vec<InsiderRecord<Decimal>>>::Missing("no such file".to_string());
    let asked = names(&["AAPL"]);

    let map = load_insider_transactions_from("/d/i.json", missing(), &asked, false).unwrap();
    assert!(map.is_empty());

    let err = load_insider_transactions_from("/d/i.json", missing(), &asked, true).err().unwrap();
    assert!(matches!(err, BacktestError::Io { .. }));
}

#[test]
fn malformed_json_is_an_error() {
    let malformed =
        Loaded::<Vec<InsiderRecord<Decimal>>>::Malformed("expected an array".to_string());
    let err = load_insider_transactions_from("/d/i.json", malformed, &names(&["AAPL"]), true)
        .err()
        .unwrap();
    assert!(matches!(err, BacktestError::Json { .. }));
    assert_eq!(
        err.message(),
        "/d/i.json: not valid insider transactions JSON: expected an array"
    );
}

#[test]
fn default_root_lookup_uses_the_standard_file_name() {
    let map =
        load_insider_transactions("/d", Loaded::Parsed(sample()), &names(&["MSFT"])).unwrap();
    assert_eq!(map.get("MSFT").unwrap().days().len(), 1);
    let unreadable = Loaded::<Vec<InsiderRecord<Decimal>>>::Unreadable("denied".to_string());
    let err = load_insider_transactions("/d", unreadable, &names(&[])).err().unwrap();
    assert_eq!(err.message(), "/d/insider_transactions.json: denied");
}

/// As many filings of each issuer as `counts` says, purchases first. The first
/// `untitled` of all have no officer title.
fn many_filings(counts: &[(&str, usize, usize)], untitled: usize) -> Vec<InsiderRecord<Decimal>> {
    let mut records = Vec::new();
    for &(ticker, bought, sold) in counts {
        for i in 0..bought + sold {
            let day = 1 + i % 28;
            records.push(InsiderRecord {
                filing_date: format!("2023-05-{day:02}"),
                trans_date: Some("2023-05-01".to_string()),
                ticker: ticker.to_string(),
                code: if i < bought { "P" } else { "S" }.to_string(),
                shares: dec(100),
                price: dec(200),
                value: dec(20_000),
                owner_name: None,
                is_officer: true,
                is_director: false,
                is_ten_pct_owner: false,
                officer_title: (records.len() >= untitled).then(|| "CFO".to_string()),
                shares_owned_after: None,
            });
        }
    }
    records
}

const ISSUERS: [(&str, usize, usize); 3] = [("AAPL", 10, 197), ("INTC", 52, 100), ("T", 96, 510)];

#[test]
fn a_large_list_of_filings_keeps_its_make_up() {
    let universe = names(&["AAPL", "INTC", "T"]);
    let loaded = Loaded::Parsed(many_filings(&ISSUERS, 118));
    let map = load_insider_transactions_from("/d/i.json", loaded, &universe, true).unwrap();
    assert_eq!(map.len(), ISSUERS.len());
    let mut all = Vec::new();
    for (ticker, _, _) in ISSUERS {
        for (_, filed) in map.get(ticker).unwrap().listed() {
            all.push(filed);
        }
    }
    assert_eq!(all.len(), 965);
    let purchases = all.iter().filter(|t| t.code == TransCode::Purchase).count();
    assert_eq!((purchases, all.len() - purchases), (158, 807));
    assert_eq!(all.iter().filter(|t| t.officer_title.is_none()).count(), 118);
    let intc = map.get("INTC").unwrap();
    let days = intc.days();
    assert!(days.windows(2).all(|pair| pair[0] < pair[1]));
    let bought = intc.listed().iter().filter(|(_, t)| t.code == TransCode::Purchase).count();
    assert_eq!(bought, 52);
}

#[test]
fn a_large_list_of_filings_is_cut_to_the_requested_issuers() {
    let loaded = Loaded::Parsed(many_filings(&ISSUERS, 118));
    let map = load_insider_transactions_from("/d/i.json", loaded, &names(&["AAPL"]), true).unwrap();
    assert_eq!(map.len(), 1);
    assert_eq!(map.get("AAPL").unwrap().listed().len(), 207);
    assert!(map.get("INTC").is_none());
}
