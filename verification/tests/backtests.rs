//! Whole backtests over synthetic bars: fill timing, resting orders, sizing,
//! margin, corporate actions, the data's order, and two complete strategies.

use std::cell::{Cell, RefCell};
use std::collections::BTreeMap;
use std::rc::Rc;

use backtester::algorithm::Algorithm;
use backtester::bar::{Bar, MarketSession};
use backtester::calendar::{Date, Time};
use backtester::commission::PerShareCommission;
use backtester::consolidator::ConsolidatorPeriod;
use backtester::context::{Context, FillTiming};
use backtester::data::TickerMap;
use backtester::engine::driver::{
    check_coverage, check_date_range, check_files, Backtest, FilePlan, Flow,
};
use backtester::engine::pending::{
    dividends_file, renames_file, splits_file, ActionLoader,
};
use backtester::engine::result::BacktestResult;
use backtester::error::BacktestError;
use backtester::files::sorted_parquet_files;
use backtester::insider::{load_insider_transactions, InsiderRecord, TransCode};
use backtester::margin::{MarginContext, MarginFn, MaxLeverage};
use backtester::metadata::{
    resolve_data_file, DividendRecord, Loaded, RenameRecord, SplitRecord, TICKER_MAP_FILE,
};
use backtester::number::Number;
use backtester::reader::{Reading, TickReader};
use backtester::slice::Slice;
use backtester::slippage::PercentSlippage;
use backtester::symbol::{Symbol, SymbolMap, SymbolSet};
use backtester::tick::Row;
use chrono::{Duration, NaiveDate, TimeZone, Utc};
use rustc_hash::FxHashSet;

/// A machine float as the engine's number.
#[derive(Debug, Clone, Copy, PartialEq, PartialOrd)]
struct F(f64);

impl Number for F {
    fn zero() -> F { F(0.0) }
    fn epsilon() -> F { F(1e-9) }
    fn infinity() -> F { F(f64::INFINITY) }
    fn from_u64(value: u64) -> F { F(value as f64) }
    fn to_u64(self) -> u64 { self.0 as u64 }
    fn add(self, rhs: F) -> F { F(self.0 + rhs.0) }
    fn sub(self, rhs: F) -> F { F(self.0 - rhs.0) }
    fn mul(self, rhs: F) -> F { F(self.0 * rhs.0) }
    fn div(self, rhs: F) -> F { F(self.0 / rhs.0) }
    fn neg(self) -> F { F(-self.0) }
    fn abs(self) -> F { F(self.0.abs()) }
    fn signum(self) -> F { F(self.0.signum()) }
    fn min(self, rhs: F) -> F { F(self.0.min(rhs.0)) }
    fn max(self, rhs: F) -> F { F(self.0.max(rhs.0)) }
    fn round(self) -> F { F(self.0.round()) }
    fn trunc(self) -> F { F(self.0.trunc()) }
    fn sqrt(self) -> F { F(self.0.sqrt()) }
    fn lt(self, rhs: F) -> bool { self.0 < rhs.0 }
    fn le(self, rhs: F) -> bool { self.0 <= rhs.0 }
    fn equals(self, rhs: F) -> bool { self.0 == rhs.0 }
    fn is_finite(self) -> bool { self.0.is_finite() }

    fn spec_zero() -> F { F::zero() }
    fn spec_epsilon() -> F { F::epsilon() }
    fn spec_infinity() -> F { F::infinity() }
    fn spec_from_u64(value: u64) -> F { F::from_u64(value) }
    fn spec_to_u64(self) -> u64 { self.to_u64() }
    fn spec_add(self, rhs: F) -> F { Number::add(self, rhs) }
    fn spec_sub(self, rhs: F) -> F { Number::sub(self, rhs) }
    fn spec_mul(self, rhs: F) -> F { Number::mul(self, rhs) }
    fn spec_div(self, rhs: F) -> F { Number::div(self, rhs) }
    fn spec_neg(self) -> F { Number::neg(self) }
    fn spec_abs(self) -> F { self.abs() }
    fn spec_signum(self) -> F { self.signum() }
    fn spec_min(self, rhs: F) -> F { Number::min(self, rhs) }
    fn spec_max(self, rhs: F) -> F { Number::max(self, rhs) }
    fn spec_round(self) -> F { self.round() }
    fn spec_trunc(self) -> F { self.trunc() }
    fn spec_sqrt(self) -> F { self.sqrt() }
    fn spec_lt(self, rhs: F) -> bool { Number::lt(self, rhs) }
    fn spec_le(self, rhs: F) -> bool { Number::le(self, rhs) }
    fn spec_equals(self, rhs: F) -> bool { self.equals(rhs) }
    fn spec_is_finite(self) -> bool { self.is_finite() }
}

/// Nanoseconds at `hour:minute` UTC of a day.
fn ts(y: i32, m: u32, d: u32, hour: u32, minute: u32) -> i64 {
    let t = NaiveDate::from_ymd_opt(y, m, d).unwrap().and_hms_opt(hour, 0, 0).unwrap()
        + Duration::minutes(minute as i64);
    Utc.from_utc_datetime(&t).timestamp_nanos_opt().unwrap()
}

/// A row with open, high, low and close.
fn ohlc(ticker: u16, at: i64, open: f64, high: f64, low: f64, close: f64, volume: u32) -> Row<F> {
    Row {
        ticker,
        volume,
        open: F(open),
        high: F(high),
        low: F(low),
        close: F(close),
        window_start: at,
    }
}

/// A row at one price. Bars sit at 15:00 UTC plus `minute` (11:00 ET), so UTC
/// and ET dates agree.
fn row(ticker: u16, day: u32, minute: u32, price: f64) -> Row<F> {
    ohlc(ticker, ts(2023, 6, day, 15, minute), price, price, price, price, 100)
}

/// A dataset: ticker names, data files and metadata records.
struct Dataset {
    tickers: Vec<(u16, &'static str)>,
    files: Vec<(String, Vec<Row<F>>)>,
    splits: Vec<SplitRecord<F>>,
    dividends: Vec<DividendRecord<F>>,
    renames: Vec<RenameRecord>,
}

const ROOT: &str = "/data";

/// One month file of rows, put in order of time.
fn dataset(tickers: &[(u16, &'static str)], rows: &[Row<F>]) -> Dataset {
    let mut rows = rows.to_vec();
    rows.sort_by_key(|r| r.window_start);
    Dataset {
        tickers: tickers.to_vec(),
        files: vec![("/data/minute/year=2023/month=6/part-0.parquet".to_string(), rows)],
        splits: Vec::new(),
        dividends: Vec::new(),
        renames: Vec::new(),
    }
}

fn ticker_json(tickers: &[(u16, &str)]) -> String {
    let entries: Vec<String> =
        tickers.iter().map(|(id, name)| format!("\"{id}\": \"{name}\"")).collect();
    format!("{{{}}}", entries.join(", "))
}

/// Run a strategy over a dataset, handing its rows over a few at a time.
fn run<A: Algorithm<F>>(algo: A, data: Dataset) -> Result<BacktestResult<F>, BacktestError> {
    run_watched(algo, data, &mut |_| {})
}

/// [`run`], with a look at the backtest after every tick.
fn run_watched<A: Algorithm<F>>(
    mut algo: A,
    data: Dataset,
    watch: &mut dyn FnMut(&Backtest<F>),
) -> Result<BacktestResult<F>, BacktestError> {
    let (path, _) = resolve_data_file(ROOT, &None, TICKER_MAP_FILE);
    let tickers = TickerMap::load(&path, Ok(ticker_json(&data.tickers)))?;
    let mut ctx: Context<F> = Context::with_tickers(tickers);
    algo.initialize(&mut ctx);
    check_date_range(ctx.settings())?;

    let mut loader = ActionLoader::new(&ctx);
    let (path, required) = renames_file(&ctx, ROOT);
    loader.load_renames(&mut ctx, &path, Loaded::Parsed(data.renames), required)?;
    let (path, required) = splits_file(&ctx, ROOT);
    loader.load_splits(&ctx, &path, Loaded::Parsed(data.splits), required)?;
    let (path, required) = dividends_file(&ctx, ROOT);
    loader.load_dividends(&ctx, &path, Loaded::Parsed(data.dividends), required)?;
    let (mask, pending) = loader.finish(&ctx);

    let names: Vec<String> = data.files.iter().map(|(name, _)| name.clone()).collect();
    let sorted = sorted_parquet_files(&names);
    check_files(&sorted, ROOT)?;

    let mut backtest = Backtest::new(ctx, pending);
    'files: for file in &sorted {
        match backtest.plan(file) {
            FilePlan::Skip => continue,
            FilePlan::Stop => break,
            FilePlan::Read => {}
        }
        let rows = &data.files.iter().find(|(name, _)| name == file).unwrap().1;
        let mut batches = rows.chunks(3);
        let mut reader: TickReader<F> = TickReader::new(file);
        loop {
            match reader.next_tick() {
                Reading::Tick(tick) => {
                    if backtest.offer(&mut algo, file, tick)? == Flow::Stop {
                        break 'files;
                    }
                    watch(&backtest);
                }
                Reading::NeedRows => match batches.next() {
                    Some(batch) => reader.accept(&batch.to_vec(), &mask)?,
                    None => reader.exhaust(),
                },
                Reading::End => break,
            }
        }
    }
    Ok(backtest.finish(&mut algo).0)
}

/// Starting cash, realized and unrealized PnL must add up to final equity.
fn identity_error(r: &BacktestResult<F>) -> f64 {
    let realized: f64 = r.trades.iter().map(|t| t.pnl.0).sum();
    let open: f64 = r.open_positions.iter().map(|p| p.unrealized_pnl.0 + p.realized_pnl.0).sum();
    (r.initial_cash.0 + realized + open - r.final_equity.0).abs()
}

fn quantity_of(r: &BacktestResult<F>, ticker: &str) -> Option<f64> {
    r.open_positions.iter().find(|p| p.symbol == ticker).map(|p| p.quantity.0)
}

// Fill timing

/// Buys 100 shares of SYM on the very first bar it sees, then holds.
struct BuyOnceThenHold {
    timing: FillTiming,
    bought: bool,
}

impl Algorithm<F> for BuyOnceThenHold {
    fn initialize(&mut self, ctx: &mut Context<F>) {
        ctx.set_cash(F(100_000.0));
        ctx.set_fill_timing(self.timing);
        ctx.add_equity("SYM");
    }

    fn on_data(&mut self, ctx: &mut Context<F>, data: &Slice<F>) {
        let sym = ctx.symbol("SYM").unwrap();
        if !self.bought && data.bars.contains_key(&sym) {
            self.bought = true;
            ctx.market_order(sym, F(100.0));
        }
    }
}

/// Three bars: opens 10/20/30, closes 11/21/31.
fn three_bars() -> Dataset {
    dataset(
        &[(1, "SYM")],
        &[
            ohlc(1, ts(2023, 6, 5, 15, 0), 10.0, 11.0, 10.0, 11.0, 100),
            ohlc(1, ts(2023, 6, 5, 15, 1), 20.0, 21.0, 20.0, 21.0, 100),
            ohlc(1, ts(2023, 6, 5, 15, 2), 30.0, 31.0, 30.0, 31.0, 100),
        ],
    )
}

#[test]
fn current_bar_close_fills_at_the_same_bars_close() {
    let algo = BuyOnceThenHold { timing: FillTiming::CurrentBarClose, bought: false };
    let result = run(algo, three_bars()).unwrap();

    let pos = result.open_positions.iter().find(|p| p.symbol == "SYM").unwrap();
    assert!((pos.quantity.0 - 100.0).abs() < 1e-9);
    // Decided and filled on bar 1: its close is 11.
    assert!((pos.avg_price.0 - 11.0).abs() < 1e-9);
    assert!(identity_error(&result) < 1e-6);
}

#[test]
fn next_bar_open_fills_at_the_following_bars_open() {
    let algo = BuyOnceThenHold { timing: FillTiming::NextBarOpen, bought: false };
    let result = run(algo, three_bars()).unwrap();

    let pos = result.open_positions.iter().find(|p| p.symbol == "SYM").unwrap();
    assert!((pos.quantity.0 - 100.0).abs() < 1e-9);
    // Decided on bar 1, filled at bar 2's open: 20.
    assert!((pos.avg_price.0 - 20.0).abs() < 1e-9);
    assert!(identity_error(&result) < 1e-6);
}

#[test]
fn order_on_the_final_bar_never_fills_under_next_bar_open() {
    // Only one bar exists, so an order decided on it has no next bar to fill on.
    let data =
        dataset(&[(1, "SYM")], &[ohlc(1, ts(2023, 6, 5, 15, 0), 10.0, 11.0, 10.0, 11.0, 100)]);
    let algo = BuyOnceThenHold { timing: FillTiming::NextBarOpen, bought: false };
    let result = run(algo, data).unwrap();

    assert!(result.trades.is_empty());
    assert!(result.open_positions.is_empty(), "order with no following bar must not fill");
    assert!((result.final_equity.0 - 100_000.0).abs() < 1e-9);
}

// Resting orders and volume participation

/// Places resting orders on the first bar, then holds.
struct RestOnce {
    limits: Vec<(f64, f64)>,
    stop: Option<(f64, f64)>,
    market_first: Option<f64>,
    participation: f64,
    slippage_bps: f64,
    placed: bool,
}

impl RestOnce {
    fn new() -> RestOnce {
        RestOnce {
            limits: Vec::new(),
            stop: None,
            market_first: None,
            participation: 0.0,
            slippage_bps: 0.0,
            placed: false,
        }
    }

    fn limit(qty: f64, price: f64) -> RestOnce {
        RestOnce { limits: vec![(qty, price)], ..RestOnce::new() }
    }
}

impl Algorithm<F> for RestOnce {
    fn initialize(&mut self, ctx: &mut Context<F>) {
        ctx.set_cash(F(100_000.0));
        ctx.add_equity("SYM");
        if self.participation > 0.0 {
            ctx.set_max_volume_participation(F(self.participation));
        }
        if self.slippage_bps > 0.0 {
            ctx.set_slippage(Box::new(PercentSlippage::bps(F(self.slippage_bps))));
        }
    }

    fn on_data(&mut self, ctx: &mut Context<F>, data: &Slice<F>) {
        let sym = ctx.symbol("SYM").unwrap();
        if self.placed || !data.bars.contains_key(&sym) {
            return;
        }
        self.placed = true;
        if let Some(q) = self.market_first {
            ctx.market_order(sym, F(q));
        }
        for &(q, p) in &self.limits {
            ctx.limit_order(sym, F(q), F(p));
        }
        if let Some((q, p)) = self.stop {
            ctx.stop_order(sym, F(q), F(p));
        }
    }
}

fn sym_bars(bars: &[(u32, f64, f64, f64, f64, u32)]) -> Dataset {
    let rows: Vec<Row<F>> = bars
        .iter()
        .map(|&(minute, o, h, l, c, v)| ohlc(1, ts(2023, 6, 5, 15, minute), o, h, l, c, v))
        .collect();
    dataset(&[(1, "SYM")], &rows)
}

#[test]
fn limit_buy_fills_at_the_limit_when_the_range_touches_it() {
    let data = sym_bars(&[
        (0, 100.0, 101.0, 99.0, 100.0, 1_000),
        (1, 100.0, 101.0, 94.0, 100.0, 1_000), // dips to 94, through the 95 limit
    ]);
    let result = run(RestOnce::limit(100.0, 95.0), data).unwrap();
    let pos = result.open_positions.iter().find(|p| p.symbol == "SYM").unwrap();
    assert!((pos.quantity.0 - 100.0).abs() < 1e-9);
    assert!((pos.avg_price.0 - 95.0).abs() < 1e-9);
    assert!(identity_error(&result) < 1e-6);
}

#[test]
fn limit_order_never_touched_does_not_fill() {
    let data = sym_bars(&[
        (0, 100.0, 101.0, 99.0, 100.0, 1_000),
        (1, 100.0, 101.0, 98.0, 100.0, 1_000), // low 98 never reaches the 95 limit
    ]);
    let result = run(RestOnce::limit(100.0, 95.0), data).unwrap();
    assert!(result.trades.is_empty());
    assert!(result.open_positions.is_empty(), "an untouched limit must not fill");
    assert!((result.final_equity.0 - 100_000.0).abs() < 1e-9);
}

#[test]
fn a_resting_order_waits_for_the_bar_after_the_one_it_was_placed_on() {
    // The only bar trades through the limit, but it is the one that placed it.
    let data = sym_bars(&[(0, 100.0, 101.0, 90.0, 100.0, 1_000)]);
    let result = run(RestOnce::limit(100.0, 95.0), data).unwrap();
    assert!(result.open_positions.is_empty());
    assert_eq!(result.final_equity, F(100_000.0));
}

#[test]
fn stop_loss_sell_triggers_when_the_low_breaches_it() {
    let data = sym_bars(&[
        (0, 100.0, 101.0, 99.0, 100.0, 1_000), // buy 100 @ close 100, arm stop at 90
        (1, 100.0, 100.0, 88.0, 95.0, 1_000),  // dips to 88, through the 90 stop
    ]);
    let algo =
        RestOnce { stop: Some((-100.0, 90.0)), market_first: Some(100.0), ..RestOnce::new() };
    let result = run(algo, data).unwrap();

    assert_eq!(result.trades.len(), 1);
    let t = &result.trades[0];
    assert_eq!(t.exit_reason, "signal");
    // Bought at 100, stopped out at 90: a $10/share loss on 100 shares.
    assert!((t.exit_price.0 - 90.0).abs() < 1e-9);
    assert!((t.pnl.0 - -1000.0).abs() < 1e-6);
    assert!(result.open_positions.is_empty());
    assert!(identity_error(&result) < 1e-6);
}

#[test]
fn limit_fill_is_never_worse_than_the_limit_even_with_slippage() {
    let data = sym_bars(&[
        (0, 100.0, 101.0, 99.0, 100.0, 1_000),
        (1, 100.0, 101.0, 94.0, 100.0, 1_000), // dips through the 95 limit
    ]);
    let algo = RestOnce { slippage_bps: 10.0, ..RestOnce::limit(100.0, 95.0) };
    let result = run(algo, data).unwrap();
    let pos = result.open_positions.iter().find(|p| p.symbol == "SYM").unwrap();
    // Slippage would push the buy to 95.095; a limit clamps it at 95.
    assert!((pos.avg_price.0 - 95.0).abs() < 1e-9);
    assert!(identity_error(&result) < 1e-6);
}

#[test]
fn volume_participation_cap_rounds_down_to_the_lot() {
    // 3.33% of a 1,000-share bar is 33.3 shares; the fill must round down to
    // the whole-share lot, not print a fractional position.
    let data = sym_bars(&[(0, 100.0, 101.0, 99.0, 100.0, 1_000)]);
    let algo = RestOnce { market_first: Some(250.0), participation: 0.0333, ..RestOnce::new() };
    let result = run(algo, data).unwrap();
    assert!((quantity_of(&result, "SYM").unwrap() - 33.0).abs() < 1e-9);
    assert!(identity_error(&result) < 1e-6);
}

#[test]
fn volume_participation_is_shared_across_orders_on_the_same_bar() {
    // Cap is 10% of 1,000 = 100 shares per bar in aggregate. Three resting
    // 100-share limits against two touching bars can fill at most 200 shares,
    // not 300.
    let data = sym_bars(&[
        (0, 100.0, 101.0, 99.0, 100.0, 1_000),
        (1, 100.0, 101.0, 94.0, 100.0, 1_000),
        (2, 100.0, 101.0, 94.0, 100.0, 1_000),
    ]);
    let algo = RestOnce {
        limits: vec![(100.0, 95.0), (100.0, 95.0), (100.0, 95.0)],
        participation: 0.1,
        ..RestOnce::new()
    };
    let result = run(algo, data).unwrap();
    assert!((quantity_of(&result, "SYM").unwrap() - 200.0).abs() < 1e-9);
    assert!(identity_error(&result) < 1e-6);
}

#[test]
fn volume_participation_caps_a_market_fill_and_drops_the_rest() {
    // 10% of a 1,000-share bar caps each fill at 100 shares.
    let data = sym_bars(&[
        (0, 100.0, 101.0, 99.0, 100.0, 1_000),
        (1, 100.0, 101.0, 99.0, 100.0, 1_000),
    ]);
    let algo = RestOnce { market_first: Some(250.0), participation: 0.1, ..RestOnce::new() };
    let result = run(algo, data).unwrap();
    assert!((quantity_of(&result, "SYM").unwrap() - 100.0).abs() < 1e-9);
    assert!(identity_error(&result) < 1e-6);
}

#[test]
fn volume_participation_fills_a_resting_limit_across_bars() {
    // 100-share cap per bar; three touching bars fill 100 + 100 + 50 = 250.
    let data = sym_bars(&[
        (0, 100.0, 101.0, 99.0, 100.0, 1_000),
        (1, 100.0, 101.0, 94.0, 100.0, 1_000),
        (2, 100.0, 101.0, 94.0, 100.0, 1_000),
        (3, 100.0, 101.0, 94.0, 100.0, 1_000),
    ]);
    let algo = RestOnce { participation: 0.1, ..RestOnce::limit(250.0, 95.0) };
    let result = run(algo, data).unwrap();
    let pos = result.open_positions.iter().find(|p| p.symbol == "SYM").unwrap();
    assert!((pos.quantity.0 - 250.0).abs() < 1e-9);
    assert!((pos.avg_price.0 - 95.0).abs() < 1e-9);
    assert!(identity_error(&result) < 1e-6);
}

#[test]
fn a_gapped_limit_fills_at_the_better_open_and_a_gapped_stop_at_the_worse() {
    let data = sym_bars(&[
        (0, 100.0, 101.0, 99.0, 100.0, 1_000),
        (1, 90.0, 91.0, 89.0, 90.0, 1_000), // opens below the limit
    ]);
    let result = run(RestOnce::limit(10.0, 95.0), data).unwrap();
    assert_eq!(result.open_positions[0].avg_price, F(90.0));

    let data = sym_bars(&[
        (0, 100.0, 101.0, 99.0, 100.0, 1_000),
        (1, 80.0, 81.0, 79.0, 80.0, 1_000), // opens below the stop
    ]);
    let algo = RestOnce { stop: Some((-10.0, 90.0)), market_first: Some(10.0), ..RestOnce::new() };
    let result = run(algo, data).unwrap();
    assert_eq!(result.trades[0].exit_price, F(80.0));
}

// Order sizing

/// Buys 100 GROW on the first bar, then rebalances OTHR to 50% on the first
/// tick where GROW produces no bar.
struct SizeAgainstStale {
    bought: bool,
    rebalanced: bool,
}

impl Algorithm<F> for SizeAgainstStale {
    fn initialize(&mut self, ctx: &mut Context<F>) {
        ctx.set_cash(F(100_000.0));
        ctx.add_equity("GROW");
        ctx.add_equity("OTHR");
    }

    fn on_data(&mut self, ctx: &mut Context<F>, data: &Slice<F>) {
        let grow = ctx.symbol("GROW").unwrap();
        let othr = ctx.symbol("OTHR").unwrap();
        if !self.bought && data.bars.contains_key(&grow) {
            self.bought = true;
            ctx.market_order(grow, F(100.0));
            return;
        }
        if self.bought && !self.rebalanced && !data.bars.contains_key(&grow) {
            self.rebalanced = true;
            ctx.set_holdings(othr, F(0.5));
        }
    }
}

#[test]
fn set_holdings_marks_held_symbols_without_a_bar_at_market_not_cost() {
    // GROW: bought 100 @ 100 on 06-05, doubles to 200 on 06-06, no bars on
    // 06-07. OTHR trades flat at 10 throughout. On 06-07 the portfolio is
    // 90,000 cash + 100 GROW at its last known price of 200 = 110,000, so a
    // 50% OTHR target is 5,500 shares - not the 5,000 that marking GROW at
    // its 100 cost basis would produce.
    let rows = vec![
        row(1, 5, 0, 100.0),
        row(1, 5, 1, 100.0),
        row(1, 6, 0, 200.0),
        row(1, 6, 1, 200.0),
        row(2, 5, 0, 10.0),
        row(2, 5, 1, 10.0),
        row(2, 6, 0, 10.0),
        row(2, 6, 1, 10.0),
        row(2, 7, 0, 10.0),
        row(2, 7, 1, 10.0),
    ];
    let data = dataset(&[(1, "GROW"), (2, "OTHR")], &rows);
    let result = run(SizeAgainstStale { bought: false, rebalanced: false }, data).unwrap();

    assert!((quantity_of(&result, "OTHR").unwrap() - 5_500.0).abs() < 1e-9);
    assert!((result.final_equity.0 - 110_000.0).abs() < 1e-6);
    assert!(identity_error(&result) < 1e-6);
}

/// Buys a leveraged position on the first bar, then rebalances to a long 50%
/// target after the price collapse has driven equity negative.
struct RebalanceWhileUnderwater {
    bought: bool,
    rebalanced: bool,
}

impl Algorithm<F> for RebalanceWhileUnderwater {
    fn initialize(&mut self, ctx: &mut Context<F>) {
        ctx.set_cash(F(100_000.0));
        ctx.add_equity("SYM");
    }

    fn on_data(&mut self, ctx: &mut Context<F>, data: &Slice<F>) {
        let sym = ctx.symbol("SYM").unwrap();
        let Some(bar) = data.bars.get(&sym) else { return };
        if !self.bought {
            self.bought = true;
            // 10,000 @ 100 on 100k of cash: cash goes to -900k.
            ctx.market_order(sym, F(10_000.0));
        } else if !self.rebalanced && bar.close.0 < 60.0 {
            self.rebalanced = true;
            ctx.set_holdings(sym, F(0.5));
        }
    }
}

#[test]
fn set_holdings_never_inverts_direction_on_negative_equity() {
    // 10,000 shares bought at 100 leaves cash at -900,000. When the price
    // halves to 50 the account is worth 500,000 - 900,000 = -400,000. A
    // request for a 50% long allocation must not size off that negative
    // total, which would flip the sign and open a short.
    let rows =
        vec![row(1, 5, 0, 100.0), row(1, 5, 1, 100.0), row(1, 6, 0, 50.0), row(1, 6, 1, 50.0)];
    let algo = RebalanceWhileUnderwater { bought: false, rebalanced: false };
    let result = run(algo, dataset(&[(1, "SYM")], &rows)).unwrap();

    let qty = quantity_of(&result, "SYM").unwrap_or(0.0);
    assert!(qty >= 0.0, "a long allocation request must never open a short, got {qty} shares");
    assert!(result.final_equity.0.is_finite());
    assert!(identity_error(&result) < 1e-6);
}

/// Rebalances on every bar.
struct RebalanceEveryBar {
    ticker: &'static str,
    weight: f64,
    commission: bool,
}

impl Algorithm<F> for RebalanceEveryBar {
    fn initialize(&mut self, ctx: &mut Context<F>) {
        ctx.set_cash(F(100_000.0));
        ctx.add_equity(self.ticker);
        if self.commission {
            ctx.set_commission(Box::new(PerShareCommission {
                per_share: F(0.005),
                minimum: F(1.0),
            }));
        }
    }

    fn on_data(&mut self, ctx: &mut Context<F>, data: &Slice<F>) {
        let sym = ctx.symbol(self.ticker).unwrap();
        if data.bars.contains_key(&sym) {
            ctx.set_holdings(sym, F(self.weight));
        }
    }
}

#[test]
fn set_holdings_on_a_zero_price_bar_does_not_poison_the_run_with_nan() {
    // A single glitched row prints 0.0. Sizing divides by the price, so an
    // unguarded target is infinite; that quantity survives into the portfolio
    // and turns cash - and every later equity point - into NaN.
    let rows =
        vec![row(1, 5, 0, 100.0), row(1, 5, 1, 0.0), row(1, 6, 0, 100.0), row(1, 6, 1, 100.0)];
    let algo = RebalanceEveryBar { ticker: "SYM", weight: 0.5, commission: false };
    let result = run(algo, dataset(&[(1, "SYM")], &rows)).unwrap();

    assert!(result.final_equity.0.is_finite());
    assert!(result.equity_curve.iter().all(|p| p.equity.0.is_finite()));
    assert!(result.stats.max_drawdown.0.is_finite());
    assert!(identity_error(&result) < 1e-6);
}

/// Places a market order for QUIT on a tick where QUIT has no bar.
struct OrderIntoASilentSymbol {
    placed: bool,
}

impl Algorithm<F> for OrderIntoASilentSymbol {
    fn initialize(&mut self, ctx: &mut Context<F>) {
        ctx.set_cash(F(100_000.0));
        ctx.add_equity("LIQD");
        ctx.add_equity("QUIT");
    }

    fn on_data(&mut self, ctx: &mut Context<F>, data: &Slice<F>) {
        let liqd = ctx.symbol("LIQD").unwrap();
        let quit = ctx.symbol("QUIT").unwrap();
        // The first tick where the liquid name prints but the quiet one does
        // not - the shape of a day's first pre-market minute.
        if !self.placed && data.bars.contains_key(&liqd) && !data.bars.contains_key(&quit) {
            self.placed = true;
            ctx.market_order(quit, F(100.0));
        }
    }
}

#[test]
fn an_order_for_a_symbol_silent_this_tick_is_carried_not_dropped() {
    // LIQD prints every day; QUIT skips 06-06. The order is placed on 06-06,
    // when QUIT has no bar, and must still fill when QUIT next trades on
    // 06-07 rather than being silently discarded.
    let rows = vec![
        row(1, 5, 0, 100.0),
        row(1, 6, 0, 100.0),
        row(1, 7, 0, 100.0),
        row(2, 5, 0, 50.0),
        row(2, 7, 0, 50.0),
    ];
    let data = dataset(&[(1, "LIQD"), (2, "QUIT")], &rows);
    let result = run(OrderIntoASilentSymbol { placed: false }, data).unwrap();

    let quit = quantity_of(&result, "QUIT")
        .expect("the carried order must fill once QUIT trades again");
    assert!((quit - 100.0).abs() < 1e-9, "expected 100 shares, got {quit}");
    assert!(identity_error(&result) < 1e-6);
}

// Margin

/// What a [`Scripted`] strategy does on a bar.
#[derive(Clone, Copy)]
enum Act {
    Market(f64),
    Target(f64),
    Liquidate,
}

/// Performs one scripted act per bar of SYM.
struct Scripted {
    setup: fn(&mut Context<F>),
    acts: Vec<Act>,
    bars_seen: usize,
}

impl Scripted {
    fn new(setup: fn(&mut Context<F>), acts: &[Act]) -> Scripted {
        Scripted { setup, acts: acts.to_vec(), bars_seen: 0 }
    }
}

impl Algorithm<F> for Scripted {
    fn initialize(&mut self, ctx: &mut Context<F>) {
        ctx.set_cash(F(100_000.0));
        ctx.add_equity("SYM");
        (self.setup)(ctx);
    }

    fn on_data(&mut self, ctx: &mut Context<F>, data: &Slice<F>) {
        let sym = ctx.symbol("SYM").unwrap();
        if !data.bars.contains_key(&sym) {
            return;
        }
        self.bars_seen += 1;
        match self.acts.get(self.bars_seen - 1) {
            Some(Act::Market(qty)) => ctx.market_order(sym, F(*qty)),
            Some(Act::Target(pct)) => ctx.set_holdings(sym, F(*pct)),
            Some(Act::Liquidate) => ctx.liquidate(sym),
            None => {}
        }
    }
}

/// Bars of SYM at one price each, with volume to spare.
fn priced(bars: &[(u32, u32, f64)]) -> Dataset {
    let rows: Vec<Row<F>> = bars
        .iter()
        .map(|&(day, minute, p)| ohlc(1, ts(2023, 6, day, 15, minute), p, p, p, p, 100_000))
        .collect();
    dataset(&[(1, "SYM")], &rows)
}

#[test]
fn cash_account_trims_a_buy_to_buying_power() {
    // $100k cash account: a 2,000-share buy @ 300 (a $600k order) is trimmed
    // to the 333 whole shares $100k affords (333.33 rounded down to the lot).
    let algo = Scripted::new(
        |ctx| ctx.set_margin_model(Box::new(MaxLeverage::new(F(1.0)))),
        &[Act::Market(2_000.0)],
    );
    let result = run(algo, priced(&[(5, 0, 300.0), (5, 1, 300.0)])).unwrap();
    assert!((quantity_of(&result, "SYM").unwrap() - 333.0).abs() < 1e-9);
    assert!((result.final_equity.0 - 100_000.0).abs() < 1e-6);
    assert!(identity_error(&result) < 1e-6);
}

#[test]
fn set_holdings_is_clamped_to_the_leverage_cap() {
    // A 200% allocation under a 1.5x cap: the 2,000-share target is clamped
    // to the 1,500 shares the cap affords.
    let algo = Scripted::new(
        |ctx| ctx.set_margin_model(Box::new(MaxLeverage::new(F(1.5)))),
        &[Act::Target(2.0)],
    );
    let result = run(algo, priced(&[(5, 0, 100.0), (5, 1, 100.0)])).unwrap();
    assert!((quantity_of(&result, "SYM").unwrap() - 1_500.0).abs() < 1e-9);
    assert!(identity_error(&result) < 1e-6);
}

#[test]
fn over_levered_book_can_liquidate_but_not_buy() {
    // Buy 2,000 @ 100 at exactly the 2x cap; the price then drops to 60, so
    // equity shrinks to $20k and the book sits at 6x. A further buy must be
    // rejected outright, while the liquidation must fill in full.
    let algo = Scripted::new(
        |ctx| ctx.set_margin_model(Box::new(MaxLeverage::new(F(2.0)))),
        &[Act::Market(2_000.0), Act::Market(10.0), Act::Liquidate],
    );
    let result = run(algo, priced(&[(5, 0, 100.0), (5, 1, 60.0), (6, 0, 60.0)])).unwrap();

    assert!(result.open_positions.is_empty());
    assert_eq!(result.trades.len(), 1);
    let t = &result.trades[0];
    // 2,000 exactly: the blocked 10-share top-up never became part of it.
    assert!((t.quantity.0 - 2_000.0).abs() < 1e-9);
    assert!((t.pnl.0 - -80_000.0).abs() < 1e-6); // 2,000 * (60 - 100)
    assert!(identity_error(&result) < 1e-6);
}

#[test]
fn a_closure_works_as_a_margin_model() {
    // Long-only account: sells may only reduce an existing long, so the
    // opening short is rejected, the buy fills, and the closing sell passes.
    let algo = Scripted::new(
        |ctx| {
            ctx.set_margin_model(Box::new(MarginFn::new(|m: &MarginContext<F>| {
                if m.quantity.0 < 0.0 {
                    F(m.quantity.0.max(-m.current_qty.0.max(0.0)))
                } else {
                    m.quantity
                }
            })))
        },
        &[Act::Market(-100.0), Act::Market(100.0), Act::Liquidate],
    );
    let result = run(algo, priced(&[(5, 0, 100.0), (5, 1, 100.0), (5, 2, 100.0)])).unwrap();

    assert!(result.open_positions.is_empty());
    assert_eq!(result.trades.len(), 1, "the rejected short must not create a trade");
    assert_eq!(result.trades[0].direction, "long");
    assert!(identity_error(&result) < 1e-6);
}

#[test]
fn a_margin_model_cannot_enlarge_or_turn_an_order() {
    // A model that answers ten times the order, or its opposite, is held to
    // the order's own direction and size.
    let algo = Scripted::new(
        |ctx| {
            ctx.set_margin_model(Box::new(MarginFn::new(|m: &MarginContext<F>| {
                F(m.quantity.0 * 10.0)
            })))
        },
        &[Act::Market(100.0)],
    );
    let result = run(algo, priced(&[(5, 0, 100.0), (5, 1, 100.0)])).unwrap();
    assert_eq!(quantity_of(&result, "SYM"), Some(100.0));

    let algo = Scripted::new(
        |ctx| {
            ctx.set_margin_model(Box::new(MarginFn::new(|m: &MarginContext<F>| F(-m.quantity.0))))
        },
        &[Act::Market(100.0)],
    );
    let result = run(algo, priced(&[(5, 0, 100.0), (5, 1, 100.0)])).unwrap();
    assert_eq!(quantity_of(&result, "SYM"), None);
}

// Financing

#[test]
fn a_short_pays_its_borrow_fee_and_a_loan_its_interest() {
    // Short 100 @ 100 overnight at 252% a year: one percent of 10,000 a day.
    let algo = Scripted::new(|ctx| ctx.set_short_borrow_rate(F(2.52)), &[Act::Market(-100.0)]);
    let result = run(algo, priced(&[(5, 0, 100.0), (6, 0, 100.0)])).unwrap();
    assert!((result.final_equity.0 - 99_900.0).abs() < 1e-6);
    assert!((result.open_positions[0].realized_pnl.0 - -100.0).abs() < 1e-6);
    assert!(identity_error(&result) < 1e-6);

    // Long 2,000 @ 100 borrows 100,000: one percent of it a day.
    let algo = Scripted::new(|ctx| ctx.set_margin_interest_rate(F(2.52)), &[Act::Market(2_000.0)]);
    let result = run(algo, priced(&[(5, 0, 100.0), (6, 0, 100.0)])).unwrap();
    assert!((result.final_equity.0 - 99_000.0).abs() < 1e-6);
    assert!(identity_error(&result) < 1e-6);
}

// Corporate actions

/// What a [`BuyAndHold`] saw happen.
#[derive(Default)]
struct Seen {
    splits: Vec<(String, f64)>,
    delistings: Vec<String>,
    dividends: Vec<(String, f64)>,
    renames: Vec<(String, String)>,
    last_history: Vec<f64>,
}

/// Buys a fixed quantity of one symbol on the first bar, then holds. Records
/// every corporate action and the history closes seen on the last bar.
struct BuyAndHold {
    ticker: &'static str,
    qty: f64,
    bought: bool,
    delist_after: Option<usize>,
    haircut: Option<f64>,
    seen: Rc<RefCell<Seen>>,
}

impl BuyAndHold {
    fn new(ticker: &'static str, qty: f64) -> BuyAndHold {
        BuyAndHold {
            ticker,
            qty,
            bought: false,
            delist_after: None,
            haircut: None,
            seen: Rc::new(RefCell::new(Seen::default())),
        }
    }
}

impl Algorithm<F> for BuyAndHold {
    fn initialize(&mut self, ctx: &mut Context<F>) {
        ctx.set_cash(F(100_000.0));
        ctx.add_equity(self.ticker);
        ctx.add_equity("STAY"); // second symbol keeps the clock ticking
        if let Some(days) = self.delist_after {
            ctx.set_delist_after_days(days);
        }
        if let Some(haircut) = self.haircut {
            ctx.set_delist_haircut(F(haircut));
        }
    }

    fn on_data(&mut self, ctx: &mut Context<F>, data: &Slice<F>) {
        let sym = ctx.symbol(self.ticker).unwrap();
        if !self.bought && self.qty != 0.0 && data.bars.contains_key(&sym) {
            self.bought = true;
            ctx.market_order(sym, F(self.qty));
        }
        self.seen.borrow_mut().last_history =
            ctx.history(sym, 100).iter().map(|b| b.close.0).collect();
    }

    fn on_split(&mut self, ctx: &mut Context<F>, symbol: Symbol, ratio: F) {
        let name = ctx.symbol_name(symbol).to_string();
        self.seen.borrow_mut().splits.push((name, ratio.0));
    }

    fn on_delisted(&mut self, ctx: &mut Context<F>, symbol: Symbol) {
        let name = ctx.symbol_name(symbol).to_string();
        self.seen.borrow_mut().delistings.push(name);
    }

    fn on_dividend(&mut self, ctx: &mut Context<F>, symbol: Symbol, amount: F) {
        let name = ctx.symbol_name(symbol).to_string();
        self.seen.borrow_mut().dividends.push((name, amount.0));
    }

    fn on_rename(&mut self, ctx: &mut Context<F>, from: Symbol, to: Symbol) {
        let pair = (ctx.symbol_name(from).to_string(), ctx.symbol_name(to).to_string());
        self.seen.borrow_mut().renames.push(pair);
    }
}

/// Weekdays 2023-06-05 (Mon) .. 2023-06-16 (Fri), two bars per day.
const TRADING_DAYS: [u32; 10] = [5, 6, 7, 8, 9, 12, 13, 14, 15, 16];

fn days_of(id: u16, days: &[u32], price: impl Fn(u32) -> f64) -> Vec<Row<F>> {
    days.iter().flat_map(|&d| [row(id, d, 0, price(d)), row(id, d, 1, price(d))]).collect()
}

/// `ticker` as id 1 with its own bars, and STAY as id 2 on every day.
fn with_stay(ticker: &'static str, days: &[u32], price: impl Fn(u32) -> f64) -> Dataset {
    let mut rows = days_of(1, days, price);
    rows.extend(days_of(2, &TRADING_DAYS, |_| 10.0));
    dataset(&[(1, ticker), (2, "STAY")], &rows)
}

fn split(date: &str, ticker: &str, from: f64, to: f64) -> SplitRecord<F> {
    SplitRecord {
        execution_date: date.to_string(),
        ticker: ticker.to_string(),
        split_from: F(from),
        split_to: F(to),
    }
}

fn dividend(date: &str, ticker: &str, amount: f64) -> DividendRecord<F> {
    DividendRecord {
        ex_dividend_date: date.to_string(),
        ticker: ticker.to_string(),
        cash_amount: F(amount),
    }
}

#[test]
fn forward_split_adjusts_position_history_and_keeps_equity_flat() {
    // SPLT trades at 90 through 06-06, splits 1->3 on 06-07, trades at 30 after.
    let mut data = with_stay("SPLT", &TRADING_DAYS, |d| if d < 7 { 90.0 } else { 30.0 });
    data.splits = vec![split("2023-06-07", "SPLT", 1.0, 3.0)];
    let algo = BuyAndHold::new("SPLT", 10.0);
    let seen = algo.seen.clone();
    let result = run(algo, data).unwrap();

    // The callback fired exactly once with the ratio.
    assert_eq!(seen.borrow().splits, vec![("SPLT".to_string(), 3.0)]);

    // 10 shares @ 90 became 30 shares @ 30 - same value, no trade emitted.
    assert!(result.trades.is_empty());
    let pos = result.open_positions.iter().find(|p| p.symbol == "SPLT").unwrap();
    assert!((pos.quantity.0 - 30.0).abs() < 1e-9);
    assert!((pos.avg_price.0 - 30.0).abs() < 1e-9);

    // Equity never moves: prices were flat apart from the split itself.
    for p in &result.equity_curve {
        assert!((p.equity.0 - 100_000.0).abs() < 1e-6, "equity jumped across the split");
    }
    assert!(identity_error(&result) < 1e-6);

    // The window is fully rescaled into post-split terms.
    let seen = seen.borrow();
    assert!(!seen.last_history.is_empty());
    assert!(seen.last_history.iter().all(|&c| (c - 30.0).abs() < 1e-9));
}

#[test]
fn reverse_split_cashes_out_a_fractional_position_in_lieu() {
    // TINY trades at 10, reverse splits 10->1 on 06-07 (price becomes 100).
    let mut data = with_stay("TINY", &TRADING_DAYS, |d| if d < 7 { 10.0 } else { 100.0 });
    data.splits = vec![split("2023-06-07", "TINY", 10.0, 1.0)];

    // 5 shares * 0.1 = 0.5 shares -> rounds to 0 against the whole-share lot;
    // the entire position is cashed out in lieu.
    let result = run(BuyAndHold::new("TINY", 5.0), data).unwrap();

    assert!(result.open_positions.iter().all(|p| p.symbol != "TINY"));
    assert_eq!(result.trades.len(), 1);
    let t = &result.trades[0];
    assert_eq!(t.exit_reason, "split");
    // Bought 5 @ 10, cashed out 0.5 @ 100: zero PnL, equity intact.
    assert!(t.pnl.0.abs() < 1e-9);
    assert!((result.final_equity.0 - 100_000.0).abs() < 1e-6);
    assert!(identity_error(&result) < 1e-6);
}

#[test]
fn silent_symbol_is_force_liquidated_as_delisted() {
    // GONE trades 06-05..06-07 at 20, then vanishes; STAY keeps the clock
    // running through 06-16.
    let data = with_stay("GONE", &[5, 6, 7], |_| 20.0);
    let algo = BuyAndHold::new("GONE", 10.0);
    let seen = algo.seen.clone();
    let result = run(algo, data).unwrap();

    assert_eq!(seen.borrow().delistings, vec!["GONE".to_string()]);
    assert!(result.open_positions.iter().all(|p| p.symbol != "GONE"));
    assert_eq!(result.trades.len(), 1);
    let t = &result.trades[0];
    assert_eq!(t.exit_reason, "delisted");
    // Closed at the last known price (20), where it was also bought: flat PnL.
    assert!((t.exit_price.0 - 20.0).abs() < 1e-9);
    assert!(t.pnl.0.abs() < 1e-9);
    // GONE last traded on day index of 06-07; the 5th silent trading day is
    // 06-14.
    assert!(t.exit_time.starts_with("2023-06-14"));
    assert!(identity_error(&result) < 1e-6);
}

#[test]
fn delist_scan_can_be_disabled() {
    let data = with_stay("GONE", &[5, 6, 7], |_| 20.0);
    let algo = BuyAndHold { delist_after: Some(0), ..BuyAndHold::new("GONE", 10.0) };
    let result = run(algo, data).unwrap();
    assert!(result.trades.is_empty());
    assert!(result.open_positions.iter().any(|p| p.symbol == "GONE"));
    assert!(identity_error(&result) < 1e-6);
}

#[test]
fn cash_dividend_credits_a_held_long_position() {
    // DIV trades flat at 100; STAY keeps the clock running. A $2.00/share
    // dividend goes ex on 06-08, while we hold 10 shares bought on 06-05.
    let mut data = with_stay("DIV", &TRADING_DAYS, |_| 100.0);
    data.dividends = vec![dividend("2023-06-08", "DIV", 2.0)];
    let algo = BuyAndHold::new("DIV", 10.0);
    let seen = algo.seen.clone();
    let result = run(algo, data).unwrap();

    // The callback fired once with the per-share amount.
    assert_eq!(seen.borrow().dividends, vec![("DIV".to_string(), 2.0)]);
    // 10 shares * $2 = $20 income, attributed to the still-open position and
    // credited to cash, so equity rises by exactly the dividend.
    let pos = result.open_positions.iter().find(|p| p.symbol == "DIV").unwrap();
    assert!((pos.realized_pnl.0 - 20.0).abs() < 1e-9);
    assert!((result.final_equity.0 - 100_020.0).abs() < 1e-6);
    assert!(identity_error(&result) < 1e-6);
}

#[test]
fn a_day_starts_once_however_many_ticks_it_has() {
    let mut data = with_stay("DIV", &TRADING_DAYS, |_| 100.0);
    let more: Vec<Row<F>> = (10..20).map(|minute| row(1, 8, minute, 100.0)).collect();
    data.files[0].1.extend(more);
    data.files[0].1.sort_by_key(|r| r.window_start);
    data.dividends = vec![dividend("2023-06-08", "DIV", 2.0)];
    let algo = BuyAndHold::new("DIV", 10.0);
    let seen = algo.seen.clone();
    let result = run(algo, data).unwrap();
    assert_eq!(seen.borrow().dividends.len(), 1);
    assert!((result.final_equity.0 - 100_020.0).abs() < 1e-6);
}

#[test]
fn cash_dividend_debits_a_held_short_position() {
    let mut data = with_stay("DIV", &TRADING_DAYS, |_| 100.0);
    data.dividends = vec![dividend("2023-06-08", "DIV", 2.0)];

    // Short 10 shares: a dividend on a short is a cash debit of qty*amount.
    let result = run(BuyAndHold::new("DIV", -10.0), data).unwrap();

    let pos = result.open_positions.iter().find(|p| p.symbol == "DIV").unwrap();
    assert!((pos.realized_pnl.0 - -20.0).abs() < 1e-9);
    assert!((result.final_equity.0 - 99_980.0).abs() < 1e-6);
    assert!(identity_error(&result) < 1e-6);
}

#[test]
fn dividend_is_not_paid_when_the_symbol_is_not_held() {
    let mut data = with_stay("DIV", &TRADING_DAYS, |_| 100.0);
    data.dividends = vec![dividend("2023-06-08", "DIV", 2.0)];

    // Subscribes DIV (so the dividend loads) but never opens a position in it.
    let result = run(BuyAndHold::new("DIV", 0.0), data).unwrap();
    // No position on the ex-date means no cash flow at all.
    assert!(result.trades.is_empty());
    assert!(result.open_positions.is_empty());
    assert!((result.final_equity.0 - 100_000.0).abs() < 1e-9);
}

#[test]
fn delist_haircut_writes_down_the_forced_liquidation() {
    // GONE trades at 20 through 06-07 then vanishes; a 25% haircut recovers
    // 15/share on the forced liquidation instead of the last print of 20.
    let data = with_stay("GONE", &[5, 6, 7], |_| 20.0);
    let algo = BuyAndHold { haircut: Some(0.25), ..BuyAndHold::new("GONE", 10.0) };
    let result = run(algo, data).unwrap();

    assert_eq!(result.trades.len(), 1);
    let t = &result.trades[0];
    assert_eq!(t.exit_reason, "delisted");
    // Filled at 20 * (1 - 0.25) = 15, a 5/share loss on the 10-share position.
    assert!((t.exit_price.0 - 15.0).abs() < 1e-9);
    assert!((t.pnl.0 - -50.0).abs() < 1e-9);
    assert!(identity_error(&result) < 1e-6);
}

#[test]
fn a_rename_moves_the_position_and_its_history_without_a_trade() {
    // OLDN trades through 06-07 and is renamed NEWN on 06-08. NEWN was never
    // asked for: the rename subscribes it.
    let mut rows = days_of(1, &[5, 6, 7], |_| 20.0);
    rows.extend(days_of(3, &[8, 9, 12], |_| 25.0));
    rows.extend(days_of(2, &TRADING_DAYS, |_| 10.0));
    let mut data = dataset(&[(1, "OLDN"), (2, "STAY"), (3, "NEWN")], &rows);
    data.renames = vec![RenameRecord {
        date: "2023-06-08".to_string(),
        old: "OLDN".to_string(),
        new: "NEWN".to_string(),
    }];
    let algo = BuyAndHold { delist_after: Some(0), ..BuyAndHold::new("OLDN", 10.0) };
    let seen = algo.seen.clone();
    let result = run(algo, data).unwrap();

    assert_eq!(seen.borrow().renames, vec![("OLDN".to_string(), "NEWN".to_string())]);
    assert!(result.trades.is_empty(), "a rename emits no trade");
    assert_eq!(quantity_of(&result, "OLDN"), None);
    let pos = result.open_positions.iter().find(|p| p.symbol == "NEWN").unwrap();
    assert_eq!(pos.quantity, F(10.0));
    assert_eq!(pos.avg_price, F(20.0));
    assert!((result.final_equity.0 - 100_050.0).abs() < 1e-6);
    assert!(identity_error(&result) < 1e-6);
}

#[test]
fn a_split_rescales_the_orders_that_wait() {
    // A resting buy of 10 @ 45 becomes 30 @ 15 across a 1->3 split, and fills
    // when the price comes down to it.
    let mut data =
        priced(&[(5, 0, 90.0), (6, 0, 30.0), (7, 0, 15.0)]);
    data.splits = vec![split("2023-06-06", "SYM", 1.0, 3.0)];
    let result = run(RestOnce::limit(10.0, 45.0), data).unwrap();
    let pos = &result.open_positions[0];
    assert!((pos.quantity.0 - 30.0).abs() < 1e-9);
    assert!((pos.avg_price.0 - 15.0).abs() < 1e-9);
}

// The trade ledger and the equity curve

/// A month of AAPL minutes: weekdays of January 2023, sixty bars each, at
/// prices that wander.
fn aapl() -> Dataset {
    let mut rows = Vec::new();
    let mut price = 130.28;
    for day in [3, 4, 5, 6, 9, 10, 11, 12, 13] {
        for minute in 0..60u32 {
            let open: f64 = price;
            let step = [0.72, -0.31, 0.18, -0.55, 0.09, 0.24, -0.12][(minute % 7) as usize];
            price += step;
            let at = ts(2023, 1, day, 14, 30 + minute);
            rows.push(ohlc(47, at, open, open.max(price), open.min(price), price, 5_000));
        }
    }
    let mut data = dataset(&[(47, "AAPL")], &rows);
    data.files[0].0 = "/data/minute/year=2023/month=1/part-0.parquet".to_string();
    data
}

/// Buys once, holds five bars, liquidates, then stays flat.
struct OneRoundTrip {
    bars_seen: usize,
}

impl Algorithm<F> for OneRoundTrip {
    fn initialize(&mut self, ctx: &mut Context<F>) {
        ctx.set_cash(F(100_000.0));
        ctx.add_equity("AAPL");
    }

    fn on_data(&mut self, ctx: &mut Context<F>, data: &Slice<F>) {
        let sym = ctx.symbol("AAPL").unwrap();
        if !data.bars.contains_key(&sym) {
            return;
        }
        self.bars_seen += 1;
        match self.bars_seen {
            1 => ctx.set_holdings(sym, F(0.5)),
            6 => ctx.liquidate(sym),
            _ => {}
        }
    }
}

fn rebalance(commission: bool) -> RebalanceEveryBar {
    RebalanceEveryBar { ticker: "AAPL", weight: 0.9, commission }
}

#[test]
fn constant_rebalancing_nets_into_a_single_position_lifetime() {
    let result = run(rebalance(false), aapl()).unwrap();

    // The position opens on the first bar and never returns to flat, so there
    // are no completed round trips - only one open position at the end.
    assert_eq!(result.trades.len(), 0, "rebalance noise leaked into trades");
    assert_eq!(result.open_positions.len(), 1);
    assert_eq!(result.open_positions[0].symbol, "AAPL");
    assert!(result.open_positions[0].quantity.0 > 0.0);

    assert!(identity_error(&result) < 1e-6);
}

#[test]
fn single_round_trip_is_one_trade() {
    let result = run(OneRoundTrip { bars_seen: 0 }, aapl()).unwrap();

    assert_eq!(result.trades.len(), 1);
    let t = &result.trades[0];
    assert_eq!(t.symbol, "AAPL");
    assert_eq!(t.direction, "long");
    assert!(t.quantity.0 > 0.0);
    assert!(t.entry_time < t.exit_time);
    // PnL must match the price move times quantity.
    let expected = (t.exit_price.0 - t.entry_price.0) * t.quantity.0;
    assert!((t.pnl.0 - expected).abs() < 1e-6);

    assert!(result.open_positions.is_empty());
    assert!(identity_error(&result) < 1e-6);
}

#[test]
fn commissions_are_charged_and_attributed() {
    let with = run(rebalance(true), aapl()).unwrap();
    let without = run(rebalance(false), aapl()).unwrap();

    assert!(with.total_commission.0 > 0.0);
    assert_eq!(without.total_commission, F(0.0));
    // Commission comes straight out of final equity. Sizing feedback (fees
    // shrink equity, shrinking the 90% target) makes the difference not
    // exactly equal, but it must be at least the fees paid and same order.
    let equity_gap = without.final_equity.0 - with.final_equity.0;
    let fees = with.total_commission.0;
    assert!(equity_gap >= fees * 0.5 && equity_gap <= fees * 2.0);
}

#[test]
fn equity_curve_starts_at_initial_cash_and_ends_at_final_equity() {
    let result = run(OneRoundTrip { bars_seen: 0 }, aapl()).unwrap();

    let curve = &result.equity_curve;
    assert!(curve.len() >= 3, "expected multiple daily points, got {}", curve.len());
    assert_eq!(curve[0].equity, result.initial_cash);
    assert_eq!(curve[0].time, "2023-01-02", "anchored the day before");
    let last = curve.last().unwrap();
    assert!((last.equity.0 - result.final_equity.0).abs() < 1e-9);

    // Dates strictly increase.
    for w in curve.windows(2) {
        assert!(w[0].time < w[1].time, "curve not sorted: {} -> {}", w[0].time, w[1].time);
    }
}

/// Buys on the first bar, with intraday marks.
struct HoldWithIntraday {
    bought: bool,
}

impl Algorithm<F> for HoldWithIntraday {
    fn initialize(&mut self, ctx: &mut Context<F>) {
        ctx.set_cash(F(100_000.0));
        ctx.add_equity("AAPL");
        ctx.set_track_intraday_equity(true);
    }

    fn on_data(&mut self, ctx: &mut Context<F>, data: &Slice<F>) {
        let sym = ctx.symbol("AAPL").unwrap();
        if !self.bought && data.bars.contains_key(&sym) {
            self.bought = true;
            ctx.set_holdings(sym, F(1.0));
        }
    }
}

#[test]
fn intraday_equity_is_opt_in_and_finer_than_the_daily_curve() {
    let on = run(HoldWithIntraday { bought: false }, aapl()).unwrap();
    // Per-bar marks are recorded and far outnumber the daily points.
    assert!(!on.intraday_equity.is_empty());
    assert!(on.intraday_equity.len() > on.equity_curve.len());
    for w in on.intraday_equity.windows(2) {
        assert!(w[0].time < w[1].time, "intraday marks not sorted");
    }
    assert!((on.intraday_equity.last().unwrap().equity.0 - on.final_equity.0).abs() < 1e-6);

    // Off by default - no per-bar marks recorded.
    let off = run(OneRoundTrip { bars_seen: 0 }, aapl()).unwrap();
    assert!(off.intraday_equity.is_empty());
}

/// Counts days, bars, scheduled calls and consolidated bars.
#[derive(Default)]
struct Counts {
    days: Cell<usize>,
    ticks: Cell<usize>,
    scheduled: RefCell<Vec<usize>>,
    consolidated: RefCell<Vec<Bar<F>>>,
}

struct Counter {
    warm_up: usize,
    counts: Rc<Counts>,
}

impl Algorithm<F> for Counter {
    fn initialize(&mut self, ctx: &mut Context<F>) {
        ctx.set_cash(F(100_000.0));
        let sym = ctx.add_equity("AAPL");
        ctx.set_warm_up(self.warm_up);
        ctx.on_time(10, 0);
        ctx.consolidate(sym, ConsolidatorPeriod::Daily);
    }

    fn on_data(&mut self, _ctx: &mut Context<F>, _data: &Slice<F>) {
        self.counts.ticks.set(self.counts.ticks.get() + 1);
    }

    fn on_end_of_day(&mut self, _ctx: &mut Context<F>) {
        self.counts.days.set(self.counts.days.get() + 1);
    }

    fn on_scheduled(&mut self, _ctx: &mut Context<F>, handle: usize) {
        self.counts.scheduled.borrow_mut().push(handle);
    }

    fn on_consolidated(&mut self, _handle: usize, bar: &Bar<F>) {
        self.counts.consolidated.borrow_mut().push(*bar);
    }
}

#[test]
fn on_end_of_day_fires_for_every_trading_day_including_the_last() {
    let counts = Rc::new(Counts::default());
    let result = run(Counter { warm_up: 0, counts: counts.clone() }, aapl()).unwrap();

    // One callback per trading day - the curve has one extra point, the
    // day-before anchor at initial cash.
    assert_eq!(counts.days.get(), result.equity_curve.len() - 1);
    assert_eq!(counts.days.get(), 9);
    // A scheduled time fires once a day, and a daily bar once a day.
    assert_eq!(*counts.scheduled.borrow(), vec![0; 9]);
    assert_eq!(counts.consolidated.borrow().len(), 9);
    assert_eq!(counts.consolidated.borrow()[0].volume, 60 * 5_000);
}

#[test]
fn warm_up_builds_state_without_calling_the_strategy() {
    let counts = Rc::new(Counts::default());
    let result = run(Counter { warm_up: 60, counts: counts.clone() }, aapl()).unwrap();

    assert_eq!(counts.ticks.get(), 8 * 60, "the first day is warm-up");
    assert_eq!(counts.days.get(), 8, "a day of warm-up only has no end");
    assert_eq!(counts.consolidated.borrow().len(), 9, "consolidation runs through it");
    assert_eq!(result.equity_curve[0].time, "2023-01-03");
}

#[test]
fn set_holdings_rounds_to_whole_shares_by_default() {
    let result = run(rebalance(false), aapl()).unwrap();
    let qty = result.open_positions[0].quantity.0;
    assert!((qty - qty.round()).abs() < 1e-9, "expected whole-share position, got {qty}");
}

#[test]
fn missing_data_path_is_an_error_not_a_panic() {
    let (path, _) = resolve_data_file("/no/such/data/root", &None, TICKER_MAP_FILE);
    let Err(err) = TickerMap::load(&path, Err("No such file".to_string())) else {
        panic!("expected an error");
    };
    assert!(matches!(err, BacktestError::Io { .. }));
    assert!(
        err.message().contains("encoded_tickers.json"),
        "error should name the missing file, got: {}",
        err.message()
    );
    // A root without data files names the root.
    let mut data = aapl();
    data.files.clear();
    match run(OneRoundTrip { bars_seen: 0 }, data) {
        Err(BacktestError::NoData { path }) => assert_eq!(path, ROOT),
        _ => panic!("expected NoData"),
    }
}

/// Records how deep the history of AAPL got, under whichever tracking mode
/// `setup` configures.
struct HistoryProbe {
    setup: fn(&mut Context<F>, Symbol),
    max_depth: Rc<Cell<usize>>,
    bars_seen: Rc<Cell<usize>>,
}

impl Algorithm<F> for HistoryProbe {
    fn initialize(&mut self, ctx: &mut Context<F>) {
        ctx.set_cash(F(100_000.0));
        let sym = ctx.add_equity("AAPL");
        (self.setup)(ctx, sym);
    }

    fn on_data(&mut self, ctx: &mut Context<F>, data: &Slice<F>) {
        let sym = ctx.symbol("AAPL").unwrap();
        if !data.bars.contains_key(&sym) {
            return;
        }
        self.bars_seen.set(self.bars_seen.get() + 1);
        let depth = ctx.history(sym, 50).len();
        self.max_depth.set(self.max_depth.get().max(depth));
    }
}

/// Bars seen, and the deepest history observed.
fn history_depth(setup: fn(&mut Context<F>, Symbol)) -> (usize, usize) {
    let max_depth = Rc::new(Cell::new(0));
    let bars_seen = Rc::new(Cell::new(0));
    let algo = HistoryProbe { setup, max_depth: max_depth.clone(), bars_seen: bars_seen.clone() };
    run(algo, aapl()).expect("a clean run");
    (bars_seen.get(), max_depth.get())
}

#[test]
fn history_is_recorded_for_every_symbol_by_default() {
    let (bars, depth) = history_depth(|_, _| {});
    assert!(bars > 50, "the data should produce plenty of bars");
    assert_eq!(depth, 50, "the rolling window should fill to the requested depth");
}

#[test]
fn disable_history_skips_the_rolling_window_entirely() {
    let (bars, depth) = history_depth(|ctx, _| ctx.disable_history());
    assert!(bars > 50, "the backtest must still see every bar");
    assert_eq!(depth, 0, "history() should stay empty when nothing is tracked");
}

#[test]
fn track_history_keeps_the_window_for_named_symbols_only() {
    let (_, named) = history_depth(|ctx, sym| ctx.track_history(sym));
    assert_eq!(named, 50, "an explicitly tracked symbol keeps its window");

    // Opting in a different symbol leaves AAPL untracked.
    let (_, other) =
        history_depth(|ctx, _| ctx.track_history(Symbol::from_ticker_id(1)));
    assert_eq!(other, 0, "a symbol left out of the opt-in list keeps no history");
}

#[test]
fn the_window_never_passes_the_configured_depth() {
    let (_, depth) = history_depth(|ctx, _| ctx.set_max_history(7));
    assert_eq!(depth, 7);
}

// Date ranges and the order of the data

/// Records the timestamp of every slice it sees; optionally configures a date
/// range.
struct RecordTimes {
    ticker: &'static str,
    start: Option<(i32, u32, u32)>,
    end: Option<(i32, u32, u32)>,
    times: Rc<RefCell<Vec<Time>>>,
}

impl RecordTimes {
    fn new(
        ticker: &'static str,
        start: Option<(i32, u32, u32)>,
        end: Option<(i32, u32, u32)>,
    ) -> RecordTimes {
        RecordTimes { ticker, start, end, times: Rc::new(RefCell::new(Vec::new())) }
    }
}

impl Algorithm<F> for RecordTimes {
    fn initialize(&mut self, ctx: &mut Context<F>) {
        ctx.set_cash(F(100_000.0));
        ctx.add_equity(self.ticker);
        if let Some((y, m, d)) = self.start {
            ctx.set_start_date(y, m, d);
        }
        if let Some((y, m, d)) = self.end {
            ctx.set_end_date(y, m, d);
        }
    }

    fn on_data(&mut self, _ctx: &mut Context<F>, data: &Slice<F>) {
        self.times.borrow_mut().push(data.time);
    }
}

#[test]
fn inverted_date_range_is_an_error() {
    let algo = RecordTimes::new("AAPL", Some((2023, 2, 1)), Some((2023, 1, 1)));
    match run(algo, aapl()) {
        Err(err) => {
            assert!(matches!(err, BacktestError::InvalidDateRange { .. }));
            assert_eq!(
                err.message(),
                "invalid date range: start date 2023-02-01 is after end date 2023-01-01"
            );
        }
        Ok(_) => panic!("an inverted range ran"),
    }
}

#[test]
fn date_range_beyond_the_data_warns_but_still_runs() {
    // The data covers Jan 2023 only; a range spilling out on both sides must
    // not fail - the backtest runs over the overlap.
    let algo = RecordTimes::new("AAPL", Some((2022, 6, 1)), Some((2023, 12, 31)));
    let times = algo.times.clone();
    run(algo, aapl()).unwrap();
    assert!(!times.borrow().is_empty(), "no bars processed over the overlap");

    let files = vec!["/data/minute/year=2023/month=1/part-0.parquet".to_string()];
    let coverage =
        check_coverage(&files, Date::from_ymd(2022, 6, 1), Date::from_ymd(2023, 12, 31));
    assert_eq!(coverage.starts_late, Some((2023, 1)));
    assert_eq!(coverage.ends_early, Some((2023, 1)));
    let coverage =
        check_coverage(&files, Date::from_ymd(2023, 1, 5), Date::from_ymd(2023, 1, 31));
    assert_eq!((coverage.starts_late, coverage.ends_early), (None, None));
}

#[test]
fn ticks_outside_the_date_range_are_left_out() {
    let algo = RecordTimes::new("AAPL", Some((2023, 1, 5)), Some((2023, 1, 10)));
    let times = algo.times.clone();
    run(algo, aapl()).unwrap();
    // 5, 6, 9 and 10 January.
    assert_eq!(times.borrow().len(), 4 * 60);
}

#[test]
fn files_outside_the_date_range_are_not_read() {
    // The February file would fail the run if it were read.
    let mut data = aapl();
    let late = ts(2023, 2, 1, 15, 0);
    data.files.push((
        "/data/minute/year=2023/month=2/part-0.parquet".to_string(),
        vec![ohlc(47, late, 1.0, 1.0, 1.0, 1.0, 1), ohlc(47, late - 1_000_000_000, 1.0, 1.0, 1.0, 1.0, 1)],
    ));
    let algo = RecordTimes::new("AAPL", None, Some((2023, 1, 31)));
    let times = algo.times.clone();
    run(algo, data).unwrap();
    assert_eq!(times.borrow().len(), 9 * 60);
}

/// One part file of one-price minute bars of XYZ. Each row is dated as given,
/// whatever its partition.
fn part(year: i32, month: u32, part: &str, rows: &[(i64, f64)]) -> (String, Vec<Row<F>>) {
    (
        format!("/data/minute/year={year}/month={month}/{part}"),
        rows.iter().map(|&(at, p)| ohlc(1, at, p, p, p, p, 100)).collect(),
    )
}

fn parts(files: Vec<(String, Vec<Row<F>>)>) -> Dataset {
    let mut data = dataset(&[(1, "XYZ")], &[]);
    data.files = files;
    data
}

#[test]
fn out_of_order_bars_across_files_are_an_error() {
    // June's file ends at 15:02. July's partition holds a legitimate July bar
    // in part-0 and - in part-1, which sorts after it - a rogue bar dated back
    // in June, before the stream's high-water mark. Processing it would run
    // time backwards mid-backtest, so the run must fail instead.
    let jun = |minute| ts(2023, 6, 1, 15, minute);
    let data = parts(vec![
        part(2023, 7, "part-1.parquet", &[(jun(1), 99.0)]),
        part(2023, 7, "part-0.parquet", &[(ts(2023, 7, 3, 15, 0), 13.0)]),
        part(2023, 6, "part-0.parquet", &[(jun(0), 10.0), (jun(1), 11.0), (jun(2), 12.0)]),
    ]);
    match run(RecordTimes::new("XYZ", None, None), data) {
        Err(BacktestError::OutOfOrderData { path, at, stream_at }) => {
            assert_eq!(path, "/data/minute/year=2023/month=7/part-1.parquet");
            assert_eq!(at.to_rfc3339(), "2023-06-01T15:01:00+00:00");
            assert_eq!(stream_at.to_rfc3339(), "2023-07-03T15:00:00+00:00");
        }
        _ => panic!("expected OutOfOrderData"),
    }
}

#[test]
fn in_order_bars_across_files_run_clean() {
    // The mirror of the out-of-order test: the same layout minus the rogue bar
    // must stream every bar through on_data in order, with no error.
    let jun = |minute| ts(2023, 6, 1, 15, minute);
    let data = parts(vec![
        part(2023, 7, "part-0.parquet", &[(ts(2023, 7, 3, 15, 0), 13.0)]),
        part(2023, 6, "part-0.parquet", &[(jun(0), 10.0), (jun(1), 11.0), (jun(2), 12.0)]),
    ]);
    let algo = RecordTimes::new("XYZ", None, None);
    let times = algo.times.clone();
    run(algo, data).unwrap();

    let times = times.borrow();
    assert_eq!(times.len(), 4, "expected every bar to reach on_data: {times:?}");
    assert!(times.windows(2).all(|w| w[0].before(w[1])), "bars arrived out of order");
}

#[test]
fn unsorted_bars_within_a_file_are_an_error() {
    // The engine streams rows in file order without re-sorting, so a file
    // whose timestamps regress (15:02 then back to 15:01) is rejected.
    let jun = |minute| ts(2023, 6, 1, 15, minute);
    let data = parts(vec![part(
        2023,
        6,
        "part-0.parquet",
        &[(jun(0), 10.0), (jun(2), 12.0), (jun(1), 11.0)],
    )]);
    match run(RecordTimes::new("XYZ", None, None), data) {
        Err(err) => assert!(matches!(err, BacktestError::OutOfOrderData { .. })),
        Ok(_) => panic!("unsorted data was accepted"),
    }
}

// A strategy on sessions: fading pre-market pumps

/// Shorts, on its first main-session bar, what doubled in pre-market against
/// the previous main-session close; covers at 15:55 ET.
struct Fader {
    tickers: Vec<&'static str>,
    min_gain: f64,
    prev_close: SymbolMap<f64>,
    today_close: SymbolMap<f64>,
    premarket_last: SymbolMap<f64>,
    seen_main: SymbolSet,
    held: Vec<Symbol>,
    last_date: Option<Date>,
}

impl Fader {
    fn new(tickers: &[&'static str]) -> Fader {
        Fader {
            tickers: tickers.to_vec(),
            min_gain: 1.0,
            prev_close: SymbolMap::default(),
            today_close: SymbolMap::default(),
            premarket_last: SymbolMap::default(),
            seen_main: SymbolSet::default(),
            held: Vec::new(),
            last_date: None,
        }
    }
}

impl Algorithm<F> for Fader {
    fn initialize(&mut self, ctx: &mut Context<F>) {
        ctx.set_cash(F(100_000.0));
        for ticker in &self.tickers {
            ctx.add_equity(ticker);
        }
    }

    fn on_data(&mut self, ctx: &mut Context<F>, data: &Slice<F>) {
        let today = data.time.eastern_date();
        if self.last_date != Some(today) {
            self.last_date = Some(today);
            for symbol in std::mem::take(&mut self.held) {
                ctx.liquidate(symbol);
            }
            for symbol in self.today_close.symbols() {
                let close = *self.today_close.get(&symbol).unwrap();
                self.prev_close.insert(symbol, close);
            }
            self.today_close.clear();
            self.premarket_last.clear();
            self.seen_main = SymbolSet::default();
        }
        let past_cover = data.time.eastern_minute() >= 15 * 60 + 55;

        for symbol in data.bars.symbols() {
            let bar = data.bars.get(&symbol).unwrap();
            match bar.session() {
                MarketSession::PreMarket => {
                    self.premarket_last.insert(symbol, bar.close.0);
                }
                MarketSession::Main => {
                    if self.seen_main.insert(symbol) && !self.held.contains(&symbol) {
                        let prev = self.prev_close.get(&symbol).copied();
                        let pre = self.premarket_last.get(&symbol).copied();
                        if let (Some(prev), Some(pre)) = (prev, pre) {
                            if prev > 0.0 && pre / prev - 1.0 >= self.min_gain && pre >= 1.0 {
                                ctx.set_holdings(symbol, F(-0.05));
                                self.held.push(symbol);
                            }
                        }
                    }
                    self.today_close.insert(symbol, bar.close.0);
                    if past_cover && self.held.contains(&symbol) {
                        self.held.retain(|s| *s != symbol);
                        ctx.liquidate(symbol);
                    }
                }
                MarketSession::AfterMarket => {}
            }
        }
    }
}

/// A row at an explicit UTC time with the session it is meant to lie in.
fn session_row(
    ticker: u16,
    day: u32,
    hour: u32,
    minute: u32,
    session: MarketSession,
    price: f64,
) -> Row<F> {
    let at = ts(2023, 6, day, hour, minute);
    let bar = Bar {
        time: Time::from_timestamp(at / 1_000_000_000, 0).unwrap(),
        open: F(price),
        high: F(price),
        low: F(price),
        close: F(price),
        volume: 100,
    };
    assert_eq!(bar.session(), session, "row at {hour:02}:{minute:02} UTC on day {day}");
    ohlc(ticker, at, price, price, price, price, 100)
}

/// Two days of bars: PUMP closes day 1 at 1.00, prints 2.50 pre-market on
/// day 2 (+150%), then fades through the main session. TAME gaps only +50%.
/// Times are UTC; 13:30 = 09:30 ET (main open), 19:55 = 15:55 ET (cover).
fn pump_rows() -> Vec<Row<F>> {
    vec![
        // Mon 2023-06-05: quiet day establishing the previous close.
        session_row(1, 5, 14, 0, MarketSession::Main, 1.0),
        session_row(1, 5, 19, 55, MarketSession::Main, 1.0),
        session_row(2, 5, 14, 0, MarketSession::Main, 10.0),
        session_row(2, 5, 19, 55, MarketSession::Main, 10.0),
        // Tue 2023-06-06 pre-market (08:00 ET): PUMP +150%, TAME +50%.
        session_row(1, 6, 12, 0, MarketSession::PreMarket, 2.5),
        session_row(2, 6, 12, 0, MarketSession::PreMarket, 15.0),
        // Tue main session: PUMP fades 2.40 -> 2.00, TAME drifts.
        session_row(1, 6, 13, 30, MarketSession::Main, 2.4),
        session_row(2, 6, 13, 30, MarketSession::Main, 14.5),
        session_row(1, 6, 16, 0, MarketSession::Main, 2.2),
        session_row(2, 6, 16, 0, MarketSession::Main, 14.4),
        session_row(1, 6, 19, 55, MarketSession::Main, 2.0),
        session_row(2, 6, 19, 55, MarketSession::Main, 14.3),
    ]
}

#[test]
fn shorts_the_pump_at_the_open_and_covers_at_the_close() {
    let data = dataset(&[(1, "PUMP"), (2, "TAME")], &pump_rows());
    let result = run(Fader::new(&["PUMP", "TAME"]), data).unwrap();

    // Only PUMP qualifies (+150% pre-market); TAME's +50% is below the bar.
    assert_eq!(result.trades.len(), 1);
    let trade = &result.trades[0];
    assert_eq!(trade.symbol, "PUMP");
    assert_eq!(trade.direction, "short");
    // Shorted on the first main bar (2.40), covered on the 15:55 ET bar
    // (2.00), same day.
    assert_eq!(trade.entry_price, F(2.4));
    assert_eq!(trade.exit_price, F(2.0));
    assert!(trade.entry_time.starts_with("2023-06-06T13:30"), "entry {}", trade.entry_time);
    assert!(trade.exit_time.starts_with("2023-06-06T19:55"), "exit {}", trade.exit_time);
    assert!(trade.pnl.0 > 0.0);
    assert!(result.open_positions.is_empty(), "everything covered by the close");
    assert!(identity_error(&result) < 1e-6);
}

#[test]
fn gap_is_measured_against_the_main_session_close_not_after_hours() {
    // Day 1: main close 1.00, then an after-hours melt-up to 2.10. Day 2
    // pre-market holds 2.20 (+120% vs the main close). The reference must
    // be the 1.00 main close, so this still qualifies.
    let rows = vec![
        session_row(1, 5, 14, 0, MarketSession::Main, 1.0),
        session_row(1, 5, 19, 55, MarketSession::Main, 1.0),
        session_row(1, 5, 22, 0, MarketSession::AfterMarket, 2.1), // must be ignored
        session_row(1, 6, 12, 0, MarketSession::PreMarket, 2.2),
        session_row(1, 6, 13, 30, MarketSession::Main, 2.1),
        session_row(1, 6, 19, 55, MarketSession::Main, 1.8),
    ];
    let result = run(Fader::new(&["PUMP"]), dataset(&[(1, "PUMP")], &rows)).unwrap();

    assert_eq!(result.trades.len(), 1);
    assert_eq!(result.trades[0].direction, "short");
    assert_eq!(result.trades[0].entry_price, F(2.1));
    assert!(identity_error(&result) < 1e-6);
}

#[test]
fn no_premarket_or_no_previous_close_means_no_trade() {
    // GAPO doubles overnight but has no pre-market prints; FRSH doubles in
    // pre-market on its very first day (no previous close). Neither trades.
    let rows = vec![
        session_row(1, 5, 14, 0, MarketSession::Main, 1.0),
        session_row(1, 5, 19, 55, MarketSession::Main, 1.0),
        session_row(1, 6, 13, 30, MarketSession::Main, 2.4),
        session_row(1, 6, 19, 55, MarketSession::Main, 2.0),
        session_row(2, 6, 12, 0, MarketSession::PreMarket, 8.0),
        session_row(2, 6, 13, 30, MarketSession::Main, 7.5),
        session_row(2, 6, 19, 55, MarketSession::Main, 7.0),
    ];
    let data = dataset(&[(1, "GAPO"), (2, "FRSH")], &rows);
    let result = run(Fader::new(&["GAPO", "FRSH"]), data).unwrap();

    assert!(result.trades.is_empty());
    assert!(result.open_positions.is_empty());
    assert_eq!(result.final_equity, result.initial_cash);
    assert!(identity_error(&result) < 1e-6);
}

#[test]
fn short_stranded_by_missing_bars_is_covered_next_morning() {
    // PUMP qualifies on day 2 but its bars stop at 16:00 UTC - no 15:55 ET
    // bar to cover on. The day-boundary fallback must close it on day 3
    // instead of carrying the short indefinitely. STAY keeps the clock
    // ticking through day 3.
    let rows = vec![
        session_row(1, 5, 14, 0, MarketSession::Main, 1.0),
        session_row(2, 5, 14, 0, MarketSession::Main, 5.0),
        session_row(1, 6, 12, 0, MarketSession::PreMarket, 2.5),
        session_row(1, 6, 13, 30, MarketSession::Main, 2.4),
        session_row(1, 6, 16, 0, MarketSession::Main, 2.3), // last PUMP bar of the day
        session_row(2, 6, 19, 55, MarketSession::Main, 5.0),
        session_row(1, 7, 14, 0, MarketSession::Main, 2.2),
        session_row(2, 7, 14, 0, MarketSession::Main, 5.0),
        session_row(2, 7, 19, 55, MarketSession::Main, 5.0),
    ];
    let data = dataset(&[(1, "PUMP"), (2, "STAY")], &rows);
    let result = run(Fader::new(&["PUMP", "STAY"]), data).unwrap();

    assert_eq!(result.trades.len(), 1);
    let trade = &result.trades[0];
    assert_eq!(trade.symbol, "PUMP");
    assert!(trade.exit_time.starts_with("2023-06-07"), "exit {}", trade.exit_time);
    assert!(result.open_positions.is_empty());
    assert!(identity_error(&result) < 1e-6);
}

// A strategy on insider filings

/// Buys after large insider purchases become public, sells after sales do or
/// after a number of trading days.
struct Follower {
    tickers: Vec<&'static str>,
    records: Option<Vec<InsiderRecord<F>>>,
    min_buy: f64,
    min_sell: f64,
    max_positions: usize,
    hold_days: usize,
    max_age_days: i32,
    buy_signals: BTreeMap<i32, Vec<Symbol>>,
    sell_signals: BTreeMap<i32, Vec<Symbol>>,
    held: Vec<(Symbol, usize)>,
    last_date: Option<Date>,
}

impl Follower {
    fn new(tickers: &[&'static str], records: Vec<InsiderRecord<F>>) -> Follower {
        Follower {
            tickers: tickers.to_vec(),
            records: Some(records),
            min_buy: 100_000.0,
            min_sell: 50_000.0,
            max_positions: 10,
            hold_days: 100,
            max_age_days: 5,
            buy_signals: BTreeMap::new(),
            sell_signals: BTreeMap::new(),
            held: Vec::new(),
            last_date: None,
        }
    }

    fn on_day_open(&mut self, ctx: &mut Context<F>, today: i32) {
        for (_, days) in self.held.iter_mut() {
            *days += 1;
        }

        let not_yet_due = self.sell_signals.split_off(&today);
        let due = std::mem::replace(&mut self.sell_signals, not_yet_due);
        for symbol in due.into_values().flatten() {
            if self.held.iter().any(|(s, _)| *s == symbol) {
                self.held.retain(|(s, _)| *s != symbol);
                ctx.liquidate(symbol);
            }
        }
        let hold_days = self.hold_days;
        for (symbol, days) in self.held.clone() {
            if days >= hold_days {
                ctx.liquidate(symbol);
            }
        }
        self.held.retain(|(_, days)| *days < hold_days);

        let not_yet_due = self.buy_signals.split_off(&today);
        let due = std::mem::replace(&mut self.buy_signals, not_yet_due);
        for (filing_day, symbols) in due {
            if today - filing_day > self.max_age_days {
                continue;
            }
            for symbol in symbols {
                if self.held.len() >= self.max_positions {
                    return;
                }
                if !self.held.iter().any(|(s, _)| *s == symbol) {
                    ctx.set_holdings(symbol, F(1.0 / self.max_positions as f64));
                    self.held.push((symbol, 0));
                }
            }
        }
    }
}

impl Algorithm<F> for Follower {
    fn initialize(&mut self, ctx: &mut Context<F>) {
        ctx.set_cash(F(100_000.0));
        let universe: FxHashSet<String> = self.tickers.iter().map(|t| t.to_string()).collect();
        let loaded = Loaded::Parsed(self.records.take().unwrap());
        let transactions = load_insider_transactions(ROOT, loaded, &universe).unwrap();

        for ticker in &self.tickers {
            let Some(symbol) = ctx.try_add_equity(ticker) else { continue };
            let Some(by_date) = transactions.get(ticker) else { continue };
            for day in by_date.days() {
                let txs = by_date.get(day).unwrap();
                let buys: f64 = txs
                    .iter()
                    .filter(|t| t.code == TransCode::Purchase && (t.is_officer || t.is_director))
                    .map(|t| t.value.0)
                    .sum();
                let sells: f64 =
                    txs.iter().filter(|t| t.code == TransCode::Sale).map(|t| t.value.0).sum();
                if buys >= self.min_buy {
                    self.buy_signals.entry(day).or_default().push(symbol);
                }
                if sells >= self.min_sell {
                    self.sell_signals.entry(day).or_default().push(symbol);
                }
            }
        }
    }

    fn on_data(&mut self, ctx: &mut Context<F>, data: &Slice<F>) {
        let today = data.time.eastern_date();
        if self.last_date != Some(today) {
            self.last_date = Some(today);
            self.on_day_open(ctx, today.day_number());
        }
    }
}

fn filing(ticker: &str, date: &str, code: &str, value: f64) -> InsiderRecord<F> {
    InsiderRecord {
        filing_date: date.to_string(),
        trans_date: None,
        ticker: ticker.to_string(),
        code: code.to_string(),
        shares: F(value / 100.0),
        price: F(100.0),
        value: F(value),
        owner_name: None,
        is_officer: true,
        is_director: false,
        is_ten_pct_owner: false,
        officer_title: None,
        shares_owned_after: None,
    }
}

/// Two bars per trading day for every ticker, flat at 100.
fn flat_bars(tickers: &[(u16, &'static str)]) -> Dataset {
    let mut rows = Vec::new();
    for &day in &TRADING_DAYS {
        for minute in 0..2 {
            for &(id, _) in tickers {
                rows.push(row(id, day, minute, 100.0));
            }
        }
    }
    dataset(tickers, &rows)
}

#[test]
fn buys_on_the_day_after_the_filing_not_the_filing_day() {
    // Buy filed Tue 06-06 with bars available that same day: the entry must
    // still wait for Wed 06-07. A sale filing later forces a round trip so
    // the entry shows up among the trades.
    let records = vec![
        filing("INSD", "2023-06-06", "P", 500_000.0),
        filing("INSD", "2023-06-13", "S", 200_000.0),
    ];
    let result = run(Follower::new(&["INSD"], records), flat_bars(&[(1, "INSD")])).unwrap();

    assert_eq!(result.trades.len(), 1);
    let trade = &result.trades[0];
    assert_eq!(trade.symbol, "INSD");
    assert!(trade.entry_time.starts_with("2023-06-07"), "entered {}", trade.entry_time);
    assert!(identity_error(&result) < 1e-6);
}

#[test]
fn exits_on_insider_sale_filing_the_next_trading_day() {
    let records = vec![
        filing("INSD", "2023-06-06", "P", 500_000.0),
        filing("INSD", "2023-06-12", "S", 200_000.0),
    ];
    let result = run(Follower::new(&["INSD"], records), flat_bars(&[(1, "INSD")])).unwrap();

    assert_eq!(result.trades.len(), 1);
    assert!(result.trades[0].exit_time.starts_with("2023-06-13"));
    assert!(result.open_positions.is_empty());
    assert!(identity_error(&result) < 1e-6);
}

#[test]
fn exits_after_hold_days_without_a_sale_filing() {
    let records = vec![filing("INSD", "2023-06-06", "P", 500_000.0)];
    let mut algo = Follower::new(&["INSD"], records);
    algo.hold_days = 3;
    let result = run(algo, flat_bars(&[(1, "INSD")])).unwrap();

    // Entry Wed 06-07 (day 0); the count hits 3 at the open of Mon 06-12.
    assert_eq!(result.trades.len(), 1);
    assert!(result.trades[0].entry_time.starts_with("2023-06-07"));
    assert!(result.trades[0].exit_time.starts_with("2023-06-12"));
    assert!(identity_error(&result) < 1e-6);
}

#[test]
fn weekend_filing_enters_monday_and_stale_signals_are_dropped() {
    // FRID filed Fri 06-09 -> first chance is Mon 06-12. OLDD filed 05-25,
    // 11 calendar days before the first trading day - stale, never traded.
    let records = vec![
        filing("FRID", "2023-06-09", "P", 500_000.0),
        filing("OLDD", "2023-05-25", "P", 500_000.0),
    ];
    let data = flat_bars(&[(1, "FRID"), (2, "OLDD")]);
    let result = run(Follower::new(&["FRID", "OLDD"], records), data).unwrap();

    assert!(result.trades.is_empty(), "no round trips expected");
    assert_eq!(result.open_positions.len(), 1, "only FRID should be held");
    assert_eq!(result.open_positions[0].symbol, "FRID");
    assert!(identity_error(&result) < 1e-6);
}

#[test]
fn ignores_unmapped_tickers_and_below_threshold_buys() {
    // ZZZZ has a huge buy but no entry in the ticker map; CHEP is mapped but
    // its buy is below the threshold. Neither may trade.
    let records = vec![
        filing("ZZZZ", "2023-06-06", "P", 9_000_000.0),
        filing("CHEP", "2023-06-06", "P", 10_000.0),
    ];
    let result = run(Follower::new(&["CHEP"], records), flat_bars(&[(1, "CHEP")])).unwrap();

    assert!(result.trades.is_empty());
    assert!(result.open_positions.is_empty());
    assert_eq!(result.final_equity, result.initial_cash);
    assert!(identity_error(&result) < 1e-6);
}

#[test]
fn the_fills_of_each_tick_can_be_read() {
    let mut fills = Vec::new();
    let mut ticks = 0;
    let result = run_watched(OneRoundTrip { bars_seen: 0 }, aapl(), &mut |backtest| {
        ticks += 1;
        for fill in backtest.fills() {
            fills.push((ticks, fill.quantity.0, fill.price.0, fill.fee.0));
        }
    })
    .unwrap();
    assert_eq!(result.trades.len(), 1);
    assert_eq!(fills.len(), 2, "one fill in and one out");
    let trade = &result.trades[0];
    assert!(fills[0].0 < fills[1].0);
    assert_eq!((fills[0].1, fills[0].2), (trade.quantity.0, trade.entry_price.0));
    assert_eq!((fills[1].1, fills[1].2), (-trade.quantity.0, trade.exit_price.0));
    assert_eq!((fills[0].3, fills[1].3), (0.0, 0.0));
}

/// Counts what it is told.
struct Listener {
    told: Rc<RefCell<Vec<String>>>,
}

impl Algorithm<F> for Listener {
    fn initialize(&mut self, ctx: &mut Context<F>) {
        ctx.add_equity("AAA");
    }

    fn on_data(&mut self, ctx: &mut Context<F>, data: &Slice<F>) {
        let symbol = ctx.symbol("AAA").unwrap();
        self.told.borrow_mut().push(format!("data {}", data.bars.get(&symbol).unwrap().close.0));
    }

    fn on_end_of_day(&mut self, _ctx: &mut Context<F>) {
        self.told.borrow_mut().push("day".to_string());
    }
}

#[test]
fn a_strategy_is_told_of_every_tick_and_every_day_once() {
    let told = Rc::new(RefCell::new(Vec::new()));
    let rows = [row(1, 5, 0, 10.0), row(1, 5, 1, 11.0), row(1, 6, 0, 12.0), row(1, 8, 0, 13.0)];
    let result =
        run(Listener { told: Rc::clone(&told) }, dataset(&[(1, "AAA")], &rows)).unwrap();
    assert_eq!(
        *told.borrow(),
        ["data 10", "data 11", "day", "data 12", "day", "data 13", "day"]
    );
    assert_eq!(result.equity_curve.len(), 4);
}
