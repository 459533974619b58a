//! The pluggable models, the portfolio, the statistics, consolidation and
//! scheduled times.

use backtester::bar::{session_of_minute, Bar, MarketSession};
use backtester::broker::{Portfolio, PriceTable};
use backtester::calendar::{et_midnight, ts_to_datetime, Date, Time};
use backtester::commission::{CommissionModel, NoCommission, PerShareCommission, PercentCommission};
use backtester::consolidator::{ConsolidatorEntry, ConsolidatorPeriod};
use backtester::context::{Context, FillTiming};
use backtester::decimal::Decimal;
use backtester::logging::LogConfig;
use backtester::margin::{MarginContext, MarginFn, MarginModel, MaxLeverage, NoMargin};
use backtester::number::{clamp, negligible, whole_lots, Number};
use backtester::slippage::{
    FillContext, FillFn, FixedSlippage, NoSlippage, PercentSlippage, SlippageModel,
};
use backtester::stats::{compute_stats, compute_stats_over, EquityPoint, Trade};
use backtester::symbol::Symbol;
use chrono::{TimeZone, Utc};
use chrono_tz::US::Eastern;

/// A machine float as the engine's number.
#[derive(Debug, Clone, Copy, PartialEq, PartialOrd)]
struct F(f64);

impl Number for F {
    fn zero() -> F { F(0.0) }
    fn epsilon() -> F { F(1e-9) }
    fn infinity() -> F { F(f64::INFINITY) }
    fn from_u64(value: u64) -> F { F(value as f64) }
    fn to_u64(self) -> u64 { self.0 as u64 }
    fn add(self, rhs: F) -> F { F(self.0 + rhs.0) }
    fn sub(self, rhs: F) -> F { F(self.0 - rhs.0) }
    fn mul(self, rhs: F) -> F { F(self.0 * rhs.0) }
    fn div(self, rhs: F) -> F { F(self.0 / rhs.0) }
    fn neg(self) -> F { F(-self.0) }
    fn abs(self) -> F { F(self.0.abs()) }
    fn signum(self) -> F { F(self.0.signum()) }
    fn min(self, rhs: F) -> F { F(self.0.min(rhs.0)) }
    fn max(self, rhs: F) -> F { F(self.0.max(rhs.0)) }
    fn round(self) -> F { F(self.0.round()) }
    fn trunc(self) -> F { F(self.0.trunc()) }
    fn sqrt(self) -> F { F(self.0.sqrt()) }
    fn lt(self, rhs: F) -> bool { self.0 < rhs.0 }
    fn le(self, rhs: F) -> bool { self.0 <= rhs.0 }
    fn equals(self, rhs: F) -> bool { self.0 == rhs.0 }
    fn is_finite(self) -> bool { self.0.is_finite() }

    fn spec_zero() -> F { F::zero() }
    fn spec_epsilon() -> F { F::epsilon() }
    fn spec_infinity() -> F { F::infinity() }
    fn spec_from_u64(value: u64) -> F { F::from_u64(value) }
    fn spec_to_u64(self) -> u64 { self.to_u64() }
    fn spec_add(self, rhs: F) -> F { Number::add(self, rhs) }
    fn spec_sub(self, rhs: F) -> F { Number::sub(self, rhs) }
    fn spec_mul(self, rhs: F) -> F { Number::mul(self, rhs) }
    fn spec_div(self, rhs: F) -> F { Number::div(self, rhs) }
    fn spec_neg(self) -> F { Number::neg(self) }
    fn spec_abs(self) -> F { self.abs() }
    fn spec_signum(self) -> F { self.signum() }
    fn spec_min(self, rhs: F) -> F { Number::min(self, rhs) }
    fn spec_max(self, rhs: F) -> F { Number::max(self, rhs) }
    fn spec_round(self) -> F { self.round() }
    fn spec_trunc(self) -> F { self.trunc() }
    fn spec_sqrt(self) -> F { self.sqrt() }
    fn spec_lt(self, rhs: F) -> bool { Number::lt(self, rhs) }
    fn spec_le(self, rhs: F) -> bool { Number::le(self, rhs) }
    fn spec_equals(self, rhs: F) -> bool { self.equals(rhs) }
    fn spec_is_finite(self) -> bool { self.is_finite() }
}

fn sym(id: u16) -> Symbol {
    Symbol::from_ticker_id(id)
}

fn et(y: i32, mo: u32, d: u32, h: u32, m: u32) -> Time {
    let t = Eastern.with_ymd_and_hms(y, mo, d, h, m, 0).unwrap().with_timezone(&Utc);
    Time::from_timestamp(t.timestamp(), 0).unwrap()
}

fn date(y: i32, m: u32, d: u32) -> Date {
    Date::from_ymd(y, m, d).unwrap()
}

/// A flat bar at `price`: open and close there, high and low one off, volume
/// 1000.
fn bar(price: f64) -> Bar<F> {
    Bar {
        time: et(2023, 1, 3, 10, 0),
        open: F(price),
        high: F(price + 1.0),
        low: F(price - 1.0),
        close: F(price),
        volume: 1_000,
    }
}

fn fill(bar: &Bar<F>, quantity: f64, price: f64) -> FillContext<'_, F> {
    FillContext { symbol: sym(0), quantity: F(quantity), price: F(price), bar }
}

// Portfolio

fn qty_avg(p: &Portfolio<F>, symbol: Symbol) -> (f64, f64) {
    let pos = p.get(symbol).unwrap();
    (pos.quantity.0, pos.avg_price.0)
}

#[test]
fn opens_from_flat_at_fill_price() {
    let (mut p, aapl) = (Portfolio::<F>::default(), sym(0));
    p.apply_fill(aapl, F(100.0), F(10.0));
    assert_eq!(qty_avg(&p, aapl), (100.0, 10.0));
    assert_eq!(p.cash, F(100_000.0 - 1_000.0));
}

#[test]
fn adds_same_direction_weights_the_basis() {
    let (mut p, aapl) = (Portfolio::<F>::default(), sym(0));
    p.apply_fill(aapl, F(100.0), F(10.0));
    p.apply_fill(aapl, F(100.0), F(20.0));
    assert_eq!(qty_avg(&p, aapl), (200.0, 15.0));
}

#[test]
fn reducing_keeps_the_basis() {
    let (mut p, aapl) = (Portfolio::<F>::default(), sym(0));
    p.apply_fill(aapl, F(100.0), F(10.0));
    p.apply_fill(aapl, F(-40.0), F(25.0));
    assert_eq!(qty_avg(&p, aapl), (60.0, 10.0));
}

#[test]
fn full_close_removes_the_position() {
    let (mut p, aapl) = (Portfolio::<F>::default(), sym(0));
    p.apply_fill(aapl, F(100.0), F(10.0));
    p.apply_fill(aapl, F(-100.0), F(12.0));
    assert!(p.get(aapl).is_none());
    assert_eq!(p.cash, F(100_000.0 + 200.0));
}

#[test]
fn flip_resets_basis_to_fill_price() {
    let (mut p, aapl) = (Portfolio::<F>::default(), sym(0));
    p.apply_fill(aapl, F(100.0), F(10.0));
    p.apply_fill(aapl, F(-150.0), F(20.0));
    let (qty, avg) = qty_avg(&p, aapl);
    assert_eq!(qty, -50.0);
    assert_eq!(avg, 20.0);
}

#[test]
fn total_value_marks_at_last_price_and_falls_back_to_basis() {
    let (aapl, msft) = (sym(0), sym(1));
    let mut p = Portfolio::<F>::default();
    p.apply_fill(aapl, F(100.0), F(10.0));
    p.apply_fill(msft, F(10.0), F(50.0));

    let mut prices: PriceTable<F> = PriceTable::new();
    prices.set(aapl, Some(F(12.0)));
    // MSFT never printed: marked at its basis.
    assert_eq!(p.total_value(&prices), F(p.cash.0 + 100.0 * 12.0 + 10.0 * 50.0));
}

#[test]
fn exposure_is_gross_and_leaves_one_symbol_out() {
    let mut p = Portfolio::<F>::default();
    p.apply_fill(sym(0), F(100.0), F(10.0));
    p.apply_fill(sym(1), F(-10.0), F(50.0));
    let prices: PriceTable<F> = PriceTable::new();
    assert_eq!(p.exposure(&prices, sym(0)), F(500.0));
    assert_eq!(p.exposure(&prices, sym(2)), F(1_500.0));
}

// Commission

#[test]
fn no_commission_is_zero() {
    let b = bar(100.0);
    assert_eq!(NoCommission.commission(&fill(&b, 100.0, 100.0)), F(0.0));
}

#[test]
fn per_share_charges_abs_quantity_with_minimum() {
    let model = PerShareCommission { per_share: F(0.005), minimum: F(1.0) };
    let b = bar(100.0);
    // 1000 shares * 0.005 = 5.0
    assert_eq!(model.commission(&fill(&b, 1000.0, 100.0)), F(5.0));
    // sells charge the same as buys
    assert_eq!(model.commission(&fill(&b, -1000.0, 100.0)), F(5.0));
    // 10 shares * 0.005 = 0.05 -> floored at the 1.0 minimum
    assert_eq!(model.commission(&fill(&b, 10.0, 100.0)), F(1.0));
}

#[test]
fn percent_charges_fraction_of_notional() {
    let model = PercentCommission::bps(F(10.0)); // 0.1%
    let b = bar(100.0);
    // 50 shares * $100 * 0.001 = $5
    assert!((model.commission(&fill(&b, 50.0, 100.0)).0 - 5.0).abs() < 1e-9);
}

#[test]
fn closure_is_a_commission_model() {
    let flat_fee = FillFn::new(|_: &FillContext<'_, F>| F(2.5));
    let b = bar(100.0);
    assert_eq!(flat_fee.commission(&fill(&b, 1.0, 100.0)), F(2.5));
}

// Margin

fn order(quantity: f64, current_qty: f64, equity: f64, other_exposure: f64) -> MarginContext<F> {
    MarginContext {
        symbol: sym(0),
        quantity: F(quantity),
        price: F(100.0),
        current_qty: F(current_qty),
        cash: F(0.0),
        equity: F(equity),
        other_exposure: F(other_exposure),
    }
}

#[test]
fn no_margin_allows_everything() {
    assert_eq!(NoMargin.allowed_quantity(&order(1e9, 0.0, 1.0, 0.0)), F(1e9));
    assert!(MarginModel::<F>::unlimited(&NoMargin));
}

#[test]
fn cash_account_caps_a_buy_at_equity() {
    let model = MaxLeverage::new(F(1.0));
    // $100k equity / $100 = 1,000 shares of budget.
    assert_eq!(model.allowed_quantity(&order(2_000.0, 0.0, 100_000.0, 0.0)), F(1_000.0));
    assert_eq!(model.allowed_quantity(&order(500.0, 0.0, 100_000.0, 0.0)), F(500.0));
    // Shorts consume the same budget.
    assert_eq!(model.allowed_quantity(&order(-2_000.0, 0.0, 100_000.0, 0.0)), F(-1_000.0));
}

#[test]
fn other_positions_consume_the_budget() {
    let model = MaxLeverage::new(F(2.0));
    // 2 * 100k = 200k gross cap; 150k already used elsewhere leaves 500 sh.
    assert_eq!(model.allowed_quantity(&order(1_000.0, 0.0, 100_000.0, 150_000.0)), F(500.0));
}

#[test]
fn reducing_is_always_allowed_when_over_levered() {
    let model = MaxLeverage::new(F(1.0));
    // Long 2,000 with only 1,000 of budget: no more buying...
    assert_eq!(model.allowed_quantity(&order(10.0, 2_000.0, 100_000.0, 0.0)), F(0.0));
    // ...but selling passes in full, and a flip stops at the short budget.
    assert_eq!(model.allowed_quantity(&order(-500.0, 2_000.0, 100_000.0, 0.0)), F(-500.0));
    assert_eq!(model.allowed_quantity(&order(-4_000.0, 2_000.0, 100_000.0, 0.0)), F(-3_000.0));
}

#[test]
fn zero_equity_permits_only_reducing() {
    let model = MaxLeverage::new(F(2.0));
    assert_eq!(model.allowed_quantity(&order(100.0, 0.0, 0.0, 0.0)), F(0.0));
    assert_eq!(model.allowed_quantity(&order(-100.0, 0.0, 0.0, 0.0)), F(0.0));
    // A held position can still be closed, but not flipped.
    assert_eq!(model.allowed_quantity(&order(-1_500.0, 1_000.0, 0.0, 0.0)), F(-1_000.0));
    assert_eq!(model.allowed_quantity(&order(1_500.0, -1_000.0, 0.0, 0.0)), F(1_000.0));
}

#[test]
fn closure_is_a_margin_model() {
    let halve = MarginFn::new(|m: &MarginContext<F>| F(m.quantity.0 / 2.0));
    assert_eq!(halve.allowed_quantity(&order(100.0, 0.0, 1.0, 0.0)), F(50.0));
    assert!(!halve.unlimited());
}

// Slippage

#[test]
fn no_slippage_is_identity() {
    let b = bar(100.0);
    assert_eq!(NoSlippage.fill_price(&fill(&b, 10.0, 100.0)), F(100.0));
}

#[test]
fn percent_moves_against_the_aggressor() {
    let model = PercentSlippage::bps(F(10.0)); // 0.1%
    let b = bar(100.0);
    // Buy fills higher, sell fills lower.
    assert!((model.fill_price(&fill(&b, 5.0, 100.0)).0 - 100.1).abs() < 1e-9);
    assert!((model.fill_price(&fill(&b, -5.0, 100.0)).0 - 99.9).abs() < 1e-9);
}

#[test]
fn fixed_per_share_moves_against_the_aggressor() {
    let model = FixedSlippage { per_share: F(0.05) };
    let b = bar(100.0);
    assert_eq!(model.fill_price(&fill(&b, 1.0, 100.0)), F(100.05));
    assert_eq!(model.fill_price(&fill(&b, -1.0, 100.0)), F(99.95));
}

#[test]
fn fixed_clamps_at_zero() {
    let model = FixedSlippage { per_share: F(10.0) };
    let b = bar(5.0);
    assert_eq!(model.fill_price(&fill(&b, -1.0, 5.0)), F(0.0));
}

#[test]
fn closure_is_a_slippage_model() {
    // A custom model that uses the bar's range.
    let model = FillFn::new(|f: &FillContext<'_, F>| {
        F(f.price.0 + (f.bar.high.0 - f.bar.low.0) * f.direction().0)
    });
    let b = bar(100.0); // range = 2.0
    assert_eq!(model.fill_price(&fill(&b, 1.0, 100.0)), F(102.0));
    assert_eq!(model.fill_price(&fill(&b, -1.0, 100.0)), F(98.0));
}

// Statistics

fn trade(pnl: f64) -> Trade<F> {
    Trade {
        symbol: "AAPL".to_string(),
        direction: "long".to_string(),
        entry_price: F(100.0),
        exit_price: F(100.0),
        entry_time: "2023-01-03T14:30:00+00:00".to_string(),
        exit_time: "2023-01-04T14:30:00+00:00".to_string(),
        quantity: F(10.0),
        pnl: F(pnl),
        exit_reason: "signal".to_string(),
    }
}

fn curve(points: &[f64]) -> Vec<EquityPoint<F>> {
    points
        .iter()
        .enumerate()
        .map(|(i, &e)| EquityPoint { time: format!("2023-01-{:02}", i + 1), equity: F(e) })
        .collect()
}

#[test]
fn empty_inputs_produce_zeroed_stats() {
    let s = compute_stats::<F>(&[], &[]);
    assert_eq!(s.trade_count, 0);
    assert_eq!(s.total_pnl, F(0.0));
    assert_eq!(s.max_drawdown, F(0.0));
    assert_eq!(s.sharpe_ratio, F(0.0));
}

#[test]
fn win_rate_and_profit_factor() {
    let trades = vec![trade(100.0), trade(-50.0), trade(300.0), trade(-100.0)];
    let s = compute_stats(&trades, &[]);
    assert_eq!(s.trade_count, 4);
    assert_eq!(s.win_rate, F(0.5));
    assert_eq!(s.total_pnl, F(250.0));
    assert!((s.profit_factor.0 - 400.0 / 150.0).abs() < 1e-12);
}

#[test]
fn drawdown_comes_from_the_equity_curve() {
    // Peak 110, trough 88 -> 20% drawdown, even with no losing trades.
    let s = compute_stats(&[trade(10.0)], &curve(&[100.0, 110.0, 88.0, 120.0]));
    assert!((s.max_drawdown.0 - 0.2).abs() < 1e-12);
}

#[test]
fn flat_curve_has_zero_sharpe_and_drawdown() {
    let s = compute_stats(&[], &curve(&[100.0, 100.0, 100.0]));
    assert_eq!(s.max_drawdown, F(0.0));
    assert_eq!(s.sharpe_ratio, F(0.0));
}

#[test]
fn a_run_without_losses_has_an_unbounded_profit_factor() {
    let s = compute_stats(&[trade(10.0)], &[]);
    assert_eq!(s.profit_factor, F(f64::INFINITY));
    assert_eq!(s.win_rate, F(1.0));
}

#[test]
fn sharpe_annualizes_daily_excess_returns() {
    // Returns of 10% and 0%: mean 5%, deviation 5%, so the ratio is the root
    // of the trading days in a year.
    let s = compute_stats(&[], &curve(&[100.0, 110.0, 110.0]));
    assert!((s.sharpe_ratio.0 - 252.0f64.sqrt()).abs() < 1e-9);
    // A risk-free rate comes off each day's return.
    let s = compute_stats_over(&[], &curve(&[100.0, 110.0, 110.0]), F(12.6));
    assert!(s.sharpe_ratio.0.abs() < 1e-9);
}

// Consolidation

fn bar_at(time: Time, close: f64, volume: u64) -> Bar<F> {
    Bar { time, open: F(close), high: F(close), low: F(close), close: F(close), volume }
}

fn collect(period: ConsolidatorPeriod, bars: &[Bar<F>]) -> Vec<Bar<F>> {
    let mut fired = Vec::new();
    let mut c = ConsolidatorEntry::new(sym(0), period);
    for b in bars {
        if let Some(done) = c.feed(b) {
            fired.push(done);
        }
    }
    if let Some(done) = c.flush() {
        fired.push(done);
    }
    fired
}

#[test]
fn daily_period_uses_eastern_trading_dates() {
    // 2023-01-03 is in EST (UTC-5), so the 19:30 ET after-market bar sits
    // past midnight UTC. It must still consolidate into Jan 3's daily bar,
    // which fires when the first Jan 4 (ET) bar arrives.
    let fired = collect(
        ConsolidatorPeriod::Daily,
        &[
            bar_at(et(2023, 1, 3, 10, 0), 1.0, 10),
            bar_at(et(2023, 1, 3, 19, 30), 2.0, 20),
            bar_at(et(2023, 1, 4, 10, 0), 3.0, 30),
        ],
    );
    assert_eq!(fired.len(), 2);
    assert_eq!(fired[0].close, F(2.0));
    assert_eq!(fired[0].volume, 30);
    assert_eq!(fired[0].time.eastern_minute(), 0);
    assert_eq!(fired[0].time.eastern_date(), date(2023, 1, 3));
}

#[test]
fn minute_buckets_align_to_the_grid() {
    // A stream starting off-grid (09:31) still emits buckets on the 5-min
    // marks, not anchored to the first bar.
    let fired = collect(
        ConsolidatorPeriod::Minutes(5),
        &[
            bar_at(et(2023, 1, 3, 9, 31), 1.0, 1),
            bar_at(et(2023, 1, 3, 9, 34), 2.0, 1),
            bar_at(et(2023, 1, 3, 9, 36), 3.0, 1),
        ],
    );
    assert_eq!(fired.len(), 2);
    assert_eq!(fired[0].time.eastern_minute() % 60, 30);
    assert_eq!(fired[0].volume, 2, "09:31 and 09:34 fall in the 09:30 bucket");
    assert_eq!(fired[1].time.eastern_minute() % 60, 35);
}

#[test]
fn weekly_buckets_open_on_eastern_mondays() {
    // Jan 4 2023 is a Wednesday; Jan 9 is the next Monday.
    let fired = collect(
        ConsolidatorPeriod::Weekly,
        &[
            bar_at(et(2023, 1, 4, 10, 0), 1.0, 5),
            bar_at(et(2023, 1, 6, 10, 0), 2.0, 5),
            bar_at(et(2023, 1, 9, 10, 0), 3.0, 5),
        ],
    );
    assert_eq!(fired.len(), 2);
    assert_eq!(fired[0].volume, 10, "Wed + Fri land in the same week");
    // 2 January 2023 is a Monday.
    assert_eq!(fired[0].time.eastern_date(), date(2023, 1, 2));
}

#[test]
fn a_bucket_keeps_the_extremes_and_the_last_close() {
    let mut high = bar_at(et(2023, 1, 3, 9, 31), 5.0, 1);
    high.high = F(9.0);
    let mut low = bar_at(et(2023, 1, 3, 9, 32), 4.0, 1);
    low.low = F(1.0);
    let fired = collect(ConsolidatorPeriod::Minutes(5), &[high, low]);
    assert_eq!(fired.len(), 1);
    assert_eq!(
        (fired[0].open, fired[0].high, fired[0].low, fired[0].close),
        (F(5.0), F(9.0), F(1.0), F(4.0))
    );
}

#[test]
fn consolidation_keeps_the_volume() {
    let bars: Vec<Bar<F>> =
        (0..100u32).map(|i| bar_at(et(2023, 1, 3, 10, i % 60), 1.0, i as u64 * 7)).collect();
    let fired = collect(ConsolidatorPeriod::Minutes(15), &bars);
    assert!(fired.len() > 1);
    assert_eq!(
        fired.iter().map(|b| b.volume).sum::<u64>(),
        bars.iter().map(|b| b.volume).sum::<u64>()
    );
}

#[test]
fn bucket_openings_lie_on_their_own_grid() {
    for period in
        [ConsolidatorPeriod::Minutes(7), ConsolidatorPeriod::Daily, ConsolidatorPeriod::Weekly]
    {
        let opening = period.bucket_start(et(2023, 3, 15, 13, 37));
        assert_eq!(period.bucket_start(opening), opening);
    }
}

// Scheduled times

#[test]
fn fires_once_at_target_time() {
    let mut ctx: Context<F> = Context::default();
    let handle = ctx.on_time(9, 30);
    let fired = ctx.fire_time_callbacks(&et(2023, 1, 3, 9, 30), date(2023, 1, 3));
    assert_eq!(fired, vec![handle]);
}

#[test]
fn does_not_fire_before_target_time() {
    let mut ctx: Context<F> = Context::default();
    ctx.on_time(9, 30);
    assert!(ctx.fire_time_callbacks(&et(2023, 1, 3, 9, 29), date(2023, 1, 3)).is_empty());
}

#[test]
fn fires_only_once_per_day() {
    let mut ctx: Context<F> = Context::default();
    ctx.on_time(9, 30);
    let mut count = ctx.fire_time_callbacks(&et(2023, 1, 3, 9, 30), date(2023, 1, 3)).len();
    count += ctx.fire_time_callbacks(&et(2023, 1, 3, 10, 0), date(2023, 1, 3)).len();
    assert_eq!(count, 1);
}

#[test]
fn fires_again_on_next_day() {
    let mut ctx: Context<F> = Context::default();
    ctx.on_time(9, 30);
    let mut count = ctx.fire_time_callbacks(&et(2023, 1, 3, 9, 30), date(2023, 1, 3)).len();
    count += ctx.fire_time_callbacks(&et(2023, 1, 4, 9, 30), date(2023, 1, 4)).len();
    assert_eq!(count, 2);
}

#[test]
fn fires_on_next_bar_when_exact_minute_missing() {
    let mut ctx: Context<F> = Context::default();
    ctx.on_time(15, 55);
    // 15:54 - not yet
    let mut count = ctx.fire_time_callbacks(&et(2023, 1, 3, 15, 54), date(2023, 1, 3)).len();
    assert_eq!(count, 0);
    // 15:56 - 15:55 was missing, fires here
    count += ctx.fire_time_callbacks(&et(2023, 1, 3, 15, 56), date(2023, 1, 3)).len();
    assert_eq!(count, 1);
}

#[test]
fn multiple_registrations_both_fire() {
    let mut ctx: Context<F> = Context::default();
    let open = ctx.on_time(9, 30);
    let close = ctx.on_time(15, 55);
    // A bar at 15:55 ET should trigger both (9:30 was also crossed)
    let fired = ctx.fire_time_callbacks(&et(2023, 1, 3, 15, 55), date(2023, 1, 3));
    assert!(fired.contains(&open));
    assert!(fired.contains(&close));
}

// The calendar

#[test]
fn eastern_midnight_follows_daylight_saving() {
    // 12 March 2023 is the day the clocks go forward.
    let winter = et_midnight(date(2023, 3, 12));
    let summer = et_midnight(date(2023, 3, 13));
    assert_eq!(summer.timestamp() - winter.timestamp(), 23 * 3600);
    assert_eq!(winter.eastern_date(), date(2023, 3, 12));
    assert_eq!(winter.eastern_minute(), 0);
}

#[test]
fn dates_parse_and_print() {
    assert_eq!(Date::parse("2023-06-07"), Date::from_ymd(2023, 6, 7));
    assert_eq!(Date::parse("not-a-date"), None);
    assert_eq!(Date::parse("2023-02-30"), None);
    assert_eq!(Date::from_ymd(2023, 2, 29), None);
    assert_eq!(date(2024, 2, 29).to_text(), "2024-02-29");
    assert_eq!(date(2024, 3, 1).pred(), Date::from_ymd(2024, 2, 29));
    assert_eq!(date(2024, 3, 1).year_month(), (2024, 3));
    assert_eq!(date(1, 1, 1).day_number(), 1);
    assert!(date(2023, 1, 1).before(date(2023, 1, 2)));
    assert_eq!(Date::from_day_number(date(2023, 1, 1).day_number()), Some(date(2023, 1, 1)));
}

#[test]
fn timestamps_stand_for_instants() {
    let t = ts_to_datetime(1_672_736_400_000_000_000).unwrap();
    assert_eq!(t.to_rfc3339(), "2023-01-03T09:00:00+00:00");
    assert_eq!(ts_to_datetime(1_500_000_000).unwrap().subsec_nanos(), 500_000_000);
    // Before the epoch too.
    assert_eq!(ts_to_datetime(-2_000_000_000).unwrap().timestamp(), -2);
    let last = ts_to_datetime(-1).unwrap();
    assert_eq!((last.timestamp(), last.subsec_nanos()), (-1, 999_999_999));
    assert!(Time::from_timestamp(0, 1_500_000_000).is_none());
}

#[test]
fn sessions_follow_the_eastern_clock() {
    assert_eq!(bar_at(et(2023, 6, 5, 9, 29), 1.0, 1).session(), MarketSession::PreMarket);
    assert_eq!(bar_at(et(2023, 6, 5, 9, 30), 1.0, 1).session(), MarketSession::Main);
    assert_eq!(bar_at(et(2023, 6, 5, 15, 59), 1.0, 1).session(), MarketSession::Main);
    assert_eq!(bar_at(et(2023, 6, 5, 16, 0), 1.0, 1).session(), MarketSession::AfterMarket);
    assert_eq!(session_of_minute(0), MarketSession::PreMarket);
}

// Decimal arithmetic

fn dec(units: i64) -> Decimal {
    Decimal { units }
}

#[test]
fn decimal_arithmetic_is_exact_to_a_millionth() {
    let one = Decimal::from_u64(1);
    let three = Decimal::from_u64(3);
    assert_eq!(one.div(three), dec(333_333));
    assert_eq!(Number::mul(dec(1_500_000), dec(2_000_000)), Decimal::from_u64(3));
    assert_eq!(Number::neg(dec(2_500_000)).round(), Number::neg(three));
    assert_eq!(dec(-2_700_000).trunc(), Number::neg(Decimal::from_u64(2)));
    assert_eq!(Decimal::from_u64(16).sqrt(), Decimal::from_u64(4));
    assert_eq!(dec(-5).signum(), Number::neg(one));
    assert_eq!(Decimal::from_u64(42).to_u64(), 42);
}

#[test]
fn lots_and_clamps() {
    assert_eq!(whole_lots(F(33.3), F(1.0)), F(33.0));
    assert_eq!(whole_lots(F(-33.3), F(10.0)), F(-30.0));
    assert_eq!(clamp(F(5.0), F(0.0), F(3.0)), F(3.0));
    assert_eq!(clamp(F(-5.0), F(0.0), F(3.0)), F(0.0));
    assert!(negligible(F(1e-10)));
    assert!(!negligible(F(1e-8)));
}

#[test]
fn drawdown_covers_every_decline() {
    let points = [100.0, 120.0, 90.0, 130.0, 91.0, 110.0];
    let stats = compute_stats::<F>(&[], &curve(&points));
    // 130 down to 91.
    assert!((stats.max_drawdown.0 - 0.3).abs() < 1e-12);
    for i in 0..points.len() {
        for j in i..points.len() {
            assert!((points[i] - points[j]) / points[i] <= stats.max_drawdown.0 + 1e-12);
        }
    }
}

#[test]
fn profits_less_losses_are_the_total() {
    let stats = compute_stats(&[trade(30.0), trade(-10.0), trade(0.0), trade(-5.0)], &curve(&[]));
    assert_eq!(stats.total_pnl, F(15.0));
    assert_eq!(stats.profit_factor, F(2.0));
    assert_eq!(stats.win_rate, F(0.25));
}

#[test]
fn a_context_keeps_its_settings() {
    let mut ctx: Context<F> = Context::default();
    assert_eq!(ctx.settings().lot_size, F(1.0));
    assert_eq!(ctx.settings().fill_timing, FillTiming::CurrentBarClose);
    assert_eq!(ctx.output_dir(), None);
    ctx.set_lot_size(F(0.5));
    ctx.set_risk_free_rate(F(0.02));
    ctx.set_log_config(LogConfig::none());
    ctx.set_output_dir("out".to_string());
    ctx.set_splits_file("s.json".to_string());
    ctx.set_dividends_file("d.json".to_string());
    ctx.set_renames_file("r.json".to_string());
    ctx.set_warm_up(700);
    let settings = ctx.settings();
    assert_eq!(settings.lot_size, F(0.5));
    assert_eq!(settings.risk_free_rate, F(0.02));
    assert_eq!(settings.log_config, LogConfig::none());
    assert_eq!(settings.splits_file.as_deref(), Some("s.json"));
    assert_eq!(settings.dividends_file.as_deref(), Some("d.json"));
    assert_eq!(settings.renames_file.as_deref(), Some("r.json"));
    assert_eq!(settings.max_history, 700, "the window covers the warm-up");
    assert_eq!(ctx.warm_up_left(), 700);
    assert_eq!(ctx.output_dir().as_deref(), Some("out"));
}
