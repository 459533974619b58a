//! The strategy's handle on a run: configuration, subscriptions, history and
//! orders.

use std::collections::VecDeque;

use vstd::prelude::*;

use crate::bar::Bar;
use crate::broker::{Portfolio, Position};
use crate::calendar;
use crate::calendar::{Date, Time};
use crate::commission::{CommissionModel, NoCommission};
use crate::consolidator::{ConsolidatorEntry, ConsolidatorPeriod};
use crate::data;
use crate::data::TickerMap;
use crate::exact;
use crate::logging::LogConfig;
use crate::margin::{MarginModel, NoMargin};
use crate::number::Number;
use crate::slippage::{NoSlippage, SlippageModel};
use crate::symbol::{Symbol, SymbolMap, SymbolSet};

verus! {

#[derive(Debug, Clone, Copy)]
pub enum OrderKind<N> {
    /// A signed number of shares.
    Market(N),
    /// A fraction of the portfolio's value.
    SetHoldings(N),
    /// Whatever is held.
    Liquidate,
}

/// When an order placed during `on_data` actually fills.
#[derive(Debug, Clone, Copy, PartialEq, Eq, Structural)]
pub enum FillTiming {
    /// Fill at the close of the same bar the order was placed on. Simple, but
    /// optimistic: the strategy transacts at a price it has already seen. A
    /// symbol with no bar on that tick fills at the open of its next one. This
    /// is the default.
    CurrentBarClose,
    /// Fill at the open of the symbol's next bar. Removes the same-bar
    /// look-ahead; orders placed on a symbol's final bar never fill.
    NextBarOpen,
}

impl Default for FillTiming {
    fn default() -> (r: FillTiming)
        ensures
            r == FillTiming::CurrentBarClose,
    {
        FillTiming::CurrentBarClose
    }
}

#[derive(Debug, Clone, Copy)]
pub struct Order<N> {
    pub symbol: Symbol,
    pub kind: OrderKind<N>,
}

#[derive(Debug, Clone, Copy)]
pub enum RestingKind<N> {
    /// Fill at this price or better: a buy needs the low to reach it, a sell
    /// the high.
    Limit(N),
    /// Trigger to a market fill when the price reaches this level: a buy needs
    /// the high to reach it, a sell the low.
    Stop(N),
}

/// A resting order that fills intrabar when the price trades through its
/// trigger.
#[derive(Debug, Clone, Copy)]
pub struct RestingOrder<N> {
    pub symbol: Symbol,
    /// Remaining signed quantity (shrinks as partial fills chip away at it).
    pub qty: N,
    pub kind: RestingKind<N>,
}

/// A time of day at which the strategy is called, once per trading day.
#[derive(Debug, Clone, Copy)]
pub struct ScheduledTimeEntry {
    /// Target time as minutes since midnight Eastern.
    pub target_min: u32,
    pub last_fired_date: Option<Date>,
}

/// Which symbols keep a rolling window of bars.
pub enum HistoryTracking {
    /// Every symbol that prints.
    Every,
    /// Only the named ones.
    Named(SymbolSet),
}

impl HistoryTracking {
    /// Whether the symbol with id `id` keeps a window.
    pub open spec fn covers(self, id: u16) -> bool {
        match self {
            HistoryTracking::Every => true,
            HistoryTracking::Named(named) => named@.contains(id),
        }
    }

    /// Whether `symbol` keeps a window.
    pub fn tracks(&self, symbol: Symbol) -> (r: bool)
        ensures
            r == self.covers(symbol.id()),
    {
        match self {
            HistoryTracking::Every => true,
            HistoryTracking::Named(named) => named.contains(&symbol),
        }
    }
}

/// What a fill costs and how much of it the account can carry.
#[verifier::reject_recursive_types(N)]
pub struct ExecutionModels<N: Number> {
    pub slippage: Box<dyn SlippageModel<N>>,
    pub commission: Box<dyn CommissionModel<N>>,
    pub margin: Box<dyn MarginModel<N>>,
}

/// How a run is configured.
#[verifier::reject_recursive_types(N)]
pub struct Settings<N: Number> {
    pub start_date: Option<Date>,
    pub end_date: Option<Date>,
    pub models: ExecutionModels<N>,
    pub lot_size: N,
    pub max_volume_participation: N,
    pub fill_timing: FillTiming,
    pub delist_after_days: usize,
    pub delist_haircut: N,
    pub margin_interest_rate: N,
    pub short_borrow_rate: N,
    pub risk_free_rate: N,
    pub max_history: usize,
    pub track_intraday_equity: bool,
    pub log_config: LogConfig,
    pub output_dir: Option<String>,
    pub splits_file: Option<String>,
    pub dividends_file: Option<String>,
    pub renames_file: Option<String>,
}

/// Everything a strategy can see and steer.
#[verifier::reject_recursive_types(N)]
pub struct Context<N: Number> {
    pub portfolio: Portfolio<N>,
    pub(crate) settings: Settings<N>,
    pub(crate) tickers: TickerMap,
    pub(crate) subscribed_symbols: SymbolSet,
    pub(crate) tracking: HistoryTracking,
    pub(crate) history_store: SymbolMap<VecDeque<Bar<N>>>,
    pub(crate) consolidators: Vec<ConsolidatorEntry<N>>,
    pub(crate) time_callbacks: Vec<ScheduledTimeEntry>,
    pub(crate) warm_up_remaining: usize,
    pub(crate) pending_orders: Vec<Order<N>>,
    pub(crate) resting_orders: Vec<RestingOrder<N>>,
}

/// The bars kept of the symbol with id `id`, newest first.
pub open spec fn window<N>(store: Map<u16, VecDeque<Bar<N>>>, id: u16) -> Seq<Bar<N>> {
    if store.contains_key(id) {
        store[id]@
    } else {
        Seq::empty()
    }
}

/// The first `n` of a list, or all of it where it is shorter.
pub open spec fn at_most<A>(items: Seq<A>, n: int) -> Seq<A> {
    if n < items.len() {
        items.take(n)
    } else {
        items
    }
}

/// Whether a scheduled time is due at a minute of a trading day: it is once
/// the minute is reached, on a day it has not fired yet.
pub open spec fn time_due(entry: ScheduledTimeEntry, minute: int, date: Date) -> bool {
    entry.last_fired_date != Some(date) && minute >= entry.target_min
}

/// The indices below `end` of the entries that are due, in order.
pub open spec fn due_below(
    entries: Seq<ScheduledTimeEntry>,
    minute: int,
    date: Date,
    end: int,
) -> Seq<usize>
    decreases end,
{
    if end <= 0 {
        Seq::empty()
    } else {
        let before = due_below(entries, minute, date, end - 1);
        if time_due(entries[end - 1], minute, date) {
            before.push((end - 1) as usize)
        } else {
            before
        }
    }
}

/// An entry once a minute of a trading day has passed over it.
pub open spec fn time_passed(entry: ScheduledTimeEntry, minute: int, date: Date)
    -> ScheduledTimeEntry {
    if time_due(entry, minute, date) {
        ScheduledTimeEntry { target_min: entry.target_min, last_fired_date: Some(date) }
    } else {
        entry
    }
}

/// A scheduled time fires once a day: once it has been due, no later minute of
/// that day finds it due again, and passing over it again changes nothing.
pub proof fn fires_once_a_day(entry: ScheduledTimeEntry, minute: int, later: int, date: Date)
    requires
        time_due(entry, minute, date),
    ensures
        !time_due(time_passed(entry, minute, date), later, date),
        time_passed(time_passed(entry, minute, date), later, date) == time_passed(
            entry,
            minute,
            date,
        ),
{
}

/// Having fired on one day does not keep a scheduled time from firing on
/// another.
pub proof fn fires_every_day(
    entry: ScheduledTimeEntry,
    minute: int,
    date: Date,
    next_minute: int,
    next: Date,
)
    requires
        time_due(entry, minute, date),
        next != date,
        next_minute >= entry.target_min,
    ensures
        time_due(time_passed(entry, minute, date), next_minute, next),
{
}

impl<N: Number> Context<N> {
    /// How the run is configured.
    pub open(crate) spec fn config(self) -> Settings<N> {
        self.settings
    }

    /// This context, configured otherwise.
    pub open(crate) spec fn configured(self, settings: Settings<N>) -> Context<N> {
        Context { settings, ..self }
    }

    /// The dataset's ticker naming.
    pub open(crate) spec fn names(self) -> Seq<Option<Seq<char>>> {
        self.tickers@
    }

    /// The ids that are subscribed.
    pub open(crate) spec fn subscriptions(self) -> Set<u16> {
        self.subscribed_symbols@
    }

    /// Whether the symbol with id `id` keeps a window of bars.
    pub open(crate) spec fn keeps_history(self, id: u16) -> bool {
        self.tracking.covers(id)
    }

    /// The bars kept of the symbol with id `id`, newest first.
    pub open(crate) spec fn bars_of(self, id: u16) -> Seq<Bar<N>> {
        window(self.history_store@, id)
    }

    /// The consolidators, by handle.
    pub open(crate) spec fn consolidator_list(self) -> Seq<ConsolidatorEntry<N>> {
        self.consolidators@
    }

    /// The scheduled times, by handle.
    pub open(crate) spec fn schedule(self) -> Seq<ScheduledTimeEntry> {
        self.time_callbacks@
    }

    /// Ticks left before `on_data` fires.
    pub open(crate) spec fn warm_up(self) -> usize {
        self.warm_up_remaining
    }

    /// The orders placed and not yet routed.
    pub open(crate) spec fn placed(self) -> Seq<Order<N>> {
        self.pending_orders@
    }

    /// The resting orders placed and not yet booked.
    pub open(crate) spec fn placed_resting(self) -> Seq<RestingOrder<N>> {
        self.resting_orders@
    }

    /// `self` differs from `before` in its portfolio alone.
    pub open(crate) spec fn moved_portfolio(self, before: Context<N>) -> bool {
        self == (Context { portfolio: self.portfolio, ..before })
    }

    /// `self` differs from `before` in its subscriptions alone.
    pub open(crate) spec fn moved_subscriptions(self, before: Context<N>) -> bool {
        self == (Context { subscribed_symbols: self.subscribed_symbols, ..before })
    }

    /// `self` differs from `before` in which windows it keeps alone.
    pub open(crate) spec fn moved_tracking(self, before: Context<N>) -> bool {
        self == (Context { tracking: self.tracking, ..before })
    }

    /// `self` differs from `before` in its consolidators alone.
    pub open(crate) spec fn moved_consolidators(self, before: Context<N>) -> bool {
        self == (Context { consolidators: self.consolidators, ..before })
    }

    /// `self` differs from `before` in its scheduled times alone.
    pub open(crate) spec fn moved_schedule(self, before: Context<N>) -> bool {
        self == (Context { time_callbacks: self.time_callbacks, ..before })
    }

    /// `self` differs from `before` in its placed orders alone.
    pub open(crate) spec fn moved_orders(self, before: Context<N>) -> bool {
        self == (Context {
            pending_orders: self.pending_orders,
            resting_orders: self.resting_orders,
            ..before
        })
    }
}

impl<N: Number> Default for Context<N> {
    /// A context for a dataset that names nothing.
    fn default() -> (r: Context<N>)
        ensures
            r.starts_from(Seq::empty()),
    {
        Context::with_tickers(TickerMap::default())
    }
}

impl<N: Number> Context<N> {
    /// A context no strategy has touched, for a dataset with this naming.
    pub open(crate) spec fn starts_from(self, names: Seq<Option<Seq<char>>>) -> bool {
        &&& self.portfolio.balance() == N::from_u64(100_000)
        &&& self.portfolio.held() == Map::<u16, Position<N>>::empty()
        &&& self.tickers@ == names
        &&& self.subscribed_symbols@ == Set::<u16>::empty()
        &&& self.tracking is Every
        &&& forall|id: u16| #[trigger] window(self.history_store@, id) == Seq::<Bar<N>>::empty()
        &&& self.consolidators@ == Seq::<ConsolidatorEntry<N>>::empty()
        &&& self.time_callbacks@ == Seq::<ScheduledTimeEntry>::empty()
        &&& self.warm_up_remaining == 0
        &&& self.pending_orders@ == Seq::<Order<N>>::empty()
        &&& self.resting_orders@ == Seq::<RestingOrder<N>>::empty()
        &&& self.settings.is_default()
    }

    /// A context for a dataset with the naming `tickers`.
    pub fn with_tickers(tickers: TickerMap) -> (r: Context<N>)
        ensures
            r.starts_from(tickers@),
    {
        Context {
            portfolio: Portfolio::default(),
            settings: Settings::default(),
            tickers,
            subscribed_symbols: SymbolSet::default(),
            tracking: HistoryTracking::Every,
            history_store: SymbolMap::new(),
            consolidators: Vec::new(),
            time_callbacks: Vec::new(),
            warm_up_remaining: 0,
            pending_orders: Vec::new(),
            resting_orders: Vec::new(),
        }
    }
}

impl<N: Number> Settings<N> {
    /// The settings a run has unless the strategy says otherwise.
    pub open spec fn is_default(self) -> bool {
        &&& self.start_date is None
        &&& self.end_date is None
        &&& forall|fill: crate::slippage::FillContext<'_, N>, price: N| #[trigger]
            self.models.slippage.quotes(&fill, price) <==> price == fill.price
        &&& forall|fill: crate::slippage::FillContext<'_, N>, fee: N| #[trigger]
            self.models.commission.charges(&fill, fee) <==> fee == N::zero()
        &&& self.models.margin.is_unlimited()
        &&& self.lot_size == N::from_u64(1)
        &&& self.max_volume_participation == N::zero()
        &&& self.fill_timing == FillTiming::CurrentBarClose
        &&& self.delist_after_days == 5
        &&& self.delist_haircut == N::zero()
        &&& self.margin_interest_rate == N::zero()
        &&& self.short_borrow_rate == N::zero()
        &&& self.risk_free_rate == N::zero()
        &&& self.max_history == 500
        &&& !self.track_intraday_equity
        &&& self.log_config == (LogConfig {
            run_summary: false,
            trades: false,
            daily_recap: false,
            corporate_events: false,
            warnings: true,
        })
        &&& self.output_dir is None
        &&& self.splits_file is None
        &&& self.dividends_file is None
        &&& self.renames_file is None
    }
}

impl<N: Number> Default for Settings<N> {
    fn default() -> (r: Settings<N>)
        ensures
            r.is_default(),
    {
        Settings {
            start_date: None,
            end_date: None,
            models: ExecutionModels {
                slippage: Box::new(NoSlippage),
                commission: Box::new(NoCommission),
                margin: Box::new(NoMargin),
            },
            lot_size: N::from_u64(1),
            max_volume_participation: N::zero(),
            fill_timing: FillTiming::CurrentBarClose,
            delist_after_days: 5,
            delist_haircut: N::zero(),
            margin_interest_rate: N::zero(),
            short_borrow_rate: N::zero(),
            risk_free_rate: N::zero(),
            max_history: 500,
            track_intraday_equity: false,
            log_config: LogConfig::default(),
            output_dir: None,
            splits_file: None,
            dividends_file: None,
            renames_file: None,
        }
    }
}

impl<N: Number> Context<N> {
    /// Process no bar before this date. A date the calendar does not have
    /// leaves the start open.
    pub fn set_start_date(&mut self, y: i32, m: u32, d: u32)
        ensures
            *final(self) == old(self).configured(
                Settings { start_date: final(self).config().start_date, ..old(self).config() },
            ),
            final(self).config().start_date is Some <==> calendar::is_day(
                y as int,
                m as int,
                d as int,
            ) && -262_143 <= y <= 262_142,
            final(self).config().start_date matches Some(date) ==> date.day()
                == calendar::day_number(y as int, m as int, d as int),
    {
        self.settings.start_date = Date::from_ymd(y, m, d);
    }

    /// Process no bar after this date. A date the calendar does not have
    /// leaves the end open.
    pub fn set_end_date(&mut self, y: i32, m: u32, d: u32)
        ensures
            *final(self) == old(self).configured(
                Settings { end_date: final(self).config().end_date, ..old(self).config() },
            ),
            final(self).config().end_date is Some <==> calendar::is_day(
                y as int,
                m as int,
                d as int,
            ) && -262_143 <= y <= 262_142,
            final(self).config().end_date matches Some(date) ==> date.day()
                == calendar::day_number(y as int, m as int, d as int),
    {
        self.settings.end_date = Date::from_ymd(y, m, d);
    }

    pub fn set_cash(&mut self, cash: N)
        ensures
            final(self).moved_portfolio(*old(self)),
            final(self).portfolio_of().balance() == cash,
            final(self).portfolio_of().held() == old(self).portfolio_of().held(),
    {
        self.portfolio.cash = cash;
    }

    /// Skip the first `bars` time steps before `on_data` fires. History and
    /// consolidators still fill during warm-up. Counts ticks, not per-symbol
    /// bars. The history window is raised to cover the warm-up.
    pub fn set_warm_up(&mut self, bars: usize)
        ensures
            final(self).warm_up() == bars,
            final(self).warmed(*old(self)),
            final(self).config() == (Settings {
                max_history: if bars > old(self).config().max_history {
                    bars
                } else {
                    old(self).config().max_history
                },
                ..old(self).config()
            }),
            final(self).config().max_history >= bars,
            final(self).config().max_history >= old(self).config().max_history,
    {
        self.warm_up_remaining = bars;
        if bars > self.settings.max_history {
            self.settings.max_history = bars;
        }
    }

    /// How many time steps of warm-up are left.
    pub fn warm_up_left(&self) -> (r: usize)
        ensures
            r == self.warm_up(),
    {
        self.warm_up_remaining
    }

    /// The slippage model applied to every fill. Defaults to no slippage.
    pub fn set_slippage(&mut self, model: Box<dyn SlippageModel<N>>)
        ensures
            *final(self) == old(self).configured(
                Settings { models: final(self).config().models, ..old(self).config() },
            ),
            final(self).config().models.slippage == model,
            final(self).config().models.commission == old(self).config().models.commission,
            final(self).config().models.margin == old(self).config().models.margin,
    {
        let mut model = model;
        std::mem::swap(&mut self.settings.models.slippage, &mut model);
    }

    /// The commission model applied to every fill. Defaults to no commission.
    pub fn set_commission(&mut self, model: Box<dyn CommissionModel<N>>)
        ensures
            *final(self) == old(self).configured(
                Settings { models: final(self).config().models, ..old(self).config() },
            ),
            final(self).config().models.commission == model,
            final(self).config().models.slippage == old(self).config().models.slippage,
            final(self).config().models.margin == old(self).config().models.margin,
    {
        let mut model = model;
        std::mem::swap(&mut self.settings.models.commission, &mut model);
    }

    /// The margin (buying-power) model consulted before every fill. Fills the
    /// model shrinks are rounded down to the lot size. Defaults to unlimited
    /// buying power.
    pub fn set_margin_model(&mut self, model: Box<dyn MarginModel<N>>)
        ensures
            *final(self) == old(self).configured(
                Settings { models: final(self).config().models, ..old(self).config() },
            ),
            final(self).config().models.margin == model,
            final(self).config().models.slippage == old(self).config().models.slippage,
            final(self).config().models.commission == old(self).config().models.commission,
    {
        let mut model = model;
        std::mem::swap(&mut self.settings.models.margin, &mut model);
    }

    /// A held symbol that produces no bars for this many consecutive trading
    /// days is treated as delisted: the position is force-closed at its last
    /// known price. Defaults to 5; nought disables the scan.
    pub fn set_delist_after_days(&mut self, days: usize)
        ensures
            *final(self) == old(self).configured(
                Settings { delist_after_days: days, ..old(self).config() },
            ),
    {
        self.settings.delist_after_days = days;
    }

    /// Fraction knocked off the last known price when a delisted position is
    /// force-liquidated. Nought (the default) fills at the last price; one
    /// writes the position off entirely.
    pub fn set_delist_haircut(&mut self, haircut: N)
        requires
            N::zero().le(haircut),
            haircut.le(N::from_u64(1)),
        ensures
            *final(self) == old(self).configured(
                Settings { delist_haircut: haircut, ..old(self).config() },
            ),
    {
        self.settings.delist_haircut = haircut;
    }

    /// Annual interest rate charged on a negative cash balance, spread across
    /// the long book by market value. Defaults to nought.
    pub fn set_margin_interest_rate(&mut self, annual_rate: N)
        requires
            N::zero().le(annual_rate),
        ensures
            *final(self) == old(self).configured(
                Settings { margin_interest_rate: annual_rate, ..old(self).config() },
            ),
    {
        self.settings.margin_interest_rate = annual_rate;
    }

    /// Annual borrow fee charged on the market value of short positions.
    /// Defaults to nought.
    pub fn set_short_borrow_rate(&mut self, annual_rate: N)
        requires
            N::zero().le(annual_rate),
        ensures
            *final(self) == old(self).configured(
                Settings { short_borrow_rate: annual_rate, ..old(self).config() },
            ),
    {
        self.settings.short_borrow_rate = annual_rate;
    }

    /// Annual risk-free rate the Sharpe ratio is computed in excess of. Only
    /// affects reported figures. Defaults to nought.
    pub fn set_risk_free_rate(&mut self, annual_rate: N)
        requires
            annual_rate.is_finite(),
        ensures
            *final(self) == old(self).configured(
                Settings { risk_free_rate: annual_rate, ..old(self).config() },
            ),
    {
        self.settings.risk_free_rate = annual_rate;
    }

    /// How many bars per symbol [`history`](Context::history) retains.
    /// Defaults to 500. [`set_warm_up`](Context::set_warm_up) raises it, so
    /// call this after it to pick a smaller window on purpose.
    pub fn set_max_history(&mut self, bars: usize)
        requires
            bars >= 1,
        ensures
            *final(self) == old(self).configured(
                Settings { max_history: bars, ..old(self).config() },
            ),
    {
        self.settings.max_history = bars;
    }

    /// Record an equity point on every bar, not just at day boundaries.
    pub fn set_track_intraday_equity(&mut self, enabled: bool)
        ensures
            *final(self) == old(self).configured(
                Settings { track_intraday_equity: enabled, ..old(self).config() },
            ),
    {
        self.settings.track_intraday_equity = enabled;
    }

    /// Choose when orders fill.
    pub fn set_fill_timing(&mut self, timing: FillTiming)
        ensures
            *final(self) == old(self).configured(
                Settings { fill_timing: timing, ..old(self).config() },
            ),
    {
        self.settings.fill_timing = timing;
    }

    /// The share lot `set_holdings` rounds order quantities to. Defaults to
    /// whole shares.
    pub fn set_lot_size(&mut self, lot: N)
        requires
            N::zero().lt(lot),
        ensures
            *final(self) == old(self).configured(Settings { lot_size: lot, ..old(self).config() }),
    {
        self.settings.lot_size = lot;
    }

    /// Cap every fill at this fraction of the filling bar's volume. A resting
    /// order's unfilled remainder carries to the next bar; a market order's
    /// remainder is dropped. Nought (the default) means unlimited.
    pub fn set_max_volume_participation(&mut self, fraction: N)
        requires
            N::zero().le(fraction),
        ensures
            *final(self) == old(self).configured(
                Settings { max_volume_participation: fraction, ..old(self).config() },
            ),
    {
        self.settings.max_volume_participation = fraction;
    }

    /// Which categories of engine events are logged.
    pub fn set_log_config(&mut self, log_config: LogConfig)
        ensures
            *final(self) == old(self).configured(Settings { log_config, ..old(self).config() }),
    {
        self.settings.log_config = log_config;
    }

    /// The directory the result is written to.
    pub fn set_output_dir(&mut self, dir: String)
        ensures
            *final(self) == old(self).configured(
                Settings { output_dir: Some(dir), ..old(self).config() },
            ),
    {
        self.settings.output_dir = Some(dir);
    }

    /// The directory the result is written to, if one is set.
    pub fn output_dir(&self) -> (r: Option<String>)
        ensures
            r == self.config().output_dir,
    {
        match &self.settings.output_dir {
            Some(dir) => Some(dir.clone()),
            None => None,
        }
    }

    /// Where the splits file lies, in place of its usual name in the data root.
    pub fn set_splits_file(&mut self, path: String)
        ensures
            *final(self) == old(self).configured(
                Settings { splits_file: Some(path), ..old(self).config() },
            ),
    {
        self.settings.splits_file = Some(path);
    }

    /// Where the dividends file lies, in place of its usual name in the data
    /// root.
    pub fn set_dividends_file(&mut self, path: String)
        ensures
            *final(self) == old(self).configured(
                Settings { dividends_file: Some(path), ..old(self).config() },
            ),
    {
        self.settings.dividends_file = Some(path);
    }

    /// Where the renames file lies, in place of its usual name in the data
    /// root.
    pub fn set_renames_file(&mut self, path: String)
        ensures
            *final(self) == old(self).configured(
                Settings { renames_file: Some(path), ..old(self).config() },
            ),
    {
        self.settings.renames_file = Some(path);
    }

    /// How the run is configured.
    pub fn settings(&self) -> (r: &Settings<N>)
        ensures
            *r == self.config(),
    {
        &self.settings
    }

    /// The symbol the dataset encodes `ticker` as.
    pub fn symbol(&self, ticker: &str) -> (r: Option<Symbol>)
        ensures
            r is Some <==> data::lists_name(self.names(), ticker@),
            r is Some ==> data::first_named(self.names(), ticker@, r->0.id()),
    {
        self.tickers.symbol(ticker)
    }

    /// The ticker `symbol` stands for, or nothing for an id the dataset does
    /// not name.
    pub fn symbol_name(&self, symbol: Symbol) -> (r: &str)
        ensures
            r@ == shown_name(self.names(), symbol.id()),
    {
        match self.tickers.name(symbol) {
            Some(name) => name,
            None => {
                proof {
                    reveal_strlit("");
                    assert(""@ =~= Seq::<char>::empty());
                }
                ""
            },
        }
    }

    /// One past the highest ticker id the dataset names.
    pub fn id_space(&self) -> (r: usize)
        ensures
            r == self.names().len(),
    {
        self.tickers.id_space()
    }

    /// Subscribe the ticker, so its bars stream, if the dataset has it.
    pub fn try_add_equity(&mut self, ticker: &str) -> (r: Option<Symbol>)
        ensures
            r is Some <==> data::lists_name(old(self).names(), ticker@),
            r is Some ==> data::first_named(old(self).names(), ticker@, r->0.id()),
            final(self).moved_subscriptions(*old(self)),
            final(self).subscriptions() == (match r {
                Some(symbol) => old(self).subscriptions().insert(symbol.id()),
                None => old(self).subscriptions(),
            }),
    {
        match self.tickers.symbol(ticker) {
            Some(symbol) => {
                self.subscribed_symbols.insert(symbol);
                Some(symbol)
            },
            None => None,
        }
    }

    /// Subscribe the ticker, so its bars stream, returning its symbol. The
    /// dataset must have it.
    pub fn add_equity(&mut self, ticker: &str) -> (r: Symbol)
        requires
            data::lists_name(old(self).names(), ticker@),
        ensures
            data::first_named(old(self).names(), ticker@, r.id()),
            final(self).moved_subscriptions(*old(self)),
            final(self).subscriptions() == old(self).subscriptions().insert(r.id()),
    {
        self.try_add_equity(ticker).unwrap()
    }

    /// Subscribe a symbol, so its bars stream.
    pub fn subscribe(&mut self, symbol: Symbol)
        ensures
            final(self).moved_subscriptions(*old(self)),
            final(self).subscriptions() == old(self).subscriptions().insert(symbol.id()),
    {
        self.subscribed_symbols.insert(symbol);
    }

    /// Every subscribed symbol, in ticker-id order.
    pub fn subscribed(&self) -> (r: Vec<Symbol>)
        ensures
            crate::symbol::lists_members(crate::symbol::ids_of(r@), self.subscriptions()),
    {
        self.subscribed_symbols.symbols()
    }

    /// Keep a window of bars for `symbol`. The first call leaves every symbol
    /// it does not name without one.
    pub fn track_history(&mut self, symbol: Symbol)
        ensures
            final(self).moved_tracking(*old(self)),
            forall|id: u16| #[trigger]
                final(self).keeps_history(id) <==> id == symbol.id() || (old(
                    self,
                ).names_history() && old(self).keeps_history(id)),
            final(self).names_history(),
    {
        let mut named = SymbolSet::default();
        if let HistoryTracking::Named(before) = &self.tracking {
            let listed = before.symbols();
            let ghost ids = crate::symbol::ids_of(listed@);
            for i in 0..listed.len()
                invariant
                    ids == crate::symbol::ids_of(listed@),
                    forall|id: u16| #[trigger]
                        named@.contains(id) <==> ids.take(i as int).contains(id),
            {
                named.insert(listed[i]);
                proof {
                    assert(ids.take(i + 1) =~= ids.take(i as int).push(ids[i as int]));
                    assert forall|id: u16| #[trigger]
                        named@.contains(id) <==> ids.take(i + 1).contains(id) by {
                        let shorter = ids.take(i as int);
                        let longer = ids.take(i + 1);
                        if shorter.contains(id) {
                            let k = choose|k: int| 0 <= k < shorter.len() && shorter[k] == id;
                            assert(longer[k] == id);
                        }
                        if longer.contains(id) {
                            let k = choose|k: int| 0 <= k < longer.len() && longer[k] == id;
                            if k < shorter.len() {
                                assert(shorter[k] == id);
                            }
                        }
                        assert(longer[i as int] == ids[i as int]);
                    }
                }
            }
            assert(ids.take(ids.len() as int) =~= ids);
        }
        named.insert(symbol);
        self.tracking = HistoryTracking::Named(named);
    }

    /// Keep no window of bars for any symbol.
    pub fn disable_history(&mut self)
        ensures
            final(self).moved_tracking(*old(self)),
            forall|id: u16| !#[trigger] final(self).keeps_history(id),
            final(self).names_history(),
    {
        self.tracking = HistoryTracking::Named(SymbolSet::default());
    }

    /// The last `n` bars of `symbol`, newest first.
    pub fn history(&self, symbol: Symbol, n: usize) -> (r: Vec<Bar<N>>)
        ensures
            r@ == at_most(self.bars_of(symbol.id()), n as int),
    {
        let mut out: Vec<Bar<N>> = Vec::new();
        if let Some(bars) = self.history_store.get(&symbol) {
            let count: usize = if n < bars.len() {
                n
            } else {
                bars.len()
            };
            for i in 0..count
                invariant
                    count <= bars@.len(),
                    out@ =~= bars@.take(i as int),
            {
                out.push(bars[i]);
            }
            assert(bars@.take(bars@.len() as int) =~= bars@);
        }
        assert(self.bars_of(symbol.id()).take(0) =~= Seq::<Bar<N>>::empty());
        out
    }

    /// Fold the bars of `symbol` into coarser ones, handed to
    /// [`on_consolidated`](crate::algorithm::Algorithm::on_consolidated) with
    /// the handle returned here.
    pub fn consolidate(&mut self, symbol: Symbol, period: ConsolidatorPeriod) -> (r: usize)
        requires
            period.has_length(),
        ensures
            r == old(self).consolidator_list().len(),
            final(self).moved_consolidators(*old(self)),
            final(self).consolidator_list().drop_last() == old(self).consolidator_list(),
            final(self).consolidator_list().len() == old(self).consolidator_list().len() + 1,
            final(self).consolidator_list().last().source() == symbol,
            final(self).consolidator_list().last().bucket() == period,
            final(self).consolidator_list().last().current() is None,
    {
        let handle: usize = self.consolidators.len();
        self.consolidators.push(ConsolidatorEntry::new(symbol, period));
        assert(self.consolidators@.drop_last() =~= old(self).consolidators@);
        handle
    }

    /// Call [`on_scheduled`](crate::algorithm::Algorithm::on_scheduled), with
    /// the handle returned here, once per trading day when the bar stream first
    /// reaches or crosses the given US Eastern hour and minute.
    pub fn on_time(&mut self, hour: u32, minute: u32) -> (r: usize)
        requires
            hour * 60 + minute <= u32::MAX,
        ensures
            r == old(self).schedule().len(),
            final(self).moved_schedule(*old(self)),
            final(self).schedule() == old(self).schedule().push(
                ScheduledTimeEntry {
                    target_min: (hour * 60 + minute) as u32,
                    last_fired_date: None,
                },
            ),
            minute < 60 ==> final(self).schedule().last().target_min / 60 == hour
                && final(self).schedule().last().target_min % 60 == minute,
    {
        let handle: usize = self.time_callbacks.len();
        self.time_callbacks.push(
            ScheduledTimeEntry { target_min: hour * 60 + minute, last_fired_date: None },
        );
        handle
    }

    /// The handles of the scheduled times that are due at a tick, in the order
    /// they were registered. Each is marked as fired on its trading date.
    pub fn fire_time_callbacks(&mut self, tick_time: &Time, tick_date: Date) -> (r: Vec<usize>)
        ensures
            final(self).moved_schedule(*old(self)),
            final(self).schedule() == Seq::new(
                old(self).schedule().len(),
                |i: int|
                    time_passed(
                        old(self).schedule()[i],
                        calendar::eastern_clock(tick_time.secs()).1,
                        tick_date,
                    ),
            ),
            r@ == due_below(
                old(self).schedule(),
                calendar::eastern_clock(tick_time.secs()).1,
                tick_date,
                old(self).schedule().len() as int,
            ),
    {
        let tick_min: u32 = tick_time.eastern_minute();
        let ghost before = self.time_callbacks@;
        let ghost rest = *self;
        let mut due: Vec<usize> = Vec::new();
        let n: usize = self.time_callbacks.len();
        for i in 0..n
            invariant
                n == before.len(),
                self.time_callbacks@.len() == n,
                self.moved_schedule(rest),
                forall|j: int|
                    0 <= j < i ==> #[trigger] self.time_callbacks@[j] == time_passed(
                        before[j],
                        tick_min as int,
                        tick_date,
                    ),
                forall|j: int| i <= j < n ==> #[trigger] self.time_callbacks@[j] == before[j],
                due@ == due_below(before, tick_min as int, tick_date, i as int),
        {
            let entry = self.time_callbacks[i];
            let fired: bool = match entry.last_fired_date {
                Some(date) => date == tick_date,
                None => false,
            };
            if !fired && tick_min >= entry.target_min {
                self.time_callbacks.set(
                    i,
                    ScheduledTimeEntry {
                        target_min: entry.target_min,
                        last_fired_date: Some(tick_date),
                    },
                );
                due.push(i);
            }
        }
        due
    }

    /// Place an order for a signed number of shares.
    pub fn market_order(&mut self, symbol: Symbol, qty: N)
        ensures
            final(self).moved_orders(*old(self)),
            final(self).placed() == old(self).placed().push(
                Order { symbol, kind: OrderKind::Market(qty) },
            ),
            final(self).placed_resting() == old(self).placed_resting(),
    {
        self.pending_orders.push(Order { symbol, kind: OrderKind::Market(qty) });
    }

    /// Place an order that brings the position to a fraction of the portfolio.
    pub fn set_holdings(&mut self, symbol: Symbol, pct: N)
        ensures
            final(self).moved_orders(*old(self)),
            final(self).placed() == old(self).placed().push(
                Order { symbol, kind: OrderKind::SetHoldings(pct) },
            ),
            final(self).placed_resting() == old(self).placed_resting(),
    {
        self.pending_orders.push(Order { symbol, kind: OrderKind::SetHoldings(pct) });
    }

    /// Place an order that closes the position.
    pub fn liquidate(&mut self, symbol: Symbol)
        ensures
            final(self).moved_orders(*old(self)),
            final(self).placed() == old(self).placed().push(
                Order { symbol, kind: OrderKind::Liquidate },
            ),
            final(self).placed_resting() == old(self).placed_resting(),
    {
        self.pending_orders.push(Order { symbol, kind: OrderKind::Liquidate });
    }

    /// Place a resting limit order: a buy fills only at `limit_price` or lower,
    /// a sell at `limit_price` or higher. It rests until the price trades
    /// through the limit, whatever the fill timing.
    pub fn limit_order(&mut self, symbol: Symbol, qty: N, limit_price: N)
        ensures
            final(self).moved_orders(*old(self)),
            final(self).placed() == old(self).placed(),
            final(self).placed_resting() == old(self).placed_resting().push(
                RestingOrder { symbol, qty, kind: RestingKind::Limit(limit_price) },
            ),
    {
        self.resting_orders.push(
            RestingOrder { symbol, qty, kind: RestingKind::Limit(limit_price) },
        );
    }

    /// Place a resting stop order: a buy triggers to a market fill when the
    /// price rises to `stop_price`, a sell when it falls to it.
    pub fn stop_order(&mut self, symbol: Symbol, qty: N, stop_price: N)
        ensures
            final(self).moved_orders(*old(self)),
            final(self).placed() == old(self).placed(),
            final(self).placed_resting() == old(self).placed_resting().push(
                RestingOrder { symbol, qty, kind: RestingKind::Stop(stop_price) },
            ),
    {
        self.resting_orders.push(
            RestingOrder { symbol, qty, kind: RestingKind::Stop(stop_price) },
        );
    }
}

/// The name shown for the ticker id `id`: nothing for one without a name.
pub open spec fn shown_name(names: Seq<Option<Seq<char>>>, id: u16) -> Seq<char> {
    match data::name_of(names, id) {
        Some(name) => name,
        None => Seq::empty(),
    }
}

impl<N: Number> Context<N> {
    /// The portfolio.
    pub open(crate) spec fn portfolio_of(self) -> Portfolio<N> {
        self.portfolio
    }

    /// Whether the windows that are kept are named one by one.
    pub open(crate) spec fn names_history(self) -> bool {
        self.tracking is Named
    }

    /// `self` differs from `before` in its warm-up and its settings alone.
    pub open(crate) spec fn warmed(self, before: Context<N>) -> bool {
        self == (Context {
            warm_up_remaining: self.warm_up_remaining,
            settings: self.settings,
            ..before
        })
    }
}

/// A scheduled time is due at every minute of the day from its hour and minute on,
/// and at none before, unless it has fired that day.
pub proof fn times_are_due_from_their_minute_on(
    hour: int,
    minute: int,
    now_hour: int,
    now_minute: int,
    fired: Option<Date>,
    date: Date,
)
    requires
        0 <= hour < 24,
        0 <= minute < 60,
        0 <= now_hour < 24,
        0 <= now_minute < 60,
    ensures
        ({
            let entry = ScheduledTimeEntry {
                target_min: (hour * 60 + minute) as u32,
                last_fired_date: fired,
            };
            time_due(entry, now_hour * 60 + now_minute, date) <==> fired != Some(date) && (hour
                < now_hour || (hour == now_hour && minute <= now_minute))
        }),
{
}

/// The handles reported as due are those of the entries that are, each once, in the
/// order they were registered; and those entries, and no others, are marked as
/// fired on the date, without moving their times.
pub proof fn due_times_are_reported_and_marked(
    entries: Seq<ScheduledTimeEntry>,
    minute: int,
    date: Date,
    handle: usize,
)
    requires
        entries.len() <= usize::MAX,
    ensures
        ({
            let due = due_below(entries, minute, date, entries.len() as int);
            &&& due.contains(handle) <==> handle < entries.len() && entries[handle as int]
                .last_fired_date != Some(date) && entries[handle as int].target_min <= minute
            &&& forall|i: int, j: int|
                0 <= i < j < due.len() ==> #[trigger] due[i] < #[trigger] due[j]
            &&& handle < entries.len() ==> {
                let after = time_passed(entries[handle as int], minute, date);
                &&& after.target_min == entries[handle as int].target_min
                &&& due.contains(handle) ==> after.last_fired_date == Some(date)
                &&& !due.contains(handle) ==> after.last_fired_date
                    == entries[handle as int].last_fired_date
            }
        }),
{
    lemma_due_below(entries, minute, date, entries.len() as int, handle);
}

proof fn lemma_due_below(
    entries: Seq<ScheduledTimeEntry>,
    minute: int,
    date: Date,
    end: int,
    handle: usize,
)
    requires
        0 <= end <= entries.len(),
        entries.len() <= usize::MAX,
    ensures
        ({
            let due = due_below(entries, minute, date, end);
            &&& due.contains(handle) <==> handle < end && time_due(
                entries[handle as int],
                minute,
                date,
            )
            &&& forall|i: int| 0 <= i < due.len() ==> #[trigger] due[i] < end
            &&& forall|i: int, j: int|
                0 <= i < j < due.len() ==> #[trigger] due[i] < #[trigger] due[j]
        }),
    decreases end,
{
    if end > 0 {
        lemma_due_below(entries, minute, date, end - 1, handle);
        let before = due_below(entries, minute, date, end - 1);
        let due = due_below(entries, minute, date, end);
        if time_due(entries[end - 1], minute, date) {
            assert(due[before.len() as int] == end - 1);
            if before.contains(handle) {
                let k = choose|k: int| 0 <= k < before.len() && before[k] == handle;
                assert(due[k] == handle);
            }
            if due.contains(handle) && handle != end - 1 {
                let k = choose|k: int| 0 <= k < due.len() && due[k] == handle;
                assert(before[k] == handle);
            }
        }
    }
}

/// The first `n` bars of a window are as many as it has, up to `n`, from its front.
pub proof fn a_request_for_bars_is_met_from_the_front<A>(items: Seq<A>, n: int)
    requires
        n >= 0,
    ensures
        ({
            let given = at_most(items, n);
            &&& given.len() <= n
            &&& given.len() <= items.len()
            &&& given.len() == n || given.len() == items.len()
            &&& forall|i: int| 0 <= i < given.len() ==> #[trigger] given[i] == items[i]
        }),
{
}

/// A run whose strategy configures nothing is frictionless: every fill prints at its
/// reference price, costs no commission and is not limited by margin or volume;
/// shares trade whole, at the close of the bar they are ordered on; nothing is
/// charged for borrowing, and a haircut takes nothing. A silence of five trading days
/// counts as a delisting, five hundred bars are kept of a symbol, no date is left
/// out, and a hundred thousand is there to trade with.
pub proof fn defaults_are_frictionless<N: Number>(
    context: Context<N>,
    names: Seq<Option<Seq<char>>>,
    fill: crate::slippage::FillContext<'_, N>,
    price: N,
    fee: N,
    val: spec_fn(N) -> real,
    step: real,
)
    requires
        exact::near(val, step),
        N::from_u64(1).is_finite(),
        N::from_u64(100_000).is_finite(),
        context.starts_from(names),
    ensures
        ({
            let settings = context.config();
            &&& settings.models.slippage.quotes(&fill, price) ==> val(price) == val(fill.price)
            &&& settings.models.commission.charges(&fill, fee) ==> val(fee) == 0real
            &&& settings.models.margin.is_unlimited()
            &&& val(settings.lot_size) == 1real
            &&& val(settings.max_volume_participation) == 0real
            &&& settings.fill_timing == FillTiming::CurrentBarClose
            &&& settings.delist_after_days == 5
            &&& val(settings.delist_haircut) == 0real
            &&& val(settings.margin_interest_rate) == 0real
            &&& val(settings.short_borrow_rate) == 0real
            &&& val(settings.risk_free_rate) == 0real
            &&& settings.max_history == 500
            &&& !settings.track_intraday_equity
            &&& settings.start_date is None
            &&& settings.end_date is None
            &&& val(context.portfolio_of().balance()) == 100000real
            &&& context.portfolio_of().held().dom() == Set::<u16>::empty()
            &&& context.warm_up() == 0
            &&& context.placed().len() == 0
            &&& context.placed_resting().len() == 0
            &&& context.subscriptions() == Set::<u16>::empty()
        }),
{
    assert(exact::integer(1) == 1real);
    assert(exact::integer(100_000) == 100000real);
    assert(context.portfolio_of().held().dom() =~= Set::<u16>::empty());
}

} // verus!
