//! All mutable state of a running backtest.

use vstd::prelude::*;

use crate::agenda::Agenda;
use crate::algorithm::{Call, CallLog, Notice};
use crate::bar::Bar;
use crate::broker::{Position, PriceTable};
use crate::calendar::{Date, Time};
use crate::context::{Context, Order, RestingOrder};
use crate::engine::ledger::{Ledger, LedgerView};
use crate::number::Number;
use crate::queue::SymbolQueues;
use crate::stats;
use crate::stats::EquityPoint;
use crate::symbol::{Symbol, SymbolMap, SymbolVec};

verus! {

/// Corporate actions queued by their effective date, drained at day boundaries
/// as the backtest clock reaches them.
pub struct PendingActions<N> {
    /// New shares per old share.
    pub splits: Agenda<(Symbol, N)>,
    /// Cash per share.
    pub dividends: Agenda<(Symbol, N)>,
    /// The old and the new symbol.
    pub renames: Agenda<(Symbol, Symbol)>,
}

impl<N> PendingActions<N> {
    pub fn new() -> (r: PendingActions<N>)
        ensures
            r.splits@ == Map::<i32, Seq<(Symbol, N)>>::empty(),
            r.dividends@ == Map::<i32, Seq<(Symbol, N)>>::empty(),
            r.renames@ == Map::<i32, Seq<(Symbol, Symbol)>>::empty(),
    {
        PendingActions { splits: Agenda::new(), dividends: Agenda::new(), renames: Agenda::new() }
    }
}

/// Orders waiting for a bar: those that fill at the open of their symbol's next
/// one, and those that rest until a price is reached.
pub struct OrderBooks<N> {
    pub deferred: SymbolQueues<Order<N>>,
    pub resting: SymbolQueues<RestingOrder<N>>,
}

/// Equity over time, by day and, if asked for, by tick.
pub struct EquityRecord<N> {
    pub daily: Vec<EquityPoint<N>>,
    pub intraday: Vec<EquityPoint<N>>,
}

/// Where the stream of bars has got to.
pub struct Clock {
    /// Last trading date processed after warm-up.
    pub last_date: Option<Date>,
    /// Last date seen by the stream (warm-up too), gating the once-per-date
    /// day-start work.
    pub global_last_date: Option<Date>,
    pub day_index: u64,
    /// Which trading day (by index) each symbol last printed a bar on; `None`
    /// until it prints its first.
    pub last_seen_day: SymbolVec<Option<u64>>,
}

/// An order that was filled, whole or in part.
#[derive(Debug, Clone, Copy)]
pub struct FilledOrder<N> {
    pub symbol: Symbol,
    /// Signed: negative for a sale.
    pub quantity: N,
    pub price: N,
    pub fee: N,
    pub time: Time,
}

/// All mutable state of a running backtest.
#[verifier::reject_recursive_types(N)]
pub struct Engine<N: Number> {
    pub(crate) ctx: Context<N>,
    pub(crate) initial_cash: N,
    pub(crate) ledger: Ledger<N>,
    pub(crate) total_commission: N,
    /// Bar volume already consumed per symbol this tick, so all fills against
    /// one bar share the volume-participation cap.
    pub(crate) participation_used: SymbolMap<N>,
    /// The fills of this tick, in order.
    pub(crate) fills: Vec<FilledOrder<N>>,
    pub(crate) last_known_prices: PriceTable<N>,
    pub(crate) record: EquityRecord<N>,
    pub(crate) books: OrderBooks<N>,
    pub(crate) pending: PendingActions<N>,
    pub(crate) clock: Clock,
    /// What the strategy was told.
    pub(crate) calls: CallLog<N>,
}

/// What an account holds, owes and has done.
pub ghost struct Account<N> {
    pub cash: N,
    pub positions: Map<u16, Position<N>>,
    pub ledger: LedgerView<N>,
    pub commission: N,
    /// The bar volume taken this tick, by id.
    pub used: Map<u16, N>,
    /// The fills of this tick, in order.
    pub fills: Seq<FilledOrder<N>>,
}

impl<N: Number> Engine<N> {
    /// The account.
    pub open(crate) spec fn account(self) -> Account<N> {
        Account {
            cash: self.ctx.portfolio.balance(),
            positions: self.ctx.portfolio.held(),
            ledger: self.ledger@,
            commission: self.total_commission,
            used: self.participation_used@,
            fills: self.fills@,
        }
    }

    /// The last known prices.
    pub open(crate) spec fn prices(self) -> Seq<Option<N>> {
        self.last_known_prices@
    }

    /// What the strategy sees and steers.
    pub open(crate) spec fn context(self) -> Context<N> {
        self.ctx
    }

    /// The orders that wait for a bar.
    pub open(crate) spec fn order_books(self) -> OrderBooks<N> {
        self.books
    }

    /// The corporate actions still to come.
    pub open(crate) spec fn agenda(self) -> PendingActions<N> {
        self.pending
    }

    /// Where the stream has got to.
    pub open(crate) spec fn progress(self) -> Clock {
        self.clock
    }

    /// The equity recorded so far.
    pub open(crate) spec fn recorded(self) -> EquityRecord<N> {
        self.record
    }

    /// The cash the run started with.
    pub open(crate) spec fn starting_cash(self) -> N {
        self.initial_cash
    }

    /// `self` differs from `before` in its account alone.
    pub open(crate) spec fn moved_account(self, before: Engine<N>) -> bool {
        self == (Engine {
            ctx: Context { portfolio: self.ctx.portfolio, ..before.ctx },
            ledger: self.ledger,
            total_commission: self.total_commission,
            participation_used: self.participation_used,
            fills: self.fills,
            ..before
        })
    }

    /// What the strategy was told so far.
    pub open(crate) spec fn told(self) -> Seq<Call<N>> {
        self.calls@
    }

    /// Whether telling the strategy something can take the engine from `self`
    /// to `after`: one call more, with the context handed over and back.
    pub open(crate) spec fn tells(self, notice: Notice<N>, after: Engine<N>) -> bool {
        &&& after == (Engine { ctx: after.ctx, calls: after.calls, ..self })
        &&& after.calls@ == self.calls@.push(
            Call { notice, before: self.ctx, after: after.ctx },
        )
    }

    /// Whether telling the strategy one thing after the other can take the
    /// engine from `self` to `after`.
    pub open(crate) spec fn tells_all(self, notices: Seq<Notice<N>>, after: Engine<N>) -> bool
        decreases notices.len(),
    {
        if notices.len() == 0 {
            after == self
        } else {
            exists|mid: Engine<N>|
                self.tells_all(notices.drop_last(), mid) && #[trigger] mid.tells(
                    notices.last(),
                    after,
                )
        }
    }

    /// `after` is `self` with the strategy handed a bar, and no context.
    pub open(crate) spec fn hands(self, handle: usize, bar: Bar<N>, after: Engine<N>) -> bool {
        &&& after == (Engine { calls: after.calls, ..self })
        &&& after.calls@ == self.calls@.push(
            Call {
                notice: Notice::Consolidated { handle, bar },
                before: self.ctx,
                after: self.ctx,
            },
        )
    }

    /// An engine about to process its first tick.
    pub fn new(ctx: Context<N>, pending: PendingActions<N>) -> (r: Engine<N>)
        ensures
            r.context() == ctx,
            r.agenda() == pending,
            r.starting_cash() == ctx.portfolio_of().balance(),
            r.fresh(),
    {
        let record = EquityRecord { daily: Vec::new(), intraday: Vec::new() };
        proof {
            assert(stats::point_views(record.daily@) =~= Seq::empty());
            assert(stats::point_views(record.intraday@) =~= Seq::empty());
        }
        Engine {
            initial_cash: ctx.portfolio.cash,
            ctx,
            ledger: Ledger::new(),
            total_commission: N::zero(),
            participation_used: SymbolMap::new(),
            fills: Vec::new(),
            last_known_prices: SymbolVec::new(),
            record,
            books: OrderBooks { deferred: SymbolQueues::new(), resting: SymbolQueues::new() },
            pending,
            clock: Clock {
                last_date: None,
                global_last_date: None,
                day_index: 0,
                last_seen_day: SymbolVec::new(),
            },
            calls: CallLog::new(),
        }
    }

    /// Nothing has been processed yet.
    pub open(crate) spec fn fresh(self) -> bool {
        &&& self.ledger@ == (LedgerView::<N> { lifetimes: Map::empty(), trades: Seq::empty() })
        &&& self.total_commission == N::zero()
        &&& self.participation_used@ == Map::<u16, N>::empty()
        &&& self.fills@ == Seq::<FilledOrder<N>>::empty()
        &&& self.last_known_prices@ == Seq::<Option<N>>::empty()
        &&& stats::point_views(self.record.daily@) == Seq::<(Seq<char>, N)>::empty()
        &&& stats::point_views(self.record.intraday@) == Seq::<(Seq<char>, N)>::empty()
        &&& self.books.deferred@ == Map::<u16, Seq<Order<N>>>::empty()
        &&& self.books.resting@ == Map::<u16, Seq<RestingOrder<N>>>::empty()
        &&& self.clock.last_date is None
        &&& self.clock.global_last_date is None
        &&& self.clock.day_index == 0
        &&& self.clock.last_seen_day@ == Seq::<Option<u64>>::empty()
        &&& self.calls@ == Seq::<Call<N>>::empty()
    }
}

} // verus!
