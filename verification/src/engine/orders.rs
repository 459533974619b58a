//! Order execution: quantity resolution (sizing, volume-participation and
//! margin caps), slippage and commission, ledger bookkeeping, and the three
//! fill paths (current bar close, deferred next bar open, resting intrabar).

use vstd::prelude::*;

use crate::bar::Bar;
use crate::broker;
use crate::calendar::Time;
use crate::context;
use crate::context::{Context, FillTiming, Order, OrderKind, RestingKind, RestingOrder, Settings};
use crate::engine::ledger::Fill;
use crate::engine::state::{Account, Engine, FilledOrder};
use crate::margin::MarginContext;
use crate::number;
use crate::queue;
use crate::number::{clamp, negligible, whole_lots, Number};
use crate::slice::Slice;
use crate::slippage::FillContext;
use crate::symbol::Symbol;

verus! {

/// The signed quantity an order asks for: its own number of shares, the
/// distance to a target weight, or what closes the position.
///
/// A target weight is sized off a portfolio value that is never taken below
/// nought, so it cannot change direction, and is rounded to the lot as a
/// target, so the position stays on-lot. Without a price there is
/// nothing to size against.
pub open spec fn asked<N: Number>(kind: OrderKind<N>, equity: N, price: N, lot: N, held: N) -> N {
    match kind {
        OrderKind::Market(qty) => qty,
        OrderKind::SetHoldings(pct) => if !price.equals(N::zero()) {
            let desired = equity.max(N::zero()).mul(pct).div(price);
            desired.div(lot).round().mul(lot).sub(held)
        } else {
            N::zero()
        },
        OrderKind::Liquidate => held.neg(),
    }
}

/// The shares of a bar still open to fills: the allowed fraction of its volume
/// less what was taken already, down to a whole lot, never below nought.
pub open spec fn volume_left<N: Number>(fraction: N, volume: u64, used: N, lot: N) -> N {
    number::whole_lots(fraction.mul(N::from_u64(volume)).sub(used), lot).max(N::zero())
}

/// A quantity cut to what a bar's volume leaves. A fraction of nought means no
/// cap.
pub open spec fn within_volume<N: Number>(
    qty: N,
    fraction: N,
    volume: u64,
    used: N,
    lot: N,
) -> N {
    if N::zero().lt(fraction) {
        qty.signum().mul(qty.abs().min(volume_left(fraction, volume, used, lot)))
    } else {
        qty
    }
}

/// What a margin model's answer leaves of a quantity. The answer is held to
/// the order's own direction and size, so a model can only trim; a trimmed
/// fill is rounded down to the lot.
pub open spec fn within_margin<N: Number>(qty: N, allowed: N, lot: N) -> N {
    let kept = if N::zero().lt(qty) {
        number::clamp(allowed, N::zero(), qty)
    } else {
        number::clamp(allowed, qty, N::zero())
    };
    if number::negligible(kept.sub(qty)) {
        qty
    } else {
        qty.signum().mul(kept.abs().div(lot).trunc()).mul(lot)
    }
}

/// A fill price held to a limit: a buy never above it, a sell never below it.
pub open spec fn within_limit<N: Number>(price: N, qty: N, bound: Option<N>) -> N {
    match bound {
        Some(limit) => if N::zero().lt(qty) {
            price.min(limit)
        } else {
            price.max(limit)
        },
        None => price,
    }
}

/// The price at which a bar fills a resting order, before slippage, if its
/// range triggers it. A limit fills at its price or the (better) open; a stop
/// at its price or the (worse) open.
pub open spec fn trigger_price<N: Number>(kind: RestingKind<N>, qty: N, bar: Bar<N>) -> Option<N> {
    match kind {
        RestingKind::Limit(price) => if N::zero().lt(qty) && bar.low.le(price) {
            Some(price.min(bar.open))
        } else if qty.lt(N::zero()) && price.le(bar.high) {
            Some(price.max(bar.open))
        } else {
            None
        },
        RestingKind::Stop(price) => if N::zero().lt(qty) && price.le(bar.high) {
            Some(price.max(bar.open))
        } else if qty.lt(N::zero()) && bar.low.le(price) {
            Some(price.min(bar.open))
        } else {
            None
        },
    }
}

/// The price a resting order may not be filled beyond, if it has one.
pub open spec fn limit_of<N>(kind: RestingKind<N>) -> Option<N> {
    match kind {
        RestingKind::Limit(price) => Some(price),
        RestingKind::Stop(_) => None,
    }
}

/// The volume taken of an id's bar this tick.
pub open spec fn used_of<N: Number>(used: Map<u16, N>, id: u16) -> N {
    if used.contains_key(id) {
        used[id]
    } else {
        N::zero()
    }
}

impl<N: Number> Account<N> {
    /// What a margin model is asked about a fill.
    pub open spec fn margin_order(
        self,
        prices: Seq<Option<N>>,
        symbol: Symbol,
        qty: N,
        price: N,
    ) -> MarginContext<N> {
        MarginContext {
            symbol,
            quantity: qty,
            price,
            current_qty: broker::quantity_of(self.positions, symbol.id()),
            cash: self.cash,
            equity: broker::equity(self.cash, self.positions, prices),
            other_exposure: broker::exposure_besides(self.positions, prices, symbol.id()),
        }
    }

    /// The quantity an order asks for, cut to what the bar's volume leaves.
    pub open spec fn asked_within_volume(
        self,
        prices: Seq<Option<N>>,
        settings: Settings<N>,
        order: Order<N>,
        price: N,
        volume: u64,
    ) -> N {
        within_volume(
            asked(
                order.kind,
                broker::equity(self.cash, self.positions, prices),
                price,
                settings.lot_size,
                broker::quantity_of(self.positions, order.symbol.id()),
            ),
            settings.max_volume_participation,
            volume,
            used_of(self.used, order.symbol.id()),
            settings.lot_size,
        )
    }

    /// Whether an order can come to `qty`: what it asks for, cut to the bar's
    /// volume, then to what the margin model answers.
    pub open spec fn resolves(
        self,
        prices: Seq<Option<N>>,
        settings: Settings<N>,
        order: Order<N>,
        price: N,
        volume: u64,
        qty: N,
    ) -> bool {
        let capped = self.asked_within_volume(prices, settings, order, price, volume);
        if settings.models.margin.is_unlimited() {
            qty == capped
        } else {
            exists|allowed: N|
                #[trigger] settings.models.margin.allows(
                    &self.margin_order(prices, order.symbol, capped, price),
                    allowed,
                ) && qty == within_margin(capped, allowed, settings.lot_size)
        }
    }

    /// A fill of `qty` shares of `symbol` at `price`, as the ledger sees it.
    pub open spec fn filled(
        self,
        symbol: Symbol,
        name: Seq<char>,
        qty: N,
        price: N,
        fee: N,
        time: Time,
    ) -> Fill<N> {
        Fill {
            symbol,
            name,
            held: broker::quantity_of(self.positions, symbol.id()),
            basis: broker::basis_of(self.positions, symbol.id()),
            qty,
            price,
            fee,
            time,
        }
    }

    /// The account after `qty` shares of `symbol` filled at `price` for a
    /// commission of `fee`.
    pub open spec fn with_fill(
        self,
        symbol: Symbol,
        name: Seq<char>,
        qty: N,
        price: N,
        fee: N,
        time: Time,
        counts_volume: bool,
    ) -> Account<N> {
        let id = symbol.id();
        Account {
            cash: self.cash.sub(qty.mul(price)).sub(fee),
            positions: broker::positions_after(self.positions, symbol, qty, price),
            ledger: self.ledger.with_fill(self.filled(symbol, name, qty, price, fee, time)),
            commission: self.commission.add(fee),
            used: if counts_volume {
                self.used.insert(id, used_of(self.used, id).add(qty.abs()))
            } else {
                self.used
            },
            fills: self.fills.push(FilledOrder { symbol, quantity: qty, price, fee, time }),
        }
    }
}

/// An order on its way into the market: the price it fills at before slippage,
/// the bar it fills on, and the limit it may not be filled beyond.
pub ghost struct Attempt<N> {
    pub order: Order<N>,
    pub price: N,
    pub bar: Bar<N>,
    pub time: Time,
    pub bound: Option<N>,
}

impl<N: Number> Engine<N> {
    /// Whether executing an order can take the engine from `self` to `after`
    /// and report `filled`: nothing happens where the order comes to nothing;
    /// otherwise it fills, at a price and for a fee the models quote.
    pub open(crate) spec fn executes(self, attempt: Attempt<N>, after: Engine<N>, filled: N)
        -> bool {
        exists|qty: N|
            {
                &&& #[trigger] self.account().resolves(
                    self.prices(),
                    self.ctx.settings,
                    attempt.order,
                    attempt.price,
                    attempt.bar.volume,
                    qty,
                )
                &&& if number::negligible(qty) {
                    after == self && filled == N::zero()
                } else {
                    filled == qty && self.fills(attempt, qty, after)
                }
            }
    }

    /// Whether filling `qty` of an order can take the engine from `self` to
    /// `after`.
    pub open(crate) spec fn fills(self, attempt: Attempt<N>, qty: N, after: Engine<N>) -> bool {
        let fill = FillContext {
            symbol: attempt.order.symbol,
            quantity: qty,
            price: attempt.price,
            bar: &attempt.bar,
        };
        exists|slipped: N, fee: N|
            {
                &&& #[trigger] self.ctx.settings.models.slippage.quotes(&fill, slipped)
                &&& #[trigger] self.ctx.settings.models.commission.charges(&fill, fee)
                &&& after.moved_account(self)
                &&& after.account() == self.account().with_fill(
                    attempt.order.symbol,
                    context::shown_name(self.ctx.names(), attempt.order.symbol.id()),
                    qty,
                    within_limit(slipped, qty, attempt.bound),
                    fee,
                    attempt.time,
                    N::zero().lt(self.ctx.settings.max_volume_participation),
                )
            }
    }
}

/// The quantity an order asks for. See [`asked`].
pub fn asked_qty<N: Number>(kind: OrderKind<N>, equity: N, price: N, lot: N, held: N) -> (r: N)
    ensures
        r == asked(kind, equity, price, lot, held),
{
    match kind {
        OrderKind::Market(qty) => qty,
        OrderKind::SetHoldings(pct) => {
            if !price.equals(N::zero()) {
                let desired = equity.max(N::zero()).mul(pct).div(price);
                let target = desired.div(lot).round().mul(lot);
                target.sub(held)
            } else {
                N::zero()
            }
        },
        OrderKind::Liquidate => held.neg(),
    }
}

/// A quantity cut to what a bar's volume leaves. See [`within_volume`].
pub fn cap_to_volume<N: Number>(qty: N, fraction: N, volume: u64, used: N, lot: N) -> (r: N)
    ensures
        r == within_volume(qty, fraction, volume, used, lot),
{
    if N::zero().lt(fraction) {
        let left = fraction.mul(N::from_u64(volume)).sub(used);
        let cap = whole_lots(left, lot).max(N::zero());
        qty.signum().mul(qty.abs().min(cap))
    } else {
        qty
    }
}

/// What a margin model's answer leaves of a quantity. See [`within_margin`].
pub fn trim_to_margin<N: Number>(qty: N, allowed: N, lot: N) -> (r: N)
    ensures
        r == within_margin(qty, allowed, lot),
{
    let kept = if N::zero().lt(qty) {
        clamp(allowed, N::zero(), qty)
    } else {
        clamp(allowed, qty, N::zero())
    };
    if negligible(kept.sub(qty)) {
        qty
    } else {
        qty.signum().mul(kept.abs().div(lot).trunc()).mul(lot)
    }
}

/// A fill price held to a limit. See [`within_limit`].
pub fn hold_to_limit<N: Number>(price: N, qty: N, bound: Option<N>) -> (r: N)
    ensures
        r == within_limit(price, qty, bound),
{
    match bound {
        Some(limit) => {
            if N::zero().lt(qty) {
                price.min(limit)
            } else {
                price.max(limit)
            }
        },
        None => price,
    }
}

/// The price at which a bar fills a resting order, before slippage, or `None`
/// where its range does not trigger it. See [`trigger_price`].
pub fn resting_fill_price<N: Number>(kind: &RestingKind<N>, qty: N, bar: &Bar<N>) -> (r: Option<N>)
    ensures
        r == trigger_price(*kind, qty, *bar),
{
    match *kind {
        RestingKind::Limit(price) => {
            if N::zero().lt(qty) && bar.low.le(price) {
                Some(price.min(bar.open))
            } else if qty.lt(N::zero()) && price.le(bar.high) {
                Some(price.max(bar.open))
            } else {
                None
            }
        },
        RestingKind::Stop(price) => {
            if N::zero().lt(qty) && price.le(bar.high) {
                Some(price.max(bar.open))
            } else if qty.lt(N::zero()) && bar.low.le(price) {
                Some(price.min(bar.open))
            } else {
                None
            }
        },
    }
}

impl<N: Number> Engine<N> {
    /// Execute one order against the portfolio: resolve its quantity, apply
    /// slippage and commission, and fold the fill into the symbol's open
    /// lifetime.
    ///
    /// `exec_price` is the reference price before slippage; `fill_bar` is the
    /// bar the fill prints against. `limit_bound`, set for resting limit
    /// orders, caps the price after slippage at the limit.
    ///
    /// Returns the signed quantity actually filled, nought if none, which is
    /// less than requested when a cap bites.
    pub fn execute_order(
        &mut self,
        order: &Order<N>,
        exec_price: N,
        fill_bar: &Bar<N>,
        tick_time: Time,
        limit_bound: Option<N>,
    ) -> (r: N)
        ensures
            old(self).executes(
                Attempt {
                    order: *order,
                    price: exec_price,
                    bar: *fill_bar,
                    time: tick_time,
                    bound: limit_bound,
                },
                *final(self),
                r,
            ),
    {
        let qty = self.resolve_order_qty(order, exec_price, fill_bar);
        let ghost before = *self;
        let ghost attempt = Attempt {
            order: *order,
            price: exec_price,
            bar: *fill_bar,
            time: tick_time,
            bound: limit_bound,
        };
        assert(before.account().resolves(
            before.prices(),
            before.ctx.settings,
            attempt.order,
            attempt.price,
            attempt.bar.volume,
            qty,
        ));
        if negligible(qty) {
            assert(before.executes(attempt, *self, N::zero()));
            return N::zero();
        }
        let fill_ctx = FillContext {
            symbol: order.symbol,
            quantity: qty,
            price: exec_price,
            bar: fill_bar,
        };
        // Sizing uses the reference price; slippage only affects the fill,
        // except that a limit order never fills through its limit.
        let slipped = self.ctx.settings.models.slippage.fill_price(&fill_ctx);
        let fee = self.ctx.settings.models.commission.commission(&fill_ctx);
        self.take_fill(
            order.symbol,
            qty,
            hold_to_limit(slipped, qty, limit_bound),
            fee,
            tick_time,
        );
        assert(before.fills(attempt, qty, *self));
        assert(before.executes(attempt, *self, qty));
        qty
    }

    /// An order's signed fill quantity: its own sizing, then the
    /// volume-participation cap, then the margin model's buying-power cap.
    pub fn resolve_order_qty(&self, order: &Order<N>, exec_price: N, fill_bar: &Bar<N>) -> (r: N)
        ensures
            self.account().resolves(
                self.prices(),
                self.context().config(),
                *order,
                exec_price,
                fill_bar.volume,
                r,
            ),
    {
        let settings = &self.ctx.settings;
        let equity = self.ctx.portfolio.total_value(&self.last_known_prices);
        let held = self.ctx.portfolio.quantity(order.symbol);
        let wanted = asked_qty(order.kind, equity, exec_price, settings.lot_size, held);
        let capped = cap_to_volume(
            wanted,
            settings.max_volume_participation,
            fill_bar.volume,
            self.volume_used(order.symbol),
            settings.lot_size,
        );
        if settings.models.margin.unlimited() {
            return capped;
        }
        let proposal = MarginContext {
            symbol: order.symbol,
            quantity: capped,
            price: exec_price,
            current_qty: held,
            cash: self.ctx.portfolio.cash,
            equity,
            other_exposure: self.ctx.portfolio.exposure(&self.last_known_prices, order.symbol),
        };
        let allowed = settings.models.margin.allowed_quantity(&proposal);
        let qty = trim_to_margin(capped, allowed, settings.lot_size);
        proof {
            let account = self.account();
            let config = self.context().config();
            assert(capped == account.asked_within_volume(
                self.prices(),
                config,
                *order,
                exec_price,
                fill_bar.volume,
            ));
            assert(config.models.margin.allows(
                &account.margin_order(self.prices(), order.symbol, capped, exec_price),
                allowed,
            ));
            assert(account.resolves(
                self.prices(),
                config,
                *order,
                exec_price,
                fill_bar.volume,
                qty,
            ));
        }
        qty
    }

    /// The bar volume fills on `symbol` have taken this tick.
    fn volume_used(&self, symbol: Symbol) -> (r: N)
        ensures
            r == used_of(self.participation_used@, symbol.id()),
    {
        match self.participation_used.get(&symbol) {
            Some(used) => *used,
            None => N::zero(),
        }
    }

    /// Take a fill into the account: the volume it took, the list of fills, the
    /// ledger, the position and the cash.
    pub fn take_fill(&mut self, symbol: Symbol, qty: N, price: N, fee: N, time: Time)
        ensures
            final(self).moved_account(*old(self)),
            final(self).account() == old(self).account().with_fill(
                symbol,
                context::shown_name(old(self).context().names(), symbol.id()),
                qty,
                price,
                fee,
                time,
                N::zero().lt(old(self).context().config().max_volume_participation),
            ),
    {
        if N::zero().lt(self.ctx.settings.max_volume_participation) {
            let used = self.volume_used(symbol).add(qty.abs());
            self.participation_used.insert(symbol, used);
        }
        self.total_commission = self.total_commission.add(fee);
        self.fills.push(FilledOrder { symbol, quantity: qty, price, fee, time });
        let held = self.ctx.portfolio.quantity(symbol);
        let basis = self.ctx.portfolio.basis(symbol);
        self.ledger.record_fill(
            symbol,
            self.ctx.symbol_name(symbol),
            held,
            basis,
            qty,
            price,
            fee,
            time,
        );
        self.ctx.portfolio.apply_fill(symbol, qty, price);
        self.ctx.portfolio.cash = self.ctx.portfolio.cash.sub(fee);
    }
}

/// The attempts to fill queued orders at the open of a bar.
pub open spec fn at_open<N: Number>(orders: Seq<Order<N>>, bar: Bar<N>, time: Time) -> Seq<
    Attempt<N>,
> {
    orders.map_values(
        |order: Order<N>| Attempt { order, price: bar.open, bar, time, bound: None },
    )
}

/// The attempt to fill what remains of a resting order at its trigger.
pub open spec fn at_trigger<N: Number>(
    symbol: Symbol,
    order: RestingOrder<N>,
    price: N,
    bar: Bar<N>,
    time: Time,
) -> Attempt<N> {
    Attempt {
        order: Order { symbol, kind: OrderKind::Market(order.qty) },
        price,
        bar,
        time,
        bound: limit_of(order.kind),
    }
}

/// What still rests of an order of which `filled` was filled, behind `kept`.
pub open spec fn keep_rest<N: Number>(
    kept: Seq<RestingOrder<N>>,
    order: RestingOrder<N>,
    filled: N,
) -> Seq<RestingOrder<N>> {
    let left = order.qty.sub(filled);
    if N::epsilon().lt(left.abs()) {
        kept.push(RestingOrder { qty: left, ..order })
    } else {
        kept
    }
}

impl<N: Number> Engine<N> {
    /// Whether executing attempts one after the other can take the engine from
    /// `self` to `after`.
    pub open(crate) spec fn executes_all(self, attempts: Seq<Attempt<N>>, after: Engine<N>) -> bool
        decreases attempts.len(),
    {
        if attempts.len() == 0 {
            after == self
        } else {
            exists|mid: Engine<N>, filled: N|
                self.executes_all(attempts.drop_last(), mid) && #[trigger] mid.executes(
                    attempts.last(),
                    after,
                    filled,
                )
        }
    }

    /// `after` is `self` without the orders deferred for an id.
    pub open(crate) spec fn takes_deferred(self, id: u16, after: Engine<N>) -> bool {
        &&& after == (Engine { books: after.books, ..self })
        &&& after.books.deferred@ == self.books.deferred@.remove(id)
        &&& after.books.resting == self.books.resting
    }

    /// Whether filling the deferred orders of the symbols with a bar can take
    /// the engine from `self` to `after`: bar by bar, each symbol's orders in
    /// the order they were placed, at the open.
    pub open(crate) spec fn fills_deferred(
        self,
        bars: Seq<(Symbol, Bar<N>)>,
        time: Time,
        after: Engine<N>,
    ) -> bool
        decreases bars.len(),
    {
        if bars.len() == 0 {
            after == self
        } else {
            let (symbol, bar) = bars.last();
            exists|mid: Engine<N>, taken: Engine<N>|
                {
                    &&& self.fills_deferred(bars.drop_last(), time, mid)
                    &&& #[trigger] mid.takes_deferred(symbol.id(), taken)
                    &&& taken.executes_all(
                        at_open(queue::queued(mid.books.deferred@, symbol.id()), bar, time),
                        after,
                    )
                }
        }
    }

    /// Whether testing one resting order against a bar can take the engine from
    /// `self`, with `kept` resting on, to `after`, with `left` resting on: if
    /// the bar trades through its trigger it is executed, and what is not
    /// filled of it rests on.
    pub open(crate) spec fn tests_one(
        self,
        kept: Seq<RestingOrder<N>>,
        symbol: Symbol,
        order: RestingOrder<N>,
        bar: Bar<N>,
        time: Time,
        after: Engine<N>,
        left: Seq<RestingOrder<N>>,
    ) -> bool {
        match trigger_price(order.kind, order.qty, bar) {
            Some(price) => exists|filled: N|
                #[trigger] self.executes(
                    at_trigger(symbol, order, price, bar, time),
                    after,
                    filled,
                ) && left == keep_rest(kept, order, filled),
            None => after == self && left == kept.push(order),
        }
    }

    /// Whether testing resting orders against a bar, one after the other, can
    /// take the engine from `self` to `after` and leave `kept` resting.
    pub open(crate) spec fn tests_resting(
        self,
        symbol: Symbol,
        orders: Seq<RestingOrder<N>>,
        bar: Bar<N>,
        time: Time,
        after: Engine<N>,
        kept: Seq<RestingOrder<N>>,
    ) -> bool
        decreases orders.len(),
    {
        if orders.len() == 0 {
            after == self && kept == Seq::<RestingOrder<N>>::empty()
        } else {
            exists|mid: Engine<N>, before: Seq<RestingOrder<N>>|
                {
                    &&& self.tests_resting(symbol, orders.drop_last(), bar, time, mid, before)
                    &&& #[trigger] mid.tests_one(
                        before,
                        symbol,
                        orders.last(),
                        bar,
                        time,
                        after,
                        kept,
                    )
                }
        }
    }

    /// `after` is `self` with the resting orders of an id replaced.
    pub open(crate) spec fn puts_resting(
        self,
        id: u16,
        orders: Seq<RestingOrder<N>>,
        after: Engine<N>,
    ) -> bool {
        &&& after == (Engine { books: after.books, ..self })
        &&& after.books.resting@ == queue::with_queue(self.books.resting@, id, orders)
        &&& after.books.deferred == self.books.deferred
    }

    /// Whether testing the resting orders of the symbols with a bar can take
    /// the engine from `self` to `after`, bar by bar.
    pub open(crate) spec fn fills_resting(
        self,
        bars: Seq<(Symbol, Bar<N>)>,
        time: Time,
        after: Engine<N>,
    ) -> bool
        decreases bars.len(),
    {
        if bars.len() == 0 {
            after == self
        } else {
            let (symbol, bar) = bars.last();
            exists|mid: Engine<N>, tested: Engine<N>, kept: Seq<RestingOrder<N>>|
                {
                    &&& self.fills_resting(bars.drop_last(), time, mid)
                    &&& #[trigger] mid.tests_resting(
                        symbol,
                        queue::queued(mid.books.resting@, symbol.id()),
                        bar,
                        time,
                        tested,
                        kept,
                    )
                    &&& tested.puts_resting(symbol.id(), kept, after)
                }
        }
    }

    /// `after` is `self` with an order deferred to its symbol's next bar.
    pub open(crate) spec fn defers(self, order: Order<N>, after: Engine<N>) -> bool {
        &&& after == (Engine { books: after.books, ..self })
        &&& after.books.deferred@ == self.books.deferred@.insert(
            order.symbol.id(),
            queue::queued(self.books.deferred@, order.symbol.id()).push(order),
        )
        &&& after.books.resting == self.books.resting
    }

    /// Whether routing a newly placed order can take the engine from `self` to
    /// `after`: it fills at the close of its symbol's bar, or is deferred to its
    /// next one where that is the timing or there is no bar.
    pub open(crate) spec fn routes_one(
        self,
        order: Order<N>,
        bars: Map<u16, Bar<N>>,
        time: Time,
        after: Engine<N>,
    ) -> bool {
        if self.ctx.settings.fill_timing == FillTiming::CurrentBarClose && bars.contains_key(
            order.symbol.id(),
        ) {
            let bar = bars[order.symbol.id()];
            exists|filled: N| #[trigger]
                self.executes(
                    Attempt { order, price: bar.close, bar, time, bound: None },
                    after,
                    filled,
                )
        } else {
            self.defers(order, after)
        }
    }

    /// Whether routing newly placed orders, one after the other, can take the
    /// engine from `self` to `after`.
    pub open(crate) spec fn routes(
        self,
        orders: Seq<Order<N>>,
        bars: Map<u16, Bar<N>>,
        time: Time,
        after: Engine<N>,
    ) -> bool
        decreases orders.len(),
    {
        if orders.len() == 0 {
            after == self
        } else {
            exists|mid: Engine<N>|
                self.routes(orders.drop_last(), bars, time, mid) && #[trigger] mid.routes_one(
                    orders.last(),
                    bars,
                    time,
                    after,
                )
        }
    }

    /// `after` is `self` with its newly placed orders taken out.
    pub open(crate) spec fn hands_over(self, after: Engine<N>) -> bool {
        &&& after == (Engine {
            ctx: Context {
                pending_orders: after.ctx.pending_orders,
                resting_orders: after.ctx.resting_orders,
                ..self.ctx
            },
            ..self
        })
        &&& after.ctx.pending_orders@ == Seq::<Order<N>>::empty()
        &&& after.ctx.resting_orders@ == Seq::<RestingOrder<N>>::empty()
    }

    /// `after` is `self` with resting orders booked, each behind those of its
    /// symbol.
    pub open(crate) spec fn books_resting(self, orders: Seq<RestingOrder<N>>, after: Engine<N>)
        -> bool {
        &&& after == (Engine { books: after.books, ..self })
        &&& after.books.resting@ == booked(self.books.resting@, orders)
        &&& after.books.deferred == self.books.deferred
    }

    /// Whether routing all that the strategy placed can take the engine from
    /// `self` to `after`.
    pub open(crate) spec fn routes_new(
        self,
        bars: Map<u16, Bar<N>>,
        time: Time,
        after: Engine<N>,
    ) -> bool {
        exists|taken: Engine<N>, routed: Engine<N>|
            {
                &&& #[trigger] self.hands_over(taken)
                &&& #[trigger] taken.routes(self.ctx.pending_orders@, bars, time, routed)
                &&& routed.books_resting(self.ctx.resting_orders@, after)
            }
    }
}

/// Resting orders booked, each behind those of its symbol.
pub open spec fn booked<N>(
    book: Map<u16, Seq<RestingOrder<N>>>,
    orders: Seq<RestingOrder<N>>,
) -> Map<u16, Seq<RestingOrder<N>>>
    decreases orders.len(),
{
    if orders.len() == 0 {
        book
    } else {
        let before = booked(book, orders.drop_last());
        let order = orders.last();
        before.insert(
            order.symbol.id(),
            queue::queued(before, order.symbol.id()).push(order),
        )
    }
}

impl<N: Number> Engine<N> {
    /// Realize orders that were held over to a symbol's next bar at this bar's
    /// open, before the marks advance and before the strategy sees the bar:
    /// sizing values the portfolio at the prior closes the orders were decided
    /// on.
    pub fn fill_deferred(&mut self, bars: &Vec<(Symbol, Bar<N>)>, tick_time: Time)
        ensures
            final(self).told() == old(self).told(),
            old(self).fills_deferred(bars@, tick_time, *final(self)),
    {
        let ghost start = *self;
        assert(bars@.take(0) =~= Seq::<(Symbol, Bar<N>)>::empty());
        for i in 0..bars.len()
            invariant
                self.told() == start.told(),
                start.fills_deferred(bars@.take(i as int), tick_time, *self),
        {
            let (symbol, bar) = bars[i];
            let ghost mid = *self;
            let orders = self.books.deferred.take(symbol);
            let ghost taken = *self;
            let ghost attempts = at_open(orders@, bar, tick_time);
            assert(attempts.take(0) =~= Seq::<Attempt<N>>::empty());
            for j in 0..orders.len()
                invariant
                    self.told() == start.told(),
                    attempts == at_open(orders@, bar, tick_time),
                    taken.executes_all(attempts.take(j as int), *self),
            {
                let ghost before = *self;
                let filled = self.execute_order(&orders[j], bar.open, &bar, tick_time, None);
                proof {
                    assert(attempts.take(j + 1).drop_last() =~= attempts.take(j as int));
                    assert(before.executes(attempts.take(j + 1).last(), *self, filled));
                    assert(taken.executes_all(attempts.take(j + 1), *self));
                }
            }
            proof {
                assert(attempts.take(attempts.len() as int) =~= attempts);
                assert(bars@.take(i + 1).drop_last() =~= bars@.take(i as int));
                assert(bars@.take(i + 1).last() == (symbol, bar));
                assert(mid.takes_deferred(symbol.id(), taken));
                assert(start.fills_deferred(bars@.take(i + 1), tick_time, *self));
            }
        }
        assert(bars@.take(bars@.len() as int) =~= bars@);
    }

    /// Fill, possibly partially, any resting order whose trigger this bar's
    /// range trades through; the remainder rests on. Decided on prior bars, so
    /// filling here is not look-ahead.
    pub fn fill_resting(&mut self, bars: &Vec<(Symbol, Bar<N>)>, tick_time: Time)
        ensures
            final(self).told() == old(self).told(),
            old(self).fills_resting(bars@, tick_time, *final(self)),
    {
        let ghost start = *self;
        assert(bars@.take(0) =~= Seq::<(Symbol, Bar<N>)>::empty());
        for i in 0..bars.len()
            invariant
                self.told() == start.told(),
                start.fills_resting(bars@.take(i as int), tick_time, *self),
        {
            let (symbol, bar) = bars[i];
            let ghost mid = *self;
            self.test_resting(symbol, &bar, tick_time);
            proof {
                assert(bars@.take(i + 1).drop_last() =~= bars@.take(i as int));
                assert(bars@.take(i + 1).last() == (symbol, bar));
                assert(start.fills_resting(bars@.take(i + 1), tick_time, *self));
            }
        }
        assert(bars@.take(bars@.len() as int) =~= bars@);
    }

    /// Test the resting orders of one symbol against its bar.
    fn test_resting(&mut self, symbol: Symbol, bar: &Bar<N>, tick_time: Time)
        ensures
            final(self).told() == old(self).told(),
            exists|tested: Engine<N>, kept: Seq<RestingOrder<N>>|
                {
                    &&& #[trigger] old(self).tests_resting(
                        symbol,
                        queue::queued(old(self).books.resting@, symbol.id()),
                        *bar,
                        tick_time,
                        tested,
                        kept,
                    )
                    &&& tested.puts_resting(symbol.id(), kept, *final(self))
                },
    {
        let ghost start = *self;
        let orders = self.books.resting.copied(symbol);
        let mut kept: Vec<RestingOrder<N>> = Vec::new();
        assert(orders@.take(0) =~= Seq::<RestingOrder<N>>::empty());
        for j in 0..orders.len()
            invariant
                self.told() == start.told(),
                start.tests_resting(
                    symbol,
                    orders@.take(j as int),
                    *bar,
                    tick_time,
                    *self,
                    kept@,
                ),
        {
            let order = orders[j];
            let ghost before = *self;
            let ghost kept_before = kept@;
            match resting_fill_price(&order.kind, order.qty, bar) {
                Some(price) => {
                    let market = Order { symbol, kind: OrderKind::Market(order.qty) };
                    let bound = match order.kind {
                        RestingKind::Limit(limit) => Some(limit),
                        RestingKind::Stop(_) => None,
                    };
                    let filled = self.execute_order(&market, price, bar, tick_time, bound);
                    let left = order.qty.sub(filled);
                    if N::epsilon().lt(left.abs()) {
                        kept.push(
                            RestingOrder { symbol: order.symbol, qty: left, kind: order.kind },
                        );
                    }
                    proof {
                        assert(before.executes(
                            at_trigger(symbol, order, price, *bar, tick_time),
                            *self,
                            filled,
                        ));
                        assert(kept@ == keep_rest(kept_before, order, filled));
                    }
                },
                None => {
                    kept.push(order);
                },
            }
            proof {
                assert(orders@.take(j + 1).drop_last() =~= orders@.take(j as int));
                assert(orders@.take(j + 1).last() == order);
                assert(before.tests_one(
                    kept_before,
                    symbol,
                    order,
                    *bar,
                    tick_time,
                    *self,
                    kept@,
                ));
                assert(start.tests_resting(
                    symbol,
                    orders@.take(j + 1),
                    *bar,
                    tick_time,
                    *self,
                    kept@,
                ));
            }
        }
        assert(orders@.take(orders@.len() as int) =~= orders@);
        let ghost tested = *self;
        self.books.resting.put(symbol, kept);
        assert(tested.puts_resting(symbol.id(), kept@, *self));
    }

    /// Route the orders the strategy placed this bar according to the fill
    /// timing, and book any new resting orders, which start filling from the
    /// symbol's next bar.
    pub fn route_new_orders(&mut self, slice: &Slice<N>, tick_time: Time)
        ensures
            final(self).told() == old(self).told(),
            old(self).routes_new(slice.bars@, tick_time, *final(self)),
    {
        let ghost start = *self;
        let mut orders: Vec<Order<N>> = Vec::new();
        std::mem::swap(&mut orders, &mut self.ctx.pending_orders);
        let mut resting: Vec<RestingOrder<N>> = Vec::new();
        std::mem::swap(&mut resting, &mut self.ctx.resting_orders);
        let ghost taken = *self;
        assert(start.hands_over(taken));
        assert(orders@.take(0) =~= Seq::<Order<N>>::empty());
        for i in 0..orders.len()
            invariant
                self.told() == start.told(),
                taken.routes(orders@.take(i as int), slice.bars@, tick_time, *self),
        {
            let order = orders[i];
            let ghost before = *self;
            let at_close: bool = self.ctx.settings.fill_timing == FillTiming::CurrentBarClose;
            match slice.bars.get(&order.symbol) {
                Some(bar) if at_close => {
                    // The marks have already advanced to this tick's closes,
                    // so held symbols without a bar are valued at their latest
                    // market price for sizing.
                    let bar = *bar;
                    let filled = self.execute_order(&order, bar.close, &bar, tick_time, None);
                    assert(before.executes(
                        Attempt { order, price: bar.close, bar, time: tick_time, bound: None },
                        *self,
                        filled,
                    ));
                },
                _ => {
                    self.books.deferred.push(order.symbol, order);
                    assert(before.defers(order, *self));
                },
            }
            proof {
                assert(orders@.take(i + 1).drop_last() =~= orders@.take(i as int));
                assert(orders@.take(i + 1).last() == order);
                assert(before.routes_one(order, slice.bars@, tick_time, *self));
                assert(taken.routes(orders@.take(i + 1), slice.bars@, tick_time, *self));
            }
        }
        assert(orders@.take(orders@.len() as int) =~= orders@);
        let ghost routed = *self;
        assert(resting@.take(0) =~= Seq::<RestingOrder<N>>::empty());
        for i in 0..resting.len()
            invariant
                self.told() == start.told(),
                routed.books_resting(resting@.take(i as int), *self),
        {
            let order = resting[i];
            self.books.resting.push(order.symbol, order);
            proof {
                assert(resting@.take(i + 1).drop_last() =~= resting@.take(i as int));
            }
        }
        assert(resting@.take(resting@.len() as int) =~= resting@);
    }
}

} // verus!
