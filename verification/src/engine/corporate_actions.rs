//! Day-boundary work: splits, dividends, ticker renames, financing accrual,
//! and the delisting scan. All of it runs once per calendar date, after the
//! previous day's equity mark and before the new day's bars touch anything.

use std::collections::VecDeque;

use vstd::prelude::*;

use crate::bar::Bar;
use crate::broker;
use crate::broker::{price_or, Position};
use crate::calendar::Time;
use crate::context;
use crate::context::{Context, Order, OrderKind, RestingKind, RestingOrder};
use crate::engine::ledger::{LedgerView, OpenLifetime};
use crate::engine::state::{Account, Clock, Engine, OrderBooks};
use crate::number;
use crate::number::{negligible, whole_lots, Number};
use crate::queue;
use crate::symbol;
use crate::symbol::Symbol;

verus! {

// ----------------------------------------------------------------- splits
/// A bar in post-split terms.
pub open spec fn split_bar<N: Number>(bar: Bar<N>, ratio: N) -> Bar<N> {
    Bar {
        time: bar.time,
        open: bar.open.div(ratio),
        high: bar.high.div(ratio),
        low: bar.low.div(ratio),
        close: bar.close.div(ratio),
        volume: N::from_u64(bar.volume).mul(ratio).round().to_u64(),
    }
}

/// A resting order in post-split terms.
pub open spec fn split_resting<N: Number>(order: RestingOrder<N>, ratio: N) -> RestingOrder<N> {
    RestingOrder {
        symbol: order.symbol,
        qty: order.qty.mul(ratio),
        kind: match order.kind {
            RestingKind::Limit(price) => RestingKind::Limit(price.div(ratio)),
            RestingKind::Stop(price) => RestingKind::Stop(price.div(ratio)),
        },
    }
}

/// A deferred order in post-split terms. Only a number of shares changes.
pub open spec fn split_deferred<N: Number>(order: Order<N>, ratio: N) -> Order<N> {
    Order {
        symbol: order.symbol,
        kind: match order.kind {
            OrderKind::Market(qty) => OrderKind::Market(qty.mul(ratio)),
            kind => kind,
        },
    }
}

/// The last known prices with that of an id in post-split terms.
pub open spec fn split_prices<N: Number>(prices: Seq<Option<N>>, id: u16, ratio: N) -> Seq<
    Option<N>,
> {
    match broker::mark(prices, id) {
        Some(price) => prices.update(id as int, Some(price.div(ratio))),
        None => prices,
    }
}

/// The queues with that of an id mapped item by item.
pub open spec fn mapped_queue<T>(queues: Map<u16, Seq<T>>, id: u16, f: spec_fn(T) -> T) -> Map<
    u16,
    Seq<T>,
> {
    queue::with_queue(queues, id, queue::queued(queues, id).map_values(f))
}

impl<N: Number> LedgerView<N> {
    /// The ledger with the lifetime under an id in post-split shares, if there
    /// is one.
    pub open spec fn with_rescaled(self, id: u16, ratio: N) -> LedgerView<N> {
        if self.lifetimes.contains_key(id) {
            self.with_lifetime(id, self.lifetimes[id].rescaled(ratio))
        } else {
            self
        }
    }
}

impl<N: Number> Account<N> {
    /// The account after a split: the lifetime in post-split shares, and the
    /// position likewise.
    pub open spec fn with_split(
        self,
        symbol: Symbol,
        name: Seq<char>,
        ratio: N,
        prices: Seq<Option<N>>,
        lot: N,
        time: Time,
    ) -> Account<N> {
        Account {
            ledger: self.ledger.with_rescaled(symbol.id(), ratio),
            ..self
        }.with_split_position(symbol, name, ratio, prices, lot, time)
    }

    /// The account with a position split: quantity times ratio, basis over
    /// ratio. What a whole lot does not hold is cashed out in lieu at the
    /// (post-split) last known price; a position that leaves nothing is over.
    pub open spec fn with_split_position(
        self,
        symbol: Symbol,
        name: Seq<char>,
        ratio: N,
        prices: Seq<Option<N>>,
        lot: N,
        time: Time,
    ) -> Account<N> {
        let id = symbol.id();
        if !self.positions.contains_key(id) {
            self
        } else {
            let position = self.positions[id];
            let quantity = position.quantity.mul(ratio);
            let basis = position.avg_price.div(ratio);
            let rounded = number::whole_lots(quantity, lot);
            let residual = quantity.sub(rounded);
            if number::negligible(residual) {
                Account {
                    positions: self.positions.insert(
                        id,
                        Position { quantity, avg_price: basis, ..position },
                    ),
                    ..self
                }
            } else {
                let price = broker::mark_or(prices, id, basis);
                let cashed = cash_in_lieu(self.ledger, id, residual, price, basis);
                Account {
                    cash: self.cash.add(residual.mul(price)),
                    positions: if number::negligible(rounded) {
                        self.positions.remove(id)
                    } else {
                        self.positions.insert(
                            id,
                            Position { quantity: rounded, avg_price: basis, ..position },
                        )
                    },
                    ledger: if number::negligible(rounded) {
                        cashed.with_closed(id, name, time, "split"@)
                    } else {
                        cashed
                    },
                    ..self
                }
            }
        }
    }
}

/// The ledger with a fractional remainder unwound at `price`, if its lifetime
/// is open.
pub open spec fn cash_in_lieu<N: Number>(
    ledger: LedgerView<N>,
    id: u16,
    residual: N,
    price: N,
    basis: N,
) -> LedgerView<N> {
    if ledger.lifetimes.contains_key(id) {
        ledger.with_lifetime(
            id,
            ledger.lifetimes[id].unwound(
                residual.abs(),
                price,
                price.sub(basis).mul(residual.abs()).mul(residual.signum()),
            ),
        )
    } else {
        ledger
    }
}

impl<N: Number> Engine<N> {
    /// `after` is `self` once a split on `symbol` has executed: its window, its
    /// last known price, its waiting orders and its position are in post-split
    /// terms.
    pub open(crate) spec fn splits(
        self,
        symbol: Symbol,
        ratio: N,
        time: Time,
        after: Engine<N>,
    ) -> bool {
        let id = symbol.id();
        &&& after == (Engine {
            ctx: Context {
                portfolio: after.ctx.portfolio,
                history_store: after.ctx.history_store,
                ..self.ctx
            },
            ledger: after.ledger,
            last_known_prices: after.last_known_prices,
            books: after.books,
            ..self
        })
        &&& after.account() == self.account().with_split(
            symbol,
            context::shown_name(self.ctx.names(), id),
            ratio,
            split_prices(self.prices(), id, ratio),
            self.ctx.settings.lot_size,
            time,
        )
        &&& after.prices() == split_prices(self.prices(), id, ratio)
        &&& after.books.resting@ == mapped_queue(
            self.books.resting@,
            id,
            |order: RestingOrder<N>| split_resting(order, ratio),
        )
        &&& after.books.deferred@ == mapped_queue(
            self.books.deferred@,
            id,
            |order: Order<N>| split_deferred(order, ratio),
        )
        &&& forall|other: u16| #[trigger]
            after.ctx.bars_of(other) == if other == id {
                self.ctx.bars_of(id).map_values(|bar: Bar<N>| split_bar(bar, ratio))
            } else {
                self.ctx.bars_of(other)
            }
    }

    /// Apply a split that executed on `symbol`: rescale the held position, the
    /// open lifetime, the stored history, the last known price, and any
    /// not-yet-filled orders into post-split terms. Bar prices in slices are
    /// never adjusted. A fractional remainder against the lot size is cashed
    /// out in lieu at the last known price.
    pub fn apply_split(&mut self, symbol: Symbol, ratio: N, tick_time: Time)
        ensures
            old(self).splits(symbol, ratio, tick_time, *final(self)),
    {
        let ghost start = *self;
        self.rescale_history(symbol, ratio);
        let ghost scaled = *self;
        if let Some(price) = self.last_known_prices.copied(symbol) {
            self.last_known_prices.set(symbol, Some(price.div(ratio)));
        }
        assert(self.prices() =~= split_prices(start.prices(), symbol.id(), ratio));
        self.rescale_orders(symbol, ratio);
        let open = self.ledger.get(symbol);
        if let Some(lifetime) = open {
            // The cash figures are already invariant.
            let mut lifetime = lifetime;
            lifetime.entry_qty = lifetime.entry_qty.mul(ratio);
            lifetime.closed_qty = lifetime.closed_qty.mul(ratio);
            self.ledger.lifetimes.insert(symbol, lifetime);
        }
        self.split_position(symbol, ratio, tick_time);
        assert forall|other: u16| #[trigger]
            self.ctx.bars_of(other) == if other == symbol.id() {
                start.ctx.bars_of(symbol.id()).map_values(|bar: Bar<N>| split_bar(bar, ratio))
            } else {
                start.ctx.bars_of(other)
            } by {
            assert(self.ctx.bars_of(other) == scaled.ctx.bars_of(other));
        }
    }

    /// Rescale the position, and cash out what a whole lot does not hold.
    fn split_position(&mut self, symbol: Symbol, ratio: N, tick_time: Time)
        ensures
            *final(self) == (Engine {
                ctx: Context { portfolio: final(self).ctx.portfolio, ..old(self).ctx },
                ledger: final(self).ledger,
                ..*old(self)
            }),
            final(self).account() == old(self).account().with_split_position(
                symbol,
                context::shown_name(old(self).ctx.names(), symbol.id()),
                ratio,
                old(self).prices(),
                old(self).ctx.settings.lot_size,
                tick_time,
            ),
    {
        let position: Position<N> = match self.ctx.portfolio.get(symbol) {
            Some(position) => *position,
            None => {
                return;
            },
        };
        let lot = self.ctx.settings.lot_size;
        let quantity = position.quantity.mul(ratio);
        let basis = position.avg_price.div(ratio);
        let rounded = whole_lots(quantity, lot);
        let residual = quantity.sub(rounded);
        if negligible(residual) {
            self.ctx.portfolio.positions.insert(
                symbol,
                Position { symbol: position.symbol, quantity, avg_price: basis },
            );
            return;
        }
        let price = price_or(&self.last_known_prices, symbol, basis);
        self.ctx.portfolio.cash = self.ctx.portfolio.cash.add(residual.mul(price));
        let open = self.ledger.get(symbol);
        if open.is_some() {
            self.ledger.unwind(
                symbol,
                tick_time,
                residual.signum(),
                residual.abs(),
                price,
                price.sub(basis).mul(residual.abs()).mul(residual.signum()),
            );
        }
        if negligible(rounded) {
            // The whole position was cashed out: the lifetime is over.
            self.ctx.portfolio.positions.remove(&symbol);
            self.ledger.close_lifetime(
                symbol,
                self.ctx.symbol_name(symbol),
                tick_time,
                "split",
            );
        } else {
            self.ctx.portfolio.positions.insert(
                symbol,
                Position { symbol: position.symbol, quantity: rounded, avg_price: basis },
            );
        }
    }

    /// Rescale the stored window of `symbol`.
    fn rescale_history(&mut self, symbol: Symbol, ratio: N)
        ensures
            *final(self) == (Engine {
                ctx: Context { history_store: final(self).ctx.history_store, ..old(self).ctx },
                ..*old(self)
            }),
            forall|other: u16| #[trigger]
                final(self).ctx.bars_of(other) == if other == symbol.id() {
                    old(self).ctx.bars_of(other).map_values(|bar: Bar<N>| split_bar(bar, ratio))
                } else {
                    old(self).ctx.bars_of(other)
                },
    {
        let ghost before = self.ctx;
        match self.ctx.history_store.remove(&symbol) {
            Some(bars) => {
                let mut scaled: VecDeque<Bar<N>> = VecDeque::new();
                for i in 0..bars.len()
                    invariant
                        scaled@ =~= bars@.take(i as int).map_values(
                            |bar: Bar<N>| split_bar(bar, ratio),
                        ),
                {
                    let bar = bars[i];
                    scaled.push_back(
                        Bar {
                            time: bar.time,
                            open: bar.open.div(ratio),
                            high: bar.high.div(ratio),
                            low: bar.low.div(ratio),
                            close: bar.close.div(ratio),
                            volume: N::from_u64(bar.volume).mul(ratio).round().to_u64(),
                        },
                    );
                }
                assert(bars@.take(bars@.len() as int) =~= bars@);
                self.ctx.history_store.insert(symbol, scaled);
            },
            None => {
                assert(before.bars_of(symbol.id()).map_values(
                    |bar: Bar<N>| split_bar(bar, ratio),
                ) =~= Seq::<Bar<N>>::empty());
            },
        }
    }

    /// Rescale the waiting orders of `symbol`, so they do not spuriously fire,
    /// or silently die, against the post-split tape.
    fn rescale_orders(&mut self, symbol: Symbol, ratio: N)
        ensures
            *final(self) == (Engine { books: final(self).books, ..*old(self) }),
            final(self).books.resting@ == mapped_queue(
                old(self).books.resting@,
                symbol.id(),
                |order: RestingOrder<N>| split_resting(order, ratio),
            ),
            final(self).books.deferred@ == mapped_queue(
                old(self).books.deferred@,
                symbol.id(),
                |order: Order<N>| split_deferred(order, ratio),
            ),
    {
        let resting = self.books.resting.copied(symbol);
        let mut scaled: Vec<RestingOrder<N>> = Vec::new();
        for i in 0..resting.len()
            invariant
                scaled@ =~= resting@.take(i as int).map_values(
                    |order: RestingOrder<N>| split_resting(order, ratio),
                ),
        {
            let order = resting[i];
            scaled.push(
                RestingOrder {
                    symbol: order.symbol,
                    qty: order.qty.mul(ratio),
                    kind: match order.kind {
                        RestingKind::Limit(price) => RestingKind::Limit(price.div(ratio)),
                        RestingKind::Stop(price) => RestingKind::Stop(price.div(ratio)),
                    },
                },
            );
        }
        assert(resting@.take(resting@.len() as int) =~= resting@);
        self.books.resting.put(symbol, scaled);

        let deferred = self.books.deferred.copied(symbol);
        let mut scaled: Vec<Order<N>> = Vec::new();
        for i in 0..deferred.len()
            invariant
                scaled@ =~= deferred@.take(i as int).map_values(
                    |order: Order<N>| split_deferred(order, ratio),
                ),
        {
            let order = deferred[i];
            scaled.push(
                Order {
                    symbol: order.symbol,
                    kind: match order.kind {
                        OrderKind::Market(qty) => OrderKind::Market(qty.mul(ratio)),
                        kind => kind,
                    },
                },
            );
        }
        assert(deferred@.take(deferred@.len() as int) =~= deferred@);
        self.books.deferred.put(symbol, scaled);
    }
}

// -------------------------------------------------------------- dividends
impl<N: Number> Account<N> {
    /// The account after a cash dividend: credited on what is held (debited on
    /// a short), and attributed to the open lifetime.
    pub open spec fn with_dividend(self, id: u16, amount: N) -> Account<N> {
        if self.positions.contains_key(id) {
            let paid = self.positions[id].quantity.mul(amount);
            Account { cash: self.cash.add(paid), ledger: self.ledger.with_credit(id, paid), ..self }
        } else {
            self
        }
    }
}

impl<N: Number> Engine<N> {
    /// `after` is `self` once a dividend on `symbol` has been paid.
    pub open(crate) spec fn pays(self, symbol: Symbol, amount: N, after: Engine<N>) -> bool {
        &&& after.moved_account(self)
        &&& after.account() == self.account().with_dividend(symbol.id(), amount)
    }

    /// Whether `symbol` is held.
    pub open(crate) spec fn holds(self, symbol: Symbol) -> bool {
        self.account().positions.contains_key(symbol.id())
    }

    /// Apply a cash dividend that went ex on `symbol`. Symbols not held on the
    /// ex-date pay nothing. Returns whether a dividend was paid.
    pub fn apply_dividend(&mut self, symbol: Symbol, amount: N) -> (r: bool)
        ensures
            r == old(self).holds(symbol),
            old(self).pays(symbol, amount, *final(self)),
            !r ==> *final(self) == *old(self),
    {
        let qty = match self.ctx.portfolio.get(symbol) {
            Some(position) => position.quantity,
            None => {
                return false;
            },
        };
        let paid = qty.mul(amount);
        self.ctx.portfolio.cash = self.ctx.portfolio.cash.add(paid);
        self.ledger.credit(symbol, paid);
        true
    }
}

// ---------------------------------------------------------------- renames
/// Two positions in one symbol: the quantities added, and the basis that
/// keeps their unrealized PnL when they point the same way.
pub open spec fn merged_position<N: Number>(
    existing: Position<N>,
    moved: Position<N>,
) -> Position<N> {
    let total = existing.quantity.add(moved.quantity);
    Position {
        symbol: existing.symbol,
        quantity: total,
        avg_price: if number::negligible(total) {
            N::zero()
        } else if existing.quantity.signum().equals(moved.quantity.signum()) {
            existing.quantity.mul(existing.avg_price).add(
                moved.quantity.mul(moved.avg_price),
            ).div(total)
        } else if moved.quantity.abs().le(existing.quantity.abs()) {
            existing.avg_price
        } else {
            moved.avg_price
        },
    }
}

/// The positions with that of `from` moved to `to`.
pub open spec fn renamed_positions<N: Number>(
    positions: Map<u16, Position<N>>,
    from: Symbol,
    to: Symbol,
) -> Map<u16, Position<N>> {
    if !positions.contains_key(from.id()) {
        positions
    } else {
        let moved = Position { symbol: to, ..positions[from.id()] };
        let rest = positions.remove(from.id());
        let merged = if rest.contains_key(to.id()) {
            merged_position(Position { symbol: to, ..rest[to.id()] }, moved)
        } else {
            moved
        };
        if N::epsilon().lt(merged.quantity.abs()) {
            rest.insert(to.id(), merged)
        } else {
            rest.remove(to.id())
        }
    }
}

impl<N: Number> LedgerView<N> {
    /// The ledger with the lifetime of one id moved to another, or folded into
    /// the one that is open there.
    pub open spec fn with_rename(self, from: u16, to: u16) -> LedgerView<N> {
        if !self.lifetimes.contains_key(from) {
            self
        } else {
            let rest = self.lifetimes.remove(from);
            let moved = self.lifetimes[from];
            LedgerView {
                lifetimes: rest.insert(
                    to,
                    if rest.contains_key(to) {
                        rest[to].merged(moved)
                    } else {
                        moved
                    },
                ),
                ..self
            }
        }
    }
}

impl<N: Number> Account<N> {
    /// The account after a rename: no cash moves and no trade is emitted.
    pub open spec fn with_rename(self, from: Symbol, to: Symbol) -> Account<N> {
        Account {
            positions: renamed_positions(self.positions, from, to),
            ledger: self.ledger.with_rename(from.id(), to.id()),
            ..self
        }
    }
}

/// What a table says of an id, nothing past its end.
pub open spec fn entry_of<T>(table: Seq<Option<T>>, id: u16) -> Option<T> {
    if id < table.len() {
        table[id as int]
    } else {
        None
    }
}

/// The last price known after a rename: that of `from` goes to `to`, unless it
/// has one.
pub open spec fn renamed_price<N>(prices: Seq<Option<N>>, from: u16, to: u16, id: u16) -> Option<
    N,
> {
    if id == from {
        None
    } else if id == to && broker::mark(prices, to) is None {
        broker::mark(prices, from)
    } else {
        broker::mark(prices, id)
    }
}

/// The day last seen after a rename: `to` was seen on the later of the two.
pub open spec fn renamed_day(seen: Seq<Option<u64>>, from: u16, to: u16, id: u16) -> Option<u64> {
    if id == from {
        None
    } else if id == to {
        match (entry_of(seen, from), entry_of(seen, to)) {
            (Some(a), Some(b)) => Some(
                if a > b {
                    a
                } else {
                    b
                },
            ),
            (Some(a), None) => Some(a),
            (None, b) => b,
        }
    } else {
        entry_of(seen, id)
    }
}

/// The resting orders of `from` in the name of `to`, behind its own.
pub open spec fn renamed_resting<N>(
    book: Map<u16, Seq<RestingOrder<N>>>,
    from: Symbol,
    to: Symbol,
) -> Map<u16, Seq<RestingOrder<N>>> {
    let moved = queue::queued(book, from.id()).map_values(
        |order: RestingOrder<N>| RestingOrder { symbol: to, ..order },
    );
    let rest = book.remove(from.id());
    queue::with_queue(rest, to.id(), queue::queued(rest, to.id()) + moved)
}

impl<N: Number> Engine<N> {
    /// `after` is `self` once `from` has been renamed `to`: the position, the
    /// lifetime, the window, the last known price, the day last seen and the
    /// resting orders have moved.
    pub open(crate) spec fn renames(self, from: Symbol, to: Symbol, after: Engine<N>) -> bool {
        if from == to {
            after == self
        } else {
            &&& after == (Engine {
                ctx: Context {
                    portfolio: after.ctx.portfolio,
                    history_store: after.ctx.history_store,
                    ..self.ctx
                },
                ledger: after.ledger,
                last_known_prices: after.last_known_prices,
                books: OrderBooks { resting: after.books.resting, ..self.books },
                clock: Clock { last_seen_day: after.clock.last_seen_day, ..self.clock },
                ..self
            })
            &&& after.account() == self.account().with_rename(from, to)
            &&& forall|id: u16| #[trigger]
                broker::mark(after.prices(), id) == renamed_price(
                    self.prices(),
                    from.id(),
                    to.id(),
                    id,
                )
            &&& forall|id: u16| #[trigger]
                entry_of(after.clock.last_seen_day@, id) == renamed_day(
                    self.clock.last_seen_day@,
                    from.id(),
                    to.id(),
                    id,
                )
            &&& after.books.resting@ == renamed_resting(self.books.resting@, from, to)
            &&& forall|id: u16| #[trigger]
                after.ctx.bars_of(id) == if id == from.id() {
                    Seq::<Bar<N>>::empty()
                } else if id == to.id() && self.ctx.bars_of(to.id()).len() == 0 {
                    self.ctx.bars_of(from.id())
                } else {
                    self.ctx.bars_of(id)
                }
        }
    }

    /// Transfer all state for a renamed symbol from `from` to `to`. No cash
    /// moves and no trade is emitted: a rename is a relabeling, not a round
    /// trip.
    pub fn apply_rename(&mut self, from: Symbol, to: Symbol)
        ensures
            old(self).renames(from, to, *final(self)),
    {
        broadcast use symbol::group_symbol;

        if from == to {
            return;
        }
        let ghost start = *self;
        assert(from.id() != to.id());
        self.rename_history(from, to);
        let ghost moved = *self;
        if let Some(price) = self.last_known_prices.take(from) {
            if self.last_known_prices.copied(to).is_none() {
                self.last_known_prices.set(to, Some(price));
            }
        }
        if let Some(day) = self.clock.last_seen_day.take(from) {
            let later: u64 = match self.clock.last_seen_day.copied(to) {
                Some(seen) => if seen > day {
                    seen
                } else {
                    day
                },
                None => day,
            };
            self.clock.last_seen_day.set(to, Some(later));
        }
        self.rename_resting(from, to);
        self.rename_position(from, to);
        let gone = self.ledger.lifetimes.remove(&from);
        match gone {
            Some(lifetime) => {
                let merged = match self.ledger.get(to) {
                    Some(existing) => OpenLifetime {
                        entry_time: existing.entry_time,
                        direction: existing.direction,
                        entry_qty: existing.entry_qty.add(lifetime.entry_qty),
                        entry_value: existing.entry_value.add(lifetime.entry_value),
                        closed_qty: existing.closed_qty.add(lifetime.closed_qty),
                        close_value: existing.close_value.add(lifetime.close_value),
                        realized_pnl: existing.realized_pnl.add(lifetime.realized_pnl),
                    },
                    None => lifetime,
                };
                self.ledger.lifetimes.insert(to, merged);
            },
            None => {
                assert(self.ledger.lifetimes@ =~= start.ledger.lifetimes@);
            },
        }
        assert forall|id: u16| #[trigger]
            self.ctx.bars_of(id) == if id == from.id() {
                Seq::<Bar<N>>::empty()
            } else if id == to.id() && start.ctx.bars_of(to.id()).len() == 0 {
                start.ctx.bars_of(from.id())
            } else {
                start.ctx.bars_of(id)
            } by {
            assert(self.ctx.bars_of(id) == moved.ctx.bars_of(id));
        }
    }

    fn rename_history(&mut self, from: Symbol, to: Symbol)
        requires
            from.id() != to.id(),
        ensures
            *final(self) == (Engine {
                ctx: Context { history_store: final(self).ctx.history_store, ..old(self).ctx },
                ..*old(self)
            }),
            forall|id: u16| #[trigger]
                final(self).ctx.bars_of(id) == if id == from.id() {
                    Seq::<Bar<N>>::empty()
                } else if id == to.id() && old(self).ctx.bars_of(to.id()).len() == 0 {
                    old(self).ctx.bars_of(from.id())
                } else {
                    old(self).ctx.bars_of(id)
                },
    {
        let taken = self.ctx.history_store.remove(&from);
        let occupied: bool = match self.ctx.history_store.get(&to) {
            Some(bars) => bars.len() > 0,
            None => false,
        };
        match taken {
            Some(bars) => {
                if !occupied {
                    self.ctx.history_store.insert(to, bars);
                }
            },
            None => {
                if !occupied {
                    assert(old(self).ctx.bars_of(to.id()) =~= Seq::<Bar<N>>::empty());
                }
            },
        }
    }

    fn rename_resting(&mut self, from: Symbol, to: Symbol)
        requires
            from.id() != to.id(),
        ensures
            *final(self) == (Engine {
                books: OrderBooks { resting: final(self).books.resting, ..old(self).books },
                ..*old(self)
            }),
            final(self).books.resting@ == renamed_resting(old(self).books.resting@, from, to),
    {
        let moved = self.books.resting.take(from);
        let mut orders = self.books.resting.copied(to);
        let ghost before = orders@;
        let ghost renamed = moved@.map_values(
            |order: RestingOrder<N>| RestingOrder { symbol: to, ..order },
        );
        for i in 0..moved.len()
            invariant
                renamed == moved@.map_values(
                    |order: RestingOrder<N>| RestingOrder { symbol: to, ..order },
                ),
                orders@ =~= before + renamed.take(i as int),
        {
            let order = moved[i];
            orders.push(RestingOrder { symbol: to, qty: order.qty, kind: order.kind });
        }
        assert(renamed.take(renamed.len() as int) =~= renamed);
        self.books.resting.put(to, orders);
    }

    fn rename_position(&mut self, from: Symbol, to: Symbol)
        requires
            from.id() != to.id(),
        ensures
            *final(self) == (Engine {
                ctx: Context { portfolio: final(self).ctx.portfolio, ..old(self).ctx },
                ..*old(self)
            }),
            final(self).ctx.portfolio.balance() == old(self).ctx.portfolio.balance(),
            final(self).ctx.portfolio.held() == renamed_positions(
                old(self).ctx.portfolio.held(),
                from,
                to,
            ),
    {
        let ghost before = self.ctx.portfolio.held();
        let moved: Position<N> = match self.ctx.portfolio.positions.remove(&from) {
            Some(position) => position,
            None => {
                assert(self.ctx.portfolio.held() =~= before);
                return;
            },
        };
        let merged = match self.ctx.portfolio.positions.remove(&to) {
            Some(existing) => {
                let total = existing.quantity.add(moved.quantity);
                let avg_price = if negligible(total) {
                    N::zero()
                } else if existing.quantity.signum().equals(moved.quantity.signum()) {
                    existing.quantity.mul(existing.avg_price).add(
                        moved.quantity.mul(moved.avg_price),
                    ).div(total)
                } else if moved.quantity.abs().le(existing.quantity.abs()) {
                    existing.avg_price
                } else {
                    moved.avg_price
                };
                Position { symbol: to, quantity: total, avg_price }
            },
            None => Position {
                symbol: to,
                quantity: moved.quantity,
                avg_price: moved.avg_price,
            },
        };
        if N::epsilon().lt(merged.quantity.abs()) {
            self.ctx.portfolio.positions.insert(to, merged);
        }
        assert(self.ctx.portfolio.held() =~= renamed_positions(before, from, to));
    }
}

// -------------------------------------------------------------- delisting
impl<N: Number> Account<N> {
    /// The account after the position in a symbol that stopped trading was
    /// force-closed at the last known price less the haircut, without
    /// commission.
    pub open spec fn with_delisting(
        self,
        symbol: Symbol,
        name: Seq<char>,
        prices: Seq<Option<N>>,
        haircut: N,
        time: Time,
    ) -> Account<N> {
        let id = symbol.id();
        if !self.positions.contains_key(id) {
            self
        } else {
            let qty = self.positions[id].quantity;
            let basis = self.positions[id].avg_price;
            let price = broker::mark_or(prices, id, basis).mul(number::one::<N>().sub(haircut));
            Account {
                cash: self.cash.sub(qty.neg().mul(price)),
                positions: broker::positions_after(self.positions, symbol, qty.neg(), price),
                ledger: self.ledger.with_lifetime(
                    id,
                    self.ledger.lifetime_or(id, time, qty.signum()).unwound(
                        qty.abs(),
                        price,
                        price.sub(basis).mul(qty.abs()).mul(qty.signum()),
                    ),
                ).with_closed(id, name, time, "delisted"@),
                ..self
            }
        }
    }
}

/// How many trading days a symbol has been silent. One that never printed
/// counts as seen today.
pub open spec fn silent_days(seen: Option<u64>, today: u64) -> int {
    match seen {
        Some(day) => if day < today {
            today - day
        } else {
            0
        },
        None => 0,
    }
}

impl<N: Number> Engine<N> {
    /// Whether the position with id `id` has been silent for long enough to
    /// count as delisted.
    pub open(crate) spec fn stale(self, id: u16) -> bool {
        &&& self.account().positions.contains_key(id)
        &&& self.ctx.settings.delist_after_days > 0
        &&& silent_days(entry_of(self.clock.last_seen_day@, id), self.clock.day_index)
            >= self.ctx.settings.delist_after_days
    }

    /// `after` is `self` once a delisted symbol's position has been
    /// force-closed and its waiting orders, which can never fill, dropped.
    pub open(crate) spec fn delists(self, symbol: Symbol, time: Time, after: Engine<N>) -> bool {
        &&& after == (Engine {
            ctx: Context { portfolio: after.ctx.portfolio, ..self.ctx },
            ledger: after.ledger,
            books: after.books,
            ..self
        })
        &&& after.account() == self.account().with_delisting(
            symbol,
            context::shown_name(self.ctx.names(), symbol.id()),
            self.prices(),
            self.ctx.settings.delist_haircut,
            time,
        )
        &&& after.books.deferred@ == self.books.deferred@.remove(symbol.id())
        &&& after.books.resting@ == self.books.resting@.remove(symbol.id())
    }

    /// Force-close a position in a symbol that stopped trading: fill the whole
    /// quantity at the last known price (less the configured haircut) with no
    /// commission, emit the closing trade, and drop the symbol's waiting
    /// orders.
    pub fn force_close_delisted(&mut self, symbol: Symbol, tick_time: Time)
        ensures
            old(self).delists(symbol, tick_time, *final(self)),
    {
        let held: Option<Position<N>> = match self.ctx.portfolio.get(symbol) {
            Some(position) => Some(*position),
            None => None,
        };
        if let Some(position) = held {
            let qty = position.quantity;
            let basis = position.avg_price;
            // Recover the last print less the haircut, so a bankruptcy writes
            // down the position instead of liquidating at an optimistic final
            // quote.
            let price = price_or(&self.last_known_prices, symbol, basis).mul(
                N::from_u64(1).sub(self.ctx.settings.delist_haircut),
            );
            self.ledger.unwind(
                symbol,
                tick_time,
                qty.signum(),
                qty.abs(),
                price,
                price.sub(basis).mul(qty.abs()).mul(qty.signum()),
            );
            self.ledger.close_lifetime(
                symbol,
                self.ctx.symbol_name(symbol),
                tick_time,
                "delisted",
            );
            self.ctx.portfolio.apply_fill(symbol, qty.neg(), price);
        }
        let _ = self.books.deferred.take(symbol);
        let _ = self.books.resting.take(symbol);
    }

    /// The symbols whose positions count as delisted, in id order.
    pub fn stale_symbols(&self) -> (r: Vec<Symbol>)
        ensures
            forall|i: int, j: int|
                0 <= i < j < r@.len() ==> #[trigger] r@[i].id() < #[trigger] r@[j].id(),
            forall|id: u16| #[trigger] self.stale(id) <==> symbol::ids_of(r@).contains(id),
    {
        let mut stale: Vec<Symbol> = Vec::new();
        let after_days: u64 = self.ctx.settings.delist_after_days as u64;
        if after_days == 0 {
            assert(symbol::ids_of(stale@) =~= Seq::<u16>::empty());
            return stale;
        }
        let symbols = self.ctx.portfolio.positions.symbols();
        let ghost listed = symbol::ids_of(symbols@);
        for i in 0..symbols.len()
            invariant
                listed == symbol::ids_of(symbols@),
                symbol::lists_ids(listed, self.ctx.portfolio.held()),
                after_days == self.ctx.settings.delist_after_days,
                after_days > 0,
                forall|j: int, k: int|
                    0 <= j < k < stale@.len() ==> #[trigger] stale@[j].id() < #[trigger] stale@[k].id(),
                forall|j: int|
                    0 <= j < stale@.len() ==> #[trigger] stale@[j].id() < broker::end_before(
                        listed,
                        i as int,
                    ),
                forall|j: int| 0 <= j < stale@.len() ==> self.stale(#[trigger] stale@[j].id()),
                forall|j: int|
                    0 <= j < i && self.stale(#[trigger] listed[j]) ==> symbol::ids_of(
                        stale@,
                    ).contains(listed[j]),
        {
            let symbol = symbols[i];
            let ghost before = stale@;
            proof {
                assert(listed[i as int] == symbol.id());
                assert(listed.contains(symbol.id()));
                assert(self.ctx.portfolio.held().contains_key(symbol.id()));
            }
            let silent: u64 = match self.clock.last_seen_day.copied(symbol) {
                Some(day) => self.clock.day_index.saturating_sub(day),
                None => 0,
            };
            if silent >= after_days {
                stale.push(symbol);
                proof {
                    assert(symbol::ids_of(stale@) =~= symbol::ids_of(before).push(symbol.id()));
                    assert(symbol::ids_of(stale@)[before.len() as int] == symbol.id());
                    assert forall|j: int|
                        0 <= j < i + 1 && self.stale(#[trigger] listed[j]) implies symbol::ids_of(
                        stale@,
                    ).contains(listed[j]) by {
                        if j < i {
                            let ids = symbol::ids_of(before);
                            let k = choose|k: int| 0 <= k < ids.len() && ids[k] == listed[j];
                            assert(symbol::ids_of(stale@)[k] == listed[j]);
                        }
                    }
                }
            }
        }
        proof {
            assert forall|id: u16| #[trigger]
                self.stale(id) <==> symbol::ids_of(stale@).contains(id) by {
                if self.stale(id) {
                    assert(self.ctx.portfolio.held().contains_key(id));
                    let j = choose|j: int| 0 <= j < listed.len() && listed[j] == id;
                    assert(self.stale(listed[j]));
                }
                if symbol::ids_of(stale@).contains(id) {
                    let ids = symbol::ids_of(stale@);
                    let j = choose|j: int| 0 <= j < ids.len() && ids[j] == id;
                    assert(stale@[j].id() == id);
                }
            }
        }
        stale
    }
}

} // verus!
