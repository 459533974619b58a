//! The PnL ledger: per-symbol open position lifetimes, netted into completed
//! [`Trade`]s when a position returns to flat.

use vstd::prelude::*;

use crate::calendar;
use crate::calendar::Time;

use crate::number::Number;
use crate::stats;
use crate::stats::Trade;
use crate::symbol::{Symbol, SymbolMap};

verus! {

/// The full lifetime of one position, from flat to flat. Rebalance fills that
/// grow or trim the position accumulate here instead of each emitting a
/// separate trade.
#[derive(Debug, Clone, Copy)]
pub struct OpenLifetime<N> {
    pub entry_time: Time,
    /// Plus one long, minus one short.
    pub direction: N,
    /// Cumulative absolute quantity bought into the position, and its cost.
    pub entry_qty: N,
    pub entry_value: N,
    /// Cumulative absolute quantity unwound, and its proceeds.
    pub closed_qty: N,
    pub close_value: N,
    /// Realized PnL so far, net of every commission this lifetime paid.
    pub realized_pnl: N,
}

impl<N: Number> OpenLifetime<N> {
    /// A lifetime nothing has happened in yet.
    pub open spec fn begun(time: Time, direction: N) -> OpenLifetime<N> {
        OpenLifetime {
            entry_time: time,
            direction,
            entry_qty: N::zero(),
            entry_value: N::zero(),
            closed_qty: N::zero(),
            close_value: N::zero(),
            realized_pnl: N::zero(),
        }
    }

    /// `size` more shares bought in at `price`, for a commission of `fee`.
    pub open spec fn grown(self, size: N, price: N, fee: N) -> OpenLifetime<N> {
        OpenLifetime {
            entry_qty: self.entry_qty.add(size),
            entry_value: self.entry_value.add(size.mul(price)),
            realized_pnl: self.realized_pnl.sub(fee),
            ..self
        }
    }

    /// `size` shares unwound at `price`, realizing `gain`.
    pub open spec fn unwound(self, size: N, price: N, gain: N) -> OpenLifetime<N> {
        OpenLifetime {
            closed_qty: self.closed_qty.add(size),
            close_value: self.close_value.add(size.mul(price)),
            realized_pnl: self.realized_pnl.add(gain),
            ..self
        }
    }

    /// `gain` more realized.
    pub open spec fn credited(self, gain: N) -> OpenLifetime<N> {
        OpenLifetime { realized_pnl: self.realized_pnl.add(gain), ..self }
    }

    /// `cost` less realized.
    pub open spec fn charged(self, cost: N) -> OpenLifetime<N> {
        OpenLifetime { realized_pnl: self.realized_pnl.sub(cost), ..self }
    }

    /// The lifetime expressed in post-split shares. Its cash figures stand.
    pub open spec fn rescaled(self, ratio: N) -> OpenLifetime<N> {
        OpenLifetime {
            entry_qty: self.entry_qty.mul(ratio),
            closed_qty: self.closed_qty.mul(ratio),
            ..self
        }
    }

    /// The figures of `other` folded in.
    pub open spec fn merged(self, other: OpenLifetime<N>) -> OpenLifetime<N> {
        OpenLifetime {
            entry_qty: self.entry_qty.add(other.entry_qty),
            entry_value: self.entry_value.add(other.entry_value),
            closed_qty: self.closed_qty.add(other.closed_qty),
            close_value: self.close_value.add(other.close_value),
            realized_pnl: self.realized_pnl.add(other.realized_pnl),
            ..self
        }
    }

    /// The trade this lifetime is reported as once it is over.
    pub open spec fn trade(self, name: Seq<char>, exit_time: Time, reason: Seq<char>)
        -> stats::TradeView<N> {
        stats::TradeView {
            symbol: name,
            direction: if N::zero().lt(self.direction) {
                "long"@
            } else {
                "short"@
            },
            entry_price: if N::zero().lt(self.entry_qty) {
                self.entry_value.div(self.entry_qty)
            } else {
                N::zero()
            },
            exit_price: if N::zero().lt(self.closed_qty) {
                self.close_value.div(self.closed_qty)
            } else {
                N::zero()
            },
            entry_time: calendar::instant_text(self.entry_time.secs(), self.entry_time.subsec()),
            exit_time: calendar::instant_text(exit_time.secs(), exit_time.subsec()),
            quantity: self.closed_qty,
            pnl: self.realized_pnl,
            exit_reason: reason,
        }
    }

    pub fn new(time: Time, direction: N) -> (r: OpenLifetime<N>)
        ensures
            r == OpenLifetime::begun(time, direction),
    {
        OpenLifetime {
            entry_time: time,
            direction,
            entry_qty: N::zero(),
            entry_value: N::zero(),
            closed_qty: N::zero(),
            close_value: N::zero(),
            realized_pnl: N::zero(),
        }
    }

    fn unwind(&mut self, size: N, price: N, gain: N)
        ensures
            *final(self) == old(self).unwound(size, price, gain),
    {
        self.closed_qty = self.closed_qty.add(size);
        self.close_value = self.close_value.add(size.mul(price));
        self.realized_pnl = self.realized_pnl.add(gain);
    }

    /// The trade this lifetime is reported as once it is over.
    pub fn into_trade(self, symbol: &str, exit_time: Time, exit_reason: &str) -> (r: Trade<N>)
        ensures
            r@ == self.trade(symbol@, exit_time, exit_reason@),
    {
        let direction: String = if N::zero().lt(self.direction) {
            "long".to_owned()
        } else {
            "short".to_owned()
        };
        let entry_price = if N::zero().lt(self.entry_qty) {
            self.entry_value.div(self.entry_qty)
        } else {
            N::zero()
        };
        let exit_price = if N::zero().lt(self.closed_qty) {
            self.close_value.div(self.closed_qty)
        } else {
            N::zero()
        };
        Trade {
            symbol: symbol.to_owned(),
            direction,
            entry_price,
            exit_price,
            entry_time: self.entry_time.to_rfc3339(),
            exit_time: exit_time.to_rfc3339(),
            quantity: self.closed_qty,
            pnl: self.realized_pnl,
            exit_reason: exit_reason.to_owned(),
        }
    }
}

/// The open lifetimes and the completed trades.
pub struct Ledger<N> {
    pub lifetimes: SymbolMap<OpenLifetime<N>>,
    pub trades: Vec<Trade<N>>,
}

/// What a [`Ledger`] says: the open lifetime of each id, and the completed
/// trades.
pub ghost struct LedgerView<N> {
    pub lifetimes: Map<u16, OpenLifetime<N>>,
    pub trades: Seq<stats::TradeView<N>>,
}

impl<N> View for Ledger<N> {
    type V = LedgerView<N>;

    open spec fn view(&self) -> LedgerView<N> {
        LedgerView { lifetimes: self.lifetimes@, trades: stats::trade_views(self.trades@) }
    }
}

/// A fill as the ledger sees it.
pub ghost struct Fill<N> {
    pub symbol: Symbol,
    /// The ticker the symbol stands for.
    pub name: Seq<char>,
    /// What was held before, and at what basis.
    pub held: N,
    pub basis: N,
    pub qty: N,
    pub price: N,
    pub fee: N,
    pub time: Time,
}

impl<N: Number> Fill<N> {
    /// The shares of the old position this fill unwinds.
    pub open spec fn closed(self) -> N {
        self.qty.abs().min(self.held.abs())
    }

    /// What unwinding them realizes, before commission.
    pub open spec fn gain(self) -> N {
        self.price.sub(self.basis).mul(self.closed()).mul(self.held.signum())
    }

    /// What is held afterwards.
    pub open spec fn total(self) -> N {
        self.held.add(self.qty)
    }

    /// Whether the fill opens a position from flat.
    pub open spec fn opens(self) -> bool {
        self.held.equals(N::zero())
    }

    /// Whether the fill adds to the position in the same direction.
    pub open spec fn adds(self) -> bool {
        N::zero().lt(self.qty.mul(self.held))
    }

    /// Whether a fill that reduces leaves nothing of the old position.
    pub open spec fn finishes(self) -> bool {
        self.held.abs().sub(N::epsilon()).le(self.closed())
    }

    /// Whether a fill that finishes the old position leaves one in the new
    /// direction.
    pub open spec fn flips(self) -> bool {
        N::epsilon().lt(self.total().abs())
    }
}

impl<N: Number> LedgerView<N> {
    /// The open lifetime under an id, or a fresh one.
    pub open spec fn lifetime_or(self, id: u16, time: Time, direction: N) -> OpenLifetime<N> {
        if self.lifetimes.contains_key(id) {
            self.lifetimes[id]
        } else {
            OpenLifetime::begun(time, direction)
        }
    }

    /// The ledger with the lifetime under an id replaced.
    pub open spec fn with_lifetime(self, id: u16, lifetime: OpenLifetime<N>) -> LedgerView<N> {
        LedgerView { lifetimes: self.lifetimes.insert(id, lifetime), ..self }
    }

    /// The ledger with the lifetime under an id credited, if there is one.
    pub open spec fn with_credit(self, id: u16, gain: N) -> LedgerView<N> {
        if self.lifetimes.contains_key(id) {
            self.with_lifetime(id, self.lifetimes[id].credited(gain))
        } else {
            self
        }
    }

    /// The ledger with the lifetime under an id charged, if there is one.
    pub open spec fn with_charge(self, id: u16, cost: N) -> LedgerView<N> {
        if self.lifetimes.contains_key(id) {
            self.with_lifetime(id, self.lifetimes[id].charged(cost))
        } else {
            self
        }
    }

    /// The ledger with the lifetime under an id netted into a trade, if there
    /// is one.
    pub open spec fn with_closed(
        self,
        id: u16,
        name: Seq<char>,
        exit_time: Time,
        reason: Seq<char>,
    ) -> LedgerView<N> {
        if self.lifetimes.contains_key(id) {
            LedgerView {
                lifetimes: self.lifetimes.remove(id),
                trades: self.trades.push(self.lifetimes[id].trade(name, exit_time, reason)),
            }
        } else {
            self
        }
    }

    /// The ledger after a fill: a new lifetime when it opened the position from
    /// flat, a grown one when it added to it, an unwound one when it reduced
    /// it. When nothing of the old position is left, its lifetime is netted
    /// into a trade; a flip then starts a fresh one.
    pub open spec fn with_fill(self, fill: Fill<N>) -> LedgerView<N> {
        let id = fill.symbol.id();
        if fill.opens() {
            self.with_lifetime(
                id,
                OpenLifetime {
                    entry_qty: fill.qty.abs(),
                    entry_value: fill.qty.abs().mul(fill.price),
                    realized_pnl: fill.fee.neg(),
                    ..OpenLifetime::begun(fill.time, fill.qty.signum())
                },
            )
        } else if fill.adds() {
            self.with_lifetime(
                id,
                self.lifetime_or(id, fill.time, fill.held.signum()).grown(
                    fill.qty.abs(),
                    fill.price,
                    fill.fee,
                ),
            )
        } else {
            let unwound = self.with_lifetime(
                id,
                self.lifetime_or(id, fill.time, fill.held.signum()).unwound(
                    fill.closed(),
                    fill.price,
                    fill.gain().sub(fill.fee),
                ),
            );
            if fill.finishes() {
                let closed = unwound.with_closed(id, fill.name, fill.time, "signal"@);
                if fill.flips() {
                    closed.with_lifetime(
                        id,
                        OpenLifetime {
                            entry_qty: fill.total().abs(),
                            entry_value: fill.total().abs().mul(fill.price),
                            ..OpenLifetime::begun(fill.time, fill.total().signum())
                        },
                    )
                } else {
                    closed
                }
            } else {
                unwound
            }
        }
    }
}

impl<N: Number> Ledger<N> {
    pub fn new() -> (r: Ledger<N>)
        ensures
            r@ == (LedgerView::<N> { lifetimes: Map::empty(), trades: Seq::empty() }),
    {
        let r = Ledger { lifetimes: SymbolMap::new(), trades: Vec::new() };
        assert(r@.trades =~= Seq::<stats::TradeView<N>>::empty());
        r
    }

    /// End the open lifetime of `symbol`: net it into a [`Trade`] and record
    /// it. Nothing happens if no lifetime is open.
    pub fn close_lifetime(&mut self, symbol: Symbol, name: &str, exit_time: Time, exit_reason: &str)
        ensures
            final(self)@ == old(self)@.with_closed(symbol.id(), name@, exit_time, exit_reason@),
    {
        match self.lifetimes.remove(&symbol) {
            Some(lifetime) => {
                let trade = lifetime.into_trade(name, exit_time, exit_reason);
                self.trades.push(trade);
                assert(self@.trades =~= old(self)@.trades.push(trade@));
            },
            None => {
                assert(self@.lifetimes =~= old(self)@.lifetimes);
            },
        }
    }

    /// Add to what the open lifetime of `symbol` has realized, if one is open.
    pub fn credit(&mut self, symbol: Symbol, gain: N)
        ensures
            final(self)@ == old(self)@.with_credit(symbol.id(), gain),
    {
        let open: Option<OpenLifetime<N>> = self.get(symbol);
        if let Some(lifetime) = open {
            let mut lifetime = lifetime;
            lifetime.realized_pnl = lifetime.realized_pnl.add(gain);
            self.lifetimes.insert(symbol, lifetime);
        }
    }

    /// Take off what the open lifetime of `symbol` has realized, if one is
    /// open.
    pub fn charge(&mut self, symbol: Symbol, cost: N)
        ensures
            final(self)@ == old(self)@.with_charge(symbol.id(), cost),
    {
        let open: Option<OpenLifetime<N>> = self.get(symbol);
        if let Some(lifetime) = open {
            let mut lifetime = lifetime;
            lifetime.realized_pnl = lifetime.realized_pnl.sub(cost);
            self.lifetimes.insert(symbol, lifetime);
        }
    }

    /// The open lifetime of `symbol`, if there is one.
    pub fn get(&self, symbol: Symbol) -> (r: Option<OpenLifetime<N>>)
        ensures
            r == (if self@.lifetimes.contains_key(symbol.id()) {
                Some(self@.lifetimes[symbol.id()])
            } else {
                None
            }),
    {
        match self.lifetimes.get(&symbol) {
            Some(lifetime) => Some(*lifetime),
            None => None,
        }
    }

    /// The open lifetime of `symbol`, or a fresh one.
    pub fn get_or_begin(&self, symbol: Symbol, time: Time, direction: N) -> (r: OpenLifetime<N>)
        ensures
            r == self@.lifetime_or(symbol.id(), time, direction),
    {
        match self.lifetimes.get(&symbol) {
            Some(lifetime) => *lifetime,
            None => OpenLifetime::new(time, direction),
        }
    }

    /// Unwind `size` shares of `symbol` at `price`, realizing `gain`.
    pub fn unwind(
        &mut self,
        symbol: Symbol,
        time: Time,
        direction: N,
        size: N,
        price: N,
        gain: N,
    )
        ensures
            final(self)@ == old(self)@.with_lifetime(
                symbol.id(),
                old(self)@.lifetime_or(symbol.id(), time, direction).unwound(size, price, gain),
            ),
    {
        let mut lifetime = self.get_or_begin(symbol, time, direction);
        lifetime.unwind(size, price, gain);
        self.lifetimes.insert(symbol, lifetime);
    }

    /// Fold a fill into the open lifetime of `symbol`, emitting a completed
    /// [`Trade`] when the position returns to flat.
    pub fn record_fill(
        &mut self,
        symbol: Symbol,
        name: &str,
        held: N,
        basis: N,
        qty: N,
        price: N,
        fee: N,
        time: Time,
    )
        ensures
            final(self)@ == old(self)@.with_fill(
                Fill { symbol, name: name@, held, basis, qty, price, fee, time },
            ),
    {
        let total = held.add(qty);
        if held.equals(N::zero()) {
            // Opened from flat: a new position lifetime begins.
            let mut lifetime = OpenLifetime::new(time, qty.signum());
            lifetime.entry_qty = qty.abs();
            lifetime.entry_value = qty.abs().mul(price);
            lifetime.realized_pnl = fee.neg();
            self.lifetimes.insert(symbol, lifetime);
        } else if N::zero().lt(qty.mul(held)) {
            // Added in the same direction: grow the open lifetime.
            let mut lifetime = self.get_or_begin(symbol, time, held.signum());
            lifetime.entry_qty = lifetime.entry_qty.add(qty.abs());
            lifetime.entry_value = lifetime.entry_value.add(qty.abs().mul(price));
            lifetime.realized_pnl = lifetime.realized_pnl.sub(fee);
            self.lifetimes.insert(symbol, lifetime);
        } else {
            // Reduced, closed, or flipped: realize PnL into the open lifetime;
            // only emit a trade when the position is flat.
            let closed = qty.abs().min(held.abs());
            let gain = price.sub(basis).mul(closed).mul(held.signum());
            self.unwind(symbol, time, held.signum(), closed, price, gain.sub(fee));
            if held.abs().sub(N::epsilon()).le(closed) {
                self.close_lifetime(symbol, name, time, "signal");
                if N::epsilon().lt(total.abs()) {
                    // A flip leaves a residual position in the new direction;
                    // it starts a fresh lifetime.
                    let mut fresh = OpenLifetime::new(time, total.signum());
                    fresh.entry_qty = total.abs();
                    fresh.entry_value = total.abs().mul(price);
                    self.lifetimes.insert(symbol, fresh);
                }
            }
        }
    }
}

} // verus!
