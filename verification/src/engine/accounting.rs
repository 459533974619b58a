//! The books: cash, cost and realized profit always add up.
//!
//! Cash plus what the open positions cost is the starting cash plus every
//! profit realized, in completed trades and in lifetimes still open. Nothing
//! the engine does to an account moves that balance by more than the rounding of
//! the few products and quotients it takes, as long as nothing runs out of
//! range.

use vstd::prelude::*;

use crate::broker;
use crate::broker::Position;
use crate::calendar::Time;
use crate::engine::financing;
use crate::engine::ledger::{Fill, OpenLifetime};
use crate::engine::result;
use crate::engine::result::BacktestResult;
use crate::engine::state::{Account, Engine};
use crate::exact;
use crate::number;
use crate::number::Number;
use crate::stats;
use crate::symbol::Symbol;

verus! {

/// What the position under an id cost, nought if there is none.
pub open spec fn position_cost<N>(
    positions: Map<u16, Position<N>>,
    val: spec_fn(N) -> real,
    id: u16,
) -> real {
    val(positions[id].quantity) * val(positions[id].avg_price)
}

/// What all positions cost.
pub open spec fn cost<N>(positions: Map<u16, Position<N>>, val: spec_fn(N) -> real) -> real {
    exact::total(positions.dom(), |id: u16| position_cost(positions, val, id))
}

/// The profit realized in lifetimes that are open.
pub open spec fn open_profit<N>(
    lifetimes: Map<u16, OpenLifetime<N>>,
    val: spec_fn(N) -> real,
) -> real {
    exact::total(lifetimes.dom(), |id: u16| val(lifetimes[id].realized_pnl))
}

/// The profit realized in completed trades.
pub open spec fn closed_profit<N>(
    trades: Seq<stats::TradeView<N>>,
    val: spec_fn(N) -> real,
) -> real
    decreases trades.len(),
{
    if trades.len() == 0 {
        0real
    } else {
        closed_profit(trades.drop_last(), val) + val(trades.last().pnl)
    }
}

impl<N: Number> Account<N> {
    /// The balance of the books: cash plus cost, less every profit realized.
    pub open spec fn balance(self, val: spec_fn(N) -> real) -> real {
        val(self.cash) + cost(self.positions, val) - open_profit(self.ledger.lifetimes, val)
            - closed_profit(self.ledger.trades, val)
    }

    /// Whether every open lifetime has a position, and nothing is held in a
    /// quantity of nought. A position has an open lifetime, too, unless it is a
    /// remainder of exactly the threshold below which remainders are dropped.
    pub open spec fn paired(self, val: spec_fn(N) -> real) -> bool {
        &&& self.ledger.lifetimes.dom().subset_of(self.positions.dom())
        &&& forall|id: u16| #[trigger]
            self.positions.contains_key(id) ==> val(self.positions[id].quantity) != 0real
    }

    /// Whether `after` has the balance of `self` to within `bound`, and its
    /// positions paired.
    pub open spec fn stays_balanced(
        self,
        after: Account<N>,
        bound: real,
        val: spec_fn(N) -> real,
    ) -> bool {
        exact::close(after.balance(val), self.balance(val), bound) && after.paired(val)
    }
}

/// What dropping a remainder of `quantity` moves the books by, at most: less
/// than the threshold, at a price.
pub open spec fn dropped<N: Number>(quantity: N, price: real, val: spec_fn(N) -> real) -> real {
    if number::negligible(quantity) {
        val(N::epsilon()) * exact::magnitude(price)
    } else {
        0real
    }
}

impl<N: Number> Account<N> {
    /// What the position under an id realizes unrecorded where no lifetime of
    /// it is open: all of an amount.
    pub open spec fn unrecorded(self, id: u16, amount: real) -> real {
        if self.ledger.lifetimes.contains_key(id) {
            0real
        } else {
            exact::magnitude(amount)
        }
    }
}

/// Whether moving the position under one id to another folds two positions into
/// one whose basis is theirs: they point the same way or have one basis, and
/// more than rounding noise is left.
pub open spec fn folds_evenly<N: Number>(
    positions: Map<u16, Position<N>>,
    from: u16,
    to: u16,
    val: spec_fn(N) -> real,
) -> bool {
    positions.contains_key(from) ==> {
        let moved = val(positions[from].quantity);
        let kept = val(broker::quantity_of(positions, to));
        &&& val(N::epsilon()) < exact::magnitude(moved + kept)
        &&& {
            ||| kept == 0real
            ||| exact::sign(kept) == exact::sign(moved)
            ||| val(broker::basis_of(positions, to)) == val(positions[from].avg_price)
        }
    }
}

proof fn lemma_cost_change<N>(
    before: Map<u16, Position<N>>,
    after: Map<u16, Position<N>>,
    val: spec_fn(N) -> real,
    id: u16,
)
    requires
        forall|a: u16|
            a != id ==> (#[trigger] before.contains_key(a) <==> after.contains_key(a)),
        forall|a: u16| a != id && #[trigger] before.contains_key(a) ==> before[a] == after[a],
    ensures
        cost(after, val) == cost(before, val) + (if after.contains_key(id) {
            position_cost(after, val, id)
        } else {
            0real
        }) - (if before.contains_key(id) {
            position_cost(before, val, id)
        } else {
            0real
        }),
{
    let f = |a: u16| position_cost(before, val, a);
    let g = |a: u16| position_cost(after, val, a);
    assert forall|a: u16| a != id implies #[trigger] exact::part(before.dom(), f, a)
        == exact::part(after.dom(), g, a) by {
        assert(before.contains_key(a) <==> after.contains_key(a));
    }
    exact::lemma_total_change(before.dom(), f, after.dom(), g, id);
}

proof fn lemma_profit_change<N>(
    before: Map<u16, OpenLifetime<N>>,
    after: Map<u16, OpenLifetime<N>>,
    val: spec_fn(N) -> real,
    id: u16,
)
    requires
        forall|a: u16|
            a != id ==> (#[trigger] before.contains_key(a) <==> after.contains_key(a)),
        forall|a: u16| a != id && #[trigger] before.contains_key(a) ==> before[a] == after[a],
    ensures
        open_profit(after, val) == open_profit(before, val) + (if after.contains_key(id) {
            val(after[id].realized_pnl)
        } else {
            0real
        }) - (if before.contains_key(id) {
            val(before[id].realized_pnl)
        } else {
            0real
        }),
{
    let f = |a: u16| val(before[a].realized_pnl);
    let g = |a: u16| val(after[a].realized_pnl);
    assert forall|a: u16| a != id implies #[trigger] exact::part(before.dom(), f, a)
        == exact::part(after.dom(), g, a) by {
        assert(before.contains_key(a) <==> after.contains_key(a));
    }
    exact::lemma_total_change(before.dom(), f, after.dom(), g, id);
}

proof fn lemma_closed_push<N>(
    trades: Seq<stats::TradeView<N>>,
    trade: stats::TradeView<N>,
    val: spec_fn(N) -> real,
)
    ensures
        closed_profit(trades.push(trade), val) == closed_profit(trades, val) + val(trade.pnl),
{
    assert(trades.push(trade).drop_last() =~= trades);
}

proof fn lemma_added(h: real, a: real, q: real, had: real, paid: real, basis: real, step: real)
    by (nonlinear_arith)
    requires
        step >= 0real,
        h + q != 0real,
        exact::short_of(had, h * a, step),
        exact::short_of(basis, (had + paid) / (h + q), step),
    ensures
        exact::close(
            (h + q) * basis,
            h * a + paid,
            (exact::magnitude(h + q) + 1real) * step,
        ),
{
    let all = h + q;
    assert(all * ((had + paid) / all) == had + paid);
    let off = basis - (had + paid) / all;
    assert(-step <= off <= step);
    assert(all * basis == had + paid + all * off);
    assert(-(exact::magnitude(all) * step) <= all * off <= exact::magnitude(all) * step);
}

proof fn lemma_gained(d: real, size: real, way: real, product: real, step: real)
    by (nonlinear_arith)
    requires
        way == 1real || way == -1real,
        exact::short_of(product, d * size, step),
    ensures
        exact::close(product * way, d * size * way, step),
{
}

proof fn lemma_one_basis(h: real, q: real, a: real)
    by (nonlinear_arith)
    ensures
        (h + q) * a == h * a + q * a,
{
}

proof fn lemma_reduced(h: real, a: real, q: real, p: real)
    by (nonlinear_arith)
    requires
        (h > 0real && q < 0real) || (h < 0real && q > 0real),
    ensures
        (p - a) * exact::magnitude(q) * exact::sign(h) == q * a - q * p,
        (h + q) * a == h * a + q * a,
{
}

proof fn lemma_turned(h: real, a: real, q: real, p: real)
    by (nonlinear_arith)
    requires
        h != 0real,
    ensures
        (p - a) * exact::magnitude(h) * exact::sign(h) == h * p - h * a,
        (h + q) * p == h * p + q * p,
{
}

proof fn lemma_same_way(h: real, q: real)
    by (nonlinear_arith)
    requires
        h != 0real,
        q != 0real,
    ensures
        0real < q * h <==> ((h > 0real && q > 0real) || (h < 0real && q < 0real)),
        q * h != 0real,
{
}

impl<N: Number> Account<N> {
    /// Whether nothing that a fill computes runs out of range, and the product
    /// of the quantities held and filled, by whose sign they are told to point
    /// the same way, does not vanish.
    pub open spec fn fill_fits(self, fill: Fill<N>) -> bool {
        let id = fill.symbol.id();
        let paid = fill.qty.mul(fill.price);
        let realized = self.ledger.lifetime_or(id, fill.time, fill.held.signum()).realized_pnl;
        &&& paid.is_finite()
        &&& self.cash.sub(paid).is_finite()
        &&& self.cash.sub(paid).sub(fill.fee).is_finite()
        &&& fill.qty.abs().is_finite()
        &&& fill.total().is_finite()
        &&& fill.total().abs().is_finite()
        &&& if fill.opens() {
            fill.fee.neg().is_finite()
        } else {
            &&& fill.qty.mul(fill.held).is_finite()
            &&& !fill.qty.mul(fill.held).equals(N::zero())
            &&& if fill.adds() {
                &&& fill.held.mul(fill.basis).is_finite()
                &&& fill.held.mul(fill.basis).add(paid).is_finite()
                &&& fill.held.mul(fill.basis).add(paid).div(fill.total()).is_finite()
                &&& realized.sub(fill.fee).is_finite()
            } else {
                &&& fill.held.abs().is_finite()
                &&& fill.held.abs().sub(N::epsilon()).is_finite()
                &&& fill.price.sub(fill.basis).is_finite()
                &&& fill.price.sub(fill.basis).mul(fill.closed()).is_finite()
                &&& fill.gain().is_finite()
                &&& fill.gain().sub(fill.fee).is_finite()
                &&& realized.add(fill.gain().sub(fill.fee)).is_finite()
            }
        }
    }
}

/// A fill keeps the books balanced: what is paid for shares is their cost, what
/// is realized is what the cash exceeds their cost by, and a commission comes
/// out of what is realized. Two products are cut, and the basis that is paid for
/// every share then held; a remainder below the threshold is dropped, at the price
/// or at the basis.
pub proof fn fills_keep_the_balance<N: Number>(
    account: Account<N>,
    symbol: Symbol,
    name: Seq<char>,
    qty: N,
    price: N,
    fee: N,
    time: Time,
    counts_volume: bool,
    val: spec_fn(N) -> real,
    step: real,
)
    requires
        exact::near(val, step),
        account.paired(val),
        !number::negligible(qty),
        account.fill_fits(account.filled(symbol, name, qty, price, fee, time)),
    ensures
        account.stays_balanced(
            account.with_fill(symbol, name, qty, price, fee, time, counts_volume),
            account.fill_slack(symbol.id(), qty, price, val, step),
            val,
        ),
{
    let id = symbol.id();
    let after = account.with_fill(symbol, name, qty, price, fee, time, counts_volume);
    let fill = account.filled(symbol, name, qty, price, fee, time);
    let held = fill.held;
    let basis = fill.basis;
    let h = val(held);
    let a = val(basis);
    let q = val(qty);
    let p = val(price);
    let paid = val(qty.mul(price));
    let total = held.add(qty);
    lemma_slack(exact::magnitude(h + q), step);
    let dearest = exact::larger(exact::magnitude(p), exact::magnitude(a));
    lemma_more_dropped(val(N::epsilon()), p, dearest);
    lemma_more_dropped(val(N::epsilon()), a, dearest);
    assert(val(total) == h + q);
    assert(q != 0real);
    assert(account.positions.contains_key(id) <==> h != 0real);
    lemma_cost_change(account.positions, after.positions, val, id);
    lemma_profit_change(account.ledger.lifetimes, after.ledger.lifetimes, val, id);
    let before_cost = if account.positions.contains_key(id) {
        h * a
    } else {
        0real
    };
    assert(before_cost == h * a) by {
        if h == 0real {
            assert(h * a == 0real) by (nonlinear_arith)
                requires
                    h == 0real,
            ;
        }
    }
    assert(exact::short_of(paid, q * p, step));
    if fill.opens() {
        assert(h == 0real);
        assert(!number::negligible(total));
        assert((h + q) * p == q * p) by (nonlinear_arith)
            requires
                h == 0real,
        ;
    } else {
        lemma_same_way(h, q);
        assert(exact::short_of(val(qty.mul(held)), q * h, step));
        if fill.adds() {
            assert(!number::negligible(total));
            let had = val(held.mul(basis));
            lemma_added(h, a, q, had, paid, val(held.mul(basis).add(qty.mul(price)).div(total)), step);
        } else {
            assert((h > 0real && q < 0real) || (h < 0real && q > 0real));
            let unwound = account.ledger.lifetime_or(id, time, held.signum()).unwound(
                fill.closed(),
                price,
                fill.gain().sub(fee),
            );
            lemma_gained(
                p - a,
                val(fill.closed()),
                exact::sign(h),
                val(price.sub(basis).mul(fill.closed())),
                step,
            );
            exact::lemma_signed_product(val, step, price.sub(basis).mul(fill.closed()), held);
            lemma_turned(h, a, q, p);
            lemma_reduced(h, a, q, p);
            lemma_dropped(h + q, p, val(N::epsilon()));
            lemma_dropped(h + q, a, val(N::epsilon()));
            if fill.finishes() {
                lemma_closed_push(
                    account.ledger.trades,
                    unwound.trade(name, time, "signal"@),
                    val,
                );
                assert(unwound.trade(name, time, "signal"@).pnl == unwound.realized_pnl);
                if fill.flips() {
                    assert(!number::negligible(total));
                        } else {
                    assert(val(fill.closed()) == exact::magnitude(h) || val(fill.closed())
                        == exact::magnitude(q));
                }
            } else {
                assert(val(fill.closed()) == exact::magnitude(q));
                assert(!number::negligible(total));
            }
        }
    }
}

impl<N: Number> Account<N> {
    /// What a fill may move the balance by.
    pub open spec fn fill_slack(
        self,
        id: u16,
        qty: N,
        price: N,
        val: spec_fn(N) -> real,
        step: real,
    ) -> real {
        let held = broker::quantity_of(self.positions, id);
        (2real + exact::magnitude(val(held) + val(qty))) * step + dropped(
            held.add(qty),
            exact::larger(
                exact::magnitude(val(price)),
                exact::magnitude(val(broker::basis_of(self.positions, id))),
            ),
            val,
        )
    }
}

pub proof fn lemma_dropped(quantity: real, price: real, threshold: real)
    by (nonlinear_arith)
    requires
        threshold > 0real,
    ensures
        exact::magnitude(quantity) < threshold ==> exact::close(
            quantity * price,
            0real,
            threshold * exact::magnitude(price),
        ),
        threshold * exact::magnitude(price) >= 0real,
{
}

proof fn lemma_more_dropped(threshold: real, x: real, y: real)
    by (nonlinear_arith)
    requires
        threshold > 0real,
        exact::magnitude(x) <= exact::magnitude(y),
    ensures
        threshold * exact::magnitude(x) <= threshold * exact::magnitude(y),
        threshold * exact::magnitude(x) >= 0real,
{
}

proof fn lemma_slack(size: real, step: real)
    by (nonlinear_arith)
    requires
        step >= 0real,
        size >= 0real,
    ensures
        (2real + size) * step == 2real * step + size * step,
        (size + 1real) * step == step + size * step,
        size * step >= 0real,
{
}

/// A dividend keeps the books balanced: the cash is realized profit, to the last
/// digit, unless the position has no lifetime to realize it in.
pub proof fn dividends_keep_the_balance<N: Number>(
    account: Account<N>,
    id: u16,
    amount: N,
    val: spec_fn(N) -> real,
    step: real,
)
    requires
        exact::near(val, step),
        account.paired(val),
        account.dividend_fits(id, amount),
    ensures
        account.stays_balanced(
            account.with_dividend(id, amount),
            account.dividend_slack(id, amount, val),
            val,
        ),
{
    let after = account.with_dividend(id, amount);
    if account.positions.contains_key(id) {
        lemma_profit_change(account.ledger.lifetimes, after.ledger.lifetimes, val, id);
    }
}

pub proof fn lemma_split(q: real, a: real, r: real, quantity: real, basis: real, step: real)
    by (nonlinear_arith)
    requires
        r != 0real,
        step >= 0real,
        exact::short_of(quantity, q * r, step),
        exact::short_of(basis, a / r, step),
    ensures
        exact::close(
            quantity * basis,
            q * a,
            (exact::magnitude(quantity) + exact::magnitude(a / r)) * step,
        ),
{
    let b = a / r;
    assert((q * r) * b == q * a);
    let off = quantity - q * r;
    let slip = basis - b;
    assert(-step <= off <= step);
    assert(-step <= slip <= step);
    assert(quantity * basis == quantity * b + quantity * slip);
    assert(quantity * b == q * a + off * b);
    assert(-(exact::magnitude(quantity) * step) <= quantity * slip <= exact::magnitude(quantity)
        * step);
    assert(-(exact::magnitude(b) * step) <= off * b <= exact::magnitude(b) * step);
}

proof fn lemma_in_lieu(rounded: real, residual: real, b: real, p: real)
    by (nonlinear_arith)
    ensures
        (rounded + residual) * b == rounded * b + residual * b,
        (p - b) * exact::magnitude(residual) * exact::sign(residual) == residual * p - residual * b,
        (p - b) * residual == residual * p - residual * b,
{
}

impl<N: Number> Account<N> {
    /// Whether nothing that a dividend computes runs out of range.
    pub open spec fn dividend_fits(self, id: u16, amount: N) -> bool {
        let paid = self.positions[id].quantity.mul(amount);
        self.positions.contains_key(id) ==> {
            &&& self.cash.add(paid).is_finite()
            &&& self.ledger.lifetimes.contains_key(id)
                ==> self.ledger.lifetimes[id].realized_pnl.add(paid).is_finite()
        }
    }

    /// What a dividend may move the balance by.
    pub open spec fn dividend_slack(self, id: u16, amount: N, val: spec_fn(N) -> real) -> real {
        if self.positions.contains_key(id) {
            self.unrecorded(id, val(self.positions[id].quantity.mul(amount)))
        } else {
            0real
        }
    }

    /// Whether nothing that a split computes runs out of range, and shares are
    /// left to count in lots.
    pub open spec fn split_fits(
        self,
        id: u16,
        ratio: N,
        prices: Seq<Option<N>>,
        lot: N,
        val: spec_fn(N) -> real,
    ) -> bool {
        let position = self.positions[id];
        let quantity = position.quantity.mul(ratio);
        let basis = position.avg_price.div(ratio);
        let rounded = number::whole_lots(quantity, lot);
        let residual = quantity.sub(rounded);
        let price = broker::mark_or(prices, id, basis);
        let gain = price.sub(basis).mul(residual.abs());
        self.positions.contains_key(id) ==> {
            &&& val(ratio) != 0real
            &&& val(quantity) != 0real
            &&& quantity.is_finite()
            &&& basis.is_finite()
            &&& residual.is_finite()
            &&& residual.abs().is_finite()
            &&& rounded.abs().is_finite()
            &&& !number::negligible(residual) ==> {
                &&& residual.mul(price).is_finite()
                &&& self.cash.add(residual.mul(price)).is_finite()
                &&& price.sub(basis).is_finite()
                &&& gain.is_finite()
                &&& gain.mul(residual.signum()).is_finite()
                &&& self.ledger.lifetimes.contains_key(id)
                    ==> self.ledger.lifetimes[id].realized_pnl.add(
                    gain.mul(residual.signum()),
                ).is_finite()
            }
        }
    }

    /// What a split may move the balance by: the cut of the new quantity on
    /// every unit of the new basis, that of the new basis on every new share, and
    /// those of what is cashed out; and a remainder that is dropped, at the new
    /// basis.
    pub open spec fn split_slack(
        self,
        id: u16,
        ratio: N,
        prices: Seq<Option<N>>,
        lot: N,
        val: spec_fn(N) -> real,
        step: real,
    ) -> real {
        let position = self.positions[id];
        let quantity = position.quantity.mul(ratio);
        let basis = position.avg_price.div(ratio);
        let rounded = number::whole_lots(quantity, lot);
        let residual = quantity.sub(rounded);
        let price = broker::mark_or(prices, id, basis);
        let cut = (exact::magnitude(val(quantity)) + exact::magnitude(
            val(position.avg_price) / val(ratio),
        )) * step;
        if !self.positions.contains_key(id) {
            0real
        } else if number::negligible(residual) {
            cut
        } else {
            cut + 2real * step + dropped(rounded, val(basis), val) + self.unrecorded(
                id,
                (val(price) - val(basis)) * val(residual),
            )
        }
    }
}

/// A split keeps the books balanced: shares and basis change inversely, and
/// what is cashed out in lieu is realized against its basis. Left out are
/// ratios of nought and splits that leave none of a position's shares to count.
pub proof fn splits_keep_the_balance<N: Number>(
    account: Account<N>,
    symbol: Symbol,
    name: Seq<char>,
    ratio: N,
    prices: Seq<Option<N>>,
    lot: N,
    time: Time,
    val: spec_fn(N) -> real,
    step: real,
)
    requires
        exact::near(val, step),
        account.paired(val),
        account.split_fits(symbol.id(), ratio, prices, lot, val),
    ensures
        account.stays_balanced(
            account.with_split(symbol, name, ratio, prices, lot, time),
            account.split_slack(symbol.id(), ratio, prices, lot, val, step),
            val,
        ),
{
    let id = symbol.id();
    let scaled = Account { ledger: account.ledger.with_rescaled(id, ratio), ..account };
    let after = account.with_split(symbol, name, ratio, prices, lot, time);
    lemma_profit_change(account.ledger.lifetimes, scaled.ledger.lifetimes, val, id);
    assert(scaled.ledger.lifetimes.dom() =~= account.ledger.lifetimes.dom());
    if account.positions.contains_key(id) {
        let position = account.positions[id];
        let quantity = position.quantity.mul(ratio);
        let basis = position.avg_price.div(ratio);
        let rounded = number::whole_lots(quantity, lot);
        let residual = quantity.sub(rounded);
        let q = val(position.quantity);
        let a = val(position.avg_price);
        let r = val(ratio);
        assert(q != 0real);
        lemma_split(q, a, r, val(quantity), val(basis), step);
        lemma_cost_change(account.positions, after.positions, val, id);
        lemma_profit_change(scaled.ledger.lifetimes, after.ledger.lifetimes, val, id);
        if !number::negligible(residual) {
            let price = broker::mark_or(prices, id, basis);
            let p = val(price);
            let b = val(basis);
            let e = val(residual);
            let product = price.sub(basis).mul(residual.abs());
            lemma_in_lieu(val(rounded), e, b, p);
            assert(e == val(quantity) - val(rounded));
            assert(exact::short_of(val(residual.mul(price)), e * p, step));
            exact::lemma_signed_product(val, step, product, residual);
            lemma_gained(p - b, exact::magnitude(e), exact::sign(e), val(product), step);
            let unwound = scaled.ledger.lifetimes[id].unwound(
                residual.abs(),
                price,
                product.mul(residual.signum()),
            );
            lemma_dropped(val(rounded), b, val(N::epsilon()));
            if number::negligible(rounded) {
                lemma_closed_push(account.ledger.trades, unwound.trade(name, time, "split"@), val);
                assert(unwound.trade(name, time, "split"@).pnl == unwound.realized_pnl);
            }
        }
    } else {
        assert(after == scaled);
    }
}

impl<N: Number> Account<N> {
    /// Whether nothing that a forced liquidation computes runs out of range.
    pub open spec fn delisting_fits(self, id: u16, prices: Seq<Option<N>>, haircut: N) -> bool {
        let qty = self.positions[id].quantity;
        let basis = self.positions[id].avg_price;
        let price = broker::mark_or(prices, id, basis).mul(number::one::<N>().sub(haircut));
        let gain = price.sub(basis).mul(qty.abs());
        let realized = if self.ledger.lifetimes.contains_key(id) {
            self.ledger.lifetimes[id].realized_pnl
        } else {
            N::zero()
        };
        self.positions.contains_key(id) ==> {
            &&& qty.abs().is_finite()
            &&& qty.neg().is_finite()
            &&& qty.add(qty.neg()).is_finite()
            &&& qty.add(qty.neg()).abs().is_finite()
            &&& qty.neg().mul(price).is_finite()
            &&& self.cash.sub(qty.neg().mul(price)).is_finite()
            &&& price.sub(basis).is_finite()
            &&& gain.is_finite()
            &&& gain.mul(qty.signum()).is_finite()
            &&& realized.add(gain.mul(qty.signum())).is_finite()
        }
    }
}

/// A forced liquidation keeps the books balanced: it realizes the last known
/// price, less the haircut, against the basis.
pub proof fn delistings_keep_the_balance<N: Number>(
    account: Account<N>,
    symbol: Symbol,
    name: Seq<char>,
    prices: Seq<Option<N>>,
    haircut: N,
    time: Time,
    val: spec_fn(N) -> real,
    step: real,
)
    requires
        exact::near(val, step),
        account.paired(val),
        account.delisting_fits(symbol.id(), prices, haircut),
    ensures
        account.stays_balanced(
            account.with_delisting(symbol, name, prices, haircut, time),
            2real * step,
            val,
        ),
        !account.with_delisting(symbol, name, prices, haircut, time).positions.contains_key(
            symbol.id(),
        ),
{
    let id = symbol.id();
    let after = account.with_delisting(symbol, name, prices, haircut, time);
    if account.positions.contains_key(id) {
        let qty = account.positions[id].quantity;
        let basis = account.positions[id].avg_price;
        let price = broker::mark_or(prices, id, basis).mul(number::one::<N>().sub(haircut));
        let q = val(qty);
        let a = val(basis);
        let p = val(price);
        let product = price.sub(basis).mul(qty.abs());
        assert(q != 0real);
        assert(val(qty.add(qty.neg())) == 0real);
        assert(number::negligible(qty.add(qty.neg())));
        lemma_cost_change(account.positions, after.positions, val, id);
        lemma_profit_change(account.ledger.lifetimes, after.ledger.lifetimes, val, id);
        lemma_turned(q, a, 0real, p);
        assert((-q) * p == -(q * p)) by (nonlinear_arith);
        assert(exact::short_of(val(qty.neg().mul(price)), (-q) * p, step));
        exact::lemma_signed_product(val, step, product, qty);
        lemma_gained(p - a, exact::magnitude(q), exact::sign(q), val(product), step);
        let unwound = account.ledger.lifetime_or(id, time, qty.signum()).unwound(
            qty.abs(),
            price,
            product.mul(qty.signum()),
        );
        lemma_closed_push(account.ledger.trades, unwound.trade(name, time, "delisted"@), val);
        assert(unwound.trade(name, time, "delisted"@).pnl == unwound.realized_pnl);
    }
}

proof fn lemma_folded(
    h: real,
    a: real,
    q: real,
    p: real,
    had: real,
    came: real,
    basis: real,
    step: real,
)
    by (nonlinear_arith)
    requires
        step >= 0real,
        h + q != 0real,
        exact::short_of(had, h * a, step),
        exact::short_of(came, q * p, step),
        exact::short_of(basis, (had + came) / (h + q), step),
    ensures
        exact::close(
            (h + q) * basis,
            h * a + q * p,
            (2real + exact::magnitude(h + q)) * step,
        ),
{
    let all = h + q;
    assert(all * ((had + came) / all) == had + came);
    let off = basis - (had + came) / all;
    assert(-step <= off <= step);
    assert(all * basis == had + came + all * off);
    assert(-(exact::magnitude(all) * step) <= all * off <= exact::magnitude(all) * step);
}

impl<N: Number> Account<N> {
    /// Whether nothing that a rename computes runs out of range.
    pub open spec fn rename_fits(self, from: u16, to: u16) -> bool {
        let moved = self.positions[from];
        let kept = self.positions[to];
        let total = kept.quantity.add(moved.quantity);
        let spent = kept.quantity.mul(kept.avg_price).add(moved.quantity.mul(moved.avg_price));
        self.positions.contains_key(from) ==> {
            &&& moved.quantity.abs().is_finite()
            &&& self.positions.contains_key(to) ==> {
                &&& kept.quantity.abs().is_finite()
                &&& total.is_finite()
                &&& total.abs().is_finite()
                &&& kept.quantity.mul(kept.avg_price).is_finite()
                &&& moved.quantity.mul(moved.avg_price).is_finite()
                &&& spent.is_finite()
                &&& spent.div(total).is_finite()
                &&& self.ledger.lifetimes.contains_key(from) && self.ledger.lifetimes.contains_key(to)
                    ==> self.ledger.lifetimes[to].realized_pnl.add(
                    self.ledger.lifetimes[from].realized_pnl,
                ).is_finite()
            }
        }
    }

    /// What a rename may move the balance by: the cuts of a basis that two
    /// positions are folded into.
    pub open spec fn rename_slack(
        self,
        from: u16,
        to: u16,
        val: spec_fn(N) -> real,
        step: real,
    ) -> real {
        if self.positions.contains_key(from) && self.positions.contains_key(to) {
            (2real + exact::magnitude(
                val(self.positions[to].quantity) + val(self.positions[from].quantity),
            )) * step
        } else {
            0real
        }
    }
}

/// A rename keeps the books balanced, moves no cash and completes no trade.
/// Left out are renames that fold positions of opposite directions and different
/// bases into one, whose basis is that of the larger, and those that leave
/// rounding noise.
pub proof fn renames_keep_the_balance<N: Number>(
    account: Account<N>,
    from: Symbol,
    to: Symbol,
    val: spec_fn(N) -> real,
    step: real,
)
    requires
        exact::near(val, step),
        account.paired(val),
        from.id() != to.id(),
        folds_evenly(account.positions, from.id(), to.id(), val),
        account.rename_fits(from.id(), to.id()),
    ensures
        account.stays_balanced(
            account.with_rename(from, to),
            account.rename_slack(from.id(), to.id(), val, step),
            val,
        ),
        account.with_rename(from, to).cash == account.cash,
        account.with_rename(from, to).ledger.trades == account.ledger.trades,
{
    let f = from.id();
    let t = to.id();
    let after = account.with_rename(from, to);
    if account.positions.contains_key(f) {
        let rest = account.positions.remove(f);
        let rest_lifetimes = account.ledger.lifetimes.remove(f);
        lemma_cost_change(account.positions, rest, val, f);
        lemma_profit_change(account.ledger.lifetimes, rest_lifetimes, val, f);
        lemma_cost_change(rest, after.positions, val, t);
        lemma_profit_change(rest_lifetimes, after.ledger.lifetimes, val, t);
        let moved = account.positions[f];
        if rest.contains_key(t) {
            let kept = rest[t];
            let h = val(kept.quantity);
            let q = val(moved.quantity);
            assert(account.positions.contains_key(t));
            assert(h != 0real);
            assert(h + q != 0real);
            lemma_slack(exact::magnitude(h + q), step);
            let had = kept.quantity.mul(kept.avg_price);
            let came = moved.quantity.mul(moved.avg_price);
            if exact::sign(h) == exact::sign(q) {
                lemma_folded(
                    h,
                    val(kept.avg_price),
                    q,
                    val(moved.avg_price),
                    val(had),
                    val(came),
                    val(had.add(came).div(kept.quantity.add(moved.quantity))),
                    step,
                );
            } else {
                lemma_one_basis(h, q, val(moved.avg_price));
            }
        }
    } else {
        assert(!account.ledger.lifetimes.dom().contains(f));
    }
}

proof fn lemma_charge<N: Number>(
    account: Account<N>,
    cash: N,
    id: u16,
    amount: N,
    val: spec_fn(N) -> real,
    step: real,
)
    requires
        exact::near(val, step),
        account.paired(val),
        account.positions.contains_key(id),
        account.ledger.lifetimes.contains_key(id)
            ==> account.ledger.lifetimes[id].realized_pnl.sub(amount).is_finite(),
    ensures
        ({
            let after = Account { cash, ledger: account.ledger.with_charge(id, amount), ..account };
            &&& after.paired(val)
            &&& after.ledger.lifetimes.dom() == account.ledger.lifetimes.dom()
            &&& exact::close(
                after.balance(val),
                account.balance(val) + val(cash) - val(account.cash) + val(amount),
                account.unrecorded(id, val(amount)),
            )
        }),
{
    let after = Account { cash, ledger: account.ledger.with_charge(id, amount), ..account };
    assert(after.ledger.lifetimes.dom() =~= account.ledger.lifetimes.dom());
    lemma_profit_change(account.ledger.lifetimes, after.ledger.lifetimes, val, id);
}

impl<N: Number> Account<N> {
    /// Whether nothing runs out of range as borrow fees are taken, position by
    /// position.
    pub open spec fn fees_fit(self, prices: Seq<Option<N>>, daily: N) -> bool {
        forall|id: u16| #[trigger]
            financing::short_ids(self.positions).contains(id) ==> {
                let before = self.with_borrow_fees(prices, daily, id as int);
                let fee = daily.mul(broker::gross(self.positions, prices, id));
                &&& before.cash.sub(fee).is_finite()
                &&& before.ledger.lifetimes.contains_key(id)
                    ==> before.ledger.lifetimes[id].realized_pnl.sub(fee).is_finite()
            }
    }

    /// Whether nothing runs out of range as an amount is spread over a pool,
    /// position by position.
    pub open spec fn shares_fit(
        self,
        prices: Seq<Option<N>>,
        pool: Set<u16>,
        amount: N,
        total: N,
    ) -> bool {
        forall|id: u16| #[trigger]
            pool.contains(id) ==> {
                let before = self.with_shares(prices, pool, amount, total, id as int);
                let part = broker::gross(self.positions, prices, id).div(total);
                &&& part.is_finite()
                &&& amount.mul(part).is_finite()
                &&& before.ledger.lifetimes.contains_key(id)
                    ==> before.ledger.lifetimes[id].realized_pnl.sub(amount.mul(part)).is_finite()
            }
    }

    /// What borrow fees are charged to no lifetime.
    pub open spec fn fees_slack(
        self,
        prices: Seq<Option<N>>,
        daily: N,
        val: spec_fn(N) -> real,
        end: int,
    ) -> real {
        exact::total_below(
            financing::short_ids(self.positions),
            |id: u16|
                self.unrecorded(id, val(daily.mul(broker::gross(self.positions, prices, id)))),
            end,
        )
    }

    /// What shares of an amount are charged to no lifetime.
    pub open spec fn shares_slack(
        self,
        prices: Seq<Option<N>>,
        pool: Set<u16>,
        amount: N,
        total: N,
        val: spec_fn(N) -> real,
        end: int,
    ) -> real {
        exact::total_below(
            pool,
            |id: u16|
                self.unrecorded(
                    id,
                    val(amount.mul(broker::gross(self.positions, prices, id).div(total))),
                ),
            end,
        )
    }

    /// What the pool that bears margin interest is worth.
    pub open spec fn pool_worth(self, prices: Seq<Option<N>>) -> N {
        broker::sum_over(
            financing::interest_pool(self.positions),
            |id: u16| broker::gross(self.positions, prices, id),
        )
    }

    /// Whether nothing runs out of range as margin interest is taken.
    pub open spec fn interest_fits(self, prices: Seq<Option<N>>, daily: N) -> bool {
        let pool = financing::interest_pool(self.positions);
        let interest = daily.mul(self.cash.neg());
        N::zero().lt(self.pool_worth(prices)) ==> {
            &&& exact::sum_fits(pool, |id: u16| broker::gross(self.positions, prices, id))
            &&& self.cash.sub(interest).is_finite()
            &&& Account { cash: self.cash.sub(interest), ..self }.shares_fit(
                prices,
                pool,
                interest,
                self.pool_worth(prices),
            )
        }
    }

    /// What taking margin interest may move the balance by: the cuts of each
    /// share.
    pub open spec fn interest_slack(
        self,
        prices: Seq<Option<N>>,
        daily: N,
        val: spec_fn(N) -> real,
        step: real,
    ) -> real {
        if N::zero().lt(self.pool_worth(prices)) {
            exact::count(financing::interest_pool(self.positions)) * ((1real + exact::magnitude(
                val(daily.mul(self.cash.neg())),
            )) * step) + self.shares_slack(
                prices,
                financing::interest_pool(self.positions),
                daily.mul(self.cash.neg()),
                self.pool_worth(prices),
                val,
                0x1_0000,
            )
        } else {
            0real
        }
    }

    /// The account with the day's borrow fees taken, if any are charged.
    pub open spec fn borrowed(self, prices: Seq<Option<N>>, borrow_rate: N) -> Account<N> {
        if N::zero().lt(borrow_rate) {
            self.with_borrow_fees(prices, financing::per_day(borrow_rate), 0x1_0000)
        } else {
            self
        }
    }

    /// Whether nothing that a day of financing computes runs out of range.
    pub open spec fn financing_fits(
        self,
        prices: Seq<Option<N>>,
        borrow_rate: N,
        interest_rate: N,
    ) -> bool {
        &&& N::zero().lt(borrow_rate) ==> self.fees_fit(prices, financing::per_day(borrow_rate))
        &&& self.borrowed(prices, borrow_rate).interest_fits(
            prices,
            financing::per_day(interest_rate),
        )
    }

    /// What a day of financing may move the balance by.
    pub open spec fn financing_slack(
        self,
        prices: Seq<Option<N>>,
        borrow_rate: N,
        interest_rate: N,
        val: spec_fn(N) -> real,
        step: real,
    ) -> real {
        (if N::zero().lt(borrow_rate) {
            self.fees_slack(prices, financing::per_day(borrow_rate), val, 0x1_0000)
        } else {
            0real
        }) + self.borrowed(prices, borrow_rate).interest_slack(
            prices,
            financing::per_day(interest_rate),
            val,
            step,
        )
    }
}

proof fn lemma_fees_balance<N: Number>(
    account: Account<N>,
    prices: Seq<Option<N>>,
    daily: N,
    end: int,
    val: spec_fn(N) -> real,
    step: real,
)
    requires
        exact::near(val, step),
        account.paired(val),
        account.fees_fit(prices, daily),
        end <= 0x1_0000,
    ensures
        account.stays_balanced(
            account.with_borrow_fees(prices, daily, end),
            account.fees_slack(prices, daily, val, end),
            val,
        ),
        account.fees_slack(prices, daily, val, end) >= 0real,
        account.with_borrow_fees(prices, daily, end).positions == account.positions,
        account.with_borrow_fees(prices, daily, end).ledger.lifetimes.dom()
            == account.ledger.lifetimes.dom(),
    decreases end,
{
    if end > 0 {
        lemma_fees_balance(account, prices, daily, end - 1, val, step);
        let before = account.with_borrow_fees(prices, daily, end - 1);
        let id = (end - 1) as u16;
        if financing::short_ids(account.positions).contains(id) {
            assert(before == account.with_borrow_fees(prices, daily, id as int));
            let fee = daily.mul(broker::gross(account.positions, prices, id));
            lemma_charge(before, before.cash.sub(fee), id, fee, val, step);
        }
    }
}

proof fn lemma_shared(amount: real, own: real, total: real, part: real, share: real, step: real)
    by (nonlinear_arith)
    requires
        step >= 0real,
        total != 0real,
        exact::short_of(part, own / total, step),
        exact::short_of(share, amount * part, step),
    ensures
        exact::close(
            share,
            amount * (own / total),
            (1real + exact::magnitude(amount)) * step,
        ),
{
    let off = part - own / total;
    assert(-step <= off <= step);
    assert(amount * part == amount * (own / total) + amount * off);
    assert(-(exact::magnitude(amount) * step) <= amount * off <= exact::magnitude(amount) * step);
}

proof fn lemma_spread(amount: real, so_far: real, own: real, total: real)
    by (nonlinear_arith)
    requires
        total != 0real,
    ensures
        amount * ((so_far + own) / total) == amount * (so_far / total) + amount * (own / total),
{
}

proof fn lemma_spread_nought(amount: real, total: real)
    by (nonlinear_arith)
    requires
        total != 0real,
    ensures
        amount * (0real / total) == 0real,
{
}

proof fn lemma_spread_whole(amount: real, total: real)
    by (nonlinear_arith)
    requires
        total != 0real,
    ensures
        amount * (total / total) == amount,
{
}

proof fn lemma_one_more(count: real, each: real)
    by (nonlinear_arith)
    ensures
        (count + 1real) * each == count * each + each,
        0real * each == 0real,
{
}

proof fn lemma_shares_balance<N: Number>(
    account: Account<N>,
    prices: Seq<Option<N>>,
    pool: Set<u16>,
    amount: N,
    total: N,
    end: int,
    val: spec_fn(N) -> real,
    step: real,
)
    requires
        exact::near(val, step),
        account.paired(val),
        pool.subset_of(account.positions.dom()),
        account.shares_fit(prices, pool, amount, total),
        val(total) != 0real,
        end <= 0x1_0000,
    ensures
        ({
            let after = account.with_shares(prices, pool, amount, total, end);
            &&& after.paired(val)
            &&& after.positions == account.positions
            &&& after.cash == account.cash
            &&& exact::close(
                after.balance(val),
                account.balance(val) + val(amount) * (exact::total_below(
                    pool,
                    |id: u16| val(broker::gross(account.positions, prices, id)),
                    end,
                ) / val(total)),
                exact::count_below(pool, end) * ((1real + exact::magnitude(val(amount))) * step)
                    + account.shares_slack(prices, pool, amount, total, val, end),
            )
            &&& account.shares_slack(prices, pool, amount, total, val, end) >= 0real
            &&& after.ledger.lifetimes.dom() == account.ledger.lifetimes.dom()
        }),
    decreases end,
{
    let term = |id: u16| val(broker::gross(account.positions, prices, id));
    let each = (1real + exact::magnitude(val(amount))) * step;
    if end > 0 {
        lemma_shares_balance(account, prices, pool, amount, total, end - 1, val, step);
        let before = account.with_shares(prices, pool, amount, total, end - 1);
        let id = (end - 1) as u16;
        if pool.contains(id) {
            assert(before == account.with_shares(prices, pool, amount, total, id as int));
            let gross = broker::gross(account.positions, prices, id);
            let share = amount.mul(gross.div(total));
            assert(before.positions.contains_key(id));
            lemma_charge(before, before.cash, id, share, val, step);
            lemma_spread(
                val(amount),
                exact::total_below(pool, term, end - 1),
                val(gross),
                val(total),
            );
            lemma_shared(
                val(amount),
                val(gross),
                val(total),
                val(gross.div(total)),
                val(share),
                step,
            );
            lemma_one_more(exact::count_below(pool, end - 1), each);
        }
    } else {
        lemma_spread_nought(val(amount), val(total));
        lemma_one_more(0real, each);
    }
}

/// Financing keeps the books balanced: borrow fees and margin interest come out
/// of what the positions that bear them have realized, in full.
pub proof fn financing_keeps_the_balance<N: Number>(
    account: Account<N>,
    prices: Seq<Option<N>>,
    borrow_rate: N,
    interest_rate: N,
    val: spec_fn(N) -> real,
    step: real,
)
    requires
        exact::near(val, step),
        account.paired(val),
        account.financing_fits(prices, borrow_rate, interest_rate),
    ensures
        account.stays_balanced(
            account.with_financing(prices, borrow_rate, interest_rate),
            account.financing_slack(prices, borrow_rate, interest_rate, val, step),
            val,
        ),
{
    let borrowed = account.borrowed(prices, borrow_rate);
    if N::zero().lt(borrow_rate) {
        lemma_fees_balance(account, prices, financing::per_day(borrow_rate), 0x1_0000, val, step);
    }
    let daily = financing::per_day(interest_rate);
    let pool = financing::interest_pool(borrowed.positions);
    let term = |id: u16| broker::gross(borrowed.positions, prices, id);
    let real_term = |id: u16| val(broker::gross(borrowed.positions, prices, id));
    let total = broker::sum_over(pool, term);
    exact::lemma_count(pool, 0x1_0000);
    if N::zero().lt(total) {
        let interest = daily.mul(borrowed.cash.neg());
        let each = (1real + exact::magnitude(val(interest))) * step;
        assert(exact::count(pool) * each >= 0real) by (nonlinear_arith)
            requires
                exact::count(pool) >= 0real,
                each == (1real + exact::magnitude(val(interest))) * step,
                step >= 0real,
        ;
        let charged = Account { cash: borrowed.cash.sub(interest), ..borrowed };
        assert(charged.paired(val));
        assert(charged.balance(val) == borrowed.balance(val) - val(interest));
        exact::lemma_sum_is_total(val, step, pool, term, real_term, 0x1_0000);
        lemma_shares_balance(charged, prices, pool, interest, total, 0x1_0000, val, step);
        assert((|id: u16|
            charged.unrecorded(
                id,
                val(interest.mul(broker::gross(charged.positions, prices, id).div(total))),
            )) =~= (|id: u16|
            borrowed.unrecorded(
                id,
                val(interest.mul(broker::gross(borrowed.positions, prices, id).div(total))),
            )));
        lemma_spread_whole(val(interest), val(total));
    }
}

/// The profit reported for open positions, realized and not.
pub open spec fn reported_profit<N>(
    positions: Seq<stats::OpenPositionView<N>>,
    val: spec_fn(N) -> real,
) -> real
    decreases positions.len(),
{
    if positions.len() == 0 {
        0real
    } else {
        reported_profit(positions.drop_last(), val) + val(positions.last().unrealized_pnl) + val(
            positions.last().realized_pnl,
        )
    }
}

proof fn lemma_reported_fold<N>(
    positions: Seq<stats::OpenPositionView<N>>,
    val: spec_fn(N) -> real,
    start: real,
)
    ensures
        positions.fold_right(
            |p: stats::OpenPositionView<N>, sum: real|
                sum + val(p.unrealized_pnl) + val(p.realized_pnl),
            start,
        ) == start + reported_profit(positions, val),
    decreases positions.len(),
{
    if positions.len() > 0 {
        let last = positions.last();
        lemma_reported_fold(
            positions.drop_last(),
            val,
            start + val(last.unrealized_pnl) + val(last.realized_pnl),
        );
    }
}

proof fn lemma_reported_order<N>(
    a: Seq<stats::OpenPositionView<N>>,
    b: Seq<stats::OpenPositionView<N>>,
    val: spec_fn(N) -> real,
)
    requires
        a.to_multiset() == b.to_multiset(),
    ensures
        reported_profit(a, val) == reported_profit(b, val),
{
    let f = |p: stats::OpenPositionView<N>, sum: real|
        sum + val(p.unrealized_pnl) + val(p.realized_pnl);
    lemma_reported_fold(a, val, 0real);
    lemma_reported_fold(b, val, 0real);
    vstd::seq_lib::lemma_fold_right_permutation(a, b, f, 0real);
}

proof fn lemma_unrealized(q: real, a: real, last: real)
    by (nonlinear_arith)
    ensures
        (last - a) * q == q * last - q * a,
{
}

impl<N: Number> Engine<N> {
    /// Whether the books balance on the starting cash to within `bound`, and
    /// every position has its lifetime.
    pub open(crate) spec fn balanced(self, bound: real, val: spec_fn(N) -> real) -> bool {
        &&& self.account().paired(val)
        &&& exact::close(self.account().balance(val), val(self.starting_cash()), bound)
    }

    /// Whether nothing that the report computes of the open positions runs out
    /// of range.
    pub open(crate) spec fn report_fits(self) -> bool {
        let positions = self.account().positions;
        &&& exact::sum_fits(
            positions.dom(),
            |id: u16| broker::worth(positions, self.prices(), id),
        )
        &&& self.net_value().is_finite()
        &&& forall|id: u16| #[trigger]
            positions.contains_key(id) ==> {
                let last = broker::mark_or(self.prices(), id, positions[id].avg_price);
                &&& broker::worth(positions, self.prices(), id).is_finite()
                &&& last.sub(positions[id].avg_price).is_finite()
                &&& last.sub(positions[id].avg_price).mul(positions[id].quantity).is_finite()
            }
    }

    /// What the report may miss by: the cuts of what each open position is worth
    /// and of what it gained.
    pub open(crate) spec fn report_slack(self, step: real) -> real {
        exact::count(self.account().positions.dom()) * (2real * step)
    }
}

/// What the open positions with ids below `end` are reported to have gained is
/// what they are worth above their cost, and what their lifetimes realized.
proof fn lemma_summaries_profit<N: Number>(
    engine: Engine<N>,
    end: int,
    val: spec_fn(N) -> real,
    step: real,
)
    requires
        exact::near(val, step),
        engine.account().paired(val),
        engine.report_fits(),
        end <= 0x1_0000,
    ensures
        ({
            let positions = engine.account().positions;
            let lifetimes = engine.account().ledger.lifetimes;
            exact::close(
                reported_profit(engine.summaries_below(end), val),
                exact::total_below(
                    positions.dom(),
                    |id: u16| val(broker::worth(positions, engine.prices(), id)),
                    end,
                ) - exact::total_below(
                    positions.dom(),
                    |id: u16| position_cost(positions, val, id),
                    end,
                ) + exact::total_below(
                    lifetimes.dom(),
                    |id: u16| val(lifetimes[id].realized_pnl),
                    end,
                ),
                exact::count_below(positions.dom(), end) * (2real * step),
            )
        }),
    decreases end,
{
    if end > 0 {
        lemma_summaries_profit(engine, end - 1, val, step);
        let id = (end - 1) as u16;
        let positions = engine.account().positions;
        let lifetimes = engine.account().ledger.lifetimes;
        let before = engine.summaries_below(end - 1);
        if positions.contains_key(id) {
            assert(before.push(engine.summary(id)).drop_last() =~= before);
            let position = positions[id];
            let last = broker::mark_or(engine.prices(), id, position.avg_price);
            lemma_unrealized(val(position.quantity), val(position.avg_price), val(last));
            lemma_one_more(exact::count_below(positions.dom(), end - 1), 2real * step);
            assert(exact::short_of(
                val(broker::worth(positions, engine.prices(), id)),
                val(position.quantity) * val(last),
                step,
            ));
            assert(exact::short_of(
                val(engine.summary(id).unrealized_pnl),
                (val(last) - val(position.avg_price)) * val(position.quantity),
                step,
            ));
        } else {
            assert(!lifetimes.dom().contains(id));
        }
    } else {
        lemma_one_more(0real, 2real * step);
    }
}

/// How far the parts of a report are from making its whole: the starting cash,
/// the profit of completed trades and the profit of open positions, realized and
/// not, against the final equity.
pub open spec fn misses_by<N: Number>(
    result: BacktestResult<N>,
    val: spec_fn(N) -> real,
) -> real {
    exact::magnitude(
        val(result.initial_cash) + closed_profit(stats::trade_views(result.trades@), val)
            + reported_profit(result::summary_views(result.open_positions@), val) - val(
            result.final_equity,
        ),
    )
}

/// The report adds up: where the books balance on the starting cash, it plus the
/// profit of completed trades plus the profit of open positions, realized and
/// not, is the final equity, as near as the books balance and the report can
/// tell.
pub proof fn the_report_adds_up<N: Number>(
    ended: Engine<N>,
    result: BacktestResult<N>,
    bound: real,
    val: spec_fn(N) -> real,
    step: real,
)
    requires
        exact::near(val, step),
        ended.reports(result),
        ended.balanced(bound, val),
        ended.report_fits(),
    ensures
        misses_by(result, val) <= bound + ended.report_slack(step),
{
    let positions = ended.account().positions;
    let prices = ended.prices();
    lemma_reported_order(
        result::summary_views(result.open_positions@),
        ended.summaries_below(0x1_0000),
        val,
    );
    lemma_summaries_profit(ended, 0x1_0000, val, step);
    exact::lemma_sum_is_total(
        val,
        step,
        positions.dom(),
        |id: u16| broker::worth(positions, prices, id),
        |id: u16| val(broker::worth(positions, prices, id)),
        0x1_0000,
    );
}

/// A run that holds nothing yet starts with its books balanced on its cash.
pub proof fn a_fresh_run_is_balanced<N: Number>(engine: Engine<N>, val: spec_fn(N) -> real)
    requires
        engine.fresh(),
        engine.account().positions == Map::<u16, Position<N>>::empty(),
        engine.account().cash == engine.starting_cash(),
    ensures
        engine.balanced(0real, val),
{
    let account = engine.account();
    assert(account.ledger.lifetimes.dom() =~= account.positions.dom());
    lemma_total_nothing(|id: u16| position_cost(account.positions, val, id), 0x1_0000);
    lemma_total_nothing(|id: u16| val(account.ledger.lifetimes[id].realized_pnl), 0x1_0000);
    assert(account.positions.dom() =~= Set::<u16>::empty());
    assert(account.ledger.lifetimes.dom() =~= Set::<u16>::empty());
}

proof fn lemma_total_nothing(term: spec_fn(u16) -> real, end: int)
    ensures
        exact::total_below(Set::<u16>::empty(), term, end) == 0real,
    decreases end,
{
    if end > 0 {
        lemma_total_nothing(term, end - 1);
    }
}

} // verus!
