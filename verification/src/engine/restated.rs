//! What a split or a rename leaves as it was: an order waits for the same move, a
//! position is as large a stake, a stored bar tells the same story, in post-split
//! terms or under another name.

use vstd::prelude::*;

use crate::bar::Bar;
use crate::broker;
use crate::calendar::Time;
use crate::context::{Order, OrderKind, RestingKind, RestingOrder};
use crate::engine::corporate_actions;
use crate::engine::ledger::OpenLifetime;
use crate::engine::orders;
use crate::engine::state::{Account, Engine};
use crate::exact;
use crate::number;
use crate::number::Number;
use crate::queue;
use crate::symbol::Symbol;

verus! {

/// The price a resting order waits for.
pub open spec fn level<N>(kind: RestingKind<N>) -> N {
    match kind {
        RestingKind::Limit(price) => price,
        RestingKind::Stop(price) => price,
    }
}

/// How far past a resting order's price a bar trades; below nought, how far it
/// falls short of it.
pub open spec fn reach<N: Number>(
    kind: RestingKind<N>,
    qty: N,
    bar: Bar<N>,
    val: spec_fn(N) -> real,
) -> real {
    let downward = match kind {
        RestingKind::Limit(_) => val(qty) > 0real,
        RestingKind::Stop(_) => val(qty) < 0real,
    };
    if downward {
        val(level(kind)) - val(bar.low)
    } else {
        val(bar.high) - val(level(kind))
    }
}

/// Whether the prices of `old` are those of `new` times `ratio`.
pub open spec fn multiplied<N: Number>(
    old: Bar<N>,
    new: Bar<N>,
    ratio: N,
    val: spec_fn(N) -> real,
) -> bool {
    &&& val(old.open) == val(new.open) * val(ratio)
    &&& val(old.high) == val(new.high) * val(ratio)
    &&& val(old.low) == val(new.low) * val(ratio)
}

proof fn lemma_scaled_back(price: real, ratio: real, scaled: real, step: real)
    by (nonlinear_arith)
    requires
        ratio > 0real,
        step >= 0real,
        exact::close(scaled, price / ratio, step),
    ensures
        exact::close(scaled * ratio, price, ratio * step),
        price == (price / ratio) * ratio,
{
    let q = price / ratio;
    assert(q * ratio == price);
    assert((q - step) * ratio <= scaled * ratio <= (q + step) * ratio);
}

proof fn lemma_order_kept(x: real, y: real, ratio: real)
    by (nonlinear_arith)
    requires
        ratio > 0real,
    ensures
        x <= y <==> x * ratio <= y * ratio,
{
}

proof fn lemma_stake(
    qty: real,
    price: real,
    ratio: real,
    new_qty: real,
    new_price: real,
    step: real,
)
    by (nonlinear_arith)
    requires
        ratio > 0real,
        step >= 0real,
        exact::close(new_qty, qty * ratio, step),
        exact::close(new_price * ratio, price, ratio * step),
    ensures
        exact::close(
            new_qty * new_price,
            qty * price,
            (exact::magnitude(new_qty) + exact::magnitude(price / ratio)) * step,
        ),
{
    let p = price / ratio;
    assert(p * ratio == price);
    let e = new_price - p;
    assert(e * ratio == new_price * ratio - price);
    assert(-step <= e <= step);
    let d = new_qty - qty * ratio;
    assert(-step <= d <= step);
    assert(new_qty * new_price == new_qty * p + new_qty * e);
    assert(new_qty * p == qty * ratio * p + d * p);
    assert(qty * ratio * p == qty * price);
    let n = exact::magnitude(new_qty);
    let m = exact::magnitude(p);
    assert(-(n * step) <= new_qty * e <= n * step);
    assert(-(m * step) <= d * p <= m * step);
    assert((n + m) * step == n * step + m * step);
}

/// After a split a resting order of either kind is what it was, in post-split
/// terms: for as many times the shares at as many times less the price. A bar
/// triggers it exactly when the bar with its prices multiplied by the ratio
/// triggers the order before the split, but for the step its price is cut by; at
/// the same price in those terms, and for the same stake.
pub proof fn split_orders_wait_for_the_same_move<N: Number>(
    order: RestingOrder<N>,
    ratio: N,
    old: Bar<N>,
    new: Bar<N>,
    val: spec_fn(N) -> real,
    step: real,
)
    requires
        exact::near(val, step),
        val(ratio) > 0real,
        order.qty.mul(ratio).is_finite(),
        level(order.kind).div(ratio).is_finite(),
        multiplied(old, new, ratio, val),
        // Some of the order's shares are left to count.
        val(order.qty) != 0real ==> val(order.qty.mul(ratio)) != 0real,
    ensures
        ({
            let split = corporate_actions::split_resting(order, ratio);
            let r = val(ratio);
            let before = orders::trigger_price(order.kind, order.qty, old);
            let after = orders::trigger_price(split.kind, split.qty, new);
            &&& split.symbol == order.symbol
            &&& split.kind is Limit <==> order.kind is Limit
            &&& exact::close(val(split.qty), val(order.qty) * r, step)
            &&& exact::close(val(level(split.kind)) * r, val(level(order.kind)), r * step)
            &&& val(level(split.kind)) * r == val(level(order.kind)) ==> {
                &&& after is Some <==> before is Some
                &&& before is Some ==> val(after->0) * r == val(before->0)
            }
            &&& val(order.qty) != 0real && reach(order.kind, order.qty, old, val) >= r * step
                ==> after is Some
            &&& reach(order.kind, order.qty, old, val) < -(r * step) ==> after is None
            &&& before is Some && after is Some ==> {
                &&& exact::close(val(after->0) * r, val(before->0), r * step)
                &&& exact::close(
                    val(split.qty) * val(after->0),
                    val(order.qty) * val(before->0),
                    (exact::magnitude(val(split.qty)) + exact::magnitude(val(before->0) / r))
                        * step,
                )
            }
        }),
{
    let split = corporate_actions::split_resting(order, ratio);
    let r = val(ratio);
    let old_level = val(level(order.kind));
    let new_level = val(level(split.kind));
    assert(exact::short_of(val(split.qty), val(order.qty) * r, step));
    assert(exact::short_of(new_level, old_level / r, step));
    lemma_scaled_back(old_level, r, new_level, step);
    assert(r * step >= 0real) by (nonlinear_arith)
        requires
            r > 0real,
            step >= 0real,
    ;
    assert((val(order.qty) > 0real ==> val(order.qty) * r > 0real) && (val(order.qty) < 0real
        ==> val(order.qty) * r < 0real) && (val(order.qty) == 0real ==> val(order.qty) * r
        == 0real)) by (nonlinear_arith)
        requires
            r > 0real,
    ;
    lemma_order_kept(val(new.low), new_level, r);
    lemma_order_kept(new_level, val(new.high), r);
    lemma_order_kept(val(new.open), new_level, r);
    lemma_order_kept(new_level, val(new.open), r);
    let before = orders::trigger_price(order.kind, order.qty, old);
    let after = orders::trigger_price(split.kind, split.qty, new);
    if before is Some && after is Some {
        assert(exact::close(val(after->0) * r, val(before->0), r * step));
        lemma_stake(
            val(order.qty),
            val(before->0),
            r,
            val(split.qty),
            val(after->0),
            step,
        );
    }
}

/// After a split a deferred order for a number of shares asks for as many times
/// that number; a target weight and an order to liquidate, which name no number of
/// shares, stand.
pub proof fn split_deferred_orders_ask_for_the_same<N: Number>(
    order: Order<N>,
    ratio: N,
    val: spec_fn(N) -> real,
    step: real,
)
    requires
        exact::near(val, step),
        order.kind matches OrderKind::Market(qty) ==> qty.mul(ratio).is_finite(),
    ensures
        ({
            let split = corporate_actions::split_deferred(order, ratio);
            &&& split.symbol == order.symbol
            &&& match order.kind {
                OrderKind::Market(qty) => split.kind matches OrderKind::Market(scaled)
                    && exact::close(val(scaled), val(qty) * val(ratio), step),
                OrderKind::SetHoldings(pct) => split.kind matches OrderKind::SetHoldings(kept)
                    && val(kept) == val(pct),
                OrderKind::Liquidate => split.kind is Liquidate,
            }
        }),
{
    if let OrderKind::Market(qty) = order.kind {
        assert(exact::short_of(val(qty.mul(ratio)), val(qty) * val(ratio), step));
    }
}

/// After a split a stored bar stands at the same instant, its four prices as many
/// times lower, in the same order, and its volume as many times higher, to the
/// nearest share, but for rounding.
pub proof fn split_bars_tell_the_same_story<N: Number>(
    bar: Bar<N>,
    ratio: N,
    val: spec_fn(N) -> real,
    step: real,
)
    requires
        exact::near(val, step),
        exact::counts(val),
        val(ratio) > 0real,
        bar.open.div(ratio).is_finite(),
        bar.high.div(ratio).is_finite(),
        bar.low.div(ratio).is_finite(),
        bar.close.div(ratio).is_finite(),
        N::from_u64(bar.volume).is_finite(),
        N::from_u64(bar.volume).mul(ratio).is_finite(),
        N::from_u64(bar.volume).mul(ratio).round().is_finite(),
        val(N::from_u64(bar.volume).mul(ratio).round()) <= exact::integer(u64::MAX as int),
    ensures
        ({
            let split = corporate_actions::split_bar(bar, ratio);
            let r = val(ratio);
            &&& split.time == bar.time
            &&& exact::close(val(split.open) * r, val(bar.open), r * step)
            &&& exact::close(val(split.high) * r, val(bar.high), r * step)
            &&& exact::close(val(split.low) * r, val(bar.low), r * step)
            &&& exact::close(val(split.close) * r, val(bar.close), r * step)
            &&& exact::close(
                exact::integer(split.volume as int),
                exact::integer(bar.volume as int) * r,
                step + 1real / 2real,
            )
        }),
{
    let split = corporate_actions::split_bar(bar, ratio);
    let r = val(ratio);
    assert(exact::short_of(val(split.open), val(bar.open) / r, step));
    lemma_scaled_back(val(bar.open), r, val(split.open), step);
    assert(exact::short_of(val(split.high), val(bar.high) / r, step));
    lemma_scaled_back(val(bar.high), r, val(split.high), step);
    assert(exact::short_of(val(split.low), val(bar.low) / r, step));
    lemma_scaled_back(val(bar.low), r, val(split.low), step);
    assert(exact::short_of(val(split.close), val(bar.close) / r, step));
    lemma_scaled_back(val(bar.close), r, val(split.close), step);
    let traded = N::from_u64(bar.volume);
    let scaled = traded.mul(ratio);
    let rounded = scaled.round();
    assert(val(traded) * r >= 0real) by (nonlinear_arith)
        requires
            val(traded) >= 0real,
            r > 0real,
    ;
    assert(exact::short_of(val(scaled), val(traded) * r, step));
    assert(exact::rounds(val(scaled), val(rounded)));
    let k = choose|k: int| val(rounded) == #[trigger] exact::integer(k);
    if k < 0 {
        assert(exact::integer(k) <= -1real);
    }
    assert(exact::cuts(val(rounded), exact::integer(split.volume as int)));
    let j = split.volume as int;
    assert(exact::integer(j) <= exact::integer(k) < exact::integer(j) + 1real);
    assert(j == k);
}

/// A lifetime in post-split shares entered and closed as many times the shares,
/// for the cash it entered and closed them for, and realized what it had.
pub proof fn split_lifetimes_keep_their_cash<N: Number>(
    lifetime: OpenLifetime<N>,
    ratio: N,
    val: spec_fn(N) -> real,
    step: real,
)
    requires
        exact::near(val, step),
        lifetime.entry_qty.mul(ratio).is_finite(),
        lifetime.closed_qty.mul(ratio).is_finite(),
    ensures
        ({
            let split = lifetime.rescaled(ratio);
            let r = val(ratio);
            &&& exact::close(val(split.entry_qty), val(lifetime.entry_qty) * r, step)
            &&& exact::close(val(split.closed_qty), val(lifetime.closed_qty) * r, step)
            &&& val(split.entry_value) == val(lifetime.entry_value)
            &&& val(split.close_value) == val(lifetime.close_value)
            &&& val(split.realized_pnl) == val(lifetime.realized_pnl)
            &&& val(split.direction) == val(lifetime.direction)
            &&& split.entry_time == lifetime.entry_time
        }),
{
    assert(exact::short_of(
        val(lifetime.entry_qty.mul(ratio)),
        val(lifetime.entry_qty) * val(ratio),
        step,
    ));
    assert(exact::short_of(
        val(lifetime.closed_qty.mul(ratio)),
        val(lifetime.closed_qty) * val(ratio),
        step,
    ));
}

/// A split restates all that waits or is stored under its symbol, item by item, and
/// its last price, and nothing of any other symbol.
pub proof fn splits_restate_one_symbol<N: Number>(
    before: Engine<N>,
    symbol: Symbol,
    ratio: N,
    time: Time,
    after: Engine<N>,
)
    requires
        before.splits(symbol, ratio, time, after),
    ensures
        ({
            let id = symbol.id();
            let resting = queue::queued(before.order_books().resting@, id);
            let split_resting = queue::queued(after.order_books().resting@, id);
            let deferred = queue::queued(before.order_books().deferred@, id);
            let split_deferred = queue::queued(after.order_books().deferred@, id);
            let bars = before.context().bars_of(id);
            let split_bars = after.context().bars_of(id);
            &&& split_resting.len() == resting.len()
            &&& forall|i: int|
                0 <= i < resting.len() ==> #[trigger] split_resting[i]
                    == corporate_actions::split_resting(resting[i], ratio)
            &&& split_deferred.len() == deferred.len()
            &&& forall|i: int|
                0 <= i < deferred.len() ==> #[trigger] split_deferred[i]
                    == corporate_actions::split_deferred(deferred[i], ratio)
            &&& split_bars.len() == bars.len()
            &&& forall|i: int|
                0 <= i < bars.len() ==> #[trigger] split_bars[i] == corporate_actions::split_bar(
                    bars[i],
                    ratio,
                )
            &&& forall|other: u16|
                #![trigger queue::queued(after.order_books().resting@, other)]
                other != id ==> queue::queued(after.order_books().resting@, other)
                    == queue::queued(before.order_books().resting@, other)
            &&& forall|other: u16|
                #![trigger queue::queued(after.order_books().deferred@, other)]
                other != id ==> queue::queued(after.order_books().deferred@, other)
                    == queue::queued(before.order_books().deferred@, other)
            &&& forall|other: u16|
                #![trigger after.context().bars_of(other)]
                other != id ==> after.context().bars_of(other) == before.context().bars_of(other)
            &&& forall|other: u16|
                #![trigger broker::mark(after.prices(), other)]
                other != id ==> broker::mark(after.prices(), other) == broker::mark(
                    before.prices(),
                    other,
                )
        }),
{
    let id = symbol.id();
    assert(after.ctx.bars_of(id) == before.ctx.bars_of(id).map_values(
        |bar: Bar<N>| corporate_actions::split_bar(bar, ratio),
    ));
}

/// Each share of a position becomes as many as the ratio says, but for rounding and
/// what falls short of a whole lot, which is paid for in cash at the last price in
/// post-split terms; each share's basis, and the symbol's last price, are as many
/// times less.
pub proof fn splits_multiply_shares<N: Number>(
    account: Account<N>,
    symbol: Symbol,
    name: Seq<char>,
    ratio: N,
    prices: Seq<Option<N>>,
    lot: N,
    time: Time,
    val: spec_fn(N) -> real,
    step: real,
)
    requires
        exact::near(val, step),
        val(ratio) > 0real,
        val(lot) > 0real,
        account.positions.contains_key(symbol.id()),
        account.split_fits(
            symbol.id(),
            ratio,
            corporate_actions::split_prices(prices, symbol.id(), ratio),
            lot,
            val,
        ),
        account.positions[symbol.id()].quantity.mul(ratio).div(lot).is_finite(),
        number::whole_lots(
            account.positions[symbol.id()].quantity.mul(ratio),
            lot,
        ).is_finite(),
        broker::mark(prices, symbol.id()) matches Some(price) ==> price.div(ratio).is_finite(),
    ensures
        ({
            let id = symbol.id();
            let r = val(ratio);
            let scaled = corporate_actions::split_prices(prices, id, ratio);
            let after = account.with_split(symbol, name, ratio, scaled, lot, time);
            let shares = val(account.positions[id].quantity) * r;
            let left = val(broker::quantity_of(after.positions, id));
            let mark = val(
                match broker::mark(scaled, id) {
                    Some(price) => price,
                    None => account.positions[id].avg_price.div(ratio),
                },
            );
            &&& exact::magnitude(left) <= exact::magnitude(shares)
            &&& exact::magnitude(shares - left) < (1real + step) * val(lot) + step + val(
                N::epsilon(),
            )
            &&& after.positions.contains_key(id) ==> exact::close(
                val(after.positions[id].avg_price) * r,
                val(account.positions[id].avg_price),
                r * step,
            )
            &&& broker::mark(prices, id) matches Some(price) ==> broker::mark(
                scaled,
                id,
            ) is Some && exact::close(val(broker::mark(scaled, id)->0) * r, val(price), r * step)
            &&& broker::mark(prices, id) is None ==> broker::mark(scaled, id) is None
            &&& after.positions.contains_key(id) && val(after.cash) != val(account.cash)
                ==> exact::close(
                val(after.cash) - val(account.cash),
                (val(account.positions[id].quantity.mul(ratio)) - left) * mark,
                step,
            )
        }),
{
    let id = symbol.id();
    let r = val(ratio);
    let scaled = corporate_actions::split_prices(prices, id, ratio);
    let after = account.with_split(symbol, name, ratio, scaled, lot, time);
    let position = account.positions[id];
    let quantity = position.quantity.mul(ratio);
    let basis = position.avg_price.div(ratio);
    let rounded = number::whole_lots(quantity, lot);
    let residual = quantity.sub(rounded);
    let price = broker::mark_or(scaled, id, basis);
    assert(exact::short_of(val(basis), val(position.avg_price) / r, step));
    lemma_scaled_back(val(position.avg_price), r, val(basis), step);
    if let Some(old_price) = broker::mark(prices, id) {
        assert(exact::short_of(val(old_price.div(ratio)), val(old_price) / r, step));
        lemma_scaled_back(val(old_price), r, val(old_price.div(ratio)), step);
    }
    assert(exact::short_of(val(quantity), val(position.quantity) * r, step));
    let lots = quantity.div(lot).trunc();
    assert(exact::short_of(val(quantity.div(lot)), val(quantity) / val(lot), step));
    assert(exact::cuts(val(quantity.div(lot)), val(lots)));
    assert(val(rounded) == val(lots) * val(lot));
    lemma_lots_left(val(quantity), val(lot), val(quantity.div(lot)), val(lots), step);
    if !number::negligible(residual) {
        assert(exact::short_of(val(residual.mul(price)), val(residual) * val(price), step));
    }
    assert((1real + step) * val(lot) >= 0real) by (nonlinear_arith)
        requires
            step >= 0real,
            val(lot) > 0real,
    ;
}

proof fn lemma_lots_left(x: real, lot: real, ratio: real, lots: real, step: real)
    by (nonlinear_arith)
    requires
        lot > 0real,
        step >= 0real,
        exact::short_of(ratio, x / lot, step),
        exact::cuts(ratio, lots),
    ensures
        exact::magnitude(lots * lot) <= exact::magnitude(x),
        x >= 0real ==> lots * lot >= 0real,
        x <= 0real ==> lots * lot <= 0real,
        exact::magnitude(x - lots * lot) < (1real + step) * lot,
{
    let q = x / lot;
    assert(q * lot == x);
    if q >= 0real {
        assert(x >= 0real);
        assert(0real <= lots <= q);
        assert(lots > q - step - 1real);
        assert(0real <= lots * lot <= q * lot);
        assert(lots * lot > (q - step - 1real) * lot);
    } else {
        assert(x <= 0real);
        assert(q <= lots <= 0real);
        assert(lots < q + step + 1real);
        assert(q * lot <= lots * lot <= 0real);
        assert(lots * lot < (q + step + 1real) * lot);
    }
}

/// Renaming a symbol moves no cash and completes no trade. What was held under both
/// names is held under the new one: the quantities added, unless they cancel to
/// within the threshold, at the basis that keeps their cost where they point the
/// same way, but for rounding, and otherwise at that of the larger. Nothing is left
/// under the old name, and no other position changes.
pub proof fn renames_add_positions<N: Number>(
    account: Account<N>,
    from: Symbol,
    to: Symbol,
    val: spec_fn(N) -> real,
    step: real,
)
    requires
        exact::near(val, step),
        from.id() != to.id(),
        account.rename_fits(from.id(), to.id()),
    ensures
        ({
            let after = account.with_rename(from, to);
            let moved = val(broker::quantity_of(account.positions, from.id()));
            let kept = val(broker::quantity_of(account.positions, to.id()));
            let all = moved + kept;
            let held = after.positions.contains_key(to.id());
            let position = after.positions[to.id()];
            &&& after.cash == account.cash
            &&& after.commission == account.commission
            &&& after.ledger.trades == account.ledger.trades
            &&& !after.positions.contains_key(from.id())
            &&& after.positions.remove(from.id()).remove(to.id()) == account.positions.remove(
                from.id(),
            ).remove(to.id())
            &&& account.positions.contains_key(from.id()) ==> {
                &&& held <==> val(N::epsilon()) < exact::magnitude(all)
                &&& held ==> {
                    &&& val(position.quantity) == all
                    &&& position.symbol == to
                }
                &&& held && !account.positions.contains_key(to.id()) ==> val(position.avg_price)
                    == val(account.positions[from.id()].avg_price)
                &&& held && account.positions.contains_key(to.id()) ==> {
                    let old = account.positions[from.id()];
                    let other = account.positions[to.id()];
                    if exact::sign(moved) == exact::sign(kept) {
                        exact::close(
                            val(position.avg_price) * all,
                            moved * val(old.avg_price) + kept * val(other.avg_price),
                            (2real + exact::magnitude(all)) * step,
                        )
                    } else if exact::magnitude(moved) <= exact::magnitude(kept) {
                        val(position.avg_price) == val(other.avg_price)
                    } else {
                        val(position.avg_price) == val(old.avg_price)
                    }
                }
            }
            &&& !account.positions.contains_key(from.id()) ==> after.positions == account.positions
        }),
{
    let after = account.with_rename(from, to);
    let moved = account.positions[from.id()];
    let kept = account.positions[to.id()];
    assert(after.positions.remove(from.id()).remove(to.id()) =~= account.positions.remove(
        from.id(),
    ).remove(to.id()));
    if account.positions.contains_key(from.id()) && account.positions.contains_key(to.id()) {
        let total = kept.quantity.add(moved.quantity);
        let spent = kept.quantity.mul(kept.avg_price).add(moved.quantity.mul(moved.avg_price));
        if val(total) != 0real {
            assert(exact::short_of(
                val(kept.quantity.mul(kept.avg_price)),
                val(kept.quantity) * val(kept.avg_price),
                step,
            ));
            assert(exact::short_of(
                val(moved.quantity.mul(moved.avg_price)),
                val(moved.quantity) * val(moved.avg_price),
                step,
            ));
            assert(exact::short_of(val(spent.div(total)), val(spent) / val(total), step));
            lemma_folded_cost(
                val(spent),
                val(moved.quantity) * val(moved.avg_price) + val(kept.quantity) * val(
                    kept.avg_price,
                ),
                val(total),
                val(spent.div(total)),
                step,
            );
        }
    }
}

proof fn lemma_folded_cost(spent: real, cost: real, total: real, basis: real, step: real)
    by (nonlinear_arith)
    requires
        step >= 0real,
        total != 0real,
        exact::close(spent, cost, 2real * step),
        exact::close(basis, spent / total, step),
    ensures
        exact::close(basis * total, cost, (2real + exact::magnitude(total)) * step),
{
    let q = spent / total;
    assert(q * total == spent);
    let e = basis - q;
    assert(basis * total == spent + e * total);
    let m = exact::magnitude(total);
    assert(-(m * step) <= e * total <= m * step);
    assert((2real + m) * step == 2real * step + m * step);
}

/// Renaming a symbol moves its open lifetime to the new name, figures and all, or
/// adds its figures to those of the lifetime open there, which keeps its entry time
/// and its direction.
pub proof fn renames_add_lifetimes<N: Number>(
    account: Account<N>,
    from: Symbol,
    to: Symbol,
    val: spec_fn(N) -> real,
    step: real,
)
    requires
        exact::near(val, step),
        from.id() != to.id(),
        account.ledger.lifetimes.contains_key(from.id()) && account.ledger.lifetimes.contains_key(
            to.id(),
        ) ==> {
            let a = account.ledger.lifetimes[to.id()];
            let b = account.ledger.lifetimes[from.id()];
            &&& a.entry_qty.add(b.entry_qty).is_finite()
            &&& a.entry_value.add(b.entry_value).is_finite()
            &&& a.closed_qty.add(b.closed_qty).is_finite()
            &&& a.close_value.add(b.close_value).is_finite()
            &&& a.realized_pnl.add(b.realized_pnl).is_finite()
        },
    ensures
        ({
            let before = account.ledger.lifetimes;
            let after = account.with_rename(from, to).ledger.lifetimes;
            let a = before[to.id()];
            let b = before[from.id()];
            let new = after[to.id()];
            &&& !after.contains_key(from.id())
            &&& after.remove(to.id()) == before.remove(from.id()).remove(to.id())
            &&& !before.contains_key(from.id()) ==> after == before
            &&& before.contains_key(from.id()) && !before.contains_key(to.id())
                ==> after.contains_key(to.id()) && new == b
            &&& before.contains_key(from.id()) && before.contains_key(to.id()) ==> {
                &&& after.contains_key(to.id())
                &&& val(new.entry_qty) == val(a.entry_qty) + val(b.entry_qty)
                &&& val(new.entry_value) == val(a.entry_value) + val(b.entry_value)
                &&& val(new.closed_qty) == val(a.closed_qty) + val(b.closed_qty)
                &&& val(new.close_value) == val(a.close_value) + val(b.close_value)
                &&& val(new.realized_pnl) == val(a.realized_pnl) + val(b.realized_pnl)
                &&& new.entry_time == a.entry_time
                &&& val(new.direction) == val(a.direction)
            }
        }),
{
    let before = account.ledger.lifetimes;
    let after = account.with_rename(from, to).ledger.lifetimes;
    assert(after.remove(to.id()) =~= before.remove(from.id()).remove(to.id()));
}

/// Renaming a symbol takes what is known and waits under the old name to the new
/// one: its resting orders behind those already there, for the same shares at the
/// same prices; its last price and its stored bars where the new name has none of
/// its own; and the later of the days the two last printed. Nothing is left under
/// the old name, and nothing of any other symbol changes.
pub proof fn renames_relabel_the_rest<N: Number>(
    before: Engine<N>,
    from: Symbol,
    to: Symbol,
    after: Engine<N>,
)
    requires
        from != to,
        from.id() != to.id(),
        before.renames(from, to, after),
    ensures
        ({
            let a = from.id();
            let b = to.id();
            let own = queue::queued(before.order_books().resting@, b);
            let moved = queue::queued(before.order_books().resting@, a);
            let all = queue::queued(after.order_books().resting@, b);
            &&& all.len() == own.len() + moved.len()
            &&& forall|i: int| 0 <= i < own.len() ==> #[trigger] all[i] == own[i]
            &&& forall|i: int|
                0 <= i < moved.len() ==> {
                    let order = #[trigger] all[own.len() + i];
                    &&& order.symbol == to
                    &&& order.qty == moved[i].qty
                    &&& order.kind == moved[i].kind
                }
            &&& queue::queued(after.order_books().resting@, a).len() == 0
            &&& broker::mark(after.prices(), a) is None
            &&& broker::mark(before.prices(), b) is Some ==> broker::mark(after.prices(), b)
                == broker::mark(before.prices(), b)
            &&& broker::mark(before.prices(), b) is None ==> broker::mark(after.prices(), b)
                == broker::mark(before.prices(), a)
            &&& after.context().bars_of(a).len() == 0
            &&& before.context().bars_of(b).len() > 0 ==> after.context().bars_of(b)
                == before.context().bars_of(b)
            &&& before.context().bars_of(b).len() == 0 ==> after.context().bars_of(b)
                == before.context().bars_of(a)
            &&& ({
                let old_day = corporate_actions::entry_of(before.progress().last_seen_day@, a);
                let new_day = corporate_actions::entry_of(before.progress().last_seen_day@, b);
                let day = corporate_actions::entry_of(after.progress().last_seen_day@, b);
                &&& day is Some <==> old_day is Some || new_day is Some
                &&& day == old_day || day == new_day
                &&& old_day is Some ==> old_day->0 <= day->0
                &&& new_day is Some ==> new_day->0 <= day->0
                &&& corporate_actions::entry_of(after.progress().last_seen_day@, a) is None
            })
            &&& forall|other: u16|
                #![trigger queue::queued(after.order_books().resting@, other)]
                other != a && other != b ==> queue::queued(after.order_books().resting@, other)
                    == queue::queued(before.order_books().resting@, other)
            &&& forall|other: u16|
                #![trigger broker::mark(after.prices(), other)]
                other != a && other != b ==> broker::mark(after.prices(), other) == broker::mark(
                    before.prices(),
                    other,
                )
            &&& forall|other: u16|
                #![trigger after.context().bars_of(other)]
                other != a && other != b ==> after.context().bars_of(other)
                    == before.context().bars_of(other)
        }),
{
    let a = from.id();
    let b = to.id();
    let moved = queue::queued(before.order_books().resting@, a);
    let own = queue::queued(before.order_books().resting@, b);
    assert(queue::queued(before.books.resting@.remove(a), b) == own);
    assert(after.ctx.bars_of(a).len() == 0);
    assert(corporate_actions::entry_of(after.clock.last_seen_day@, b)
        == corporate_actions::renamed_day(before.clock.last_seen_day@, a, b, b));
    assert(broker::mark(after.prices(), b) == corporate_actions::renamed_price(
        before.prices(),
        a,
        b,
        b,
    ));
    let renamed = moved.map_values(
        |order: RestingOrder<N>| RestingOrder { symbol: to, ..order },
    );
    let all = queue::queued(after.order_books().resting@, b);
    assert(all =~= own + renamed);
    assert forall|i: int| 0 <= i < moved.len() implies {
        let order = #[trigger] all[own.len() + i];
        &&& order.symbol == to
        &&& order.qty == moved[i].qty
        &&& order.kind == moved[i].kind
    } by {
        assert(all[own.len() + i] == renamed[i]);
    }
}

/// Once a symbol is delisted nothing waits for it any more; what waits for others
/// does.
pub proof fn delistings_drop_what_waits<N: Number>(
    before: Engine<N>,
    symbol: Symbol,
    time: Time,
    after: Engine<N>,
)
    requires
        before.delists(symbol, time, after),
    ensures
        queue::queued(after.order_books().deferred@, symbol.id()).len() == 0,
        queue::queued(after.order_books().resting@, symbol.id()).len() == 0,
        forall|other: u16|
            #![trigger queue::queued(after.order_books().deferred@, other)]
            other != symbol.id() ==> queue::queued(after.order_books().deferred@, other)
                == queue::queued(before.order_books().deferred@, other),
        forall|other: u16|
            #![trigger queue::queued(after.order_books().resting@, other)]
            other != symbol.id() ==> queue::queued(after.order_books().resting@, other)
                == queue::queued(before.order_books().resting@, other),
        after.prices() == before.prices(),
{
}

/// What a split pays for in cash its lifetime counts as unwound, the shares at the
/// price paid for them, but for rounding, and realizes against the basis. What it
/// entered stands.
pub proof fn cash_in_lieu_unwinds_the_remainder<N: Number>(
    account: Account<N>,
    id: u16,
    residual: N,
    price: N,
    basis: N,
    val: spec_fn(N) -> real,
    step: real,
)
    requires
        exact::near(val, step),
        account.ledger.lifetimes.contains_key(id),
        residual.abs().is_finite(),
        residual.abs().mul(price).is_finite(),
        account.ledger.lifetimes[id].closed_qty.add(residual.abs()).is_finite(),
        account.ledger.lifetimes[id].close_value.add(residual.abs().mul(price)).is_finite(),
    ensures
        ({
            let before = account.ledger.lifetimes[id];
            let ledger = corporate_actions::cash_in_lieu(
                account.ledger,
                id,
                residual,
                price,
                basis,
            );
            let after = ledger.lifetimes[id];
            let size = exact::magnitude(val(residual));
            &&& ledger.lifetimes.contains_key(id)
            &&& ledger.trades == account.ledger.trades
            &&& val(after.closed_qty) == val(before.closed_qty) + size
            &&& exact::close(
                val(after.close_value),
                val(before.close_value) + size * val(price),
                step,
            )
            &&& val(after.entry_qty) == val(before.entry_qty)
            &&& val(after.entry_value) == val(before.entry_value)
            &&& after.entry_time == before.entry_time
            &&& val(after.direction) == val(before.direction)
        }),
{
    assert(exact::short_of(
        val(residual.abs().mul(price)),
        val(residual.abs()) * val(price),
        step,
    ));
}

} // verus!
