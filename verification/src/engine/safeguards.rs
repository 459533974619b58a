//! What no order can do: fill beyond its limit, grow or turn against what it
//! asked for, take more of a bar than its share, or turn a target around.

use vstd::prelude::*;

use crate::bar::Bar;
use crate::broker;
use crate::broker::Position;
use crate::calendar::Time;
use crate::context::{OrderKind, RestingKind};
use crate::engine::accounting;
use crate::engine::corporate_actions;
use crate::engine::orders;
use crate::engine::orders::Attempt;
use crate::engine::state::{Account, Engine};
use crate::exact;
use crate::margin::{MarginContext, MarginModel, MaxLeverage};
use crate::number;
use crate::number::Number;
use crate::symbol::Symbol;

verus! {

/// A limit order never fills beyond its limit, whatever slippage says: a buy
/// not above it, a sell not below it.
pub proof fn limits_hold<N: Number>(price: N, qty: N, limit: N, val: spec_fn(N) -> real)
    requires
        exact::ordered(val),
    ensures
        val(qty) > 0real ==> val(orders::within_limit(price, qty, Some(limit))) <= val(limit),
        val(qty) <= 0real ==> val(orders::within_limit(price, qty, Some(limit))) >= val(limit),
{
}

/// A limit order is only ever triggered at its limit or a better price, a stop
/// order at its price or a worse one.
pub proof fn triggers_are_fair<N: Number>(
    kind: RestingKind<N>,
    qty: N,
    bar: Bar<N>,
    val: spec_fn(N) -> real,
)
    requires
        exact::ordered(val),
    ensures
        match (kind, orders::trigger_price(kind, qty, bar)) {
            (RestingKind::Limit(limit), Some(price)) => {
                &&& val(qty) > 0real ==> val(price) <= val(limit)
                &&& val(qty) < 0real ==> val(price) >= val(limit)
            },
            (RestingKind::Stop(stop), Some(price)) => {
                &&& val(qty) > 0real ==> val(price) >= val(stop)
                &&& val(qty) < 0real ==> val(price) <= val(stop)
            },
            _ => true,
        },
{
}

/// Whether `part` points the way `whole` does and goes no further.
pub open spec fn within(part: real, whole: real) -> bool {
    (0real <= part <= whole) || (whole <= part <= 0real)
}

proof fn lemma_lots(kept: real, lot: real, lots: real)
    by (nonlinear_arith)
    requires
        kept >= 0real,
        lot > 0real,
        0real <= lots <= kept / lot,
    ensures
        0real <= lots * lot <= kept,
{
}

proof fn lemma_quotient_sign(x: real, lot: real)
    by (nonlinear_arith)
    requires
        lot > 0real,
    ensures
        x >= 0real ==> x / lot >= 0real,
        x <= 0real ==> x / lot <= 0real,
        (x / lot) * lot == x,
{
}

proof fn lemma_signed(sign: real, size: real)
    by (nonlinear_arith)
    requires
        sign == 1real || sign == -1real,
    ensures
        sign == 1real ==> sign * size == size,
        sign == -1real ==> sign * size == -size,
{
}

proof fn lemma_signed_lots(sign: real, lots: real, lot: real)
    by (nonlinear_arith)
    requires
        sign == 1real || sign == -1real,
    ensures
        (sign * lots) * lot == sign * (lots * lot),
{
}

/// What a margin model's answer keeps of an order, before it is cut to lots.
pub open spec fn kept_by_margin<N: Number>(qty: N, allowed: N) -> N {
    if N::zero().lt(qty) {
        number::clamp(allowed, N::zero(), qty)
    } else {
        number::clamp(allowed, qty, N::zero())
    }
}

/// Whether nothing runs out of range as an order is cut to what a margin model
/// answers.
pub open spec fn margin_fits<N: Number>(qty: N, allowed: N, lot: N) -> bool {
    let kept = kept_by_margin(qty, allowed);
    let lots = kept.abs().div(lot);
    &&& kept.abs().is_finite()
    &&& lots.is_finite()
    &&& qty.signum().mul(lots.trunc()).is_finite()
    &&& qty.signum().mul(lots.trunc()).mul(lot).is_finite()
}

/// A margin model can only trim: what it leaves of an order points the same way
/// and is no larger, whatever the model answers.
pub proof fn margin_only_trims<N: Number>(
    qty: N,
    allowed: N,
    lot: N,
    val: spec_fn(N) -> real,
    step: real,
)
    requires
        exact::near(val, step),
        val(lot) > 0real,
        margin_fits(qty, allowed, lot),
    ensures
        within(val(orders::within_margin(qty, allowed, lot)), val(qty)),
{
    let kept = kept_by_margin(qty, allowed);
    if !number::negligible(kept.sub(qty)) {
        let lots = kept.abs().div(lot).trunc();
        let k = val(kept.abs());
        lemma_quotient_sign(k, val(lot));
        assert(exact::short_of(val(kept.abs().div(lot)), k / val(lot), step));
        assert(exact::cuts(val(kept.abs().div(lot)), val(lots)));
        lemma_lots(k, val(lot), val(lots));
        exact::lemma_signed_product(val, step, lots, qty);
        let way = val(qty.signum());
        lemma_signed(way, val(lots));
        let count = choose|count: int| val(lots) == #[trigger] exact::integer(count);
        assert(exact::integer(-count) == -exact::integer(count));
        assert(exact::whole(val(qty.signum().mul(lots))));
        lemma_signed_lots(way, val(lots), val(lot));
        lemma_signed(way, val(lots) * val(lot));
    }
}

/// Whether nothing runs out of range as an order is cut to a bar's volume.
pub open spec fn volume_fits<N: Number>(
    qty: N,
    fraction: N,
    volume: u64,
    used: N,
    lot: N,
) -> bool {
    let share = fraction.mul(N::from_u64(volume));
    let lots = share.sub(used).div(lot);
    &&& N::from_u64(volume).is_finite()
    &&& share.is_finite()
    &&& share.sub(used).is_finite()
    &&& lots.is_finite()
    &&& lots.trunc().mul(lot).is_finite()
    &&& qty.abs().is_finite()
    &&& orders::within_volume(qty, fraction, volume, used, lot).is_finite()
}

/// The shares of a bar still open to fills never pass what is left of its
/// share.
proof fn lemma_volume_left<N: Number>(
    qty: N,
    fraction: N,
    volume: u64,
    used: N,
    lot: N,
    val: spec_fn(N) -> real,
    step: real,
)
    requires
        exact::near(val, step),
        val(lot) > 0real,
        val(fraction) > 0real,
        volume_fits(qty, fraction, volume, used, lot),
    ensures
        ({
            let left = val(orders::volume_left(fraction, volume, used, lot));
            let cap = val(fraction) * val(N::from_u64(volume));
            &&& left >= 0real
            &&& left <= exact::larger(cap - val(used), 0real)
        }),
{
    let share = fraction.mul(N::from_u64(volume));
    let open = share.sub(used);
    let x = val(open);
    let lots = open.div(lot).trunc();
    assert(val(fraction) * val(N::from_u64(volume)) >= 0real) by (nonlinear_arith)
        requires
            val(fraction) > 0real,
            val(N::from_u64(volume)) >= 0real,
    ;
    assert(exact::short_of(val(share), val(fraction) * val(N::from_u64(volume)), step));
    lemma_quotient_sign(x, val(lot));
    assert(exact::short_of(val(open.div(lot)), x / val(lot), step));
    assert(exact::cuts(val(open.div(lot)), val(lots)));
    assert(val(lots.mul(lot)) == val(lots) * val(lot));
    if x >= 0real {
        lemma_lots(x, val(lot), val(lots));
    } else {
        assert(val(lots) * val(lot) <= 0real) by (nonlinear_arith)
            requires
                val(lots) <= 0real,
                val(lot) > 0real,
        ;
    }
}

/// What a bar's volume leaves of an order points the same way and is no larger
/// than the order, nor than what is left of the bar's share.
pub proof fn volume_only_trims<N: Number>(
    qty: N,
    fraction: N,
    volume: u64,
    used: N,
    lot: N,
    val: spec_fn(N) -> real,
    step: real,
)
    requires
        exact::near(val, step),
        val(lot) > 0real,
        volume_fits(qty, fraction, volume, used, lot),
    ensures
        within(val(orders::within_volume(qty, fraction, volume, used, lot)), val(qty)),
        val(fraction) > 0real ==> exact::magnitude(
            val(orders::within_volume(qty, fraction, volume, used, lot)),
        ) <= exact::larger(val(fraction) * val(N::from_u64(volume)) - val(used), 0real),
{
    if N::zero().lt(fraction) {
        lemma_volume_left(qty, fraction, volume, used, lot, val, step);
        let size = qty.abs().min(orders::volume_left(fraction, volume, used, lot));
        exact::lemma_signed_product(val, step, size, qty);
        lemma_signed(val(qty.signum()), val(size));
    }
}

impl<N: Number> Engine<N> {
    /// Whether nothing runs out of range as an order is cut to the bar's volume
    /// and to what the margin model answers, nor as what is filled is counted.
    pub open(crate) spec fn volume_stays_in_range(self, attempt: Attempt<N>, filled: N) -> bool {
        let account = self.account();
        let settings = self.context().config();
        let id = attempt.order.symbol.id();
        let used = orders::used_of(account.used, id);
        let asked = orders::asked(
            attempt.order.kind,
            broker::equity(account.cash, account.positions, self.prices()),
            attempt.price,
            settings.lot_size,
            broker::quantity_of(account.positions, id),
        );
        let capped = account.asked_within_volume(
            self.prices(),
            settings,
            attempt.order,
            attempt.price,
            attempt.bar.volume,
        );
        &&& volume_fits(
            asked,
            settings.max_volume_participation,
            attempt.bar.volume,
            used,
            settings.lot_size,
        )
        &&& forall|allowed: N| #[trigger] margin_fits(capped, allowed, settings.lot_size)
        &&& filled.abs().is_finite()
        &&& used.add(filled.abs()).is_finite()
    }
}

/// All fills against one bar share its volume: together they take no more than
/// the configured fraction of it.
pub proof fn orders_share_a_bars_volume<N: Number>(
    before: Engine<N>,
    attempt: Attempt<N>,
    after: Engine<N>,
    filled: N,
    val: spec_fn(N) -> real,
    step: real,
)
    requires
        exact::near(val, step),
        before.volume_stays_in_range(attempt, filled),
        before.executes(attempt, after, filled),
        val(before.context().config().lot_size) > 0real,
        val(before.context().config().max_volume_participation) > 0real,
        ({
            let id = attempt.order.symbol.id();
            val(orders::used_of(before.account().used, id)) <= val(
                before.context().config().max_volume_participation,
            ) * val(N::from_u64(attempt.bar.volume))
        }),
    ensures
        ({
            let id = attempt.order.symbol.id();
            val(orders::used_of(after.account().used, id)) <= val(
                before.context().config().max_volume_participation,
            ) * val(N::from_u64(attempt.bar.volume))
        }),
{
    let id = attempt.order.symbol.id();
    let settings = before.ctx.settings;
    let account = before.account();
    let qty = choose|qty: N|
        {
            &&& #[trigger] account.resolves(
                before.prices(),
                settings,
                attempt.order,
                attempt.price,
                attempt.bar.volume,
                qty,
            )
            &&& if number::negligible(qty) {
                after == before && filled == N::zero()
            } else {
                filled == qty && before.fills(attempt, qty, after)
            }
        };
    if !number::negligible(qty) {
        let capped = account.asked_within_volume(
            before.prices(),
            settings,
            attempt.order,
            attempt.price,
            attempt.bar.volume,
        );
        let asked = orders::asked(
            attempt.order.kind,
            broker::equity(account.cash, account.positions, before.prices()),
            attempt.price,
            settings.lot_size,
            broker::quantity_of(account.positions, id),
        );
        volume_only_trims(
            asked,
            settings.max_volume_participation,
            attempt.bar.volume,
            orders::used_of(account.used, id),
            settings.lot_size,
            val,
            step,
        );
        if !settings.models.margin.is_unlimited() {
            let allowed = choose|allowed: N|
                #[trigger] settings.models.margin.allows(
                    &account.margin_order(
                        before.prices(),
                        attempt.order.symbol,
                        capped,
                        attempt.price,
                    ),
                    allowed,
                ) && qty == orders::within_margin(capped, allowed, settings.lot_size);
            margin_only_trims(capped, allowed, settings.lot_size, val, step);
        }
        assert(val(orders::used_of(after.account().used, id)) == val(
            orders::used_of(account.used, id),
        ) + exact::magnitude(val(qty)));
    }
}

proof fn lemma_signs_multiply(x: real, y: real)
    by (nonlinear_arith)
    requires
        x >= 0real,
    ensures
        y >= 0real ==> x * y >= 0real,
        y <= 0real ==> x * y <= 0real,
{
}

/// Whether nothing runs out of range as a target weight is sized.
pub open spec fn target_fits<N: Number>(pct: N, equity: N, price: N, lot: N, held: N) -> bool {
    let amount = equity.max(N::zero()).mul(pct);
    let lots = amount.div(price).div(lot);
    &&& amount.is_finite()
    &&& amount.div(price).is_finite()
    &&& lots.is_finite()
    &&& lots.round().is_finite()
    &&& lots.round().mul(lot).is_finite()
    &&& lots.round().mul(lot).sub(held).is_finite()
}

/// A target weight never turns around: a long target asks for a position that is
/// not short and a short target for one that is not long, however deep the
/// account is under water. The position it asks for is a whole number of lots.
pub proof fn targets_never_turn<N: Number>(
    pct: N,
    equity: N,
    price: N,
    lot: N,
    held: N,
    val: spec_fn(N) -> real,
    step: real,
)
    requires
        exact::near(val, step),
        val(lot) > 0real,
        val(price) > 0real,
        target_fits(pct, equity, price, lot, held),
    ensures
        ({
            let target = val(orders::asked(OrderKind::SetHoldings(pct), equity, price, lot, held))
                + val(held);
            &&& val(pct) >= 0real ==> target >= 0real
            &&& val(pct) <= 0real ==> target <= 0real
            &&& exists|lots: real| #[trigger] exact::whole(lots) && target == lots * val(lot)
        }),
{
    let base = equity.max(N::zero());
    let amount = base.mul(pct);
    let desired = amount.div(price);
    let lots = desired.div(lot).round();
    lemma_signs_multiply(val(base), val(pct));
    assert(exact::short_of(val(amount), val(base) * val(pct), step));
    lemma_quotient_sign(val(amount), val(price));
    assert(exact::short_of(val(desired), val(amount) / val(price), step));
    lemma_quotient_sign(val(desired), val(lot));
    assert(exact::short_of(val(desired.div(lot)), val(desired) / val(lot), step));
    assert(exact::rounds(val(desired.div(lot)), val(lots)));
    lemma_whole_sign(val(desired.div(lot)), val(lots));
    assert(val(lots.mul(lot)) == val(lots) * val(lot));
    lemma_signs_multiply(val(lot), val(lots));
    assert(val(lots) * val(lot) == val(lot) * val(lots)) by (nonlinear_arith);
}

proof fn lemma_whole_sign(x: real, r: real)
    requires
        exact::rounds(x, r),
    ensures
        x >= 0real ==> r >= 0real,
        x <= 0real ==> r <= 0real,
{
    let k = choose|k: int| r == #[trigger] exact::integer(k);
    if x >= 0real {
        if k < 0 {
            assert(exact::integer(k) <= -1real);
        }
    }
    if x <= 0real {
        if k > 0 {
            assert(exact::integer(k) >= 1real);
        }
    }
}

/// At a price of nought there is nothing to size against: a target asks for
/// nothing.
pub proof fn targets_need_a_price<N: Number>(
    pct: N,
    equity: N,
    price: N,
    lot: N,
    held: N,
    val: spec_fn(N) -> real,
)
    requires
        exact::ordered(val),
        val(price) == 0real,
    ensures
        orders::asked(OrderKind::SetHoldings(pct), equity, price, lot, held) == N::zero(),
{
}

impl<N: Number> MaxLeverage<N> {
    /// Whether nothing runs out of range between the budget and what is held.
    pub open spec fn budget_fits(&self, order: &MarginContext<N>) -> bool {
        let budget = self.budget(order);
        &&& budget.sub(order.current_qty).is_finite()
        &&& budget.neg().is_finite()
        &&& budget.neg().sub(order.current_qty).is_finite()
    }
}

/// Under a leverage cap an order that only reduces a position is always allowed
/// in full, however over-levered the book is.
pub proof fn reducing_is_always_allowed<N: Number>(
    model: MaxLeverage<N>,
    order: MarginContext<N>,
    allowed: N,
    val: spec_fn(N) -> real,
    step: real,
)
    requires
        exact::near(val, step),
        model.budget_fits(&order),
        model.allows(&order, allowed),
        (val(order.quantity) > 0real && val(order.quantity) <= -val(order.current_qty)) || (val(
            order.quantity,
        ) < 0real && -val(order.quantity) <= val(order.current_qty)),
    ensures
        val(allowed) == val(order.quantity),
{
}

/// Under a leverage cap no order grows a position past the larger of what it was
/// and what the cap affords.
pub proof fn leverage_is_capped<N: Number>(
    model: MaxLeverage<N>,
    order: MarginContext<N>,
    allowed: N,
    val: spec_fn(N) -> real,
    step: real,
)
    requires
        exact::near(val, step),
        model.budget_fits(&order),
        model.allows(&order, allowed),
        val(order.price) > 0real,
    ensures
        exact::magnitude(val(order.current_qty) + val(allowed)) <= exact::larger(
            exact::magnitude(val(order.current_qty)),
            val(model.budget(&order)),
        ),
        within(val(allowed), val(order.quantity)),
{
}

proof fn lemma_value<N: Number>(
    cash: N,
    positions: Map<u16, Position<N>>,
    prices: Seq<Option<N>>,
    val: spec_fn(N) -> real,
    step: real,
)
    requires
        exact::near(val, step),
        broker::value_fits(cash, positions, prices),
    ensures
        val(broker::equity(cash, positions, prices)) == val(cash) + exact::total(
            positions.dom(),
            |a: u16| val(broker::worth(positions, prices, a)),
        ),
{
    exact::lemma_sum_is_total(
        val,
        step,
        positions.dom(),
        |a: u16| broker::worth(positions, prices, a),
        |a: u16| val(broker::worth(positions, prices, a)),
        0x1_0000,
    );
}

proof fn lemma_value_change<N: Number>(
    cash: N,
    positions: Map<u16, Position<N>>,
    prices: Seq<Option<N>>,
    new_cash: N,
    new_positions: Map<u16, Position<N>>,
    marks: Seq<Option<N>>,
    id: u16,
    val: spec_fn(N) -> real,
    step: real,
)
    requires
        exact::near(val, step),
        broker::value_fits(cash, positions, prices),
        broker::value_fits(new_cash, new_positions, marks),
        forall|a: u16|
            a != id ==> (#[trigger] positions.contains_key(a) <==> new_positions.contains_key(a)),
        forall|a: u16|
            a != id && #[trigger] positions.contains_key(a) ==> {
                &&& positions[a] == new_positions[a]
                &&& broker::mark(marks, a) == broker::mark(prices, a)
            },
    ensures
        val(broker::equity(new_cash, new_positions, marks)) - val(new_cash)
            - (if new_positions.contains_key(id) {
            val(broker::worth(new_positions, marks, id))
        } else {
            0real
        }) == val(broker::equity(cash, positions, prices)) - val(cash)
            - (if positions.contains_key(id) {
            val(broker::worth(positions, prices, id))
        } else {
            0real
        }),
{
    let f = |a: u16| val(broker::worth(positions, prices, a));
    let g = |a: u16| val(broker::worth(new_positions, marks, a));
    lemma_value(cash, positions, prices, val, step);
    lemma_value(new_cash, new_positions, marks, val, step);
    assert forall|a: u16| a != id implies #[trigger] exact::part(positions.dom(), f, a)
        == exact::part(new_positions.dom(), g, a) by {
        assert(positions.contains_key(a) <==> new_positions.contains_key(a));
    }
    exact::lemma_total_change(positions.dom(), f, new_positions.dom(), g, id);
}

/// A split does not change what the account is worth, but for rounding: shares
/// and price change inversely, what is cashed out in lieu is worth its cash, and
/// a remainder below the threshold is dropped. Left out are ratios of nought and
/// splits that leave none of a position's shares to count.
pub proof fn splits_keep_the_value<N: Number>(
    account: Account<N>,
    symbol: Symbol,
    name: Seq<char>,
    ratio: N,
    prices: Seq<Option<N>>,
    lot: N,
    time: Time,
    val: spec_fn(N) -> real,
    step: real,
)
    requires
        exact::near(val, step),
        account.split_fits(
            symbol.id(),
            ratio,
            corporate_actions::split_prices(prices, symbol.id(), ratio),
            lot,
            val,
        ),
        broker::mark(prices, symbol.id()) matches Some(price) ==> price.div(ratio).is_finite(),
        broker::value_fits(account.cash, account.positions, prices),
        ({
            let scaled = corporate_actions::split_prices(prices, symbol.id(), ratio);
            let after = account.with_split(symbol, name, ratio, scaled, lot, time);
            broker::value_fits(after.cash, after.positions, scaled)
        }),
    ensures
        ({
            let id = symbol.id();
            let scaled = corporate_actions::split_prices(prices, id, ratio);
            let after = account.with_split(symbol, name, ratio, scaled, lot, time);
            let position = account.positions[id];
            exact::close(
                val(broker::equity(after.cash, after.positions, scaled)),
                val(broker::equity(account.cash, account.positions, prices)),
                if account.positions.contains_key(id) {
                    (exact::magnitude(val(position.quantity.mul(ratio))) + exact::magnitude(
                        val(broker::mark_or(prices, id, position.avg_price)) / val(ratio),
                    )) * step + 3real * step + accounting::dropped(
                        number::whole_lots(position.quantity.mul(ratio), lot),
                        val(
                            broker::mark_or(scaled, id, position.avg_price.div(ratio)),
                        ),
                        val,
                    )
                } else {
                    0real
                },
            )
        }),
{
    let id = symbol.id();
    let scaled = corporate_actions::split_prices(prices, id, ratio);
    let after = account.with_split(symbol, name, ratio, scaled, lot, time);
    lemma_value_change(
        account.cash,
        account.positions,
        prices,
        after.cash,
        after.positions,
        scaled,
        id,
        val,
        step,
    );
    if account.positions.contains_key(id) {
        let position = account.positions[id];
        let quantity = position.quantity.mul(ratio);
        let basis = position.avg_price.div(ratio);
        let rounded = number::whole_lots(quantity, lot);
        let residual = quantity.sub(rounded);
        let old_price = broker::mark_or(prices, id, position.avg_price);
        let price = broker::mark_or(scaled, id, basis);
        assert(exact::short_of(val(price), val(old_price) / val(ratio), step));
        accounting::lemma_split(
            val(position.quantity),
            val(old_price),
            val(ratio),
            val(quantity),
            val(price),
            step,
        );
        lemma_parts(val(rounded), val(residual), val(price));
        assert(exact::short_of(
            val(broker::worth(account.positions, prices, id)),
            val(position.quantity) * val(old_price),
            step,
        ));
        if after.positions.contains_key(id) {
            assert(exact::short_of(
                val(broker::worth(after.positions, scaled, id)),
                val(after.positions[id].quantity) * val(price),
                step,
            ));
        }
        accounting::lemma_dropped(val(rounded), val(price), val(N::epsilon()));
        if !number::negligible(residual) {
            assert(exact::short_of(
                val(residual.mul(price)),
                val(residual) * val(price),
                step,
            ));
        }
    }
}

proof fn lemma_parts(a: real, b: real, p: real)
    by (nonlinear_arith)
    ensures
        (a + b) * p == a * p + b * p,
{
}

/// What a split does to a position and its price: as many shares as the ratio
/// says, or as many whole lots of them as there are, at the basis and the price
/// the ratio says; and no other position or price changes.
pub proof fn splits_touch_one_position<N: Number>(
    account: Account<N>,
    symbol: Symbol,
    name: Seq<char>,
    ratio: N,
    prices: Seq<Option<N>>,
    lot: N,
    time: Time,
)
    ensures
        ({
            let id = symbol.id();
            let after = account.with_split(symbol, name, ratio, prices, lot, time);
            let position = account.positions[id];
            let quantity = position.quantity.mul(ratio);
            let scaled = corporate_actions::split_prices(prices, id, ratio);
            &&& after.positions.remove(id) == account.positions.remove(id)
            &&& broker::mark(scaled, id) == match broker::mark(prices, id) {
                Some(price) => Some(price.div(ratio)),
                None => None,
            }
            &&& forall|other: u16|
                other != id ==> #[trigger] broker::mark(scaled, other) == broker::mark(
                    prices,
                    other,
                )
            &&& after.positions.contains_key(id) ==> {
                &&& account.positions.contains_key(id)
                &&& after.positions[id].avg_price == position.avg_price.div(ratio)
                &&& after.positions[id].quantity == if number::negligible(
                    quantity.sub(number::whole_lots(quantity, lot)),
                ) {
                    quantity
                } else {
                    number::whole_lots(quantity, lot)
                }
            }
        }),
{
    let id = symbol.id();
    let after = account.with_split(symbol, name, ratio, prices, lot, time);
    assert(after.positions.remove(id) =~= account.positions.remove(id));
}

/// What a split leaves of a position is within the threshold of a whole number of
/// lots, points the way the split shares do, and is no more than they are.
pub proof fn splits_leave_whole_lots<N: Number>(
    held: N,
    ratio: N,
    lot: N,
    val: spec_fn(N) -> real,
    step: real,
)
    requires
        exact::near(val, step),
        val(lot) > 0real,
        held.mul(ratio).is_finite(),
        held.mul(ratio).div(lot).is_finite(),
        number::whole_lots(held.mul(ratio), lot).is_finite(),
        held.mul(ratio).sub(number::whole_lots(held.mul(ratio), lot)).is_finite(),
        held.mul(ratio).sub(number::whole_lots(held.mul(ratio), lot)).abs().is_finite(),
    ensures
        ({
            let quantity = held.mul(ratio);
            let rounded = number::whole_lots(quantity, lot);
            let left = if number::negligible(quantity.sub(rounded)) {
                quantity
            } else {
                rounded
            };
            &&& within(val(left), val(held) * val(ratio))
            &&& exists|lots: real| #[trigger]
                exact::whole(lots) && exact::magnitude(val(left) - lots * val(lot)) < val(
                    N::epsilon(),
                )
        }),
{
    let quantity = held.mul(ratio);
    let lots = quantity.div(lot).trunc();
    let x = val(quantity);
    assert(exact::short_of(x, val(held) * val(ratio), step));
    lemma_quotient_sign(x, val(lot));
    assert(exact::short_of(val(quantity.div(lot)), x / val(lot), step));
    assert(exact::cuts(val(quantity.div(lot)), val(lots)));
    assert(val(lots.mul(lot)) == val(lots) * val(lot));
    assert(exact::whole(val(lots)));
    if x >= 0real {
        lemma_lots(x, val(lot), val(lots));
    } else {
        assert((-x) / val(lot) == -(x / val(lot))) by (nonlinear_arith)
            requires
                val(lot) > 0real,
        ;
        lemma_lots(-x, val(lot), -val(lots));
        assert((-val(lots)) * val(lot) == -(val(lots) * val(lot))) by (nonlinear_arith);
    }
}

/// A fill at the mark never changes what a portfolio is worth, but for rounding
/// and a remainder below the threshold that is dropped. No other position
/// changes, and no remainder below the threshold is kept.
pub proof fn fills_at_the_mark_change_nothing<N: Number>(
    cash: N,
    positions: Map<u16, Position<N>>,
    symbol: Symbol,
    qty: N,
    price: N,
    prices: Seq<Option<N>>,
    val: spec_fn(N) -> real,
    step: real,
)
    requires
        exact::near(val, step),
        broker::mark(prices, symbol.id()) == Some(price),
        qty.mul(price).is_finite(),
        cash.sub(qty.mul(price)).is_finite(),
        broker::quantity_of(positions, symbol.id()).add(qty).is_finite(),
        broker::quantity_of(positions, symbol.id()).add(qty).abs().is_finite(),
        broker::value_fits(cash, positions, prices),
        broker::value_fits(
            cash.sub(qty.mul(price)),
            broker::positions_after(positions, symbol, qty, price),
            prices,
        ),
    ensures
        ({
            let id = symbol.id();
            let after = broker::positions_after(positions, symbol, qty, price);
            &&& exact::close(
                val(broker::equity(cash.sub(qty.mul(price)), after, prices)),
                val(broker::equity(cash, positions, prices)),
                3real * step + accounting::dropped(
                    broker::quantity_of(positions, id).add(qty),
                    val(price),
                    val,
                ),
            )
            &&& after.remove(id) == positions.remove(id)
            &&& after.contains_key(id) ==> !number::negligible(after[id].quantity)
        }),
{
    let id = symbol.id();
    let after = broker::positions_after(positions, symbol, qty, price);
    let held = broker::quantity_of(positions, id);
    assert(after.remove(id) =~= positions.remove(id));
    lemma_value_change(
        cash,
        positions,
        prices,
        cash.sub(qty.mul(price)),
        after,
        prices,
        id,
        val,
        step,
    );
    let h = val(held);
    let q = val(qty);
    let p = val(price);
    lemma_parts(h, q, p);
    assert(exact::short_of(val(qty.mul(price)), q * p, step));
    if positions.contains_key(id) {
        assert(exact::short_of(val(broker::worth(positions, prices, id)), h * p, step));
    } else {
        assert(h * p == 0real) by (nonlinear_arith)
            requires
                h == 0real,
        ;
    }
    if after.contains_key(id) {
        assert(exact::short_of(val(broker::worth(after, prices, id)), (h + q) * p, step));
    } else {
        assert(number::negligible(held.add(qty)));
        accounting::lemma_dropped(h + q, p, val(N::epsilon()));
    }
}

/// A fill at the mark changes nothing but what it costs: the account is worth
/// what it was, less the commission, but for rounding and a remainder below the
/// threshold that is dropped.
pub proof fn fills_at_the_mark_keep_the_value<N: Number>(
    account: Account<N>,
    symbol: Symbol,
    name: Seq<char>,
    qty: N,
    price: N,
    fee: N,
    time: Time,
    counts_volume: bool,
    prices: Seq<Option<N>>,
    val: spec_fn(N) -> real,
    step: real,
)
    requires
        exact::near(val, step),
        broker::mark(prices, symbol.id()) == Some(price),
        account.fill_fits(account.filled(symbol, name, qty, price, fee, time)),
        broker::value_fits(account.cash, account.positions, prices),
        ({
            let after = account.with_fill(symbol, name, qty, price, fee, time, counts_volume);
            &&& broker::value_fits(account.cash.sub(qty.mul(price)), after.positions, prices)
            &&& broker::value_fits(after.cash, after.positions, prices)
        }),
    ensures
        ({
            let after = account.with_fill(symbol, name, qty, price, fee, time, counts_volume);
            &&& exact::close(
                val(broker::equity(after.cash, after.positions, prices)),
                val(broker::equity(account.cash, account.positions, prices)) - val(fee),
                3real * step + accounting::dropped(
                    broker::quantity_of(account.positions, symbol.id()).add(qty),
                    val(price),
                    val,
                ),
            )
            &&& after.positions.remove(symbol.id()) == account.positions.remove(symbol.id())
            &&& after.cash == account.cash.sub(qty.mul(price)).sub(fee)
            &&& after.positions.contains_key(symbol.id()) ==> !number::negligible(
                after.positions[symbol.id()].quantity,
            )
        }),
{
    fills_at_the_mark_change_nothing(
        account.cash,
        account.positions,
        symbol,
        qty,
        price,
        prices,
        val,
        step,
    );
}

} // verus!
