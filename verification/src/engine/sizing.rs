//! How an order is sized, triggered and priced, as amounts: how near a target
//! comes to its weight, what a cap leaves of an order, when a bar reaches a
//! resting order, and at what price it fills.

use vstd::prelude::*;

use crate::bar::Bar;
use crate::broker;
use crate::broker::Position;
use crate::calendar;
use crate::calendar::{Date, Time};
use crate::context::{OrderKind, RestingKind};
use crate::engine::orders;
use crate::engine::result::BacktestResult;
use crate::engine::safeguards;
use crate::engine::state::Engine;
use crate::exact;
use crate::margin::{MarginContext, MarginModel, MaxLeverage, NoMargin};
use crate::number;
use crate::number::Number;
use crate::stats;

verus! {

/// A bar triggers a resting order exactly when its range reaches the order's
/// price: a limit to buy when it trades that low, a limit to sell when it trades
/// that high, a stop to buy when it trades that high and a stop to sell when it
/// trades that low. A triggered order fills at its own price, unless the bar opened
/// beyond it: then at the open.
pub proof fn resting_orders_trigger_when_reached<N: Number>(
    kind: RestingKind<N>,
    qty: N,
    bar: Bar<N>,
    val: spec_fn(N) -> real,
)
    requires
        exact::ordered(val),
    ensures
        match kind {
            RestingKind::Limit(limit) => {
                let trigger = orders::trigger_price(kind, qty, bar);
                &&& val(qty) > 0real ==> (trigger is Some <==> val(bar.low) <= val(limit))
                &&& val(qty) < 0real ==> (trigger is Some <==> val(bar.high) >= val(limit))
                &&& val(qty) == 0real ==> trigger is None
                &&& trigger matches Some(price) ==> {
                    let gapped = if val(qty) > 0real {
                        val(bar.open) < val(limit)
                    } else {
                        val(bar.open) > val(limit)
                    };
                    val(price) == if gapped {
                        val(bar.open)
                    } else {
                        val(limit)
                    }
                }
            },
            RestingKind::Stop(stop) => {
                let trigger = orders::trigger_price(kind, qty, bar);
                &&& val(qty) > 0real ==> (trigger is Some <==> val(bar.high) >= val(stop))
                &&& val(qty) < 0real ==> (trigger is Some <==> val(bar.low) <= val(stop))
                &&& val(qty) == 0real ==> trigger is None
                &&& trigger matches Some(price) ==> {
                    let gapped = if val(qty) > 0real {
                        val(bar.open) > val(stop)
                    } else {
                        val(bar.open) < val(stop)
                    };
                    val(price) == if gapped {
                        val(bar.open)
                    } else {
                        val(stop)
                    }
                }
            },
        },
{
}

/// Slippage takes a resting limit order to its limit and no further, and a stop
/// order, or one without a limit, wherever it goes.
pub proof fn limits_bind_when_passed<N: Number>(
    kind: RestingKind<N>,
    qty: N,
    slipped: N,
    val: spec_fn(N) -> real,
)
    requires
        exact::ordered(val),
    ensures
        match kind {
            RestingKind::Limit(limit) => {
                let price = orders::within_limit(slipped, qty, orders::limit_of(kind));
                &&& val(qty) > 0real ==> val(price) == if val(slipped) > val(limit) {
                    val(limit)
                } else {
                    val(slipped)
                }
                &&& val(qty) < 0real ==> val(price) == if val(slipped) < val(limit) {
                    val(limit)
                } else {
                    val(slipped)
                }
            },
            RestingKind::Stop(_) => val(
                orders::within_limit(slipped, qty, orders::limit_of(kind)),
            ) == val(slipped),
        },
        val(orders::within_limit(slipped, qty, None)) == val(slipped),
{
}

proof fn lemma_target(
    worth: real,
    price: real,
    lot: real,
    amount: real,
    desired: real,
    ratio: real,
    lots: real,
    step: real,
)
    by (nonlinear_arith)
    requires
        price > 0real,
        lot > 0real,
        step >= 0real,
        exact::close(amount, worth, step),
        exact::close(desired, amount / price, step),
        exact::close(ratio, desired / lot, step),
        -1real <= 2real * (lots - ratio) <= 1real,
    ensures
        exact::close(
            lots * lot * price,
            worth,
            (lot / 2real + step * lot + step) * price + step,
        ),
{
    let a = amount / price;
    assert(a * price == amount);
    let d = desired / lot;
    assert(d * lot == desired);
    assert((d - step) * lot <= ratio * lot <= (d + step) * lot);
    assert((ratio - 1real / 2real) * lot <= lots * lot <= (ratio + 1real / 2real) * lot);
    let slack = lot / 2real + step * lot;
    assert(desired - slack <= lots * lot <= desired + slack);
    assert(a - step - slack <= lots * lot <= a + step + slack);
    assert((a - step - slack) * price <= lots * lot * price <= (a + step + slack) * price);
    assert((a - step - slack) * price == amount - (step + slack) * price);
    assert((a + step + slack) * price == amount + (step + slack) * price);
}

/// An order for a number of shares asks for that many, and one to liquidate for
/// what leaves nothing. A target weight asks for the position whose value comes
/// within half a lot of that share of the portfolio, but for rounding, whatever is
/// held already; of a portfolio under water it asks for none.
pub proof fn targets_reach_their_weight<N: Number>(
    kind: OrderKind<N>,
    equity: N,
    price: N,
    lot: N,
    held: N,
    val: spec_fn(N) -> real,
    step: real,
)
    requires
        exact::near(val, step),
        val(lot) > 0real,
        val(price) > 0real,
        kind matches OrderKind::SetHoldings(pct) ==> safeguards::target_fits(
            pct,
            equity,
            price,
            lot,
            held,
        ),
        kind is Liquidate ==> held.neg().is_finite(),
    ensures
        ({
            let asked = val(orders::asked(kind, equity, price, lot, held));
            match kind {
                OrderKind::Market(qty) => asked == val(qty),
                OrderKind::Liquidate => val(held) + asked == 0real,
                OrderKind::SetHoldings(pct) => exact::close(
                    (val(held) + asked) * val(price),
                    val(pct) * exact::larger(val(equity), 0real),
                    (val(lot) / 2real + step * val(lot) + step) * val(price) + step,
                ),
            }
        }),
{
    if let OrderKind::SetHoldings(pct) = kind {
        let base = equity.max(N::zero());
        let amount = base.mul(pct);
        let desired = amount.div(price);
        let ratio = desired.div(lot);
        let lots = ratio.round();
        assert(val(base) * val(pct) == val(pct) * val(base)) by (nonlinear_arith);
        assert(exact::short_of(val(amount), val(base) * val(pct), step));
        assert(exact::short_of(val(desired), val(amount) / val(price), step));
        assert(exact::short_of(val(ratio), val(desired) / val(lot), step));
        assert(exact::rounds(val(ratio), val(lots)));
        assert(val(lots.mul(lot)) == val(lots) * val(lot));
        lemma_target(
            val(base) * val(pct),
            val(price),
            val(lot),
            val(amount),
            val(desired),
            val(ratio),
            val(lots),
            step,
        );
    }
}

proof fn lemma_whole_part(x: real, lot: real, ratio: real, lots: real, step: real)
    by (nonlinear_arith)
    requires
        x >= 0real,
        lot > 0real,
        step >= 0real,
        exact::close(ratio, x / lot, step),
        ratio < lots + 1real,
    ensures
        lots * lot > x - (1real + step) * lot,
{
    let d = x / lot;
    assert(d * lot == x);
    assert(lots > d - step - 1real);
    assert(lots * lot > (d - step - 1real) * lot);
}

/// What a bar's volume leaves of an order is all of it where that fits, and
/// otherwise what is left of the bar's share to within a lot, but for rounding.
/// Without a cap it is all of it.
pub proof fn volume_leaves_what_fits<N: Number>(
    qty: N,
    fraction: N,
    volume: u64,
    used: N,
    lot: N,
    val: spec_fn(N) -> real,
    step: real,
)
    requires
        exact::near(val, step),
        val(lot) > 0real,
        safeguards::volume_fits(qty, fraction, volume, used, lot),
    ensures
        ({
            let left = orders::within_volume(qty, fraction, volume, used, lot);
            let open = val(fraction) * exact::integer(volume as int) - val(used);
            &&& val(fraction) <= 0real ==> val(left) == val(qty)
            &&& val(fraction) > 0real && val(left) != val(qty) ==> exact::magnitude(val(left))
                > open - step - (1real + step) * val(lot)
            &&& val(fraction) > 0real && val(left) != val(qty) ==> exists|lots: real| #[trigger]
                exact::whole(lots) && val(left) == lots * val(lot)
        }),
{
    if val(fraction) > 0real {
        let share = fraction.mul(N::from_u64(volume));
        let open = share.sub(used);
        let ratio = open.div(lot);
        let lots = ratio.trunc();
        let cap = orders::volume_left(fraction, volume, used, lot);
        let size = qty.abs().min(cap);
        exact::lemma_signed_product(val, step, size, qty);
        let way = exact::sign(val(qty));
        assert(way * val(size) == if val(qty) < 0real {
            -val(size)
        } else {
            val(size)
        }) by (nonlinear_arith)
            requires
                way == (if val(qty) < 0real {
                    -1real
                } else {
                    1real
                }),
        ;
        let left = orders::within_volume(qty, fraction, volume, used, lot);
        assert(val(left) == way * val(size));
        assert(exact::short_of(
            val(share),
            val(fraction) * exact::integer(volume as int),
            step,
        ));
        assert(exact::short_of(val(ratio), val(open) / val(lot), step));
        assert(exact::cuts(val(ratio), val(lots)));
        assert(val(lots.mul(lot)) == val(lots) * val(lot));
        if val(left) != val(qty) {
            assert(val(size) == val(cap));
            if val(open) >= 0real {
                lemma_whole_part(val(open), val(lot), val(ratio), val(lots), step);
            } else {
                assert((1real + step) * val(lot) > 0real) by (nonlinear_arith)
                    requires
                        step >= 0real,
                        val(lot) > 0real,
                ;
            }
            lemma_multiples(val(lots), val(lot));
            if val(cap) == 0real {
                assert(exact::integer(0) == 0real);
                assert(exact::whole(0real));
                assert(0real * val(lot) == 0real) by (nonlinear_arith);
            }
            assert(val(left) == val(cap) || val(left) == -val(cap));
        }
    }
}

proof fn lemma_multiples(lots: real, lot: real)
    requires
        exact::whole(lots),
    ensures
        exact::whole(-lots),
        (-lots) * lot == -(lots * lot),
{
    let k = choose|k: int| lots == #[trigger] exact::integer(k);
    assert(exact::integer(-k) == -lots);
    assert((-lots) * lot == -(lots * lot)) by (nonlinear_arith);
}

/// What a margin model's answer leaves of an order: all of it where the answer
/// comes to within the threshold of it, and otherwise as many whole lots as the
/// answer holds, but for rounding. An answer that points the other way leaves
/// nothing.
pub proof fn margin_leaves_what_is_allowed<N: Number>(
    qty: N,
    allowed: N,
    lot: N,
    val: spec_fn(N) -> real,
    step: real,
)
    requires
        exact::near(val, step),
        val(lot) > 0real,
        safeguards::margin_fits(qty, allowed, lot),
        safeguards::kept_by_margin(qty, allowed).sub(qty).is_finite(),
        safeguards::kept_by_margin(qty, allowed).sub(qty).abs().is_finite(),
    ensures
        ({
            let left = val(orders::within_margin(qty, allowed, lot));
            // As much of the order as the answer covers, in the order's direction.
            let covered = if val(qty) > 0real {
                exact::larger(exact::smaller(val(allowed), val(qty)), 0real)
            } else {
                exact::larger(exact::smaller(-val(allowed), -val(qty)), 0real)
            };
            &&& exact::magnitude(val(qty)) - covered < val(N::epsilon()) ==> left == val(qty)
            &&& exact::magnitude(val(qty)) - covered >= val(N::epsilon()) ==> {
                &&& exact::magnitude(left) <= covered
                &&& exact::magnitude(left) > covered - (1real + step) * val(lot)
                &&& exists|lots: real| #[trigger] exact::whole(lots) && left == lots * val(lot)
            }
        }),
{
    let kept = safeguards::kept_by_margin(qty, allowed);
    if !number::negligible(kept.sub(qty)) {
        let ratio = kept.abs().div(lot);
        let lots = ratio.trunc();
        let k = val(kept.abs());
        assert(exact::short_of(val(ratio), k / val(lot), step));
        assert(exact::cuts(val(ratio), val(lots)));
        assert(k / val(lot) >= 0real) by (nonlinear_arith)
            requires
                k >= 0real,
                val(lot) > 0real,
        ;
        lemma_whole_part(k, val(lot), val(ratio), val(lots), step);
        exact::lemma_signed_product(val, step, lots, qty);
        let way = exact::sign(val(qty));
        let signed = qty.signum().mul(lots);
        lemma_multiples(val(lots), val(lot));
        assert(way * val(lots) == if val(qty) < 0real {
            -val(lots)
        } else {
            val(lots)
        }) by (nonlinear_arith)
            requires
                way == (if val(qty) < 0real {
                    -1real
                } else {
                    1real
                }),
        ;
        assert(exact::whole(val(signed)));
        assert(val(signed.mul(lot)) == val(signed) * val(lot));
        assert(0real <= val(lots) * val(lot) <= k) by (nonlinear_arith)
            requires
                0real <= val(lots) <= k / val(lot),
                val(lot) > 0real,
        ;
    }
}

proof fn lemma_budget(cap: real, other: real, price: real, amount: real, shares: real, step: real)
    by (nonlinear_arith)
    requires
        price > 0real,
        step >= 0real,
        cap >= 0real,
        exact::short_of(amount, cap, step),
        exact::short_of(shares, (amount - other) / price, step),
    ensures
        cap >= other ==> shares * price <= cap - other,
        cap < other ==> shares <= 0real,
        shares * price >= cap - other - step - step * price,
{
    let q = (amount - other) / price;
    assert(q * price == amount - other);
    assert(amount <= cap && amount >= cap - step);
    if q >= 0real {
        assert(shares * price <= q * price);
        assert(shares * price >= (q - step) * price);
    } else {
        assert(shares <= 0real);
        assert(shares * price <= 0real);
        assert(shares * price >= q * price);
        assert(step * price >= 0real);
    }
}

/// A leverage cap is what it says: what the account may hold of a symbol is worth
/// the multiple of equity less the gross size of the rest of the book, but for
/// rounding, and nothing once the rest of the book takes it all.
pub proof fn leverage_affords_a_multiple_of_equity<N: Number>(
    model: MaxLeverage<N>,
    order: MarginContext<N>,
    val: spec_fn(N) -> real,
    step: real,
)
    requires
        exact::near(val, step),
        val(order.price) > 0real,
        val(model.leverage) * val(order.equity) >= 0real,
        model.leverage.mul(order.equity).is_finite(),
        model.leverage.mul(order.equity).sub(order.other_exposure).is_finite(),
        model.leverage.mul(order.equity).sub(order.other_exposure).div(order.price).is_finite(),
    ensures
        ({
            let cap = val(model.leverage) * val(order.equity);
            let shares = val(model.budget(&order));
            &&& shares >= 0real
            &&& cap >= val(order.other_exposure) ==> val(order.other_exposure) + shares * val(
                order.price,
            ) <= cap
            &&& cap < val(order.other_exposure) ==> shares == 0real
            &&& val(order.other_exposure) + shares * val(order.price) >= cap - step - step * val(
                order.price,
            )
        }),
{
    let amount = model.leverage.mul(order.equity);
    let shares = amount.sub(order.other_exposure).div(order.price);
    let cap = val(model.leverage) * val(order.equity);
    assert(exact::short_of(val(amount), cap, step));
    assert(exact::short_of(
        val(shares),
        (val(amount) - val(order.other_exposure)) / val(order.price),
        step,
    ));
    lemma_budget(
        cap,
        val(order.other_exposure),
        val(order.price),
        val(amount),
        val(shares),
        step,
    );
    if val(shares) <= 0real {
        assert(val(shares) * val(order.price) <= 0real) by (nonlinear_arith)
            requires
                val(shares) <= 0real,
                val(order.price) > 0real,
        ;
    }
    assert(0real * val(order.price) == 0real) by (nonlinear_arith);
}

/// A leverage cap trims no more than it must: it allows an order in full where the
/// position afterwards is within what the cap affords, and otherwise up to what
/// the cap affords or, of a position already past that, nothing more. At no price
/// it does not bind, and without a margin model every order is allowed in full.
pub proof fn leverage_allows_what_fits<N: Number>(
    model: MaxLeverage<N>,
    order: MarginContext<N>,
    allowed: N,
    val: spec_fn(N) -> real,
    step: real,
)
    requires
        exact::near(val, step),
        model.budget_fits(&order),
        model.allows(&order, allowed),
    ensures
        val(order.price) <= 0real ==> val(allowed) == val(order.quantity),
        ({
            let most = val(model.budget(&order));
            let held = val(order.current_qty);
            let wanted = val(order.quantity);
            &&& exact::magnitude(held + wanted) <= most ==> val(allowed) == wanted
            &&& val(order.price) > 0real && wanted > 0real && held + wanted > most ==> held + val(
                allowed,
            ) == exact::larger(held, most)
            &&& val(order.price) > 0real && wanted < 0real && held + wanted < -most ==> held + val(
                allowed,
            ) == exact::smaller(held, -most)
        }),
        forall|all: N| #[trigger]
            <NoMargin as MarginModel<N>>::allows(&NoMargin, &order, all) ==> val(all) == val(
                order.quantity,
            ),
        <NoMargin as MarginModel<N>>::is_unlimited(&NoMargin),
        !model.is_unlimited(),
{
}

proof fn lemma_totals_are_close(
    ids: Set<u16>,
    f: spec_fn(u16) -> real,
    g: spec_fn(u16) -> real,
    step: real,
    end: int,
)
    requires
        end <= 0x1_0000,
        forall|a: u16| #[trigger] ids.contains(a) ==> exact::close(f(a), g(a), step),
    ensures
        exact::close(
            exact::total_below(ids, f, end),
            exact::total_below(ids, g, end),
            exact::count_below(ids, end) * step,
        ),
    decreases end,
{
    if end > 0 {
        lemma_totals_are_close(ids, f, g, step, end - 1);
        let n = exact::count_below(ids, end - 1);
        assert((n + 1real) * step == n * step + step) by (nonlinear_arith);
    } else {
        assert(0real * step == 0real) by (nonlinear_arith);
    }
}

/// What a portfolio is worth: its cash and every position's shares, those sold
/// short counting against it, at the last price the symbol printed or at the
/// position's basis where it never printed, but for a step of rounding a position.
pub proof fn a_portfolio_is_worth_its_parts<N: Number>(
    cash: N,
    positions: Map<u16, Position<N>>,
    prices: Seq<Option<N>>,
    val: spec_fn(N) -> real,
    step: real,
)
    requires
        exact::near(val, step),
        broker::value_fits(cash, positions, prices),
    ensures
        exact::close(
            val(broker::equity(cash, positions, prices)),
            val(cash) + exact::total(
                positions.dom(),
                |id: u16|
                    val(positions[id].quantity) * val(
                        match broker::mark(prices, id) {
                            Some(price) => price,
                            None => positions[id].avg_price,
                        },
                    ),
            ),
            exact::count(positions.dom()) * step,
        ),
{
    let f = |id: u16| val(broker::worth(positions, prices, id));
    let g = |id: u16|
        val(positions[id].quantity) * val(
            match broker::mark(prices, id) {
                Some(price) => price,
                None => positions[id].avg_price,
            },
        );
    exact::lemma_sum_is_total(
        val,
        step,
        positions.dom(),
        |id: u16| broker::worth(positions, prices, id),
        f,
        0x1_0000,
    );
    assert forall|a: u16| #[trigger] positions.dom().contains(a) implies exact::close(
        f(a),
        g(a),
        step,
    ) by {
        assert(positions.contains_key(a));
        assert(exact::short_of(val(broker::worth(positions, prices, a)), g(a), step));
    }
    lemma_totals_are_close(positions.dom(), f, g, step, 0x1_0000);
}

/// The exposure a margin model is shown is the size of every other position, long
/// or short, at the last price or the basis, but for a step of rounding each.
pub proof fn exposure_counts_the_others<N: Number>(
    positions: Map<u16, Position<N>>,
    prices: Seq<Option<N>>,
    besides: u16,
    val: spec_fn(N) -> real,
    step: real,
)
    requires
        exact::near(val, step),
        exact::sum_fits(
            positions.remove(besides).dom(),
            |id: u16| broker::gross(positions, prices, id),
        ),
        forall|id: u16| #[trigger]
            positions.contains_key(id) ==> broker::gross(positions, prices, id).is_finite()
                && positions[id].quantity.abs().is_finite(),
    ensures
        exact::close(
            val(broker::exposure_besides(positions, prices, besides)),
            exact::total(
                positions.remove(besides).dom(),
                |id: u16|
                    exact::magnitude(val(positions[id].quantity)) * val(
                        match broker::mark(prices, id) {
                            Some(price) => price,
                            None => positions[id].avg_price,
                        },
                    ),
            ),
            exact::count(positions.remove(besides).dom()) * step,
        ),
{
    let ids = positions.remove(besides).dom();
    let f = |id: u16| val(broker::gross(positions, prices, id));
    let g = |id: u16|
        exact::magnitude(val(positions[id].quantity)) * val(
            match broker::mark(prices, id) {
                Some(price) => price,
                None => positions[id].avg_price,
            },
        );
    exact::lemma_sum_is_total(
        val,
        step,
        ids,
        |id: u16| broker::gross(positions, prices, id),
        f,
        0x1_0000,
    );
    assert forall|a: u16| #[trigger] ids.contains(a) implies exact::close(f(a), g(a), step) by {
        assert(positions.contains_key(a));
        assert(exact::short_of(val(broker::gross(positions, prices, a)), g(a), step));
    }
    lemma_totals_are_close(ids, f, g, step, 0x1_0000);
}

/// What the account of an engine is worth: its cash and every position's shares at
/// the last price the symbol printed, or at the basis where it never printed.
pub open(crate) spec fn worth_at_the_marks<N: Number>(engine: Engine<N>, val: spec_fn(N) -> real)
    -> real {
    let positions = engine.account().positions;
    val(engine.account().cash) + exact::total(
        positions.dom(),
        |id: u16|
            val(positions[id].quantity) * val(
                match broker::mark(engine.prices(), id) {
                    Some(price) => price,
                    None => positions[id].avg_price,
                },
            ),
    )
}

/// Every point of the equity record is what the account was worth when it was made:
/// that of a day as the day closes, under its date, and that of a tick once it is
/// done, under its instant, where ticks are tracked; but for a step of rounding a
/// position. A run reports as its final equity what the account is worth at its end.
pub proof fn equity_is_marked_at_worth<N: Number>(
    before: Engine<N>,
    day: Date,
    time: Time,
    after: Engine<N>,
    result: BacktestResult<N>,
    val: spec_fn(N) -> real,
    step: real,
)
    requires
        exact::near(val, step),
        broker::value_fits(
            before.account().cash,
            before.account().positions,
            before.prices(),
        ),
    ensures
        ({
            let slack = exact::count(before.account().positions.dom()) * step;
            let worth = worth_at_the_marks(before, val);
            &&& before.marks_day(day, after) ==> {
                let points = stats::point_views(after.recorded().daily@);
                &&& points.drop_last() == stats::point_views(before.recorded().daily@)
                &&& points.len() == before.recorded().daily@.len() + 1
                &&& points.last().0 == calendar::day_text(day.day())
                &&& exact::close(val(points.last().1), worth, slack)
            }
            &&& before.marks_tick(time, after) && before.context().config().track_intraday_equity
                ==> {
                let points = stats::point_views(after.recorded().intraday@);
                &&& points.drop_last() == stats::point_views(before.recorded().intraday@)
                &&& points.len() == before.recorded().intraday@.len() + 1
                &&& points.last().0 == calendar::instant_text(time.secs(), time.subsec())
                &&& exact::close(val(points.last().1), worth, slack)
            }
            &&& before.reports(result) ==> {
                &&& exact::close(val(result.final_equity), worth, slack)
                &&& result.initial_cash == before.starting_cash()
                &&& result.total_commission == before.account().commission
                &&& stats::trade_views(result.trades@) == before.account().ledger.trades
            }
        }),
{
    a_portfolio_is_worth_its_parts(
        before.account().cash,
        before.account().positions,
        before.prices(),
        val,
        step,
    );
    if before.marks_day(day, after) {
        let points = stats::point_views(after.record.daily@);
        assert(points.drop_last() =~= stats::point_views(before.record.daily@));
    }
    if before.marks_tick(time, after) && before.ctx.settings.track_intraday_equity {
        let points = stats::point_views(after.record.intraday@);
        assert(points.drop_last() =~= stats::point_views(before.record.intraday@));
    }
}

} // verus!
