//! From an order to a fill: at which price it is attempted, what a fill does to the
//! account, what rests on, and what the portfolio is valued at meanwhile.

use vstd::prelude::*;

use crate::algorithm::Notice;
use crate::bar::Bar;
use crate::broker;
use crate::calendar::{Date, Time};
use crate::consolidator::ConsolidatorEntry;
use crate::context;
use crate::context::{FillTiming, Order, OrderKind, RestingKind, RestingOrder};
use crate::engine::corporate_actions;
use crate::engine::orders;
use crate::engine::orders::Attempt;
use crate::engine::run;
use crate::engine::safeguards;
use crate::engine::sizing;
use crate::engine::state::{Account, Engine, FilledOrder};
use crate::exact;
use crate::number;
use crate::number::Number;
use crate::queue;
use crate::slippage::FillContext;
use crate::symbol::Symbol;

verus! {

/// Whether nothing runs out of range as a recorded fill is paid for and booked.
pub open(crate) spec fn booking_fits<N: Number>(before: Engine<N>, fill: FilledOrder<N>) -> bool {
    let account = before.account();
    let paid = fill.quantity.mul(fill.price);
    let held = broker::quantity_of(account.positions, fill.symbol.id());
    &&& paid.is_finite()
    &&& account.cash.sub(paid).is_finite()
    &&& account.cash.sub(paid).sub(fill.fee).is_finite()
    &&& account.commission.add(fill.fee).is_finite()
    &&& held.add(fill.quantity).is_finite()
    &&& held.add(fill.quantity).abs().is_finite()
}

/// What an order does when it is executed: nothing, or one fill that is not below
/// the threshold. A fill is recorded with its symbol, quantity and instant; costs its
/// shares at its price, but for rounding, and its fee; adds the fee to the commissions
/// paid and the shares to the position, unless that leaves less than the threshold;
/// and changes no other position. Where the volume of a bar is capped it counts
/// against it. Its price is what the slippage model quotes for the attempted price,
/// held to the limit of an order that has one, and its fee what the commission model
/// charges on the attempted price.
pub proof fn a_fill_is_paid_for<N: Number>(
    before: Engine<N>,
    attempt: Attempt<N>,
    after: Engine<N>,
    filled: N,
    val: spec_fn(N) -> real,
    step: real,
)
    requires
        exact::near(val, step),
        before.executes(attempt, after, filled),
        after != before ==> booking_fits(before, after.account().fills.last()),
    ensures
        ({
            let fill = after.account().fills.last();
            let id = attempt.order.symbol.id();
            let held = val(broker::quantity_of(before.account().positions, id));
            let shown = FillContext {
                symbol: attempt.order.symbol,
                quantity: filled,
                price: attempt.price,
                bar: &attempt.bar,
            };
            ||| after == before && val(filled) == 0real
            ||| {
                &&& after.account().fills == before.account().fills.push(fill)
                &&& fill.symbol == attempt.order.symbol
                &&& fill.quantity == filled
                &&& filled.abs().is_finite() ==> exact::magnitude(val(filled)) >= val(
                    N::epsilon(),
                )
                &&& fill.time == attempt.time
                &&& exact::close(
                    val(after.account().cash),
                    val(before.account().cash) - val(filled) * val(fill.price) - val(fill.fee),
                    step,
                )
                &&& val(after.account().commission) == val(before.account().commission) + val(
                    fill.fee,
                )
                &&& after.account().positions.contains_key(id) <==> exact::magnitude(
                    held + val(filled),
                ) >= val(N::epsilon())
                &&& after.account().positions.contains_key(id) ==> val(
                    after.account().positions[id].quantity,
                ) == held + val(filled)
                &&& after.account().positions.remove(id) == before.account().positions.remove(id)
                &&& before.context().config().models.commission.charges(&shown, fill.fee)
                &&& exists|quoted: N|
                    {
                        &&& #[trigger] before.context().config().models.slippage.quotes(
                            &shown,
                            quoted,
                        )
                        &&& match attempt.bound {
                            None => val(fill.price) == val(quoted),
                            Some(limit) => {
                                &&& val(filled) > 0real ==> val(fill.price) == exact::smaller(
                                    val(quoted),
                                    val(limit),
                                )
                                &&& val(filled) < 0real ==> val(fill.price) == exact::larger(
                                    val(quoted),
                                    val(limit),
                                )
                            },
                        }
                    }
                &&& after.prices() == before.prices()
                &&& after.order_books() == before.order_books()
                &&& ({
                    let used = orders::used_of(before.account().used, id);
                    let capped = val(before.context().config().max_volume_participation) > 0real;
                    let now = orders::used_of(after.account().used, id);
                    &&& !capped ==> after.account().used == before.account().used
                    &&& capped && filled.abs().is_finite() && used.add(filled.abs()).is_finite()
                        ==> val(now) == val(used) + exact::magnitude(val(filled))
                })
            }
        }),
{
    let id = attempt.order.symbol.id();
    let qty = choose|qty: N|
        {
            &&& #[trigger] before.account().resolves(
                before.prices(),
                before.ctx.settings,
                attempt.order,
                attempt.price,
                attempt.bar.volume,
                qty,
            )
            &&& if number::negligible(qty) {
                after == before && filled == N::zero()
            } else {
                filled == qty && before.fills(attempt, qty, after)
            }
        };
    if !number::negligible(qty) {
        let shown = FillContext {
            symbol: attempt.order.symbol,
            quantity: qty,
            price: attempt.price,
            bar: &attempt.bar,
        };
        let (slipped, fee) = choose|slipped: N, fee: N|
            {
                &&& #[trigger] before.ctx.settings.models.slippage.quotes(&shown, slipped)
                &&& #[trigger] before.ctx.settings.models.commission.charges(&shown, fee)
                &&& after.moved_account(before)
                &&& after.account() == before.account().with_fill(
                    attempt.order.symbol,
                    context::shown_name(before.ctx.names(), id),
                    qty,
                    orders::within_limit(slipped, qty, attempt.bound),
                    fee,
                    attempt.time,
                    N::zero().lt(before.ctx.settings.max_volume_participation),
                )
            };
        let fill = after.account().fills.last();
        assert(after.account().fills == before.account().fills.push(fill));
        assert(after != before) by {
            assert(after.account().fills.len() == before.account().fills.len() + 1);
        }
        assert(exact::short_of(
            val(qty.mul(fill.price)),
            val(qty) * val(fill.price),
            step,
        ));
        assert(after.account().positions.remove(id) =~= before.account().positions.remove(id));
        assert(before.context().config().models.slippage.quotes(&shown, slipped));
    }
}

/// What is filled of an order points the way of what the order asks for and is no
/// more than that, whatever the caps and the margin model do.
pub proof fn fills_stay_within_what_is_asked<N: Number>(
    before: Engine<N>,
    attempt: Attempt<N>,
    after: Engine<N>,
    filled: N,
    val: spec_fn(N) -> real,
    step: real,
)
    requires
        exact::near(val, step),
        before.volume_stays_in_range(attempt, filled),
        before.executes(attempt, after, filled),
        val(before.context().config().lot_size) > 0real,
    ensures
        safeguards::within(
            val(filled),
            val(
                orders::asked(
                    attempt.order.kind,
                    broker::equity(
                        before.account().cash,
                        before.account().positions,
                        before.prices(),
                    ),
                    attempt.price,
                    before.context().config().lot_size,
                    broker::quantity_of(before.account().positions, attempt.order.symbol.id()),
                ),
            ),
        ),
{
    let id = attempt.order.symbol.id();
    let settings = before.ctx.settings;
    let account = before.account();
    let qty = choose|qty: N|
        {
            &&& #[trigger] account.resolves(
                before.prices(),
                settings,
                attempt.order,
                attempt.price,
                attempt.bar.volume,
                qty,
            )
            &&& if number::negligible(qty) {
                after == before && filled == N::zero()
            } else {
                filled == qty && before.fills(attempt, qty, after)
            }
        };
    if !number::negligible(qty) {
        let capped = account.asked_within_volume(
            before.prices(),
            settings,
            attempt.order,
            attempt.price,
            attempt.bar.volume,
        );
        let asked = orders::asked(
            attempt.order.kind,
            broker::equity(account.cash, account.positions, before.prices()),
            attempt.price,
            settings.lot_size,
            broker::quantity_of(account.positions, id),
        );
        safeguards::volume_only_trims(
            asked,
            settings.max_volume_participation,
            attempt.bar.volume,
            orders::used_of(account.used, id),
            settings.lot_size,
            val,
            step,
        );
        if !settings.models.margin.is_unlimited() {
            let allowed = choose|allowed: N|
                #[trigger] settings.models.margin.allows(
                    &account.margin_order(
                        before.prices(),
                        attempt.order.symbol,
                        capped,
                        attempt.price,
                    ),
                    allowed,
                ) && qty == orders::within_margin(capped, allowed, settings.lot_size);
            safeguards::margin_only_trims(capped, allowed, settings.lot_size, val, step);
        }
    }
}

/// Orders held over to a bar are attempted at its open, each as it was placed, in
/// the order they were placed, without a limit.
pub proof fn held_orders_are_tried_at_the_open<N: Number>(
    placed: Seq<Order<N>>,
    bar: Bar<N>,
    time: Time,
)
    ensures
        orders::at_open(placed, bar, time).len() == placed.len(),
        forall|i: int|
            0 <= i < placed.len() ==> {
                let attempt = #[trigger] orders::at_open(placed, bar, time)[i];
                &&& attempt.order == placed[i]
                &&& attempt.price == bar.open
                &&& attempt.bar == bar
                &&& attempt.time == time
                &&& attempt.bound is None
            },
{
}

/// A resting order a bar triggers is attempted for all its shares, at the trigger
/// price, on that bar; a limit order under its limit, a stop order under none.
pub proof fn resting_orders_are_tried_at_their_trigger<N: Number>(
    symbol: Symbol,
    order: RestingOrder<N>,
    price: N,
    bar: Bar<N>,
    time: Time,
)
    ensures
        ({
            let attempt = orders::at_trigger(symbol, order, price, bar, time);
            &&& attempt.order.symbol == symbol
            &&& attempt.order.kind == OrderKind::Market(order.qty)
            &&& attempt.price == price
            &&& attempt.bar == bar
            &&& attempt.time == time
            &&& match order.kind {
                RestingKind::Limit(limit) => attempt.bound == Some(limit),
                RestingKind::Stop(_) => attempt.bound is None,
            }
        }),
{
}

/// What a bar fills of a resting order and what rests on of it are the order: the
/// rest is for the shares not filled, at the same price, behind the others, unless
/// they are within the threshold. An order the bar does not trigger rests on as it
/// is, and nothing else happens.
pub proof fn the_rest_rests_on<N: Number>(
    before: Engine<N>,
    kept: Seq<RestingOrder<N>>,
    symbol: Symbol,
    order: RestingOrder<N>,
    bar: Bar<N>,
    time: Time,
    after: Engine<N>,
    left: Seq<RestingOrder<N>>,
    val: spec_fn(N) -> real,
    step: real,
) -> (filled: N)
    requires
        exact::near(val, step),
        before.tests_one(kept, symbol, order, bar, time, after, left),
    ensures
        ({
            let rest = val(order.qty) - val(filled);
            let in_range = order.qty.sub(filled).is_finite() && order.qty.sub(
                filled,
            ).abs().is_finite();
            match orders::trigger_price(order.kind, order.qty, bar) {
                Some(price) => {
                    &&& before.executes(
                        orders::at_trigger(symbol, order, price, bar, time),
                        after,
                        filled,
                    )
                    &&& in_range && exact::magnitude(rest) <= val(N::epsilon()) ==> left == kept
                    &&& in_range && exact::magnitude(rest) > val(N::epsilon()) ==> {
                        &&& left.len() == kept.len() + 1
                        &&& left.drop_last() == kept
                        &&& val(left.last().qty) == rest
                        &&& left.last().kind == order.kind
                        &&& left.last().symbol == order.symbol
                    }
                },
                None => after == before && left == kept.push(order),
            }
        }),
{
    match orders::trigger_price(order.kind, order.qty, bar) {
        Some(price) => {
            let filled = choose|filled: N|
                #[trigger] before.executes(
                    orders::at_trigger(symbol, order, price, bar, time),
                    after,
                    filled,
                ) && left == orders::keep_rest(kept, order, filled);
            if N::epsilon().lt(order.qty.sub(filled).abs()) {
                assert(left.drop_last() =~= kept);
            }
            filled
        },
        None => N::zero(),
    }
}

/// A newly placed order is attempted at the close of its symbol's bar, where there
/// is one and that is the timing; otherwise it waits behind those already held over
/// for its symbol, and the account stays as it is.
pub proof fn new_orders_are_tried_at_the_close<N: Number>(
    before: Engine<N>,
    order: Order<N>,
    bars: Map<u16, Bar<N>>,
    time: Time,
    after: Engine<N>,
)
    requires
        before.routes_one(order, bars, time, after),
    ensures
        ({
            let id = order.symbol.id();
            let now = before.context().config().fill_timing == FillTiming::CurrentBarClose;
            &&& now && bars.contains_key(id) ==> exists|filled: N| #[trigger]
                before.executes(
                    Attempt {
                        order,
                        price: bars[id].close,
                        bar: bars[id],
                        time,
                        bound: None::<N>,
                    },
                    after,
                    filled,
                )
            &&& !now || !bars.contains_key(id) ==> {
                &&& after.account() == before.account()
                &&& queue::queued(after.order_books().deferred@, id) == queue::queued(
                    before.order_books().deferred@,
                    id,
                ).push(order)
                &&& forall|other: u16|
                    #![trigger queue::queued(after.order_books().deferred@, other)]
                    other != id ==> queue::queued(after.order_books().deferred@, other)
                        == queue::queued(before.order_books().deferred@, other)
            }
        }),
{
    let id = order.symbol.id();
    if before.context().config().fill_timing == FillTiming::CurrentBarClose && bars.contains_key(
        id,
    ) {
        let filled = choose|filled: N| #[trigger]
            before.executes(
                Attempt { order, price: bars[id].close, bar: bars[id], time, bound: None },
                after,
                filled,
            );
        assert(before.executes(
            Attempt { order, price: bars[id].close, bar: bars[id], time, bound: None::<N> },
            after,
            filled,
        ));
    }
}

/// The resting orders among `orders` of an id, in order.
pub open spec fn of_symbol<N>(orders: Seq<RestingOrder<N>>, id: u16) -> Seq<RestingOrder<N>> {
    orders.filter(|order: RestingOrder<N>| order.symbol.id() == id)
}

/// Newly placed resting orders are booked under their own symbols, behind what
/// rests there, in the order they were placed.
pub proof fn resting_orders_are_booked_in_order<N>(
    book: Map<u16, Seq<RestingOrder<N>>>,
    placed: Seq<RestingOrder<N>>,
    id: u16,
)
    ensures
        queue::queued(orders::booked(book, placed), id) == queue::queued(book, id) + of_symbol(
            placed,
            id,
        ),
    decreases placed.len(),
{
    reveal(Seq::filter);
    if placed.len() > 0 {
        resting_orders_are_booked_in_order(book, placed.drop_last(), id);
        let before = queue::queued(orders::booked(book, placed.drop_last()), id);
        if placed.last().symbol.id() == id {
            assert(before.push(placed.last()) =~= queue::queued(book, id) + of_symbol(placed, id));
        }
    } else {
        assert(queue::queued(book, id) + of_symbol(placed, id) =~= queue::queued(book, id));
    }
}

/// The bars of a tick by symbol: each symbol that has one in the list has one, the
/// last one listed, and no other symbol has any.
pub proof fn a_slice_holds_what_printed<N>(bars: Seq<(Symbol, Bar<N>)>, id: u16, i: int)
    ensures
        0 <= i < bars.len() && bars[i].0.id() == id && (forall|j: int|
            i < j < bars.len() ==> (#[trigger] bars[j]).0.id() != id) ==> run::slice_of(
            bars,
        ).contains_key(id) && run::slice_of(bars)[id] == bars[i].1,
        (forall|j: int| 0 <= j < bars.len() ==> (#[trigger] bars[j]).0.id() != id)
            ==> !run::slice_of(bars).contains_key(id),
    decreases bars.len(),
{
    lemma_last_bar(bars, id, i);
}

proof fn lemma_last_bar<N>(bars: Seq<(Symbol, Bar<N>)>, id: u16, i: int)
    ensures
        0 <= i < bars.len() && bars[i].0.id() == id && (forall|j: int|
            i < j < bars.len() ==> (#[trigger] bars[j]).0.id() != id) ==> run::last_bar(bars, id)
            == Some(bars[i].1),
        (forall|j: int| 0 <= j < bars.len() ==> (#[trigger] bars[j]).0.id() != id)
            ==> run::last_bar(bars, id) is None,
    decreases bars.len(),
{
    if bars.len() > 0 {
        let rest = bars.drop_last();
        let last = bars.len() - 1;
        lemma_last_bar(rest, id, i);
        assert(bars[last] == bars.last());
        assert forall|j: int| 0 <= j < rest.len() implies #[trigger] rest[j] == bars[j] by {}
        if 0 <= i < last {
            assert(rest[i] == bars[i]);
        }
    }
}

/// A bar put into a window of bars goes in front, the others move back by one, and
/// the oldest leaves once the window is full.
pub proof fn windows_shift_back<N>(window: Seq<Bar<N>>, bar: Bar<N>, depth: usize)
    requires
        window.len() <= depth,
        depth > 0,
    ensures
        ({
            let after = run::windowed(window, bar, depth);
            &&& after.len() == if window.len() < depth {
                window.len() + 1
            } else {
                depth as nat
            }
            &&& after[0] == bar
            &&& forall|i: int| 0 < i < after.len() ==> #[trigger] after[i] == window[i - 1]
        }),
{
}

proof fn lemma_executes_keeps_marks<N: Number>(
    before: Engine<N>,
    attempt: Attempt<N>,
    after: Engine<N>,
    filled: N,
)
    requires
        before.executes(attempt, after, filled),
    ensures
        after.prices() == before.prices(),
{
    let qty = choose|qty: N|
        {
            &&& #[trigger] before.account().resolves(
                before.prices(),
                before.ctx.settings,
                attempt.order,
                attempt.price,
                attempt.bar.volume,
                qty,
            )
            &&& if number::negligible(qty) {
                after == before && filled == N::zero()
            } else {
                filled == qty && before.fills(attempt, qty, after)
            }
        };
}

proof fn lemma_all_keep_marks<N: Number>(
    before: Engine<N>,
    attempts: Seq<Attempt<N>>,
    after: Engine<N>,
)
    requires
        before.executes_all(attempts, after),
    ensures
        after.prices() == before.prices(),
    decreases attempts.len(),
{
    if attempts.len() > 0 {
        let (mid, filled) = choose|mid: Engine<N>, filled: N|
            before.executes_all(attempts.drop_last(), mid) && #[trigger] mid.executes(
                attempts.last(),
                after,
                filled,
            );
        lemma_all_keep_marks(before, attempts.drop_last(), mid);
        lemma_executes_keeps_marks(mid, attempts.last(), after, filled);
    }
}

proof fn lemma_deferred_keep_marks<N: Number>(
    before: Engine<N>,
    bars: Seq<(Symbol, Bar<N>)>,
    time: Time,
    after: Engine<N>,
)
    requires
        before.fills_deferred(bars, time, after),
    ensures
        after.prices() == before.prices(),
    decreases bars.len(),
{
    if bars.len() > 0 {
        let (symbol, bar) = bars.last();
        let (mid, taken) = choose|mid: Engine<N>, taken: Engine<N>|
            {
                &&& before.fills_deferred(bars.drop_last(), time, mid)
                &&& #[trigger] mid.takes_deferred(symbol.id(), taken)
                &&& taken.executes_all(
                    orders::at_open(
                        queue::queued(mid.books.deferred@, symbol.id()),
                        bar,
                        time,
                    ),
                    after,
                )
            };
        lemma_deferred_keep_marks(before, bars.drop_last(), time, mid);
        lemma_all_keep_marks(
            taken,
            orders::at_open(queue::queued(mid.books.deferred@, symbol.id()), bar, time),
            after,
        );
    }
}

proof fn lemma_tests_keep_marks<N: Number>(
    before: Engine<N>,
    symbol: Symbol,
    placed: Seq<RestingOrder<N>>,
    bar: Bar<N>,
    time: Time,
    after: Engine<N>,
    kept: Seq<RestingOrder<N>>,
)
    requires
        before.tests_resting(symbol, placed, bar, time, after, kept),
    ensures
        after.prices() == before.prices(),
    decreases placed.len(),
{
    if placed.len() > 0 {
        let (mid, earlier) = choose|mid: Engine<N>, earlier: Seq<RestingOrder<N>>|
            {
                &&& before.tests_resting(symbol, placed.drop_last(), bar, time, mid, earlier)
                &&& #[trigger] mid.tests_one(
                    earlier,
                    symbol,
                    placed.last(),
                    bar,
                    time,
                    after,
                    kept,
                )
            };
        lemma_tests_keep_marks(before, symbol, placed.drop_last(), bar, time, mid, earlier);
        let order = placed.last();
        if let Some(price) = orders::trigger_price(order.kind, order.qty, bar) {
            let filled = choose|filled: N|
                #[trigger] mid.executes(
                    orders::at_trigger(symbol, order, price, bar, time),
                    after,
                    filled,
                ) && kept == orders::keep_rest(earlier, order, filled);
            lemma_executes_keeps_marks(
                mid,
                orders::at_trigger(symbol, order, price, bar, time),
                after,
                filled,
            );
        }
    }
}

proof fn lemma_resting_keep_marks<N: Number>(
    before: Engine<N>,
    bars: Seq<(Symbol, Bar<N>)>,
    time: Time,
    after: Engine<N>,
)
    requires
        before.fills_resting(bars, time, after),
    ensures
        after.prices() == before.prices(),
    decreases bars.len(),
{
    if bars.len() > 0 {
        let (symbol, bar) = bars.last();
        let (mid, tested, kept) = choose|
            mid: Engine<N>,
            tested: Engine<N>,
            kept: Seq<RestingOrder<N>>,
        |
            {
                &&& before.fills_resting(bars.drop_last(), time, mid)
                &&& #[trigger] mid.tests_resting(
                    symbol,
                    queue::queued(mid.books.resting@, symbol.id()),
                    bar,
                    time,
                    tested,
                    kept,
                )
                &&& tested.puts_resting(symbol.id(), kept, after)
            };
        lemma_resting_keep_marks(before, bars.drop_last(), time, mid);
        lemma_tests_keep_marks(
            mid,
            symbol,
            queue::queued(mid.books.resting@, symbol.id()),
            bar,
            time,
            tested,
            kept,
        );
    }
}

proof fn lemma_offers_keep_marks<N: Number>(
    before: Engine<N>,
    end: int,
    item: (Symbol, Bar<N>),
    after: Engine<N>,
)
    requires
        before.offers_bar(end, item, after),
    ensures
        after.account() == before.account(),
        after.prices() == before.prices(),
    decreases end,
{
    if end > 0 {
        let mid = choose|mid: Engine<N>|
            before.offers_bar(end - 1, item, mid) && #[trigger] mid.offers_one(
                end - 1,
                item,
                after,
            );
        lemma_offers_keep_marks(before, end - 1, item, mid);
    }
}

proof fn lemma_remembering_keeps_marks<N: Number>(
    before: Engine<N>,
    bars: Seq<(Symbol, Bar<N>)>,
    after: Engine<N>,
)
    requires
        before.offers_all(bars, after),
    ensures
        after.account() == before.account(),
        after.prices() == before.prices(),
    decreases bars.len(),
{
    if bars.len() > 0 {
        let mid = choose|mid: Engine<N>|
            before.offers_all(bars.drop_last(), mid) && #[trigger] mid.offers_next(
                bars.last(),
                after,
            );
        lemma_remembering_keeps_marks(before, bars.drop_last(), mid);
        lemma_offers_keep_marks(
            mid,
            mid.ctx.consolidators@.len() as int,
            bars.last(),
            after,
        );
    }
}

/// No look-ahead: while a tick fills the orders that waited for it, held over or
/// resting, every symbol is still valued at the close it printed before, so what
/// they are sized against is what was known when they were placed. The marks move
/// to the tick's closes once they have filled, those of the symbols that printed
/// and no others. Stated of a tick that does not begin a day, on which nothing else
/// moves a mark.
pub proof fn waiting_orders_fill_at_known_marks<N: Number>(
    before: Engine<N>,
    bars: Seq<(Symbol, Bar<N>)>,
    time: Time,
    date: Date,
    after: Engine<N>,
) -> (steps: (Engine<N>, Engine<N>, Engine<N>))
    requires
        before.prepares(bars, time, date, after),
        before.progress().last_date == Some(date),
        before.progress().global_last_date == Some(date),
    ensures
        ({
            let (seen, deferred, rested) = steps;
            &&& seen.fills_deferred(bars, time, deferred)
            &&& deferred.fills_resting(bars, time, rested)
            &&& seen.account() == (Account {
                used: Map::empty(),
                fills: Seq::empty(),
                ..before.account()
            })
            &&& seen.prices() == before.prices()
            &&& deferred.prices() == before.prices()
            &&& rested.prices() == before.prices()
            &&& after.account() == rested.account()
            &&& forall|id: u16| #[trigger]
                broker::mark(after.prices(), id) == match run::last_bar(bars, id) {
                    Some(bar) => Some(bar.close),
                    None => broker::mark(before.prices(), id),
                }
        }),
{
    let (cleared, closed, started, seen, deferred, rested, advanced) = choose|
        cleared: Engine<N>,
        closed: Engine<N>,
        started: Engine<N>,
        seen: Engine<N>,
        deferred: Engine<N>,
        rested: Engine<N>,
        advanced: Engine<N>,
    |
        {
            &&& #[trigger] before.clears_volume(cleared)
            &&& #[trigger] cleared.passes_boundary(date, closed)
            &&& #[trigger] closed.starts_day(date, time, started)
            &&& #[trigger] started.sees(bars, seen)
            &&& #[trigger] seen.fills_deferred(bars, time, deferred)
            &&& #[trigger] deferred.fills_resting(bars, time, rested)
            &&& #[trigger] rested.advances(bars, advanced)
            &&& advanced.remembers(bars, after)
        };
    lemma_deferred_keep_marks(seen, bars, time, deferred);
    lemma_resting_keep_marks(deferred, bars, time, rested);
    let pushed = choose|pushed: Engine<N>| #[trigger]
        advanced.keeps_windows(bars, pushed) && pushed.offers_all(bars, after);
    lemma_remembering_keeps_marks(pushed, bars, after);
    (seen, deferred, rested)
}

/// A margin model is shown the order as the volume leaves it, at the attempted price,
/// what is held of the symbol, the cash, what the portfolio is worth at the marks and
/// the size of all other positions at the marks.
pub proof fn a_margin_model_is_shown_the_book<N: Number>(
    account: Account<N>,
    prices: Seq<Option<N>>,
    symbol: Symbol,
    qty: N,
    price: N,
)
    ensures
        ({
            let shown = account.margin_order(prices, symbol, qty, price);
            &&& shown.symbol == symbol
            &&& shown.quantity == qty
            &&& shown.price == price
            &&& account.positions.contains_key(symbol.id()) ==> shown.current_qty
                == account.positions[symbol.id()].quantity
            &&& !account.positions.contains_key(symbol.id()) ==> shown.current_qty == N::zero()
            &&& shown.cash == account.cash
            &&& shown.equity == broker::equity(account.cash, account.positions, prices)
            &&& shown.other_exposure == broker::exposure_besides(
                account.positions,
                prices,
                symbol.id(),
            )
        }),
{
}

/// No fill goes further than the margin model allows, beyond the threshold, unless
/// the model limits nothing: what is filled is at most what it allows in the
/// direction of the order, and nothing where it allows only the other direction.
pub proof fn fills_keep_to_the_margin<N: Number>(
    before: Engine<N>,
    attempt: Attempt<N>,
    after: Engine<N>,
    filled: N,
    val: spec_fn(N) -> real,
    step: real,
) -> (answer: (N, N))
    requires
        exact::near(val, step),
        before.volume_stays_in_range(attempt, filled),
        before.executes(attempt, after, filled),
        val(before.context().config().lot_size) > 0real,
        !before.context().config().models.margin.is_unlimited(),
        ({
            let capped = before.account().asked_within_volume(
                before.prices(),
                before.context().config(),
                attempt.order,
                attempt.price,
                attempt.bar.volume,
            );
            forall|allowed: N|
                #![trigger safeguards::kept_by_margin(capped, allowed)]
                safeguards::kept_by_margin(capped, allowed).sub(capped).is_finite()
                    && safeguards::kept_by_margin(capped, allowed).sub(capped).abs().is_finite()
        }),
    ensures
        ({
            let (wanted, allowed) = answer;
            &&& before.context().config().models.margin.allows(
                &before.account().margin_order(
                    before.prices(),
                    attempt.order.symbol,
                    wanted,
                    attempt.price,
                ),
                allowed,
            )
            &&& val(wanted) > 0real ==> 0real <= val(filled) && val(filled) <= exact::larger(
                val(allowed),
                0real,
            ) + val(N::epsilon())
            &&& val(wanted) < 0real ==> 0real >= val(filled) && val(filled) >= exact::smaller(
                val(allowed),
                0real,
            ) - val(N::epsilon())
        }),
{
    let settings = before.ctx.settings;
    let account = before.account();
    let qty = choose|qty: N|
        {
            &&& #[trigger] account.resolves(
                before.prices(),
                settings,
                attempt.order,
                attempt.price,
                attempt.bar.volume,
                qty,
            )
            &&& if number::negligible(qty) {
                after == before && filled == N::zero()
            } else {
                filled == qty && before.fills(attempt, qty, after)
            }
        };
    let capped = account.asked_within_volume(
        before.prices(),
        settings,
        attempt.order,
        attempt.price,
        attempt.bar.volume,
    );
    let allowed = choose|allowed: N|
        #[trigger] settings.models.margin.allows(
            &account.margin_order(before.prices(), attempt.order.symbol, capped, attempt.price),
            allowed,
        ) && qty == orders::within_margin(capped, allowed, settings.lot_size);
    safeguards::margin_only_trims(capped, allowed, settings.lot_size, val, step);
    assert(safeguards::margin_fits(capped, allowed, settings.lot_size));
    let kept = safeguards::kept_by_margin(capped, allowed);
    assert(kept.sub(capped).is_finite() && kept.sub(capped).abs().is_finite());
    sizing::margin_leaves_what_is_allowed(capped, allowed, settings.lot_size, val, step);
    (capped, allowed)
}

/// A consolidator takes in the bars of its own symbol and no others: a bar of
/// another leaves all as it is, and one of its own is fed to it, whose answer is
/// handed to the strategy.
pub proof fn consolidators_take_their_own_bars<N: Number>(
    before: Engine<N>,
    i: int,
    item: (Symbol, Bar<N>),
    after: Engine<N>,
)
    requires
        0 <= i < before.context().consolidator_list().len(),
        before.offers_one(i, item, after),
    ensures
        ({
            let entry = before.context().consolidator_list()[i];
            &&& item.0 != entry.source() ==> after == before
            &&& item.0 == entry.source() ==> exists|emitted: Option<Bar<N>>|
                {
                    &&& #[trigger] entry.fed(
                        item.1,
                        after.context().consolidator_list()[i],
                        emitted,
                    )
                    &&& after.told().len() == before.told().len() + if emitted is Some {
                        1int
                    } else {
                        0int
                    }
                }
            &&& after.account() == before.account()
        }),
{
    let entry = before.ctx.consolidators@[i];
    if item.0 == entry.source() {
        let (fed, emitted) = choose|fed: ConsolidatorEntry<N>, emitted: Option<Bar<N>>|
            #[trigger] entry.fed(item.1, fed, emitted) && before.emits(i, fed, emitted, after);
        assert(after.context().consolidator_list()[i] == fed);
        assert(entry.fed(item.1, after.context().consolidator_list()[i], emitted));
    }
}

/// The window of a symbol changes with bars of that symbol alone, and not at all
/// where it keeps none.
pub proof fn windows_take_their_own_bars<N>(
    window: Seq<Bar<N>>,
    bars: Seq<(Symbol, Bar<N>)>,
    id: u16,
    kept: bool,
    depth: usize,
)
    ensures
        !kept || (forall|i: int| 0 <= i < bars.len() ==> (#[trigger] bars[i]).0.id() != id)
            ==> run::window_after(window, bars, id, kept, depth) == window,
    decreases bars.len(),
{
    if bars.len() > 0 {
        let rest = bars.drop_last();
        windows_take_their_own_bars(window, rest, id, kept, depth);
        let last = bars.len() - 1;
        assert(bars[last] == bars.last());
        assert forall|i: int| 0 <= i < rest.len() implies #[trigger] rest[i] == bars[i] by {}
    }
}

/// A symbol that prints on a tick has been silent for no trading day since, and for
/// one more with each new day until it prints again; what does not print is as silent
/// as it was. Warm-up is one tick shorter after each, and the strategy is reminded
/// once for each time that is due, in order.
pub proof fn printing_ends_silence<N: Number>(
    before: Engine<N>,
    bars: Seq<(Symbol, Bar<N>)>,
    after: Engine<N>,
    i: int,
    other: u16,
    handles: Seq<usize>,
)
    requires
        before.sees(bars, after),
    ensures
        ({
            let today = before.progress().day_index;
            &&& 0 <= i < bars.len() ==> {
                let seen = corporate_actions::entry_of(
                    after.progress().last_seen_day@,
                    bars[i].0.id(),
                );
                &&& seen is Some
                &&& corporate_actions::silent_days(seen, today) == 0
                &&& today < u64::MAX ==> corporate_actions::silent_days(seen, (today + 1) as u64)
                    == 1
            }
            &&& (forall|j: int| 0 <= j < bars.len() ==> (#[trigger] bars[j]).0.id() != other)
                ==> corporate_actions::entry_of(after.progress().last_seen_day@, other)
                == corporate_actions::entry_of(before.progress().last_seen_day@, other)
            &&& forall|warmed: Engine<N>| #[trigger]
                before.warms_up(warmed) && before.context().warm_up() > 0
                    ==> warmed.context().warm_up() == before.context().warm_up() - 1
                    && warmed.account() == before.account()
            &&& run::reminders::<N>(handles).len() == handles.len()
            &&& forall|k: int|
                0 <= k < handles.len() ==> #[trigger] run::reminders::<N>(handles)[k]
                    == Notice::<N>::Scheduled { handle: handles[k] }
        }),
{
    if 0 <= i < bars.len() {
        lemma_printed(bars, bars[i].0.id(), i);
        assert(corporate_actions::entry_of(after.clock.last_seen_day@, bars[i].0.id()) == Some(
            before.clock.day_index,
        ));
    }
    lemma_last_bar(bars, other, 0);
    assert(corporate_actions::entry_of(after.clock.last_seen_day@, other) == if run::last_bar(
        bars,
        other,
    ) is Some {
        Some(before.clock.day_index)
    } else {
        corporate_actions::entry_of(before.clock.last_seen_day@, other)
    });
}

proof fn lemma_printed<N>(bars: Seq<(Symbol, Bar<N>)>, id: u16, i: int)
    requires
        0 <= i < bars.len(),
        bars[i].0.id() == id,
    ensures
        run::last_bar(bars, id) is Some,
    decreases bars.len(),
{
    if bars.last().0.id() != id {
        assert(bars.drop_last()[i] == bars[i]);
        lemma_printed(bars.drop_last(), id, i);
    }
}

} // verus!
