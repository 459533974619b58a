//! How a run unfolds: what each day and each tick leaves alone, and what the
//! record of equity shows.

use vstd::prelude::*;

use crate::algorithm;
use crate::algorithm::Notice;
use crate::bar::Bar;
use crate::calendar;
use crate::calendar::{Date, Time};
use crate::context;
use crate::context::{FillTiming, Order, RestingOrder};
use crate::agenda;
use crate::engine::orders;
use crate::engine::orders::Attempt;
use crate::engine::run;
use crate::engine::state::Engine;
use crate::number::Number;
use crate::queue;
use crate::stats;
use crate::symbol::Symbol;

verus! {

broadcast use {
    algorithm::lemma_ticks_told,
    algorithm::lemma_days_told,
    algorithm::lemma_never_warms,
};

/// A window never grows past its depth.
pub proof fn windows_stay_within_depth<N>(
    window: Seq<Bar<N>>,
    bars: Seq<(Symbol, Bar<N>)>,
    id: u16,
    kept: bool,
    depth: usize,
)
    requires
        window.len() <= depth,
    ensures
        run::window_after(window, bars, id, kept, depth).len() <= depth,
    decreases bars.len(),
{
    if bars.len() > 0 {
        windows_stay_within_depth(window, bars.drop_last(), id, kept, depth);
    }
}

/// A window that has room for a bar begins with the bar its symbol printed last.
pub proof fn the_newest_bar_comes_first<N>(
    window: Seq<Bar<N>>,
    bars: Seq<(Symbol, Bar<N>)>,
    id: u16,
    depth: usize,
)
    requires
        depth > 0,
        window.len() <= depth,
        run::last_bar(bars, id) is Some,
    ensures
        run::window_after(window, bars, id, true, depth).len() > 0,
        run::window_after(window, bars, id, true, depth)[0] == run::last_bar(bars, id)->0,
    decreases bars.len(),
{
    windows_stay_within_depth(window, bars.drop_last(), id, true, depth);
    if bars.last().0.id() != id {
        the_newest_bar_comes_first(window, bars.drop_last(), id, depth);
    }
}

impl<N: Number> Engine<N> {
    /// Whether `after` stands where `self` does in the stream, with the same
    /// record of equity, and the strategy was told of no tick and no end of a day
    /// in between.
    pub open(crate) spec fn stands_still(self, after: Engine<N>) -> bool {
        &&& after.record == self.record
        &&& after.initial_cash == self.initial_cash
        &&& after.clock.last_date == self.clock.last_date
        &&& after.clock.global_last_date == self.clock.global_last_date
        &&& after.clock.day_index == self.clock.day_index
        &&& self.told_as_much(after)
        &&& self.stays_warm(after)
    }

    /// Whether no warm-up begins between `self` and `after`, unless the strategy
    /// asks for one.
    pub open(crate) spec fn stays_warm(self, after: Engine<N>) -> bool {
        algorithm::never_warms(after.told()) ==> {
            &&& algorithm::never_warms(self.told())
            &&& self.context().warm_up() == 0 ==> after.context().warm_up() == 0
        }
    }

    /// Whether the strategy was told of no tick and no end of a day between
    /// `self` and `after`.
    pub open(crate) spec fn told_as_much(self, after: Engine<N>) -> bool {
        &&& algorithm::ticks_told(after.told()) == algorithm::ticks_told(self.told())
        &&& algorithm::days_told(after.told()) == algorithm::days_told(self.told())
    }
}

proof fn lemma_executes_stands<N: Number>(
    engine: Engine<N>,
    attempt: Attempt<N>,
    after: Engine<N>,
    filled: N,
)
    requires
        engine.executes(attempt, after, filled),
    ensures
        engine.stands_still(after),
{
}

proof fn lemma_executes_all_stands<N: Number>(
    engine: Engine<N>,
    attempts: Seq<Attempt<N>>,
    after: Engine<N>,
)
    requires
        engine.executes_all(attempts, after),
    ensures
        engine.stands_still(after),
    decreases attempts.len(),
{
    if attempts.len() > 0 {
        let (mid, filled) = choose|mid: Engine<N>, filled: N|
            engine.executes_all(attempts.drop_last(), mid) && #[trigger] mid.executes(
                attempts.last(),
                after,
                filled,
            );
        lemma_executes_all_stands(engine, attempts.drop_last(), mid);
        lemma_executes_stands(mid, attempts.last(), after, filled);
    }
}

proof fn lemma_deferred_stands<N: Number>(
    engine: Engine<N>,
    bars: Seq<(Symbol, Bar<N>)>,
    time: Time,
    after: Engine<N>,
)
    requires
        engine.fills_deferred(bars, time, after),
    ensures
        engine.stands_still(after),
    decreases bars.len(),
{
    if bars.len() > 0 {
        let (symbol, bar) = bars.last();
        let (mid, taken) = choose|mid: Engine<N>, taken: Engine<N>|
            {
                &&& engine.fills_deferred(bars.drop_last(), time, mid)
                &&& #[trigger] mid.takes_deferred(symbol.id(), taken)
                &&& taken.executes_all(
                    orders::at_open(
                        queue::queued(mid.books.deferred@, symbol.id()),
                        bar,
                        time,
                    ),
                    after,
                )
            };
        lemma_deferred_stands(engine, bars.drop_last(), time, mid);
        lemma_executes_all_stands(
            taken,
            orders::at_open(
                queue::queued(mid.books.deferred@, symbol.id()),
                bar,
                time,
            ),
            after,
        );
    }
}

proof fn lemma_tests_stands<N: Number>(
    engine: Engine<N>,
    symbol: Symbol,
    orders: Seq<RestingOrder<N>>,
    bar: Bar<N>,
    time: Time,
    after: Engine<N>,
    kept: Seq<RestingOrder<N>>,
)
    requires
        engine.tests_resting(symbol, orders, bar, time, after, kept),
    ensures
        engine.stands_still(after),
    decreases orders.len(),
{
    if orders.len() > 0 {
        let (mid, before) = choose|mid: Engine<N>, before: Seq<RestingOrder<N>>|
            {
                &&& engine.tests_resting(symbol, orders.drop_last(), bar, time, mid, before)
                &&& #[trigger] mid.tests_one(
                    before,
                    symbol,
                    orders.last(),
                    bar,
                    time,
                    after,
                    kept,
                )
            };
        lemma_tests_stands(engine, symbol, orders.drop_last(), bar, time, mid, before);
    }
}

proof fn lemma_resting_stands<N: Number>(
    engine: Engine<N>,
    bars: Seq<(Symbol, Bar<N>)>,
    time: Time,
    after: Engine<N>,
)
    requires
        engine.fills_resting(bars, time, after),
    ensures
        engine.stands_still(after),
    decreases bars.len(),
{
    if bars.len() > 0 {
        let (symbol, bar) = bars.last();
        let (mid, tested, kept) = choose|
            mid: Engine<N>,
            tested: Engine<N>,
            kept: Seq<RestingOrder<N>>,
        |
            {
                &&& engine.fills_resting(bars.drop_last(), time, mid)
                &&& #[trigger] mid.tests_resting(
                    symbol,
                    queue::queued(mid.books.resting@, symbol.id()),
                    bar,
                    time,
                    tested,
                    kept,
                )
                &&& tested.puts_resting(symbol.id(), kept, after)
            };
        lemma_resting_stands(engine, bars.drop_last(), time, mid);
        lemma_tests_stands(
            mid,
            symbol,
            queue::queued(mid.books.resting@, symbol.id()),
            bar,
            time,
            tested,
            kept,
        );
    }
}

proof fn lemma_splits_stands<N: Number>(
    engine: Engine<N>,
    items: Seq<(Symbol, N)>,
    time: Time,
    after: Engine<N>,
)
    requires
        engine.splits_all(items, time, after),
    ensures
        engine.stands_still(after),
    decreases items.len(),
{
    if items.len() > 0 {
        let mid = choose|mid: Engine<N>|
            engine.splits_all(items.drop_last(), time, mid) && #[trigger] mid.splits_one(
                items.last(), time,
                after,
            );
        lemma_splits_stands(engine, items.drop_last(), time, mid);
    }
}

proof fn lemma_dividends_stands<N: Number>(
    engine: Engine<N>,
    items: Seq<(Symbol, N)>,
    after: Engine<N>,
)
    requires
        engine.pays_all(items, after),
    ensures
        engine.stands_still(after),
    decreases items.len(),
{
    if items.len() > 0 {
        let mid = choose|mid: Engine<N>|
            engine.pays_all(items.drop_last(), mid) && #[trigger] mid.pays_one(
                items.last(),
                after,
            );
        lemma_dividends_stands(engine, items.drop_last(), mid);
    }
}

proof fn lemma_renames_stands<N: Number>(
    engine: Engine<N>,
    items: Seq<(Symbol, Symbol)>,
    after: Engine<N>,
)
    requires
        engine.renames_all(items, after),
    ensures
        engine.stands_still(after),
    decreases items.len(),
{
    if items.len() > 0 {
        let mid = choose|mid: Engine<N>|
            engine.renames_all(items.drop_last(), mid) && #[trigger] mid.renames_one(
                items.last(),
                after,
            );
        lemma_renames_stands(engine, items.drop_last(), mid);
    }
}

proof fn lemma_delistings_stands<N: Number>(
    engine: Engine<N>,
    items: Seq<Symbol>,
    time: Time,
    after: Engine<N>,
)
    requires
        engine.delists_all(items, time, after),
    ensures
        engine.stands_still(after),
    decreases items.len(),
{
    if items.len() > 0 {
        let mid = choose|mid: Engine<N>|
            engine.delists_all(items.drop_last(), time, mid) && #[trigger] mid.delists_one(
                items.last(), time,
                after,
            );
        lemma_delistings_stands(engine, items.drop_last(), time, mid);
    }
}

proof fn lemma_routes_stands<N: Number>(
    engine: Engine<N>,
    items: Seq<Order<N>>,
    bars: Map<u16, Bar<N>>,
    time: Time,
    after: Engine<N>,
)
    requires
        engine.routes(items, bars, time, after),
    ensures
        engine.stands_still(after),
    decreases items.len(),
{
    if items.len() > 0 {
        let mid = choose|mid: Engine<N>|
            engine.routes(items.drop_last(), bars, time, mid) && #[trigger] mid.routes_one(
                items.last(), bars, time,
                after,
            );
        lemma_routes_stands(engine, items.drop_last(), bars, time, mid);
    }
}

proof fn lemma_tells_stands<N: Number>(
    engine: Engine<N>,
    notices: Seq<Notice<N>>,
    after: Engine<N>,
)
    requires
        engine.tells_all(notices, after),
        forall|i: int| 0 <= i < notices.len() ==> (#[trigger] notices[i]) is Scheduled,
    ensures
        engine.stands_still(after),
        after.clock == engine.clock,
    decreases notices.len(),
{
    if notices.len() > 0 {
        let mid = choose|mid: Engine<N>|
            engine.tells_all(notices.drop_last(), mid) && #[trigger] mid.tells(
                notices.last(),
                after,
            );
        let last = notices.len() - 1;
        assert(notices[last] is Scheduled);
        lemma_tells_stands(engine, notices.drop_last(), mid);
    }
}

proof fn lemma_offers_bar_stands<N: Number>(
    engine: Engine<N>,
    end: int,
    item: (Symbol, Bar<N>),
    after: Engine<N>,
)
    requires
        engine.offers_bar(end, item, after),
    ensures
        engine.stands_still(after),
    decreases end,
{
    if end > 0 {
        let mid = choose|mid: Engine<N>|
            engine.offers_bar(end - 1, item, mid) && #[trigger] mid.offers_one(
                end - 1,
                item,
                after,
            );
        lemma_offers_bar_stands(engine, end - 1, item, mid);
    }
}

proof fn lemma_offers_stands<N: Number>(
    engine: Engine<N>,
    bars: Seq<(Symbol, Bar<N>)>,
    after: Engine<N>,
)
    requires
        engine.offers_all(bars, after),
    ensures
        engine.stands_still(after),
    decreases bars.len(),
{
    if bars.len() > 0 {
        let mid = choose|mid: Engine<N>|
            engine.offers_all(bars.drop_last(), mid) && #[trigger] mid.offers_next(
                bars.last(),
                after,
            );
        lemma_offers_stands(engine, bars.drop_last(), mid);
        lemma_offers_bar_stands(
            mid,
            mid.ctx.consolidators@.len() as int,
            bars.last(),
            after,
        );
    }
}

pub proof fn lemma_flushes_stands<N: Number>(engine: Engine<N>, end: int, after: Engine<N>)
    requires
        engine.flushes_below(end, after),
    ensures
        engine.stands_still(after),
    decreases end,
{
    if end > 0 {
        let mid = choose|mid: Engine<N>|
            engine.flushes_below(end - 1, mid) && #[trigger] mid.flushes_one(end - 1, after);
        lemma_flushes_stands(engine, end - 1, mid);
    }
}

proof fn lemma_works_day<N: Number>(engine: Engine<N>, date: Date, time: Time, after: Engine<N>)
    requires
        engine.works_day(date, time, after),
    ensures
        after.clock.global_last_date == Some(date),
        after.clock.last_date == engine.clock.last_date,
        after.record == engine.record,
        after.initial_cash == engine.initial_cash,
        engine.told_as_much(after),
        engine.stays_warm(after),
{
    let (turned, split, paid, renamed, financed) = choose|
        turned: Engine<N>,
        split: Engine<N>,
        paid: Engine<N>,
        renamed: Engine<N>,
        financed: Engine<N>,
    |
        {
            &&& #[trigger] engine.turns_day(date, turned)
            &&& #[trigger] turned.applies_splits(date, time, split)
            &&& #[trigger] split.applies_dividends(date, paid)
            &&& #[trigger] paid.applies_renames(date, renamed)
            &&& #[trigger] renamed.finances(financed)
            &&& financed.closes_delisted(time, after)
        };
    let day = date.day();
    let drained = choose|drained: Engine<N>| #[trigger]
        turned.drains_splits(day, drained) && drained.splits_all(
            agenda::items_through(turned.pending.splits@, day),
            time,
            split,
        );
    lemma_splits_stands(
        drained,
        agenda::items_through(turned.pending.splits@, day),
        time,
        split,
    );
    let emptied = choose|drained: Engine<N>| #[trigger]
        split.drains_dividends(day, drained) && drained.pays_all(
            agenda::items_through(split.pending.dividends@, day),
            paid,
        );
    lemma_dividends_stands(
        emptied,
        agenda::items_through(split.pending.dividends@, day),
        paid,
    );
    let cleared = choose|drained: Engine<N>| #[trigger]
        paid.drains_renames(day, drained) && drained.renames_all(
            agenda::items_through(paid.pending.renames@, day),
            renamed,
        );
    lemma_renames_stands(cleared, agenda::items_through(paid.pending.renames@, day), renamed);
    let symbols = choose|symbols: Seq<Symbol>| #[trigger]
        financed.lists_stale(symbols) && financed.delists_all(symbols, time, after);
    lemma_delistings_stands(financed, symbols, time, after);
}

/// The work of a new day is done once: splits, dividends, renames, financing
/// and the delisting scan are not done again by a later tick of the date.
pub proof fn a_day_starts_once<N: Number>(
    engine: Engine<N>,
    date: Date,
    time: Time,
    started: Engine<N>,
    later: Time,
    after: Engine<N>,
)
    requires
        engine.starts_day(date, time, started),
        started.starts_day(date, later, after),
    ensures
        after == started,
{
    if engine.clock.global_last_date is Some && engine.clock.global_last_date != Some(date) {
        lemma_works_day(engine, date, time, started);
    }
}

/// Orders that fill at the next bar's open do nothing on the tick that places
/// them: they move neither cash nor positions, whatever the bars show.
pub proof fn orders_wait_for_the_next_bar<N: Number>(
    engine: Engine<N>,
    bars: Map<u16, Bar<N>>,
    time: Time,
    after: Engine<N>,
)
    requires
        engine.context().config().fill_timing == FillTiming::NextBarOpen,
        engine.routes_new(bars, time, after),
    ensures
        after.account() == engine.account(),
        after.prices() == engine.prices(),
{
    let (taken, routed) = choose|taken: Engine<N>, routed: Engine<N>|
        {
            &&& #[trigger] engine.hands_over(taken)
            &&& #[trigger] taken.routes(engine.ctx.pending_orders@, bars, time, routed)
            &&& routed.books_resting(engine.ctx.resting_orders@, after)
        };
    lemma_defers(taken, engine.ctx.pending_orders@, bars, time, routed);
}

proof fn lemma_defers<N: Number>(
    engine: Engine<N>,
    orders: Seq<Order<N>>,
    bars: Map<u16, Bar<N>>,
    time: Time,
    after: Engine<N>,
)
    requires
        engine.ctx.settings.fill_timing == FillTiming::NextBarOpen,
        engine.routes(orders, bars, time, after),
    ensures
        after == (Engine { books: after.books, ..engine }),
    decreases orders.len(),
{
    if orders.len() > 0 {
        let mid = choose|mid: Engine<N>|
            engine.routes(orders.drop_last(), bars, time, mid) && #[trigger] mid.routes_one(
                orders.last(),
                bars,
                time,
                after,
            );
        lemma_defers(engine, orders.drop_last(), bars, time, mid);
    }
}

/// A resting order does nothing on the tick that places it.
pub proof fn resting_orders_wait<N: Number>(
    engine: Engine<N>,
    bars: Map<u16, Bar<N>>,
    time: Time,
    after: Engine<N>,
)
    requires
        engine.context().placed().len() == 0,
        engine.routes_new(bars, time, after),
    ensures
        after.account() == engine.account(),
        after.prices() == engine.prices(),
{
}

proof fn lemma_executes_all_books<N: Number>(
    engine: Engine<N>,
    attempts: Seq<Attempt<N>>,
    after: Engine<N>,
)
    requires
        engine.executes_all(attempts, after),
    ensures
        after.books == engine.books,
    decreases attempts.len(),
{
    if attempts.len() > 0 {
        let (mid, filled) = choose|mid: Engine<N>, filled: N|
            engine.executes_all(attempts.drop_last(), mid) && #[trigger] mid.executes(
                attempts.last(),
                after,
                filled,
            );
        lemma_executes_all_books(engine, attempts.drop_last(), mid);
    }
}

/// Orders deferred for a symbol wait until it prints a bar, and are all taken up
/// by the tick that brings one.
pub proof fn deferred_orders_wait_for_their_bar<N: Number>(
    engine: Engine<N>,
    bars: Seq<(Symbol, Bar<N>)>,
    time: Time,
    after: Engine<N>,
    id: u16,
)
    requires
        engine.fills_deferred(bars, time, after),
    ensures
        queue::queued(after.order_books().deferred@, id) == if run::last_bar(bars, id) is Some {
            Seq::empty()
        } else {
            queue::queued(engine.order_books().deferred@, id)
        },
    decreases bars.len(),
{
    if bars.len() > 0 {
        let (symbol, bar) = bars.last();
        let (mid, taken) = choose|mid: Engine<N>, taken: Engine<N>|
            {
                &&& engine.fills_deferred(bars.drop_last(), time, mid)
                &&& #[trigger] mid.takes_deferred(symbol.id(), taken)
                &&& taken.executes_all(
                    orders::at_open(queue::queued(mid.books.deferred@, symbol.id()), bar, time),
                    after,
                )
            };
        deferred_orders_wait_for_their_bar(engine, bars.drop_last(), time, mid, id);
        lemma_executes_all_books(
            taken,
            orders::at_open(queue::queued(mid.books.deferred@, symbol.id()), bar, time),
            after,
        );
    }
}

proof fn lemma_tests_books<N: Number>(
    engine: Engine<N>,
    symbol: Symbol,
    orders: Seq<RestingOrder<N>>,
    bar: Bar<N>,
    time: Time,
    after: Engine<N>,
    kept: Seq<RestingOrder<N>>,
)
    requires
        engine.tests_resting(symbol, orders, bar, time, after, kept),
    ensures
        after.books == engine.books,
        kept.len() <= orders.len(),
    decreases orders.len(),
{
    if orders.len() > 0 {
        let (mid, before) = choose|mid: Engine<N>, before: Seq<RestingOrder<N>>|
            {
                &&& engine.tests_resting(symbol, orders.drop_last(), bar, time, mid, before)
                &&& #[trigger] mid.tests_one(
                    before,
                    symbol,
                    orders.last(),
                    bar,
                    time,
                    after,
                    kept,
                )
            };
        lemma_tests_books(engine, symbol, orders.drop_last(), bar, time, mid, before);
    }
}

/// Resting orders of a symbol that prints no bar rest on as they are, and no
/// tick adds to those of one that does.
pub proof fn resting_orders_wait_for_their_bar<N: Number>(
    engine: Engine<N>,
    bars: Seq<(Symbol, Bar<N>)>,
    time: Time,
    after: Engine<N>,
    id: u16,
)
    requires
        engine.fills_resting(bars, time, after),
    ensures
        run::last_bar(bars, id) is None ==> queue::queued(after.order_books().resting@, id)
            == queue::queued(engine.order_books().resting@, id),
        queue::queued(after.order_books().resting@, id).len() <= queue::queued(
            engine.order_books().resting@,
            id,
        ).len(),
    decreases bars.len(),
{
    if bars.len() > 0 {
        let (symbol, bar) = bars.last();
        let (mid, tested, kept) = choose|
            mid: Engine<N>,
            tested: Engine<N>,
            kept: Seq<RestingOrder<N>>,
        |
            {
                &&& engine.fills_resting(bars.drop_last(), time, mid)
                &&& #[trigger] mid.tests_resting(
                    symbol,
                    queue::queued(mid.books.resting@, symbol.id()),
                    bar,
                    time,
                    tested,
                    kept,
                )
                &&& tested.puts_resting(symbol.id(), kept, after)
            };
        resting_orders_wait_for_their_bar(engine, bars.drop_last(), time, mid, id);
        lemma_tests_books(
            mid,
            symbol,
            queue::queued(mid.books.resting@, symbol.id()),
            bar,
            time,
            tested,
            kept,
        );
    }
}

impl<N: Number> Engine<N> {
    /// Whether a tick of `date` is the first after a day that traded.
    pub open(crate) spec fn crosses(self, date: Date) -> bool {
        self.clock.last_date is Some && self.clock.last_date != Some(date)
    }

    /// How many days end with a tick of `date`.
    pub open(crate) spec fn day_ends(self, date: Date) -> nat {
        if self.crosses(date) {
            1
        } else {
            0
        }
    }
}

/// What a tick does up to the strategy leaves the record of equity as it was,
/// but for the mark of a day it closes.
proof fn lemma_prepares_record<N: Number>(
    engine: Engine<N>,
    bars: Seq<(Symbol, Bar<N>)>,
    time: Time,
    date: Date,
    after: Engine<N>,
)
    requires
        engine.prepares(bars, time, date, after),
    ensures
        after.record.intraday == engine.record.intraday,
        after.initial_cash == engine.initial_cash,
        after.clock.last_date == engine.clock.last_date,
        engine.clock.last_date is None || engine.clock.last_date == Some(date) ==> after.record
            == engine.record,
        stats::point_views(engine.record.daily@).is_prefix_of(
            stats::point_views(after.record.daily@),
        ),
        stats::point_views(after.record.daily@) == if engine.crosses(date) {
            stats::point_views(engine.record.daily@).push(
                (
                    calendar::day_text(engine.clock.last_date->0.day()),
                    stats::point_views(after.record.daily@).last().1,
                ),
            )
        } else {
            stats::point_views(engine.record.daily@)
        },
        algorithm::ticks_told(after.told()) == algorithm::ticks_told(engine.told()),
        algorithm::days_told(after.told()) == algorithm::days_told(engine.told())
            + engine.day_ends(date),
        engine.stays_warm(after),
{
    let (cleared, closed, started, seen, deferred, rested, advanced) = choose|
        cleared: Engine<N>,
        closed: Engine<N>,
        started: Engine<N>,
        seen: Engine<N>,
        deferred: Engine<N>,
        rested: Engine<N>,
        advanced: Engine<N>,
    |
        {
            &&& #[trigger] engine.clears_volume(cleared)
            &&& #[trigger] cleared.passes_boundary(date, closed)
            &&& #[trigger] closed.starts_day(date, time, started)
            &&& #[trigger] started.sees(bars, seen)
            &&& #[trigger] seen.fills_deferred(bars, time, deferred)
            &&& #[trigger] deferred.fills_resting(bars, time, rested)
            &&& #[trigger] rested.advances(bars, advanced)
            &&& advanced.remembers(bars, after)
        };
    if closed.clock.global_last_date is Some && closed.clock.global_last_date != Some(date) {
        lemma_works_day(closed, date, time, started);
    }
    lemma_deferred_stands(seen, bars, time, deferred);
    lemma_resting_stands(deferred, bars, time, rested);
    let pushed = choose|pushed: Engine<N>| #[trigger]
        advanced.keeps_windows(bars, pushed) && pushed.offers_all(bars, after);
    lemma_offers_stands(pushed, bars, after);
    assert(stats::point_views(cleared.record.daily@).is_prefix_of(
        stats::point_views(closed.record.daily@),
    ));
}

/// The record of equity is only ever added to: no tick changes or drops a point.
pub proof fn the_record_only_grows<N: Number>(
    engine: Engine<N>,
    bars: Seq<(Symbol, Bar<N>)>,
    time: Time,
    date: Date,
    after: Engine<N>,
)
    requires
        engine.ticks(bars, time, date, after),
    ensures
        stats::point_views(engine.recorded().daily@).is_prefix_of(
            stats::point_views(after.recorded().daily@),
        ),
        stats::point_views(engine.recorded().intraday@).is_prefix_of(
            stats::point_views(after.recorded().intraday@),
        ),
{
    let prepared = choose|prepared: Engine<N>|
        {
            &&& #[trigger] engine.prepares(bars, time, date, prepared)
            &&& if prepared.ctx.warm_up_remaining > 0 {
                prepared.warms_up(after)
            } else {
                prepared.trades(bars, time, date, after)
            }
        };
    lemma_prepares_record(engine, bars, time, date, prepared);
    if prepared.ctx.warm_up_remaining == 0 {
        lemma_trades_record(prepared, bars, time, date, after);
    }
}

proof fn lemma_trades_record<N: Number>(
    engine: Engine<N>,
    bars: Seq<(Symbol, Bar<N>)>,
    time: Time,
    date: Date,
    after: Engine<N>,
)
    requires
        engine.trades(bars, time, date, after),
    ensures
        after.clock.last_date == Some(date),
        stats::point_views(after.record.daily@) == if engine.clock.last_date is None && date.day()
            > calendar::MIN_DAY {
            stats::point_views(engine.record.daily@).push(
                (calendar::day_text(date.day() - 1), engine.initial_cash),
            )
        } else {
            stats::point_views(engine.record.daily@)
        },
        stats::point_views(engine.record.intraday@).is_prefix_of(
            stats::point_views(after.record.intraday@),
        ),
        algorithm::ticks_told(after.told()) == algorithm::ticks_told(engine.told()).push(
            (time, run::slice_of(bars)),
        ),
        algorithm::days_told(after.told()) == algorithm::days_told(engine.told()),
        after.initial_cash == engine.initial_cash,
        engine.stays_warm(after),
{
    let (anchored, called, routed) = choose|
        anchored: Engine<N>,
        called: Engine<N>,
        routed: Engine<N>,
    |
        {
            &&& #[trigger] engine.anchors(date, anchored)
            &&& #[trigger] anchored.calls_strategy(run::slice_of(bars), time, date, called)
            &&& #[trigger] called.routes_new(run::slice_of(bars), time, routed)
            &&& routed.marks_tick(time, after)
        };
    let notices = run::reminders(
        context::due_below(
            anchored.ctx.time_callbacks@,
            calendar::eastern_clock(time.secs()).1,
            date,
            anchored.ctx.time_callbacks@.len() as int,
        ),
    );
    let (marked, reminded) = choose|marked: Engine<N>, reminded: Engine<N>|
        {
            &&& #[trigger] anchored.marks_times(time, date, marked)
            &&& #[trigger] marked.tells_all(notices, reminded)
            &&& reminded.tells(Notice::Data { time, bars: run::slice_of(bars) }, called)
        };
    lemma_tells_stands(marked, notices, reminded);
    let (taken, sent) = choose|taken: Engine<N>, sent: Engine<N>|
        {
            &&& #[trigger] called.hands_over(taken)
            &&& #[trigger] taken.routes(
                called.ctx.pending_orders@,
                run::slice_of(bars),
                time,
                sent,
            )
            &&& sent.books_resting(called.ctx.resting_orders@, routed)
        };
    lemma_routes_stands(taken, called.ctx.pending_orders@, run::slice_of(bars), time, sent);
}

/// The equity curve starts at the starting capital, on the day before the first
/// day the strategy trades, so that the profit of that day shows.
pub proof fn the_curve_starts_at_the_capital<N: Number>(
    engine: Engine<N>,
    bars: Seq<(Symbol, Bar<N>)>,
    time: Time,
    date: Date,
    after: Engine<N>,
)
    requires
        engine.progress().last_date is None,
        engine.recorded().daily@.len() == 0,
        date.day() > calendar::MIN_DAY,
        engine.ticks(bars, time, date, after),
        after.progress().last_date is Some,
    ensures
        stats::point_views(after.recorded().daily@) == seq![
            (calendar::day_text(date.day() - 1), engine.starting_cash()),
        ],
{
    let prepared = choose|prepared: Engine<N>|
        {
            &&& #[trigger] engine.prepares(bars, time, date, prepared)
            &&& if prepared.ctx.warm_up_remaining > 0 {
                prepared.warms_up(after)
            } else {
                prepared.trades(bars, time, date, after)
            }
        };
    lemma_prepares_record(engine, bars, time, date, prepared);
    if prepared.ctx.warm_up_remaining == 0 {
        lemma_trades_record(prepared, bars, time, date, after);
        assert(stats::point_views(after.record.daily@) =~= seq![
            (calendar::day_text(date.day() - 1), engine.initial_cash),
        ]);
    }
}

/// The strategy is told of a tick past warm-up once, with the tick's instant and
/// bars, and of no other; and of the end of a day once, by the first tick of a
/// later one.
pub proof fn the_strategy_is_told_once<N: Number>(
    engine: Engine<N>,
    bars: Seq<(Symbol, Bar<N>)>,
    time: Time,
    date: Date,
    after: Engine<N>,
)
    requires
        engine.ticks(bars, time, date, after),
    ensures
        exists|prepared: Engine<N>|
            {
                &&& #[trigger] engine.prepares(bars, time, date, prepared)
                &&& if prepared.context().warm_up() > 0 {
                    &&& algorithm::ticks_told(after.told()) == algorithm::ticks_told(engine.told())
                    &&& after.progress().last_date == engine.progress().last_date
                } else {
                    &&& algorithm::ticks_told(after.told()) == algorithm::ticks_told(
                        engine.told(),
                    ).push((time, run::slice_of(bars)))
                    &&& after.progress().last_date == Some(date)
                }
            },
        algorithm::days_told(after.told()) == algorithm::days_told(engine.told())
            + engine.day_ends(date),
        engine.stays_warm(after),
        engine.context().warm_up() == 0 && algorithm::never_warms(after.told())
            ==> algorithm::ticks_told(after.told()) == algorithm::ticks_told(engine.told()).push(
            (time, run::slice_of(bars)),
        ),
{
    let prepared = choose|prepared: Engine<N>|
        {
            &&& #[trigger] engine.prepares(bars, time, date, prepared)
            &&& if prepared.ctx.warm_up_remaining > 0 {
                prepared.warms_up(after)
            } else {
                prepared.trades(bars, time, date, after)
            }
        };
    lemma_prepares_record(engine, bars, time, date, prepared);
    if prepared.ctx.warm_up_remaining == 0 {
        lemma_trades_record(prepared, bars, time, date, after);
    }
}

/// What a tick adds to the equity curve: the day that ended before it, if one
/// did, and ahead of the first day that trades the starting capital.
pub proof fn ticks_add_to_the_curve<N: Number>(
    engine: Engine<N>,
    bars: Seq<(Symbol, Bar<N>)>,
    time: Time,
    date: Date,
    after: Engine<N>,
)
    requires
        engine.ticks(bars, time, date, after),
    ensures
        ({
            let before = stats::point_views(engine.recorded().daily@);
            let curve = stats::point_views(after.recorded().daily@);
            let last = engine.progress().last_date;
            if engine.crosses(date) {
                curve == before.push((calendar::day_text(last->0.day()), curve.last().1))
            } else if last is None && after.progress().last_date is Some && date.day()
                > calendar::MIN_DAY {
                curve == before.push((calendar::day_text(date.day() - 1), engine.starting_cash()))
            } else {
                curve == before
            }
        }),
        after.starting_cash() == engine.starting_cash(),
        after.progress().last_date == Some(date) || after.progress().last_date
            == engine.progress().last_date,
{
    let prepared = choose|prepared: Engine<N>|
        {
            &&& #[trigger] engine.prepares(bars, time, date, prepared)
            &&& if prepared.ctx.warm_up_remaining > 0 {
                prepared.warms_up(after)
            } else {
                prepared.trades(bars, time, date, after)
            }
        };
    lemma_prepares_record(engine, bars, time, date, prepared);
    if prepared.ctx.warm_up_remaining == 0 {
        lemma_trades_record(prepared, bars, time, date, after);
    }
}

} // verus!
