//! The event loop's body: one tick from the day boundary to the equity mark.

use std::collections::VecDeque;

use vstd::prelude::*;

use crate::algorithm;
use crate::algorithm::{Algorithm, Call, Notice};
use crate::bar::Bar;
use crate::broker;
use crate::calendar;
use crate::calendar::{Date, Time};
use crate::consolidator::ConsolidatorEntry;
use crate::context;
use crate::context::Context;
use crate::engine::corporate_actions;
use crate::engine::state::{Clock, Engine, EquityRecord, FilledOrder};
use crate::number::Number;
use crate::slice::Slice;
use crate::stats;
use crate::stats::EquityPoint;
use crate::symbol::{Symbol, SymbolMap};

verus! {

/// The last bar of an id among the bars of a tick.
pub open spec fn last_bar<N>(bars: Seq<(Symbol, Bar<N>)>, id: u16) -> Option<Bar<N>>
    decreases bars.len(),
{
    if bars.len() == 0 {
        None
    } else if bars.last().0.id() == id {
        Some(bars.last().1)
    } else {
        last_bar(bars.drop_last(), id)
    }
}

/// The bars of a tick, by id.
pub open spec fn slice_of<N>(bars: Seq<(Symbol, Bar<N>)>) -> Map<u16, Bar<N>> {
    Map::new(|id: u16| last_bar(bars, id) is Some, |id: u16| last_bar(bars, id)->0)
}

/// A window with a bar put in front, cut to its depth.
pub open spec fn windowed<N>(window: Seq<Bar<N>>, bar: Bar<N>, depth: usize) -> Seq<Bar<N>> {
    let longer = seq![bar] + window;
    if longer.len() > depth {
        longer.drop_last()
    } else {
        longer
    }
}

/// The window of an id once the bars of a tick have been put in front of it, in
/// order. An id that keeps no window is left as it is.
pub open spec fn window_after<N>(
    window: Seq<Bar<N>>,
    bars: Seq<(Symbol, Bar<N>)>,
    id: u16,
    kept: bool,
    depth: usize,
) -> Seq<Bar<N>>
    decreases bars.len(),
{
    if bars.len() == 0 {
        window
    } else {
        let before = window_after(window, bars.drop_last(), id, kept, depth);
        if kept && bars.last().0.id() == id {
            windowed(before, bars.last().1, depth)
        } else {
            before
        }
    }
}

/// The notices that scheduled times are reached.
pub open spec fn reminders<N>(handles: Seq<usize>) -> Seq<Notice<N>> {
    handles.map_values(|handle: usize| Notice::Scheduled { handle })
}

impl<N: Number> Engine<N> {
    /// The account's net liquidation value.
    pub open(crate) spec fn net_value(self) -> N {
        self.ctx.portfolio.value(self.prices())
    }

    /// `after` is `self` with no bar volume taken yet, and nothing filled.
    pub open(crate) spec fn clears_volume(self, after: Engine<N>) -> bool {
        &&& after == (Engine {
            participation_used: after.participation_used,
            fills: after.fills,
            ..self
        })
        &&& after.participation_used@ == Map::<u16, N>::empty()
        &&& after.fills@ == Seq::<FilledOrder<N>>::empty()
    }

    /// `after` is `self` with a day's closing equity marked.
    pub open(crate) spec fn marks_day(self, day: Date, after: Engine<N>) -> bool {
        &&& after == (Engine {
            record: EquityRecord { daily: after.record.daily, ..self.record },
            ..self
        })
        &&& stats::point_views(after.record.daily@) == stats::point_views(
            self.record.daily@,
        ).push((calendar::day_text(day.day()), self.net_value()))
    }

    /// Whether closing a day can take the engine from `self` to `after`: its
    /// equity is marked, and the strategy told.
    pub open(crate) spec fn closes_day(self, day: Date, after: Engine<N>) -> bool {
        exists|marked: Engine<N>| #[trigger]
            self.marks_day(day, marked) && marked.tells(Notice::EndOfDay, after)
    }

    /// Whether passing a day boundary, if this tick passes one, can take the
    /// engine from `self` to `after`.
    pub open(crate) spec fn passes_boundary(self, date: Date, after: Engine<N>) -> bool {
        match self.clock.last_date {
            Some(last) => if last != date {
                self.closes_day(last, after)
            } else {
                after == self
            },
            None => after == self,
        }
    }

    /// `after` is `self` with the symbols of a tick seen today.
    pub open(crate) spec fn sees(self, bars: Seq<(Symbol, Bar<N>)>, after: Engine<N>) -> bool {
        &&& after == (Engine {
            clock: Clock { last_seen_day: after.clock.last_seen_day, ..self.clock },
            ..self
        })
        &&& forall|id: u16| #[trigger]
            corporate_actions::entry_of(after.clock.last_seen_day@, id) == if last_bar(
                bars,
                id,
            ) is Some {
                Some(self.clock.day_index)
            } else {
                corporate_actions::entry_of(self.clock.last_seen_day@, id)
            }
    }

    /// `after` is `self` with the marks advanced to the closes of a tick.
    pub open(crate) spec fn advances(self, bars: Seq<(Symbol, Bar<N>)>, after: Engine<N>) -> bool {
        &&& after == (Engine { last_known_prices: after.last_known_prices, ..self })
        &&& forall|id: u16| #[trigger]
            broker::mark(after.prices(), id) == match last_bar(bars, id) {
                Some(bar) => Some(bar.close),
                None => broker::mark(self.prices(), id),
            }
    }

    /// `after` is `self` with the bars of a tick put in front of the windows.
    pub open(crate) spec fn keeps_windows(
        self,
        bars: Seq<(Symbol, Bar<N>)>,
        after: Engine<N>,
    ) -> bool {
        &&& after == (Engine {
            ctx: Context { history_store: after.ctx.history_store, ..self.ctx },
            ..self
        })
        &&& forall|id: u16| #[trigger]
            after.ctx.bars_of(id) == window_after(
                self.ctx.bars_of(id),
                bars,
                id,
                self.ctx.keeps_history(id),
                self.ctx.settings.max_history,
            )
    }

    /// `after` is `self` with consolidator `i` changed to `entry`.
    pub open(crate) spec fn changes_entry(
        self,
        i: int,
        entry: ConsolidatorEntry<N>,
        after: Engine<N>,
    ) -> bool {
        &&& after == (Engine {
            ctx: Context { consolidators: after.ctx.consolidators, ..self.ctx },
            ..self
        })
        &&& after.ctx.consolidators@ == self.ctx.consolidators@.update(i, entry)
    }

    /// Whether consolidator `i` giving up a bar, if it gives one up, can take the
    /// engine from `self` to `after`: it becomes `entry`, and the strategy is
    /// handed the bar.
    pub open(crate) spec fn emits(
        self,
        i: int,
        entry: ConsolidatorEntry<N>,
        emitted: Option<Bar<N>>,
        after: Engine<N>,
    ) -> bool {
        exists|changed: Engine<N>|
            {
                &&& #[trigger] self.changes_entry(i, entry, changed)
                &&& match emitted {
                    Some(bar) => changed.hands(i as usize, bar, after),
                    None => after == changed,
                }
            }
    }

    /// Whether offering a bar to consolidator `i` can take the engine from
    /// `self` to `after`: it takes in the bars of its own symbol.
    pub open(crate) spec fn offers_one(
        self,
        i: int,
        item: (Symbol, Bar<N>),
        after: Engine<N>,
    ) -> bool {
        let entry = self.ctx.consolidators@[i];
        if item.0 == entry.source() {
            exists|fed: ConsolidatorEntry<N>, emitted: Option<Bar<N>>|
                #[trigger] entry.fed(item.1, fed, emitted) && self.emits(i, fed, emitted, after)
        } else {
            after == self
        }
    }

    /// Whether offering a bar to the consolidators below `end`, in order, can
    /// take the engine from `self` to `after`.
    pub open(crate) spec fn offers_bar(
        self,
        end: int,
        item: (Symbol, Bar<N>),
        after: Engine<N>,
    ) -> bool
        decreases end,
    {
        if end <= 0 {
            after == self
        } else {
            exists|mid: Engine<N>|
                self.offers_bar(end - 1, item, mid) && #[trigger] mid.offers_one(
                    end - 1,
                    item,
                    after,
                )
        }
    }

    /// Whether offering a bar to every consolidator can take the engine from
    /// `self` to `after`.
    pub open(crate) spec fn offers_next(self, item: (Symbol, Bar<N>), after: Engine<N>) -> bool {
        self.offers_bar(self.ctx.consolidators@.len() as int, item, after)
    }

    /// Whether offering the bars of a tick to the consolidators, in order, can
    /// take the engine from `self` to `after`.
    pub open(crate) spec fn offers_all(
        self,
        bars: Seq<(Symbol, Bar<N>)>,
        after: Engine<N>,
    ) -> bool
        decreases bars.len(),
    {
        if bars.len() == 0 {
            after == self
        } else {
            exists|mid: Engine<N>|
                self.offers_all(bars.drop_last(), mid) && #[trigger] mid.offers_next(
                    bars.last(),
                    after,
                )
        }
    }

    /// Whether taking the bars of a tick into the windows and the consolidators
    /// can take the engine from `self` to `after`. The strategy is handed every
    /// bar a consolidator finishes.
    pub open(crate) spec fn remembers(self, bars: Seq<(Symbol, Bar<N>)>, after: Engine<N>) -> bool {
        exists|pushed: Engine<N>| #[trigger]
            self.keeps_windows(bars, pushed) && pushed.offers_all(bars, after)
    }

    /// `after` is `self` one tick of warm-up further.
    pub open(crate) spec fn warms_up(self, after: Engine<N>) -> bool {
        after == (Engine {
            ctx: Context { warm_up_remaining: (self.ctx.warm_up_remaining - 1) as usize, ..self.ctx },
            ..self
        })
    }

    /// `after` is `self` with a tick of `date` begun. The first anchors the
    /// equity curve at the starting capital, on the day before, so day-one PnL
    /// is visible.
    pub open(crate) spec fn anchors(self, date: Date, after: Engine<N>) -> bool {
        &&& after == (Engine {
            record: EquityRecord { daily: after.record.daily, ..self.record },
            clock: Clock { last_date: Some(date), ..self.clock },
            ..self
        })
        &&& stats::point_views(after.record.daily@) == if self.clock.last_date is None && date.day()
            > calendar::MIN_DAY {
            stats::point_views(self.record.daily@).push(
                (calendar::day_text(date.day() - 1), self.initial_cash),
            )
        } else {
            stats::point_views(self.record.daily@)
        }
    }

    /// `after` is `self` with the scheduled times due at a tick marked as
    /// fired.
    pub open(crate) spec fn marks_times(self, time: Time, date: Date, after: Engine<N>) -> bool {
        &&& after == (Engine {
            ctx: Context { time_callbacks: after.ctx.time_callbacks, ..self.ctx },
            ..self
        })
        &&& after.ctx.time_callbacks@ == Seq::new(
            self.ctx.time_callbacks@.len(),
            |i: int|
                context::time_passed(
                    self.ctx.time_callbacks@[i],
                    calendar::eastern_clock(time.secs()).1,
                    date,
                ),
        )
    }

    /// Whether calling the strategy at its scheduled times and then with the
    /// tick can take the engine from `self` to `after`: once for each time that
    /// is due, in the order they were registered, and once with the tick's
    /// bars.
    pub open(crate) spec fn calls_strategy(
        self,
        bars: Map<u16, Bar<N>>,
        time: Time,
        date: Date,
        after: Engine<N>,
    ) -> bool {
        exists|marked: Engine<N>, reminded: Engine<N>|
            {
                &&& #[trigger] self.marks_times(time, date, marked)
                &&& #[trigger] marked.tells_all(
                    reminders(
                        context::due_below(
                            self.ctx.time_callbacks@,
                            calendar::eastern_clock(time.secs()).1,
                            date,
                            self.ctx.time_callbacks@.len() as int,
                        ),
                    ),
                    reminded,
                )
                &&& reminded.tells(Notice::Data { time, bars }, after)
            }
    }

    /// `after` is `self` with the tick's equity marked, if ticks are tracked.
    pub open(crate) spec fn marks_tick(self, time: Time, after: Engine<N>) -> bool {
        if self.ctx.settings.track_intraday_equity {
            &&& after == (Engine {
                record: EquityRecord { intraday: after.record.intraday, ..self.record },
                ..self
            })
            &&& stats::point_views(after.record.intraday@) == stats::point_views(
                self.record.intraday@,
            ).push((calendar::instant_text(time.secs(), time.subsec()), self.net_value()))
        } else {
            after == self
        }
    }

    /// Whether the part of a tick that comes before the strategy, up to the
    /// warm-up gate, can take the engine from `self` to `after`.
    ///
    /// The marks advance only after the waiting orders have filled: their
    /// sizing values the portfolio at the prior closes.
    pub open(crate) spec fn prepares(
        self,
        bars: Seq<(Symbol, Bar<N>)>,
        time: Time,
        date: Date,
        after: Engine<N>,
    ) -> bool {
        exists|
            cleared: Engine<N>,
            closed: Engine<N>,
            started: Engine<N>,
            seen: Engine<N>,
            deferred: Engine<N>,
            rested: Engine<N>,
            advanced: Engine<N>,
        |
            {
                &&& #[trigger] self.clears_volume(cleared)
                &&& #[trigger] cleared.passes_boundary(date, closed)
                &&& #[trigger] closed.starts_day(date, time, started)
                &&& #[trigger] started.sees(bars, seen)
                &&& #[trigger] seen.fills_deferred(bars, time, deferred)
                &&& #[trigger] deferred.fills_resting(bars, time, rested)
                &&& #[trigger] rested.advances(bars, advanced)
                &&& advanced.remembers(bars, after)
            }
    }

    /// Whether the part of a tick from the strategy on can take the engine from
    /// `self` to `after`.
    pub open(crate) spec fn trades(
        self,
        bars: Seq<(Symbol, Bar<N>)>,
        time: Time,
        date: Date,
        after: Engine<N>,
    ) -> bool {
        exists|anchored: Engine<N>, called: Engine<N>, routed: Engine<N>|
            {
                &&& #[trigger] self.anchors(date, anchored)
                &&& #[trigger] anchored.calls_strategy(slice_of(bars), time, date, called)
                &&& #[trigger] called.routes_new(slice_of(bars), time, routed)
                &&& routed.marks_tick(time, after)
            }
    }

    /// Whether a tick can take the engine from `self` to `after`. During
    /// warm-up the strategy is not called.
    pub open(crate) spec fn ticks(
        self,
        bars: Seq<(Symbol, Bar<N>)>,
        time: Time,
        date: Date,
        after: Engine<N>,
    ) -> bool {
        exists|prepared: Engine<N>|
            {
                &&& #[trigger] self.prepares(bars, time, date, prepared)
                &&& if prepared.ctx.warm_up_remaining > 0 {
                    prepared.warms_up(after)
                } else {
                    prepared.trades(bars, time, date, after)
                }
            }
    }
}

/// Whether a tick past warm-up was handed to a strategy that heeded it, and what
/// followed rests on the context that the strategy left: its orders are routed,
/// and the tick is marked.
pub open(crate) spec fn tick_is_heeded<N: Number, A: Algorithm<N>>(
    engine: Engine<N>,
    bars: Seq<(Symbol, Bar<N>)>,
    time: Time,
    date: Date,
    after: Engine<N>,
) -> bool {
    exists|prepared: Engine<N>| #[trigger]
        engine.prepares(bars, time, date, prepared) && (prepared.context().warm_up() == 0
            ==> exists|
            before: A,
            given: Context<N>,
            called: Engine<N>,
            left: A,
            routed: Engine<N>,
        |
            {
                &&& #[trigger] before.heeds(
                    Call {
                        notice: Notice::Data { time, bars: slice_of(bars) },
                        before: given,
                        after: called.context(),
                    },
                    &left,
                )
                &&& #[trigger] called.routes_new(slice_of(bars), time, routed)
                &&& routed.marks_tick(time, after)
            })
}

proof fn lemma_last_bar_take<N>(bars: Seq<(Symbol, Bar<N>)>, i: int, id: u16)
    requires
        0 <= i < bars.len(),
    ensures
        last_bar(bars.take(i + 1), id) == if bars[i].0.id() == id {
            Some(bars[i].1)
        } else {
            last_bar(bars.take(i), id)
        },
{
    assert(bars.take(i + 1).drop_last() =~= bars.take(i));
}

impl<N: Number> Engine<N> {
    /// Process one tick: every subscribed bar sharing one timestamp.
    pub fn process_tick<A: Algorithm<N>>(
        &mut self,
        algo: &mut A,
        tick_time: Time,
        tick_date: Date,
        bars: Vec<(Symbol, Bar<N>)>,
    )
        ensures
            old(self).ticks(bars@, tick_time, tick_date, *final(self)),
            tick_is_heeded::<N, A>(*old(self), bars@, tick_time, tick_date, *final(self)),
            algorithm::lives(*old(algo), old(self).told(), *final(algo), final(self).told()),
    {
        let ghost start = *self;
        let ghost strategy = *algo;
        self.participation_used.clear();
        self.fills.clear();
        let ghost cleared = *self;
        assert(start.clears_volume(cleared));

        // Day boundary: close out the previous day before this bar touches any
        // state. (The last date is never set during warm-up, so purely-warm-up
        // days never fire this.)
        if let Some(prev) = self.clock.last_date {
            if prev != tick_date {
                self.close_day(algo, prev);
            }
        }
        let ghost closed = *self;
        let ghost told_of_day = *algo;
        assert(cleared.passes_boundary(tick_date, closed));

        // Corporate actions, financing, and the delist scan, once per date,
        // after the previous day's equity mark and before the new day's bars
        // touch anything.
        self.start_new_day(algo, tick_date, tick_time);
        let ghost started = *self;
        let ghost told_of_actions = *algo;
        proof {
            algorithm::lemma_lives_on(
                strategy,
                start.told(),
                told_of_day,
                closed.told(),
                told_of_actions,
                started.told(),
            );
        }
        self.see(&bars);
        let ghost seen = *self;
        self.fill_deferred(&bars, tick_time);
        let ghost deferred = *self;
        self.fill_resting(&bars, tick_time);
        let ghost rested = *self;
        self.advance_marks(&bars);
        let ghost advanced = *self;
        self.record_history(algo, &bars);
        let ghost prepared = *self;
        proof {
            algorithm::lemma_lives_on(
                strategy,
                start.told(),
                told_of_actions,
                started.told(),
                *algo,
                prepared.told(),
            );
            assert(start.prepares(bars@, tick_time, tick_date, prepared));
        }

        if self.ctx.warm_up_remaining > 0 {
            self.ctx.warm_up_remaining = self.ctx.warm_up_remaining - 1;
            assert(prepared.warms_up(*self));
            return;
        }
        self.anchor(tick_date);
        let ghost anchored = *self;

        let due = self.ctx.fire_time_callbacks(&tick_time, tick_date);
        let ghost marked = *self;
        assert(anchored.marks_times(tick_time, tick_date, marked));
        let ghost notices = reminders::<N>(due@);
        assert(notices.take(0) =~= Seq::<Notice<N>>::empty());
        for i in 0..due.len()
            invariant
                notices == reminders::<N>(due@),
                marked.tells_all(notices.take(i as int), *self),
                algorithm::lives(strategy, start.told(), *algo, self.told()),
        {
            let ghost mid = *self;
            let ghost mid_strategy = *algo;
            self.calls.on_scheduled(algo, &mut self.ctx, due[i]);
            proof {
                algorithm::lemma_lives_on(
                    strategy,
                    start.told(),
                    mid_strategy,
                    mid.told(),
                    *algo,
                    self.told(),
                );
                assert(notices.take(i + 1).drop_last() =~= notices.take(i as int));
                assert(mid.tells(notices.take(i + 1).last(), *self));
            }
        }
        let ghost reminded = *self;
        let ghost told_of_times = *algo;
        assert(notices.take(due@.len() as int) =~= notices);
        let slice = Slice { time: tick_time, bars: collect_slice(&bars) };
        self.calls.on_data(algo, &mut self.ctx, &slice);
        let ghost called = *self;
        let ghost heeding = *algo;
        proof {
            algorithm::lemma_lives_on(
                strategy,
                start.told(),
                told_of_times,
                reminded.told(),
                *algo,
                called.told(),
            );
            assert(reminded.tells(
                Notice::Data { time: tick_time, bars: slice_of(bars@) },
                called,
            ));
            assert(anchored.calls_strategy(slice_of(bars@), tick_time, tick_date, called));
        }

        self.route_new_orders(&slice, tick_time);
        let ghost routed = *self;

        // Optional per-bar equity mark, after this bar's fills.
        if self.ctx.settings.track_intraday_equity {
            let equity = self.ctx.portfolio.total_value(&self.last_known_prices);
            let point = EquityPoint { time: tick_time.to_rfc3339(), equity };
            self.record.intraday.push(point);
            assert(stats::point_views(self.record.intraday@) =~= stats::point_views(
                routed.record.intraday@,
            ).push(point@));
        }
        assert(routed.marks_tick(tick_time, *self));
        assert(told_of_times.heeds(
            Call {
                notice: Notice::Data { time: tick_time, bars: slice_of(bars@) },
                before: reminded.ctx,
                after: called.context(),
            },
            &heeding,
        ));
        assert(called.routes_new(slice_of(bars@), tick_time, routed));
        assert(tick_is_heeded::<N, A>(start, bars@, tick_time, tick_date, *self));
        assert(prepared.trades(bars@, tick_time, tick_date, *self));
    }

    /// Mark a day's closing equity and tell the strategy.
    pub fn close_day<A: Algorithm<N>>(&mut self, algo: &mut A, day: Date)
        ensures
            old(self).closes_day(day, *final(self)),
            algorithm::lives(*old(algo), old(self).told(), *final(algo), final(self).told()),
    {
        let ghost start = *self;
        let equity = self.ctx.portfolio.total_value(&self.last_known_prices);
        let point = EquityPoint { time: day.to_text(), equity };
        self.record.daily.push(point);
        let ghost marked = *self;
        proof {
            assert(stats::point_views(marked.record.daily@) =~= stats::point_views(
                start.record.daily@,
            ).push(point@));
            assert(start.marks_day(day, marked));
        }
        self.calls.on_end_of_day(algo, &mut self.ctx);
    }

    /// Note which symbols printed today.
    fn see(&mut self, bars: &Vec<(Symbol, Bar<N>)>)
        ensures
            old(self).sees(bars@, *final(self)),
    {
        let ghost start = *self;
        for i in 0..bars.len()
            invariant
                start.sees(bars@.take(i as int), *self),
        {
            let ghost before = *self;
            let today: u64 = self.clock.day_index;
            self.clock.last_seen_day.set(bars[i].0, Some(today));
            assert forall|id: u16| #[trigger]
                corporate_actions::entry_of(self.clock.last_seen_day@, id) == if last_bar(
                    bars@.take(i + 1),
                    id,
                ) is Some {
                    Some(start.clock.day_index)
                } else {
                    corporate_actions::entry_of(start.clock.last_seen_day@, id)
                } by {
                lemma_last_bar_take(bars@, i as int, id);
                assert(corporate_actions::entry_of(before.clock.last_seen_day@, id) == if last_bar(
                    bars@.take(i as int),
                    id,
                ) is Some {
                    Some(start.clock.day_index)
                } else {
                    corporate_actions::entry_of(start.clock.last_seen_day@, id)
                });
            }
        }
        assert(bars@.take(bars@.len() as int) =~= bars@);
    }

    /// Advance the marks to the closes of a tick.
    fn advance_marks(&mut self, bars: &Vec<(Symbol, Bar<N>)>)
        ensures
            old(self).advances(bars@, *final(self)),
    {
        let ghost start = *self;
        for i in 0..bars.len()
            invariant
                start.advances(bars@.take(i as int), *self),
        {
            let ghost before = *self;
            self.last_known_prices.set(bars[i].0, Some(bars[i].1.close));
            assert forall|id: u16| #[trigger]
                broker::mark(self.prices(), id) == match last_bar(bars@.take(i + 1), id) {
                    Some(bar) => Some(bar.close),
                    None => broker::mark(start.prices(), id),
                } by {
                lemma_last_bar_take(bars@, i as int, id);
                assert(broker::mark(before.prices(), id) == match last_bar(
                    bars@.take(i as int),
                    id,
                ) {
                    Some(bar) => Some(bar.close),
                    None => broker::mark(start.prices(), id),
                });
            }
        }
        assert(bars@.take(bars@.len() as int) =~= bars@);
    }

    /// Begin a tick of `date`, anchoring the equity curve on the first.
    fn anchor(&mut self, date: Date)
        ensures
            old(self).anchors(date, *final(self)),
    {
        let ghost start = *self;
        if self.clock.last_date.is_none() {
            if let Some(day_before) = date.pred() {
                let point = EquityPoint { time: day_before.to_text(), equity: self.initial_cash };
                self.record.daily.push(point);
                assert(stats::point_views(self.record.daily@) =~= stats::point_views(
                    start.record.daily@,
                ).push(point@));
            }
        }
        self.clock.last_date = Some(date);
    }

    /// Put this tick's bars in front of the windows and feed the consolidators.
    /// Runs during warm-up too, so both build up over it.
    pub fn record_history<A: Algorithm<N>>(
        &mut self,
        algo: &mut A,
        bars: &Vec<(Symbol, Bar<N>)>,
    )
        ensures
            old(self).remembers(bars@, *final(self)),
            algorithm::lives(*old(algo), old(self).told(), *final(algo), final(self).told()),
    {
        let ghost start = *self;
        let ghost strategy = *algo;
        self.push_windows(bars);
        let ghost pushed = *self;
        assert(start.keeps_windows(bars@, pushed));
        let n: usize = self.ctx.consolidators.len();
        assert(bars@.take(0) =~= Seq::<(Symbol, Bar<N>)>::empty());
        for i in 0..bars.len()
            invariant
                self.ctx.consolidators@.len() == n,
                algorithm::lives(strategy, start.told(), *algo, self.told()),
                pushed.offers_all(bars@.take(i as int), *self),
        {
            let item = bars[i];
            let ghost before = *self;
            for j in 0..n
                invariant
                    self.ctx.consolidators@.len() == n,
                    algorithm::lives(strategy, start.told(), *algo, self.told()),
                    before.offers_bar(j as int, item, *self),
            {
                let ghost mid = *self;
                let source = self.ctx.consolidators[j].symbol();
                if source == item.0 {
                    let emitted = self.ctx.consolidators[j].feed(&item.1);
                    let ghost changed = *self;
                    let ghost fed = self.ctx.consolidators@[j as int];
                    let ghost mid_strategy = *algo;
                    if let Some(finished) = emitted {
                        self.calls.on_consolidated(algo, &self.ctx, j, &finished);
                    }
                    proof {
                        algorithm::lemma_lives_on(
                            strategy,
                            start.told(),
                            mid_strategy,
                            mid.told(),
                            *algo,
                            self.told(),
                        );
                        assert(changed.ctx.consolidators@ =~= mid.ctx.consolidators@.update(
                            j as int,
                            fed,
                        ));
                        assert(mid.changes_entry(j as int, fed, changed));
                        assert(mid.emits(j as int, fed, emitted, *self));
                        assert(mid.ctx.consolidators@[j as int].fed(item.1, fed, emitted));
                    }
                }
                proof {
                    assert(mid.offers_one(j + 1 - 1, item, *self));
                }
            }
            proof {
                assert(bars@.take(i + 1).drop_last() =~= bars@.take(i as int));
                assert(bars@.take(i + 1).last() == item);
                assert(before.offers_next(item, *self));
                assert(pushed.offers_all(bars@.take(i + 1), *self));
            }
        }
        assert(bars@.take(bars@.len() as int) =~= bars@);
    }

    /// Put this tick's bars in front of the windows.
    fn push_windows(&mut self, bars: &Vec<(Symbol, Bar<N>)>)
        ensures
            old(self).keeps_windows(bars@, *final(self)),
    {
        let ghost start = *self;
        for i in 0..bars.len()
            invariant
                *self == (Engine {
                    ctx: Context { history_store: self.ctx.history_store, ..start.ctx },
                    ..start
                }),
                forall|id: u16| #[trigger]
                    self.ctx.bars_of(id) == window_after(
                        start.ctx.bars_of(id),
                        bars@.take(i as int),
                        id,
                        start.ctx.keeps_history(id),
                        start.ctx.settings.max_history,
                    ),
        {
            let (symbol, bar) = bars[i];
            let ghost before = self.ctx;
            if self.ctx.tracking.tracks(symbol) {
                let mut window: VecDeque<Bar<N>> = match self.ctx.history_store.remove(&symbol) {
                    Some(window) => window,
                    None => VecDeque::new(),
                };
                assert(window@ =~= before.bars_of(symbol.id()));
                window.push_front(bar);
                assert(window@ =~= seq![bar] + before.bars_of(symbol.id()));
                if window.len() > self.ctx.settings.max_history {
                    let _ = window.pop_back();
                }
                assert(window@ =~= windowed(
                    before.bars_of(symbol.id()),
                    bar,
                    start.ctx.settings.max_history,
                ));
                self.ctx.history_store.insert(symbol, window);
            }
            assert forall|id: u16| #[trigger]
                self.ctx.bars_of(id) == window_after(
                    start.ctx.bars_of(id),
                    bars@.take(i + 1),
                    id,
                    start.ctx.keeps_history(id),
                    start.ctx.settings.max_history,
                ) by {
                assert(bars@.take(i + 1).drop_last() =~= bars@.take(i as int));
                assert(bars@.take(i + 1).last() == (symbol, bar));
                assert(before.bars_of(id) == window_after(
                    start.ctx.bars_of(id),
                    bars@.take(i as int),
                    id,
                    start.ctx.keeps_history(id),
                    start.ctx.settings.max_history,
                ));
            }
        }
        assert(bars@.take(bars@.len() as int) =~= bars@);
    }
}

/// The bars of a tick, by symbol.
pub fn collect_slice<N: Number>(bars: &Vec<(Symbol, Bar<N>)>) -> (r: SymbolMap<Bar<N>>)
    ensures
        r@ == slice_of(bars@),
{
    let mut slice: SymbolMap<Bar<N>> = SymbolMap::new();
    assert(slice@ =~= slice_of(bars@.take(0)));
    for i in 0..bars.len()
        invariant
            slice@ =~= slice_of(bars@.take(i as int)),
    {
        let (symbol, bar) = bars[i];
        let ghost before = slice@;
        slice.insert(symbol, bar);
        assert forall|id: u16|
            slice@.contains_key(id) <==> #[trigger] slice_of(bars@.take(i + 1)).contains_key(
                id,
            ) by {
            lemma_last_bar_take(bars@, i as int, id);
            assert(before.contains_key(id) <==> slice_of(bars@.take(i as int)).contains_key(id));
        }
        assert forall|id: u16| slice@.contains_key(id) implies slice@[id] == #[trigger] slice_of(
            bars@.take(i + 1),
        )[id] by {
            lemma_last_bar_take(bars@, i as int, id);
        }
    }
    assert(bars@.take(bars@.len() as int) =~= bars@);
    slice
}

} // verus!
