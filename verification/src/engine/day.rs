//! The once-per-date work at the start of a trading day: corporate actions as
//! they fall due, financing, and the delisting scan, with the strategy told of
//! each.
//!
//! The strategy may change the context whenever it is called. So a stretch of
//! work with calls in it is described step by step: from each state to the
//! next, with whatever the strategy made of the context in between.

use vstd::prelude::*;

use crate::agenda;
use crate::algorithm;
use crate::algorithm::{Algorithm, Notice};
use crate::calendar::{Date, Time};
use crate::engine::state::{Clock, Engine, PendingActions};
use crate::number::Number;
use crate::symbol;
use crate::symbol::Symbol;

verus! {

impl<N: Number> Engine<N> {
    /// Whether a split and the call it comes with can take the engine from
    /// `self` to `after`.
    pub open(crate) spec fn splits_one(self, item: (Symbol, N), time: Time, after: Engine<N>)
        -> bool {
        exists|acted: Engine<N>| #[trigger]
            self.splits(item.0, item.1, time, acted) && acted.tells(
                Notice::Split { symbol: item.0, ratio: item.1 },
                after,
            )
    }

    /// Whether splits, one after the other, can take the engine from `self` to
    /// `after`.
    pub open(crate) spec fn splits_all(
        self,
        items: Seq<(Symbol, N)>,
        time: Time,
        after: Engine<N>,
    ) -> bool
        decreases items.len(),
    {
        if items.len() == 0 {
            after == self
        } else {
            exists|mid: Engine<N>|
                self.splits_all(items.drop_last(), time, mid) && #[trigger] mid.splits_one(
                    items.last(),
                    time,
                    after,
                )
        }
    }

    /// `after` is `self` without the splits due by a day.
    pub open(crate) spec fn drains_splits(self, day: int, after: Engine<N>) -> bool {
        &&& after == (Engine {
            pending: PendingActions { splits: after.pending.splits, ..self.pending },
            ..self
        })
        &&& after.pending.splits@ == agenda::after_day(self.pending.splits@, day)
    }

    /// Whether the splits due on a date can take the engine from `self` to
    /// `after`: all of them, oldest first.
    pub open(crate) spec fn applies_splits(self, date: Date, time: Time, after: Engine<N>) -> bool {
        exists|drained: Engine<N>| #[trigger]
            self.drains_splits(date.day(), drained) && drained.splits_all(
                agenda::items_through(self.pending.splits@, date.day()),
                time,
                after,
            )
    }

    /// Whether a dividend and the call it comes with can take the engine from
    /// `self` to `after`. The strategy is only told of one that was paid.
    pub open(crate) spec fn pays_one(self, item: (Symbol, N), after: Engine<N>) -> bool {
        exists|acted: Engine<N>|
            {
                &&& #[trigger] self.pays(item.0, item.1, acted)
                &&& if self.holds(item.0) {
                    acted.tells(Notice::Dividend { symbol: item.0, amount: item.1 }, after)
                } else {
                    after == self
                }
            }
    }

    /// Whether dividends, one after the other, can take the engine from `self`
    /// to `after`.
    pub open(crate) spec fn pays_all(self, items: Seq<(Symbol, N)>, after: Engine<N>) -> bool
        decreases items.len(),
    {
        if items.len() == 0 {
            after == self
        } else {
            exists|mid: Engine<N>|
                self.pays_all(items.drop_last(), mid) && #[trigger] mid.pays_one(
                    items.last(),
                    after,
                )
        }
    }

    /// `after` is `self` without the dividends due by a day.
    pub open(crate) spec fn drains_dividends(self, day: int, after: Engine<N>) -> bool {
        &&& after == (Engine {
            pending: PendingActions { dividends: after.pending.dividends, ..self.pending },
            ..self
        })
        &&& after.pending.dividends@ == agenda::after_day(self.pending.dividends@, day)
    }

    /// Whether the dividends due on a date can take the engine from `self` to
    /// `after`: all of them, oldest first.
    pub open(crate) spec fn applies_dividends(self, date: Date, after: Engine<N>) -> bool {
        exists|drained: Engine<N>| #[trigger]
            self.drains_dividends(date.day(), drained) && drained.pays_all(
                agenda::items_through(self.pending.dividends@, date.day()),
                after,
            )
    }

    /// Whether a rename and the call it comes with can take the engine from
    /// `self` to `after`.
    pub open(crate) spec fn renames_one(self, item: (Symbol, Symbol), after: Engine<N>) -> bool {
        exists|acted: Engine<N>| #[trigger]
            self.renames(item.0, item.1, acted) && acted.tells(
                Notice::Rename { from: item.0, to: item.1 },
                after,
            )
    }

    /// Whether renames, one after the other, can take the engine from `self` to
    /// `after`.
    pub open(crate) spec fn renames_all(self, items: Seq<(Symbol, Symbol)>, after: Engine<N>)
        -> bool
        decreases items.len(),
    {
        if items.len() == 0 {
            after == self
        } else {
            exists|mid: Engine<N>|
                self.renames_all(items.drop_last(), mid) && #[trigger] mid.renames_one(
                    items.last(),
                    after,
                )
        }
    }

    /// `after` is `self` without the renames due by a day.
    pub open(crate) spec fn drains_renames(self, day: int, after: Engine<N>) -> bool {
        &&& after == (Engine {
            pending: PendingActions { renames: after.pending.renames, ..self.pending },
            ..self
        })
        &&& after.pending.renames@ == agenda::after_day(self.pending.renames@, day)
    }

    /// Whether the renames due on a date can take the engine from `self` to
    /// `after`: all of them, oldest first.
    pub open(crate) spec fn applies_renames(self, date: Date, after: Engine<N>) -> bool {
        exists|drained: Engine<N>| #[trigger]
            self.drains_renames(date.day(), drained) && drained.renames_all(
                agenda::items_through(self.pending.renames@, date.day()),
                after,
            )
    }

    /// Whether a delisting and the call it comes with can take the engine from
    /// `self` to `after`.
    pub open(crate) spec fn delists_one(self, symbol: Symbol, time: Time, after: Engine<N>)
        -> bool {
        exists|acted: Engine<N>| #[trigger]
            self.delists(symbol, time, acted) && acted.tells(
                Notice::Delisted { symbol },
                after,
            )
    }

    /// Whether delistings, one after the other, can take the engine from `self`
    /// to `after`.
    pub open(crate) spec fn delists_all(self, symbols: Seq<Symbol>, time: Time, after: Engine<N>)
        -> bool
        decreases symbols.len(),
    {
        if symbols.len() == 0 {
            after == self
        } else {
            exists|mid: Engine<N>|
                self.delists_all(symbols.drop_last(), time, mid) && #[trigger] mid.delists_one(
                    symbols.last(),
                    time,
                    after,
                )
        }
    }

    /// `symbols` are those that count as delisted, in id order.
    pub open(crate) spec fn lists_stale(self, symbols: Seq<Symbol>) -> bool {
        &&& forall|i: int, j: int|
            0 <= i < j < symbols.len() ==> #[trigger] symbols[i].id() < #[trigger] symbols[j].id()
        &&& forall|id: u16| #[trigger]
            self.stale(id) <==> symbol::ids_of(symbols).contains(id)
    }

    /// Whether the delisting scan can take the engine from `self` to `after`.
    pub open(crate) spec fn closes_delisted(self, time: Time, after: Engine<N>) -> bool {
        exists|symbols: Seq<Symbol>| #[trigger]
            self.lists_stale(symbols) && self.delists_all(symbols, time, after)
    }

    /// `after` is `self` at the first date the stream reaches. Actions dated by
    /// then have nothing to adjust and are dropped.
    pub open(crate) spec fn opens_stream(self, date: Date, after: Engine<N>) -> bool {
        &&& after == (Engine {
            pending: after.pending,
            clock: Clock { global_last_date: Some(date), ..self.clock },
            ..self
        })
        &&& after.pending.splits@ == agenda::after_day(self.pending.splits@, date.day())
        &&& after.pending.dividends@ == agenda::after_day(self.pending.dividends@, date.day())
        &&& after.pending.renames@ == agenda::after_day(self.pending.renames@, date.day())
    }

    /// `after` is `self` with the clock moved on to a new date.
    pub open(crate) spec fn turns_day(self, date: Date, after: Engine<N>) -> bool {
        after == (Engine {
            clock: Clock {
                global_last_date: Some(date),
                day_index: if self.clock.day_index < u64::MAX {
                    (self.clock.day_index + 1) as u64
                } else {
                    u64::MAX
                },
                ..self.clock
            },
            ..self
        })
    }

    /// Whether the day-start work of a new date can take the engine from `self`
    /// to `after`: splits, dividends, renames, financing, delistings.
    pub open(crate) spec fn works_day(self, date: Date, time: Time, after: Engine<N>) -> bool {
        exists|
            turned: Engine<N>,
            split: Engine<N>,
            paid: Engine<N>,
            renamed: Engine<N>,
            financed: Engine<N>,
        |
            {
                &&& #[trigger] self.turns_day(date, turned)
                &&& #[trigger] turned.applies_splits(date, time, split)
                &&& #[trigger] split.applies_dividends(date, paid)
                &&& #[trigger] paid.applies_renames(date, renamed)
                &&& #[trigger] renamed.finances(financed)
                &&& financed.closes_delisted(time, after)
            }
    }

    /// Whether starting on a tick of `date` can take the engine from `self` to
    /// `after`: the day-start work is done once per date.
    pub open(crate) spec fn starts_day(self, date: Date, time: Time, after: Engine<N>) -> bool {
        match self.clock.global_last_date {
            Some(last) => if last == date {
                after == self
            } else {
                self.works_day(date, time, after)
            },
            None => self.opens_stream(date, after),
        }
    }

    /// Once-per-date day-start work. Not warm-up gated: history built during
    /// warm-up needs split-rescaling too.
    pub fn start_new_day<A: Algorithm<N>>(
        &mut self,
        algo: &mut A,
        tick_date: Date,
        tick_time: Time,
    )
        ensures
            old(self).starts_day(tick_date, tick_time, *final(self)),
            algorithm::lives(*old(algo), old(self).told(), *final(algo), final(self).told()),
    {
        let ghost start = *self;
        let ghost strategy = *algo;
        match self.clock.global_last_date {
            Some(last) => {
                if last == tick_date {
                    return;
                }
            },
            None => {
                self.clock.global_last_date = Some(tick_date);
                // Actions dated before the first bar we ever process have
                // nothing to adjust: drain them silently.
                let _ = self.pending.splits.drain_due(tick_date);
                let _ = self.pending.dividends.drain_due(tick_date);
                let _ = self.pending.renames.drain_due(tick_date);
                assert(start.opens_stream(tick_date, *self));
                return;
            },
        }
        self.clock.global_last_date = Some(tick_date);
        self.clock.day_index = self.clock.day_index.saturating_add(1);
        let ghost turned = *self;
        assert(start.turns_day(tick_date, turned));
        self.apply_due_splits(algo, tick_date, tick_time);
        let ghost split = *self;
        let ghost told_of_splits = *algo;
        self.apply_due_dividends(algo, tick_date);
        let ghost paid = *self;
        let ghost told_of_dividends = *algo;
        self.apply_due_renames(algo, tick_date);
        let ghost renamed = *self;
        let ghost told_of_renames = *algo;
        // Accrue a day of financing on positions carried into today.
        self.apply_financing();
        let ghost financed = *self;
        self.close_delisted_positions(algo, tick_time);
        proof {
            assert(start.works_day(tick_date, tick_time, *self));
            let since = start.told();
            algorithm::lemma_lives_on(
                strategy,
                since,
                told_of_splits,
                split.told(),
                told_of_dividends,
                paid.told(),
            );
            algorithm::lemma_lives_on(
                strategy,
                since,
                told_of_dividends,
                paid.told(),
                told_of_renames,
                renamed.told(),
            );
            algorithm::lemma_lives_on(
                strategy,
                since,
                told_of_renames,
                financed.told(),
                *algo,
                self.told(),
            );
        }
    }

    /// Splits that executed on or before today, with the strategy told of each.
    pub fn apply_due_splits<A: Algorithm<N>>(
        &mut self,
        algo: &mut A,
        tick_date: Date,
        tick_time: Time,
    )
        ensures
            old(self).applies_splits(tick_date, tick_time, *final(self)),
            algorithm::lives(*old(algo), old(self).told(), *final(algo), final(self).told()),
    {
        let ghost start = *self;
        let ghost strategy = *algo;
        let due = self.pending.splits.drain_due(tick_date);
        let ghost drained = *self;
        assert(start.drains_splits(tick_date.day(), drained));
        assert(due@.take(0) =~= Seq::<(Symbol, N)>::empty());
        for i in 0..due.len()
            invariant
                algorithm::lives(strategy, start.told(), *algo, self.told()),
                drained.splits_all(due@.take(i as int), tick_time, *self),
        {
            let (symbol, ratio) = due[i];
            let ghost mid = *self;
            self.apply_split(symbol, ratio, tick_time);
            let ghost acted = *self;
            let ghost mid_strategy = *algo;
            self.calls.on_split(algo, &mut self.ctx, symbol, ratio);
            proof {
                algorithm::lemma_lives_on(
                    strategy,
                    start.told(),
                    mid_strategy,
                    acted.told(),
                    *algo,
                    self.told(),
                );
                assert(due@.take(i + 1).drop_last() =~= due@.take(i as int));
                assert(due@.take(i + 1).last() == (symbol, ratio));
                assert(mid.splits(symbol, ratio, tick_time, acted));
                assert(mid.splits_one((symbol, ratio), tick_time, *self));
                assert(drained.splits_all(due@.take(i + 1), tick_time, *self));
            }
        }
        assert(due@.take(due@.len() as int) =~= due@);
    }

    /// Cash dividends going ex on or before today, credited to any position
    /// held on the ex-date, with the strategy told of each that was paid.
    pub fn apply_due_dividends<A: Algorithm<N>>(&mut self, algo: &mut A, tick_date: Date)
        ensures
            old(self).applies_dividends(tick_date, *final(self)),
            algorithm::lives(*old(algo), old(self).told(), *final(algo), final(self).told()),
    {
        let ghost start = *self;
        let ghost strategy = *algo;
        let due = self.pending.dividends.drain_due(tick_date);
        let ghost drained = *self;
        assert(start.drains_dividends(tick_date.day(), drained));
        assert(due@.take(0) =~= Seq::<(Symbol, N)>::empty());
        for i in 0..due.len()
            invariant
                algorithm::lives(strategy, start.told(), *algo, self.told()),
                drained.pays_all(due@.take(i as int), *self),
        {
            let (symbol, amount) = due[i];
            let ghost mid = *self;
            let paid = self.apply_dividend(symbol, amount);
            let ghost acted = *self;
            let ghost mid_strategy = *algo;
            if paid {
                self.calls.on_dividend(algo, &mut self.ctx, symbol, amount);
            }
            proof {
                algorithm::lemma_lives_on(
                    strategy,
                    start.told(),
                    mid_strategy,
                    acted.told(),
                    *algo,
                    self.told(),
                );
                assert(due@.take(i + 1).drop_last() =~= due@.take(i as int));
                assert(due@.take(i + 1).last() == (symbol, amount));
                assert(mid.pays(symbol, amount, acted));
                assert(mid.pays_one((symbol, amount), *self));
                assert(drained.pays_all(due@.take(i + 1), *self));
            }
        }
        assert(due@.take(due@.len() as int) =~= due@);
    }

    /// Ticker renames effective on or before today, with the strategy told of
    /// each: the position moves before the delisting scan would otherwise
    /// force-liquidate the old symbol.
    pub fn apply_due_renames<A: Algorithm<N>>(&mut self, algo: &mut A, tick_date: Date)
        ensures
            old(self).applies_renames(tick_date, *final(self)),
            algorithm::lives(*old(algo), old(self).told(), *final(algo), final(self).told()),
    {
        let ghost start = *self;
        let ghost strategy = *algo;
        let due = self.pending.renames.drain_due(tick_date);
        let ghost drained = *self;
        assert(start.drains_renames(tick_date.day(), drained));
        assert(due@.take(0) =~= Seq::<(Symbol, Symbol)>::empty());
        for i in 0..due.len()
            invariant
                algorithm::lives(strategy, start.told(), *algo, self.told()),
                drained.renames_all(due@.take(i as int), *self),
        {
            let (from, to) = due[i];
            let ghost mid = *self;
            self.apply_rename(from, to);
            let ghost acted = *self;
            let ghost mid_strategy = *algo;
            self.calls.on_rename(algo, &mut self.ctx, from, to);
            proof {
                algorithm::lemma_lives_on(
                    strategy,
                    start.told(),
                    mid_strategy,
                    acted.told(),
                    *algo,
                    self.told(),
                );
                assert(due@.take(i + 1).drop_last() =~= due@.take(i as int));
                assert(due@.take(i + 1).last() == (from, to));
                assert(mid.renames(from, to, acted));
                assert(mid.renames_one((from, to), *self));
                assert(drained.renames_all(due@.take(i + 1), *self));
            }
        }
        assert(due@.take(due@.len() as int) =~= due@);
    }

    /// Force-close positions in symbols that printed no bar for the configured
    /// number of trading days, with the strategy told of each.
    ///
    /// The scan runs at day start, before today's bars register as seen: a
    /// symbol reappearing after exactly the threshold of silent days is still
    /// force-closed that morning.
    pub fn close_delisted_positions<A: Algorithm<N>>(&mut self, algo: &mut A, tick_time: Time)
        ensures
            old(self).closes_delisted(tick_time, *final(self)),
            algorithm::lives(*old(algo), old(self).told(), *final(algo), final(self).told()),
    {
        let ghost start = *self;
        let ghost strategy = *algo;
        let stale = self.stale_symbols();
        assert(start.lists_stale(stale@));
        assert(stale@.take(0) =~= Seq::<Symbol>::empty());
        for i in 0..stale.len()
            invariant
                algorithm::lives(strategy, start.told(), *algo, self.told()),
                start.delists_all(stale@.take(i as int), tick_time, *self),
        {
            let symbol = stale[i];
            let ghost mid = *self;
            self.force_close_delisted(symbol, tick_time);
            let ghost acted = *self;
            let ghost mid_strategy = *algo;
            self.calls.on_delisted(algo, &mut self.ctx, symbol);
            proof {
                algorithm::lemma_lives_on(
                    strategy,
                    start.told(),
                    mid_strategy,
                    acted.told(),
                    *algo,
                    self.told(),
                );
                assert(stale@.take(i + 1).drop_last() =~= stale@.take(i as int));
                assert(stale@.take(i + 1).last() == symbol);
                assert(mid.delists(symbol, tick_time, acted));
                assert(mid.delists_one(symbol, tick_time, *self));
                assert(start.delists_all(stale@.take(i + 1), tick_time, *self));
            }
        }
        assert(stale@.take(stale@.len() as int) =~= stale@);
    }
}

/// A corporate action is applied and then told to the strategy, once, as what it is:
/// a split with its ratio, a rename with both symbols, a delisting; a dividend with
/// its amount where the symbol is held, and where it is not neither paid nor told.
pub proof fn actions_are_told_as_they_apply<N: Number>(
    before: Engine<N>,
    symbol: Symbol,
    to: Symbol,
    amount: N,
    time: Time,
    after: Engine<N>,
)
    ensures
        before.splits_one((symbol, amount), time, after) ==> {
            &&& after.told().len() == before.told().len() + 1
            &&& after.told().drop_last() == before.told()
            &&& after.told().last().notice == (Notice::Split { symbol, ratio: amount })
        },
        before.pays_one((symbol, amount), after) ==> if before.account().positions.contains_key(
            symbol.id(),
        ) {
            &&& after.told().len() == before.told().len() + 1
            &&& after.told().drop_last() == before.told()
            &&& after.told().last().notice == (Notice::Dividend { symbol, amount })
        } else {
            after == before
        },
        before.renames_one((symbol, to), after) ==> {
            &&& after.told().len() == before.told().len() + 1
            &&& after.told().drop_last() == before.told()
            &&& after.told().last().notice == (Notice::<N>::Rename { from: symbol, to })
        },
        before.delists_one(symbol, time, after) ==> {
            &&& after.told().len() == before.told().len() + 1
            &&& after.told().drop_last() == before.told()
            &&& after.told().last().notice == (Notice::<N>::Delisted { symbol })
        },
{
    assert forall|acted: Engine<N>, notice: Notice<N>| #[trigger]
        acted.tells(notice, after) && acted.told() == before.told() implies after.told().drop_last()
        == before.told() && after.told().last().notice == notice by {
        assert(after.told().drop_last() =~= before.told());
    }
}

/// Each new date the stream reaches counts one trading day more, and on the first
/// one nothing is applied: what is dated by then is dropped, and what is dated later
/// stays to come.
pub proof fn dates_are_counted<N: Number>(before: Engine<N>, date: Date, after: Engine<N>, day: i32)
    ensures
        before.turns_day(date, after) && before.progress().day_index < u64::MAX
            ==> after.progress().day_index == before.progress().day_index + 1
            && after.progress().global_last_date == Some(date) && after.account()
            == before.account(),
        before.opens_stream(date, after) ==> {
            &&& after.account() == before.account()
            &&& after.progress().day_index == before.progress().day_index
            &&& after.progress().global_last_date == Some(date)
            &&& day <= date.day() ==> agenda::items_on(after.agenda().splits@, day).len() == 0
                && agenda::items_on(after.agenda().dividends@, day).len() == 0
                && agenda::items_on(after.agenda().renames@, day).len() == 0
            &&& day > date.day() ==> agenda::items_on(after.agenda().splits@, day)
                == agenda::items_on(before.agenda().splits@, day) && agenda::items_on(
                after.agenda().dividends@,
                day,
            ) == agenda::items_on(before.agenda().dividends@, day) && agenda::items_on(
                after.agenda().renames@,
                day,
            ) == agenda::items_on(before.agenda().renames@, day)
        },
{
}

} // verus!
