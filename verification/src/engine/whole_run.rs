//! A run from its first tick to its report, and what holds of it.

use vstd::prelude::*;

use crate::algorithm;
use crate::algorithm::{Algorithm, Call, Notice};
use crate::bar::Bar;
use crate::broker::Position;
use crate::calendar;
use crate::calendar::{Date, Time};
use crate::engine::accounting;
use crate::engine::chain;
use crate::engine::chain::Chain;
use crate::engine::driver;
use crate::engine::driver::{Backtest, Flow, Verdict};
use crate::engine::result::BacktestResult;
use crate::engine::run;
use crate::engine::state::Engine;
use crate::engine::timeline;
use crate::exact;
use crate::number::Number;
use crate::stats;
use crate::symbol::Symbol;
use crate::tick::Tick;

verus! {

/// A tick the engine processes: its bars, its instant and its trading date.
pub ghost struct WorkedTick<N> {
    pub bars: Seq<(Symbol, Bar<N>)>,
    pub time: Time,
    pub date: Date,
}

impl<N: Number> Engine<N> {
    /// Whether a tick can take the engine from `self` to `after`.
    pub open(crate) spec fn works(self, tick: WorkedTick<N>, after: Engine<N>) -> bool {
        self.ticks(tick.bars, tick.time, tick.date, after)
    }

    /// Whether ticks, one after the other, can take the engine from `self` to
    /// `after`.
    pub open(crate) spec fn works_all(self, ticks: Seq<WorkedTick<N>>, after: Engine<N>) -> bool
        decreases ticks.len(),
    {
        if ticks.len() == 0 {
            after == self
        } else {
            exists|mid: Engine<N>|
                self.works_all(ticks.drop_last(), mid) && #[trigger] mid.works(ticks.last(), after)
        }
    }
}

impl<N: Number> Backtest<N> {
    /// Whether offering ticks, one after the other and none of them refused, can
    /// take the backtest from `self` to `after`.
    pub open(crate) spec fn takes_all(self, ticks: Seq<Tick<N>>, after: Backtest<N>) -> bool
        decreases ticks.len(),
    {
        if ticks.len() == 0 {
            after == self
        } else {
            exists|mid: Backtest<N>, flow: Flow|
                self.takes_all(ticks.drop_last(), mid) && #[trigger] mid.takes(
                    ticks.last(),
                    flow,
                    after,
                )
        }
    }
}

/// Whether `worked` are some of the ticks a backtest is offered, in their order.
pub open spec fn picked<N>(ticks: Seq<Tick<N>>, worked: Seq<WorkedTick<N>>) -> bool
    decreases ticks.len(),
{
    if ticks.len() == 0 {
        worked.len() == 0
    } else {
        ||| picked(ticks.drop_last(), worked)
        ||| {
            &&& worked.len() > 0
            &&& worked.last().bars == ticks.last().1@
            &&& picked(ticks.drop_last(), worked.drop_last())
        }
    }
}

/// What a backtest is offered, its engine works through: the ticks in the date
/// range, one by one and in order.
pub proof fn offers_are_worked<N: Number>(
    start: Backtest<N>,
    ticks: Seq<Tick<N>>,
    end: Backtest<N>,
)
    requires
        start.takes_all(ticks, end),
    ensures
        exists|worked: Seq<WorkedTick<N>>| #[trigger]
            start.state().works_all(worked, end.state()) && picked(ticks, worked),
    decreases ticks.len(),
{
    if ticks.len() == 0 {
        let none = Seq::<WorkedTick<N>>::empty();
        assert(start.state().works_all(none, end.state()) && picked(ticks, none));
    } else {
        let (mid, flow) = choose|mid: Backtest<N>, flow: Flow|
            start.takes_all(ticks.drop_last(), mid) && #[trigger] mid.takes(
                ticks.last(),
                flow,
                end,
            );
        offers_are_worked(start, ticks.drop_last(), mid);
        let before = choose|worked: Seq<WorkedTick<N>>| #[trigger]
            start.state().works_all(worked, mid.state()) && picked(ticks.drop_last(), worked);
        let settings = mid.state().context().config();
        let verdict = choose|verdict: Verdict|
            {
                &&& #[trigger] driver::screens(
                    ticks.last().0,
                    mid.reached(),
                    settings.start_date,
                    settings.end_date,
                    verdict,
                    end.reached(),
                )
                &&& flow == (if verdict is Stop {
                    Flow::Stop
                } else {
                    Flow::Continue
                })
                &&& match verdict {
                    Verdict::Process { time, date } => mid.state().ticks(
                        ticks.last().1@,
                        time,
                        date,
                        end.state(),
                    ),
                    _ => end.state() == mid.state(),
                }
            };
        match verdict {
            Verdict::Process { time, date } => {
                let tick = WorkedTick { bars: ticks.last().1@, time, date };
                let worked = before.push(tick);
                assert(worked.drop_last() =~= before);
                assert(mid.state().works(worked.last(), end.state()));
                assert(start.state().works_all(worked, end.state()) && picked(ticks, worked));
            },
            _ => {
                assert(start.state().works_all(before, end.state()) && picked(ticks, before));
            },
        }
    }
}

proof fn lemma_works_all<N: Number>(engine: Engine<N>, ticks: Seq<WorkedTick<N>>, after: Engine<N>)
    requires
        engine.works_all(ticks, after),
    ensures
        chain::reaches(engine, after),
    decreases ticks.len(),
{
    if ticks.len() == 0 {
        chain::lemma_still(engine);
    } else {
        let mid = choose|mid: Engine<N>|
            engine.works_all(ticks.drop_last(), mid) && #[trigger] mid.works(ticks.last(), after);
        lemma_works_all(engine, ticks.drop_last(), mid);
        let tick = ticks.last();
        chain::a_tick_is_a_chain(mid, tick.bars, tick.time, tick.date, after);
        chain::lemma_on(engine, mid, after);
    }
}

impl<N: Number> Chain<N> {
    /// Whether the chain leads from `start` to a report, the strategy having
    /// been told `told` on the way.
    pub open spec fn accounts_for(
        self,
        start: Engine<N>,
        result: BacktestResult<N>,
        told: Seq<Call<N>>,
    ) -> bool {
        &&& self.links()
        &&& self.states[0] == start
        &&& self.states.last().reports(result)
        &&& self.states.last().told() == told
    }
}

/// A whole run adds up: the starting cash, the profit of completed trades and
/// the profit of open positions, realized and not, make the final equity,
/// whatever ticks were offered, whatever the strategy ordered and whatever befell
/// what it held. The run is a chain of deeds, and the report misses by no more
/// than the cuts of the products and quotients they take and the remainders they
/// drop as rounding noise, however the run is told as such a chain.
///
/// Left out are strategies that write to the portfolio themselves, runs in which
/// something runs out of range, and those in which a split has a ratio of nought or
/// leaves none of a position's shares, a rename folds opposite positions of
/// different bases into one or leaves nothing of what it folds, or a fill meets so
/// small a position that the product of their quantities vanishes.
pub proof fn a_whole_run_adds_up<N: Number>(
    start: Backtest<N>,
    ticks: Seq<Tick<N>>,
    end: Backtest<N>,
    result: BacktestResult<N>,
    told: Seq<Call<N>>,
    val: spec_fn(N) -> real,
    step: real,
)
    requires
        exact::near(val, step),
        start.state().fresh(),
        start.state().account().positions == Map::<u16, Position<N>>::empty(),
        start.state().account().cash == start.state().starting_cash(),
        start.takes_all(ticks, end),
        end.state().finishes(result, told),
        chain::hands_off(told),
    ensures
        exists|run: Chain<N>| #[trigger] run.accounts_for(start.state(), result, told),
        forall|run: Chain<N>| #[trigger]
            run.accounts_for(start.state(), result, told) && run.sound(val)
                ==> accounting::misses_by(result, val) <= run.slack(val, step),
{
    offers_are_worked(start, ticks, end);
    let worked = choose|worked: Seq<WorkedTick<N>>| #[trigger]
        start.state().works_all(worked, end.state()) && picked(ticks, worked);
    lemma_works_all(start.state(), worked, end.state());
    chain::a_run_ends_in_a_chain(end.state(), result, told);
    let ended = choose|ended: Engine<N>|
        chain::reaches(end.state(), ended) && #[trigger] ended.reports(result) && ended.told()
            == told;
    chain::lemma_on(start.state(), end.state(), ended);
    let run = choose|run: Chain<N>| #[trigger] run.joins(start.state(), ended);
    assert(run.accounts_for(start.state(), result, told));
    assert forall|run: Chain<N>| #[trigger]
        run.accounts_for(start.state(), result, told) && run.sound(
            val,
        ) implies accounting::misses_by(result, val) <= run.slack(val, step) by {
        chain::a_sound_chain_adds_up(run, result, val, step);
    }
}

/// The states an engine passes through from tick to tick.
#[verifier::reject_recursive_types(N)]
pub ghost struct Course<N: Number> {
    pub states: Seq<Engine<N>>,
    pub ticks: Seq<WorkedTick<N>>,
}

impl<N: Number> Course<N> {
    /// Whether each tick leads from one state to the next, from a fresh one on.
    pub open spec fn runs(self) -> bool {
        &&& self.states.len() == self.ticks.len() + 1
        &&& self.states[0].fresh()
        &&& forall|i: int|
            0 <= i < self.ticks.len() ==> self.states[i].works(
                #[trigger] self.ticks[i],
                self.states[i + 1],
            )
    }

    /// Whether dates never run back, the calendar has a day before each of them,
    /// and warm-up, once over, is not asked for again.
    pub open spec fn regular(self) -> bool {
        &&& forall|i: int, j: int|
            0 <= i <= j < self.ticks.len() ==> (#[trigger] self.ticks[i]).date.day() <= (
            #[trigger] self.ticks[j]).date.day()
        &&& forall|i: int|
            0 <= i < self.ticks.len() ==> (#[trigger] self.ticks[i]).date.day()
                > calendar::MIN_DAY
        &&& forall|i: int|
            0 <= i < self.ticks.len() && self.states[i].progress().last_date is Some
                ==> self.states[i + 1].progress().last_date == Some(
                (#[trigger] self.ticks[i]).date,
            )
    }
}

/// Whether the points of an equity curve are those of days, each later than the
/// one before, and none after `last`.
pub open spec fn dated<N>(curve: Seq<(Seq<char>, N)>, days: Seq<int>, last: int) -> bool {
    &&& days.len() == curve.len()
    &&& forall|i: int| 0 <= i < curve.len() ==> (#[trigger] curve[i]).0 == calendar::day_text(
        days[i],
    )
    &&& forall|i: int, j: int| 0 <= i < j < days.len() ==> #[trigger] days[i] < #[trigger] days[j]
    &&& forall|i: int| 0 <= i < days.len() ==> #[trigger] days[i] <= last
}

proof fn lemma_dated_push<N>(
    curve: Seq<(Seq<char>, N)>,
    days: Seq<int>,
    last: int,
    day: int,
    equity: N,
)
    requires
        dated(curve, days, last),
        last < day,
    ensures
        dated(curve.push((calendar::day_text(day), equity)), days.push(day), day),
{
    let longer = curve.push((calendar::day_text(day), equity));
    let more = days.push(day);
    assert forall|i: int| 0 <= i < longer.len() implies (#[trigger] longer[i]).0
        == calendar::day_text(more[i]) by {
        if i < curve.len() {
            assert(longer[i] == curve[i]);
        }
    }
    assert forall|i: int, j: int| 0 <= i < j < more.len() implies #[trigger] more[i]
        < #[trigger] more[j] by {
        assert(more[i] == days[i]);
    }
}

impl<N: Number> Engine<N> {
    /// Whether the equity curve is that of the days that ended: nothing before
    /// the first day that trades; from there on the starting capital, dated the
    /// day before, and one point for each day the strategy was told had ended.
    pub open(crate) spec fn curve_so_far(self, days: Seq<int>) -> bool {
        let curve = stats::point_views(self.recorded().daily@);
        match self.progress().last_date {
            Some(date) => {
                &&& dated(curve, days, date.day() - 1)
                &&& curve.len() == algorithm::days_told(self.told()) + 1
                &&& curve[0].1 == self.starting_cash()
            },
            None => curve.len() == 0 && algorithm::days_told(self.told()) == 0,
        }
    }
}

proof fn lemma_curve<N: Number>(course: Course<N>, i: int) -> (days: Seq<int>)
    requires
        course.runs(),
        course.regular(),
        0 <= i < course.states.len(),
    ensures
        course.states[i].curve_so_far(days),
        course.states[i].starting_cash() == course.states[0].starting_cash(),
        course.states[i].progress().last_date matches Some(date) ==> i > 0 && date
            == course.ticks[i - 1].date,
    decreases i,
{
    if i == 0 {
        Seq::empty()
    } else {
        let before = course.states[i - 1];
        let tick = course.ticks[i - 1];
        let after = course.states[i - 1 + 1];
        let days = lemma_curve(course, i - 1);
        assert(before.works(tick, after));
        timeline::ticks_add_to_the_curve(before, tick.bars, tick.time, tick.date, after);
        timeline::the_strategy_is_told_once(before, tick.bars, tick.time, tick.date, after);
        let curve = stats::point_views(before.recorded().daily@);
        let grown = stats::point_views(after.recorded().daily@);
        match before.progress().last_date {
            Some(last) => {
                assert(course.ticks[i - 2].date.day() <= tick.date.day());
                if before.crosses(tick.date) {
                    calendar::date_is_its_day(last, tick.date);
                    lemma_dated_push(curve, days, last.day() - 1, last.day(), grown.last().1);
                    days.push(last.day())
                } else {
                    days
                }
            },
            None => if after.progress().last_date is Some {
                let none = Seq::<int>::empty();
                lemma_dated_push(
                    curve,
                    none,
                    tick.date.day() - 2,
                    tick.date.day() - 1,
                    before.starting_cash(),
                );
                none.push(tick.date.day() - 1)
            } else {
                days
            },
        }
    }
}

/// The equity curve of a run: its days strictly increase, so no day shows twice;
/// it starts at the starting capital; it has one point for each day the strategy
/// was told had ended, after that; and where the strategy leaves the books alone
/// in its last call, it ends at the final equity.
///
/// Left out are runs that trade no tick, whose curve is empty, dates that run
/// back, and strategies that ask for warm-up once more.
pub proof fn the_curve_of_a_run<N: Number>(
    course: Course<N>,
    result: BacktestResult<N>,
    told: Seq<Call<N>>,
)
    requires
        course.runs(),
        course.regular(),
        course.states.last().progress().last_date is Some,
        course.states.last().finishes(result, told),
    ensures
        ({
            let curve = stats::point_views(result.equity_curve@);
            let last = course.states.last().progress().last_date->0.day();
            &&& exists|days: Seq<int>| #[trigger] dated(curve, days, last) && days.last() == last
            &&& curve.len() == algorithm::days_told(told) + 1
            &&& curve[0].1 == result.initial_cash
            &&& told.len() > 0 && told.last().notice is EndOfDay
            &&& told.last().leaves_books() ==> curve.last().1 == result.final_equity
        }),
{
    let engine = course.states.last();
    let days = lemma_curve(course, course.states.len() - 1);
    let last = engine.progress().last_date->0;
    let ended = choose|ended: Engine<N>|
        {
            &&& #[trigger] engine.ends(ended)
            &&& ended.reports(result)
            &&& ended.told() == told
        };
    let flushed = choose|flushed: Engine<N>|
        #[trigger] engine.flushes(flushed) && flushed.closes_day(last, ended);
    timeline::lemma_flushes_stands(engine, engine.ctx.consolidators@.len() as int, flushed);
    let marked = choose|marked: Engine<N>| #[trigger]
        flushed.marks_day(last, marked) && marked.tells(Notice::EndOfDay, ended);
    algorithm::lemma_days_told(marked.told(), ended.told().last());
    let curve = stats::point_views(engine.recorded().daily@);
    lemma_dated_push(curve, days, last.day() - 1, last.day(), flushed.net_value());
    let all = stats::point_views(result.equity_curve@);
    assert(all == curve.push((calendar::day_text(last.day()), flushed.net_value())));
    assert(dated(all, days.push(last.day()), last.day()));
    assert(days.push(last.day()).last() == last.day());
}

/// The strategy is told of every tick of a run, once each and in order, with the
/// tick's instant and bars, where there is no warm-up: none to begin with, and the
/// strategy asks for none.
pub proof fn the_ticks_of_a_run<N: Number>(course: Course<N>, i: int)
    requires
        course.runs(),
        course.states[0].context().warm_up() == 0,
        0 <= i < course.states.len(),
        algorithm::never_warms(course.states[i].told()),
    ensures
        algorithm::ticks_told(course.states[i].told()) == Seq::new(
            i as nat,
            |j: int| (course.ticks[j].time, run::slice_of(course.ticks[j].bars)),
        ),
        course.states[i].context().warm_up() == 0,
    decreases i,
{
    let told = |n: int|
        Seq::new(
            n as nat,
            |j: int| (course.ticks[j].time, run::slice_of(course.ticks[j].bars)),
        );
    if i == 0 {
        assert(told(0) =~= Seq::empty());
    } else {
        let before = course.states[i - 1];
        let tick = course.ticks[i - 1];
        let after = course.states[i - 1 + 1];
        assert(before.works(tick, after));
        timeline::the_strategy_is_told_once(before, tick.bars, tick.time, tick.date, after);
        the_ticks_of_a_run(course, i - 1);
        assert(told(i) =~= told(i - 1).push((tick.time, run::slice_of(tick.bars))));
    }
}

/// Whether what the strategy was told between one state and the next made it what
/// it then was.
pub open spec fn tick_is_lived<N: Number, A: Algorithm<N>>(
    states: Seq<Backtest<N>>,
    strategies: Seq<A>,
    i: int,
) -> bool {
    algorithm::lives(
        strategies[i],
        states[i].state().told(),
        strategies[i + 1],
        states[i + 1].state().told(),
    )
}

/// The list of what a strategy was told in a run is the strategy's life: each call
/// on it was heeded once, in that order, from the strategy that the first tick found
/// to the one that the end of the run left, and nothing else was done to it.
/// `states` and `strategies` are those before each tick and after the last.
pub proof fn a_run_is_lived<N: Number, A: Algorithm<N>>(
    states: Seq<Backtest<N>>,
    strategies: Seq<A>,
    told: Seq<Call<N>>,
    left: A,
)
    requires
        states.len() > 0,
        strategies.len() == states.len(),
        states[0].state().fresh(),
        forall|i: int|
            0 <= i < states.len() - 1 ==> #[trigger] tick_is_lived(states, strategies, i),
        algorithm::lives(strategies.last(), states.last().state().told(), left, told),
    ensures
        algorithm::lives(strategies[0], Seq::empty(), left, told),
{
    let n = states.len() - 1;
    lemma_lived(states, strategies, n);
    algorithm::lemma_lives_on(
        strategies[0],
        Seq::empty(),
        strategies[n],
        states[n].state().told(),
        left,
        told,
    );
}

proof fn lemma_lived<N: Number, A: Algorithm<N>>(
    states: Seq<Backtest<N>>,
    strategies: Seq<A>,
    i: int,
)
    requires
        strategies.len() == states.len(),
        states[0].state().fresh(),
        0 <= i < states.len(),
        forall|j: int|
            0 <= j < states.len() - 1 ==> #[trigger] tick_is_lived(states, strategies, j),
    ensures
        algorithm::lives(strategies[0], Seq::empty(), strategies[i], states[i].state().told()),
    decreases i,
{
    if i > 0 {
        lemma_lived(states, strategies, i - 1);
        assert(tick_is_lived(states, strategies, i - 1));
        algorithm::lemma_lives_on(
            strategies[0],
            Seq::empty(),
            strategies[i - 1],
            states[i - 1].state().told(),
            strategies[i],
            states[i].state().told(),
        );
    }
}

} // verus!
