//! The end of a run: the final day's mark, and everything the run produced.

use vstd::prelude::*;

use crate::algorithm;
use crate::algorithm::{Algorithm, Call, CallLog};
use crate::broker;
use crate::broker::price_or;
use crate::calendar::Date;
use crate::consolidator::ConsolidatorEntry;
use crate::context;
use crate::engine::state::Engine;
use crate::exact;
use crate::number::Number;
use crate::stats;
use crate::stats::{
    compute_stats_over, BacktestStats, EquityPoint, OpenPositionSummary, OpenPositionView, Trade,
};
use crate::symbol;
use crate::text;
use crate::text::not_after;

verus! {

/// Everything a finished backtest produced.
#[derive(Debug)]
pub struct BacktestResult<N> {
    pub initial_cash: N,
    /// Cash plus open positions marked at the last known market price.
    pub final_equity: N,
    pub total_commission: N,
    pub stats: BacktestStats<N>,
    /// Daily mark-to-market equity, one point per trading day.
    pub equity_curve: Vec<EquityPoint<N>>,
    /// Per-bar mark-to-market equity, empty unless it was asked for.
    pub intraday_equity: Vec<EquityPoint<N>>,
    /// Positions still open at the end, marked at the last known price.
    pub open_positions: Vec<OpenPositionSummary<N>>,
    /// Completed round trips.
    pub trades: Vec<Trade<N>>,
}

/// The views of a list.
pub open spec fn summary_views<N>(summaries: Seq<OpenPositionSummary<N>>) -> Seq<
    OpenPositionView<N>,
> {
    Seq::new(summaries.len(), |i: int| summaries[i]@)
}

/// Whether summaries stand in the order of their tickers.
pub open spec fn by_name<N>(summaries: Seq<OpenPositionView<N>>) -> bool {
    forall|i: int, j: int|
        0 <= i < j < summaries.len() ==> text::text_le(
            (#[trigger] summaries[i]).symbol,
            (#[trigger] summaries[j]).symbol,
        )
}

impl<N: Number> Engine<N> {
    /// What is reported of the open position with id `id`.
    pub open(crate) spec fn summary(self, id: u16) -> OpenPositionView<N> {
        let position = self.account().positions[id];
        let last_price = broker::mark_or(self.prices(), id, position.avg_price);
        let lifetimes = self.account().ledger.lifetimes;
        OpenPositionView {
            symbol: context::shown_name(self.ctx.names(), id),
            quantity: position.quantity,
            avg_price: position.avg_price,
            last_price,
            market_value: position.quantity.mul(last_price),
            unrealized_pnl: last_price.sub(position.avg_price).mul(position.quantity),
            realized_pnl: if lifetimes.contains_key(id) {
                lifetimes[id].realized_pnl
            } else {
                N::zero()
            },
        }
    }

    /// What is reported of the open positions with ids below `end`, in id
    /// order.
    pub open(crate) spec fn summaries_below(self, end: int) -> Seq<OpenPositionView<N>>
        decreases end,
    {
        if end <= 0 {
            Seq::empty()
        } else {
            let before = self.summaries_below(end - 1);
            let id = (end - 1) as u16;
            if self.account().positions.contains_key(id) {
                before.push(self.summary(id))
            } else {
                before
            }
        }
    }

    /// Whether consolidator `i` giving up its open bucket can take the engine
    /// from `self` to `after`. The strategy is handed the bar, if there is one.
    pub open(crate) spec fn flushes_one(self, i: int, after: Engine<N>) -> bool {
        let entry = self.ctx.consolidators@[i];
        exists|emptied: ConsolidatorEntry<N>|
            #[trigger] flushed(entry, emptied) && self.emits(i, emptied, entry.current(), after)
    }

    /// Whether the consolidators below `end` giving up their open buckets, in
    /// order, can take the engine from `self` to `after`.
    pub open(crate) spec fn flushes_below(self, end: int, after: Engine<N>) -> bool
        decreases end,
    {
        if end <= 0 {
            after == self
        } else {
            exists|mid: Engine<N>|
                self.flushes_below(end - 1, mid) && #[trigger] mid.flushes_one(end - 1, after)
        }
    }

    /// Whether every consolidator giving up its open bucket can take the engine
    /// from `self` to `after`.
    pub open(crate) spec fn flushes(self, after: Engine<N>) -> bool {
        self.flushes_below(self.ctx.consolidators@.len() as int, after)
    }

    /// Whether ending a run can take the engine from `self` to `after`: the
    /// consolidators are flushed, and the final day is closed.
    pub open(crate) spec fn ends(self, after: Engine<N>) -> bool {
        exists|flushed: Engine<N>|
            {
                &&& #[trigger] self.flushes(flushed)
                &&& match self.clock.last_date {
                    Some(last) => flushed.closes_day(last, after),
                    None => after == flushed,
                }
            }
    }

    /// Whether `result` is what a run that ended as `self` reports.
    pub open(crate) spec fn reports(self, result: BacktestResult<N>) -> bool {
        &&& result.initial_cash == self.initial_cash
        &&& result.final_equity == self.net_value()
        &&& result.total_commission == self.total_commission
        &&& result.equity_curve@ == self.record.daily@
        &&& result.intraday_equity@ == self.record.intraday@
        &&& result.trades@ == self.ledger.trades@
        &&& result.stats == stats::stats_of(
            stats::pnls(self.ledger.trades@),
            stats::equities(self.record.daily@),
            self.ctx.settings.risk_free_rate,
        )
        &&& by_name(summary_views(result.open_positions@))
        &&& summary_views(result.open_positions@).to_multiset() == self.summaries_below(
            0x1_0000,
        ).to_multiset()
    }

    /// Whether a run in state `self` can report `result` when it ends, the
    /// strategy having been told `told` from first to last.
    pub open(crate) spec fn finishes(
        self,
        result: BacktestResult<N>,
        told: Seq<Call<N>>,
    ) -> bool {
        exists|ended: Engine<N>|
            {
                &&& #[trigger] self.ends(ended)
                &&& ended.reports(result)
                &&& ended.told() == told
            }
    }
}

/// A consolidator whose open bucket was given up.
pub open spec fn flushed<N: Number>(
    before: ConsolidatorEntry<N>,
    after: ConsolidatorEntry<N>,
) -> bool {
    &&& after.source() == before.source()
    &&& after.bucket() == before.bucket()
    &&& after.current() is None
}

proof fn lemma_summaries_gap<N: Number>(engine: Engine<N>, low: int, high: int)
    requires
        0 <= low <= high <= 0x1_0000,
        forall|id: u16| low <= id < high ==> !engine.account().positions.dom().contains(id),
    ensures
        engine.summaries_below(high) == engine.summaries_below(low),
    decreases high - low,
{
    if low < high {
        lemma_summaries_gap(engine, low, high - 1);
        assert(!engine.account().positions.dom().contains((high - 1) as u16));
    }
}

/// Put `summary` in its place by name, behind those it does not come before.
fn insert_by_name<N: Number>(
    summaries: &mut Vec<OpenPositionSummary<N>>,
    summary: OpenPositionSummary<N>,
)
    requires
        by_name(summary_views(old(summaries)@)),
    ensures
        by_name(summary_views(final(summaries)@)),
        summary_views(final(summaries)@).to_multiset() == summary_views(
            old(summaries)@,
        ).to_multiset().insert(summary@),
{
    let ghost before = summary_views(summaries@);
    let mut place: usize = 0;
    while place < summaries.len() && not_after(
        summaries[place].symbol.as_str(),
        summary.symbol.as_str(),
    )
        invariant
            0 <= place <= summaries@.len(),
            before == summary_views(summaries@),
            forall|i: int|
                0 <= i < place ==> text::text_le((#[trigger] before[i]).symbol, summary@.symbol),
        decreases summaries@.len() - place,
    {
        place = place + 1;
    }
    proof {
        if place < before.len() {
            text::lemma_text_le_total(before[place as int].symbol, summary@.symbol);
        }
        let after = before.insert(place as int, summary@);
        assert forall|i: int, j: int| 0 <= i < j < after.len() implies text::text_le(
            (#[trigger] after[i]).symbol,
            (#[trigger] after[j]).symbol,
        ) by {
            if i == place {
                if j - 1 > place {
                    assert(text::text_le(before[place as int].symbol, before[j - 1].symbol));
                    text::lemma_text_le_transitive(
                        summary@.symbol,
                        before[place as int].symbol,
                        before[j - 1].symbol,
                    );
                }
            } else if j == place {
                assert(after[i] == before[i]);
            } else {
                let a = if i < place {
                    i
                } else {
                    i - 1
                };
                let b = if j < place {
                    j
                } else {
                    j - 1
                };
                assert(after[i] == before[a] && after[j] == before[b]);
            }
        }
        vstd::seq_lib::to_multiset_insert(before, place as int, summary@);
    }
    summaries.insert(place, summary);
    assert(summary_views(summaries@) =~= before.insert(place as int, summary@));
}

impl<N: Number> Engine<N> {
    /// End of data: flush the consolidators, close the final day, and assemble
    /// the result.
    ///
    /// The final day gets its end-of-day call here. Orders placed in it have no
    /// bar left to fill against and are dropped. Besides the result, what the
    /// strategy was told in the course of the run.
    pub fn finish<A: Algorithm<N>>(self, algo: &mut A) -> (r: (BacktestResult<N>, CallLog<N>))
        ensures
            self.finishes(r.0, r.1@),
            algorithm::lives(*old(algo), self.told(), *final(algo), r.1@),
    {
        let ghost start = self;
        let ghost strategy = *algo;
        let mut engine = self;
        let last_date: Option<Date> = engine.clock.last_date;
        engine.flush_consolidators(algo);
        let ghost flushed = engine;
        let ghost told_of_bars = *algo;
        if let Some(last) = last_date {
            engine.close_day(algo, last);
        }
        let ghost ended = engine;
        proof {
            assert(start.ends(ended));
            algorithm::lemma_lives_on(
                strategy,
                start.told(),
                told_of_bars,
                flushed.told(),
                *algo,
                ended.told(),
            );
        }

        let final_equity = engine.ctx.portfolio.total_value(&engine.last_known_prices);
        let open_positions = engine.open_positions();
        let stats = compute_stats_over(
            engine.ledger.trades.as_slice(),
            engine.record.daily.as_slice(),
            engine.ctx.settings.risk_free_rate,
        );
        let result = BacktestResult {
            initial_cash: engine.initial_cash,
            final_equity,
            total_commission: engine.total_commission,
            stats,
            equity_curve: engine.record.daily,
            intraday_equity: engine.record.intraday,
            open_positions,
            trades: engine.ledger.trades,
        };
        assert(ended.reports(result));
        (result, engine.calls)
    }

    fn flush_consolidators<A: Algorithm<N>>(&mut self, algo: &mut A)
        ensures
            old(self).flushes(*final(self)),
            algorithm::lives(*old(algo), old(self).told(), *final(algo), final(self).told()),
    {
        let ghost start = *self;
        let ghost strategy = *algo;
        let n: usize = self.ctx.consolidators.len();
        for i in 0..n
            invariant
                n == start.ctx.consolidators@.len(),
                self.ctx.consolidators@.len() == n,
                start.flushes_below(i as int, *self),
                algorithm::lives(strategy, start.told(), *algo, self.told()),
        {
            let ghost mid = *self;
            let ghost mid_strategy = *algo;
            let emitted = self.ctx.consolidators[i].flush();
            let ghost changed = *self;
            let ghost emptied = self.ctx.consolidators@[i as int];
            if let Some(bar) = emitted {
                self.calls.on_consolidated(algo, &self.ctx, i, &bar);
            }
            proof {
                algorithm::lemma_lives_on(
                    strategy,
                    start.told(),
                    mid_strategy,
                    mid.told(),
                    *algo,
                    self.told(),
                );
                assert(changed.ctx.consolidators@ =~= mid.ctx.consolidators@.update(
                    i as int,
                    emptied,
                ));
                assert(mid.changes_entry(i as int, emptied, changed));
                assert(flushed(mid.ctx.consolidators@[i as int], emptied));
                assert(mid.emits(i as int, emptied, emitted, *self));
                assert(mid.flushes_one(i + 1 - 1, *self));
            }
        }
    }

    /// The positions still open, by ticker.
    pub fn open_positions(&self) -> (r: Vec<OpenPositionSummary<N>>)
        ensures
            by_name(summary_views(r@)),
            summary_views(r@).to_multiset() == self.summaries_below(0x1_0000).to_multiset(),
    {
        let symbols = self.ctx.portfolio.positions.symbols();
        let ghost listed = symbol::ids_of(symbols@);
        let ghost held = self.ctx.portfolio.held();
        proof {
            broker::lemma_listed_walks(listed, held, held.dom());
        }
        let mut summaries: Vec<OpenPositionSummary<N>> = Vec::new();
        assert(summary_views(summaries@) =~= Seq::<OpenPositionView<N>>::empty());
        for i in 0..symbols.len()
            invariant
                held == self.ctx.portfolio.held(),
                listed == symbol::ids_of(symbols@),
                symbol::lists_ids(listed, held),
                broker::walks(listed, held.dom()),
                by_name(summary_views(summaries@)),
                summary_views(summaries@).to_multiset() == self.summaries_below(
                    broker::end_before(listed, i as int),
                ).to_multiset(),
        {
            let symbol = symbols[i];
            proof {
                assert(listed[i as int] == symbol.id());
                assert(listed.contains(symbol.id()));
                assert(held.contains_key(symbol.id()));
                broker::lemma_nothing_between(listed, held.dom(), i as int);
                lemma_summaries_gap(
                    *self,
                    broker::end_before(listed, i as int),
                    symbol.id() as int,
                );
                let below = self.summaries_below(symbol.id() as int);
                vstd::seq_lib::to_multiset_build(below, self.summary(symbol.id()));
            }
            let quantity = self.ctx.portfolio.quantity(symbol);
            let avg_price = self.ctx.portfolio.basis(symbol);
            let last_price = price_or(&self.last_known_prices, symbol, avg_price);
            let realized_pnl = match self.ledger.get(symbol) {
                Some(lifetime) => lifetime.realized_pnl,
                None => N::zero(),
            };
            let summary = OpenPositionSummary {
                symbol: self.ctx.symbol_name(symbol).to_owned(),
                quantity,
                avg_price,
                last_price,
                market_value: quantity.mul(last_price),
                unrealized_pnl: last_price.sub(avg_price).mul(quantity),
                realized_pnl,
            };
            assert(summary@ == self.summary(symbol.id()));
            insert_by_name(&mut summaries, summary);
        }
        proof {
            broker::lemma_nothing_between(listed, held.dom(), listed.len() as int);
            lemma_summaries_gap(
                *self,
                broker::end_before(listed, listed.len() as int),
                0x1_0000,
            );
        }
        summaries
    }
}

/// What is reported of an open position: what is held and at which basis, at the
/// last price its symbol printed, or the basis where it never printed; its value is
/// the shares at that price, what is not realized yet is that less what they cost,
/// and what is realized is what its lifetime has; but for rounding.
pub proof fn open_positions_are_told_at_the_mark<N: Number>(
    engine: Engine<N>,
    id: u16,
    val: spec_fn(N) -> real,
    step: real,
)
    requires
        exact::near(val, step),
        engine.account().positions.contains_key(id),
        engine.summary(id).market_value.is_finite(),
        engine.summary(id).unrealized_pnl.is_finite(),
        engine.summary(id).last_price.sub(engine.summary(id).avg_price).is_finite(),
    ensures
        ({
            let told = engine.summary(id);
            let position = engine.account().positions[id];
            let quantity = val(position.quantity);
            let basis = val(position.avg_price);
            let last = match broker::mark(engine.prices(), id) {
                Some(price) => val(price),
                None => basis,
            };
            &&& val(told.quantity) == quantity
            &&& val(told.avg_price) == basis
            &&& val(told.last_price) == last
            &&& exact::close(val(told.market_value), quantity * last, step)
            &&& exact::close(val(told.unrealized_pnl), quantity * last - quantity * basis, step)
            &&& engine.account().ledger.lifetimes.contains_key(id) ==> val(told.realized_pnl)
                == val(engine.account().ledger.lifetimes[id].realized_pnl)
            &&& !engine.account().ledger.lifetimes.contains_key(id) ==> val(told.realized_pnl)
                == 0real
        }),
{
    let told = engine.summary(id);
    let quantity = val(told.quantity);
    let last = val(told.last_price);
    let basis = val(told.avg_price);
    assert(exact::short_of(val(told.market_value), quantity * last, step));
    assert(exact::short_of(val(told.unrealized_pnl), (last - basis) * quantity, step));
    assert((last - basis) * quantity == quantity * last - quantity * basis) by (nonlinear_arith);
}

} // verus!
