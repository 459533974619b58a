//! A run as a chain of deeds, and what holds of all of it.
//!
//! Every tick, and the end of a run, is made of a few kinds of deeds: orders
//! executed, corporate actions applied, financing charged, the strategy called,
//! and the rest, which leaves the books alone. What every deed keeps, a run
//! keeps.

use vstd::prelude::*;

use crate::agenda;
use crate::algorithm::{Call, Notice};
use crate::bar::Bar;
use crate::broker::Position;
use crate::calendar;
use crate::calendar::{Date, Time};
use crate::consolidator::ConsolidatorEntry;
use crate::context;
use crate::context::{Order, RestingOrder};
use crate::engine::accounting;
use crate::engine::corporate_actions;
use crate::engine::orders;
use crate::engine::orders::Attempt;
use crate::engine::result;
use crate::engine::result::BacktestResult;
use crate::engine::run;
use crate::engine::state::Engine;
use crate::exact;
use crate::number;
use crate::number::Number;
use crate::queue;
use crate::slippage::FillContext;
use crate::symbol;
use crate::symbol::Symbol;

verus! {

/// Something the engine does.
pub ghost enum Deed<N> {
    /// Executing an order, of which a quantity is filled, at a price and for a
    /// fee.
    Order { attempt: Attempt<N>, filled: N, price: N, fee: N },
    Split { symbol: Symbol, ratio: N, time: Time },
    Dividend { symbol: Symbol, amount: N },
    Rename { from: Symbol, to: Symbol },
    Delisting { symbol: Symbol, time: Time },
    Financing,
    /// Telling the strategy something.
    Call { notice: Notice<N> },
    /// What leaves the books alone and tells the strategy nothing.
    Upkeep,
}

impl<N: Number> Engine<N> {
    /// Whether `after` has the books of `self`.
    pub open(crate) spec fn same_books(self, after: Engine<N>) -> bool {
        &&& after.initial_cash == self.initial_cash
        &&& after.account().cash == self.account().cash
        &&& after.account().positions == self.account().positions
        &&& after.account().ledger == self.account().ledger
    }

    /// Whether `after` has the books of `self`, and the strategy was told nothing
    /// in between.
    pub open(crate) spec fn keeps_quiet(self, after: Engine<N>) -> bool {
        self.same_books(after) && after.told() == self.told()
    }

    /// Whether a deed can take the engine from `self` to `after`.
    pub open(crate) spec fn does(self, deed: Deed<N>, after: Engine<N>) -> bool {
        match deed {
            Deed::Order { attempt, filled, price, fee } => {
                &&& self.executes(attempt, after, filled)
                &&& after == self || self.fills_at(attempt, filled, price, fee, after)
            },
            Deed::Split { symbol, ratio, time } => self.splits(symbol, ratio, time, after),
            Deed::Dividend { symbol, amount } => self.pays(symbol, amount, after),
            Deed::Rename { from, to } => self.renames(from, to, after),
            Deed::Delisting { symbol, time } => self.delists(symbol, time, after),
            Deed::Financing => self.finances(after),
            Deed::Call { notice } => self.tells(notice, after),
            Deed::Upkeep => self.keeps_quiet(after),
        }
    }

    /// Whether filling an order at a price, for a fee, makes the account of
    /// `after`.
    pub open(crate) spec fn fills_at(
        self,
        attempt: Attempt<N>,
        filled: N,
        price: N,
        fee: N,
        after: Engine<N>,
    ) -> bool {
        &&& !number::negligible(filled)
        &&& after.moved_account(self)
        &&& after.account() == self.account().with_fill(
            attempt.order.symbol,
            context::shown_name(self.ctx.names(), attempt.order.symbol.id()),
            filled,
            price,
            fee,
            attempt.time,
            N::zero().lt(self.ctx.settings.max_volume_participation),
        )
    }

    /// Whether nothing that a deed computes runs out of range, and the deed
    /// divides by no ratio of nought and folds positions evenly.
    pub open(crate) spec fn soundly(
        self,
        deed: Deed<N>,
        after: Engine<N>,
        val: spec_fn(N) -> real,
    ) -> bool {
        let account = self.account();
        match deed {
            Deed::Order { attempt, filled, price, fee } => after == self || {
                let symbol = attempt.order.symbol;
                let name = context::shown_name(self.context().names(), symbol.id());
                account.fill_fits(
                    account.filled(symbol, name, filled, price, fee, attempt.time),
                )
            },
            Deed::Split { symbol, ratio, time } => account.split_fits(
                symbol.id(),
                ratio,
                corporate_actions::split_prices(self.prices(), symbol.id(), ratio),
                self.context().config().lot_size,
                val,
            ),
            Deed::Dividend { symbol, amount } => account.dividend_fits(symbol.id(), amount),
            Deed::Rename { from, to } => from != to ==> {
                &&& accounting::folds_evenly(account.positions, from.id(), to.id(), val)
                &&& account.rename_fits(from.id(), to.id())
            },
            Deed::Delisting { symbol, time } => account.delisting_fits(
                symbol.id(),
                self.prices(),
                self.context().config().delist_haircut,
            ),
            Deed::Financing => account.financing_fits(
                self.prices(),
                self.context().config().short_borrow_rate,
                self.context().config().margin_interest_rate,
            ),
            _ => true,
        }
    }

    /// How far a deed may move the balance of the books: by the cuts of the
    /// products and quotients it takes, and by what it drops as rounding noise.
    pub open(crate) spec fn slack(
        self,
        deed: Deed<N>,
        after: Engine<N>,
        val: spec_fn(N) -> real,
        step: real,
    ) -> real {
        let account = self.account();
        match deed {
            Deed::Order { attempt, filled, price, fee: _ } => if after == self {
                0real
            } else {
                account.fill_slack(attempt.order.symbol.id(), filled, price, val, step)
            },
            Deed::Split { symbol, ratio, time: _ } => account.split_slack(
                symbol.id(),
                ratio,
                corporate_actions::split_prices(self.prices(), symbol.id(), ratio),
                self.context().config().lot_size,
                val,
                step,
            ),
            Deed::Dividend { symbol, amount } => account.dividend_slack(symbol.id(), amount, val),
            Deed::Rename { from, to } => if from == to {
                0real
            } else {
                account.rename_slack(from.id(), to.id(), val, step)
            },
            Deed::Delisting { symbol: _, time: _ } => 2real * step,
            Deed::Financing => account.financing_slack(
                self.prices(),
                self.context().config().short_borrow_rate,
                self.context().config().margin_interest_rate,
                val,
                step,
            ),
            _ => 0real,
        }
    }
}

impl<N: Number> Call<N> {
    /// Whether the strategy left cash and positions as they were, as it does
    /// unless it writes to the portfolio itself.
    pub open spec fn leaves_books(self) -> bool {
        &&& self.after.portfolio_of().balance() == self.before.portfolio_of().balance()
        &&& self.after.portfolio_of().held() == self.before.portfolio_of().held()
    }
}

/// Whether the strategy left the books alone whenever it was called.
pub open spec fn hands_off<N: Number>(told: Seq<Call<N>>) -> bool {
    forall|i: int| 0 <= i < told.len() ==> (#[trigger] told[i]).leaves_books()
}

/// The states a run passes through, and the deeds between them.
#[verifier::reject_recursive_types(N)]
pub ghost struct Chain<N: Number> {
    pub states: Seq<Engine<N>>,
    pub deeds: Seq<Deed<N>>,
}

impl<N: Number> Chain<N> {
    /// Whether each deed leads from one state to the next.
    pub open spec fn links(self) -> bool {
        &&& self.states.len() == self.deeds.len() + 1
        &&& forall|i: int|
            0 <= i < self.deeds.len() ==> self.states[i].does(
                #[trigger] self.deeds[i],
                self.states[i + 1],
            )
    }

    /// Whether the chain leads from one state to another.
    pub open spec fn joins(self, from: Engine<N>, to: Engine<N>) -> bool {
        self.links() && self.states[0] == from && self.states.last() == to
    }

    /// Whether every deed is sound, and so is the report at the end.
    pub open spec fn sound(self, val: spec_fn(N) -> real) -> bool {
        &&& forall|i: int|
            0 <= i < self.deeds.len() ==> self.states[i].soundly(
                #[trigger] self.deeds[i],
                self.states[i + 1],
                val,
            )
        &&& self.states.last().report_fits()
    }

    /// How far the first `end` deeds may move the balance of the books.
    pub open spec fn slack_below(self, end: int, val: spec_fn(N) -> real, step: real) -> real
        decreases end,
    {
        if end <= 0 {
            0real
        } else {
            self.slack_below(end - 1, val, step) + self.states[end - 1].slack(
                self.deeds[end - 1],
                self.states[end],
                val,
                step,
            )
        }
    }

    /// How far the deeds and the report may be off, all together.
    pub open spec fn slack(self, val: spec_fn(N) -> real, step: real) -> real {
        self.slack_below(self.deeds.len() as int, val, step) + self.states.last().report_slack(step)
    }
}

/// Whether some chain of deeds leads from one state to another.
pub open spec fn reaches<N: Number>(from: Engine<N>, to: Engine<N>) -> bool {
    exists|chain: Chain<N>| #[trigger] chain.joins(from, to)
}

pub proof fn lemma_still<N: Number>(engine: Engine<N>)
    ensures
        reaches(engine, engine),
{
    let chain = Chain { states: seq![engine], deeds: Seq::<Deed<N>>::empty() };
    assert(chain.joins(engine, engine));
}

proof fn lemma_one<N: Number>(from: Engine<N>, deed: Deed<N>, to: Engine<N>)
    requires
        from.does(deed, to),
    ensures
        reaches(from, to),
{
    let chain = Chain { states: seq![from, to], deeds: seq![deed] };
    assert(chain.joins(from, to));
}

pub proof fn lemma_on<N: Number>(from: Engine<N>, mid: Engine<N>, to: Engine<N>)
    requires
        reaches(from, mid),
        reaches(mid, to),
    ensures
        reaches(from, to),
{
    let a = choose|chain: Chain<N>| #[trigger] chain.joins(from, mid);
    let b = choose|chain: Chain<N>| #[trigger] chain.joins(mid, to);
    let n = a.deeds.len() as int;
    let chain = Chain { states: a.states.drop_last() + b.states, deeds: a.deeds + b.deeds };
    assert forall|i: int| 0 <= i < chain.deeds.len() implies chain.states[i].does(
        #[trigger] chain.deeds[i],
        chain.states[i + 1],
    ) by {
        if i < n {
            assert(chain.deeds[i] == a.deeds[i]);
            assert(chain.states[i] == a.states[i]);
            assert(chain.states[i + 1] == a.states[i + 1]);
        } else {
            assert(chain.deeds[i] == b.deeds[i - n]);
            assert(chain.states[i] == b.states[i - n]);
            assert(chain.states[i + 1] == b.states[i - n + 1]);
        }
    }
    assert(chain.joins(from, to));
}

proof fn lemma_order<N: Number>(from: Engine<N>, attempt: Attempt<N>, filled: N, to: Engine<N>)
    requires
        from.executes(attempt, to, filled),
    ensures
        reaches(from, to),
{
    if to == from {
        lemma_still(from);
    } else {
        let fill = FillContext {
            symbol: attempt.order.symbol,
            quantity: filled,
            price: attempt.price,
            bar: &attempt.bar,
        };
        assert(from.fills(attempt, filled, to));
        let (slipped, fee) = choose|slipped: N, fee: N|
            {
                &&& #[trigger] from.ctx.settings.models.slippage.quotes(&fill, slipped)
                &&& #[trigger] from.ctx.settings.models.commission.charges(&fill, fee)
                &&& to.moved_account(from)
                &&& to.account() == from.account().with_fill(
                    attempt.order.symbol,
                    context::shown_name(from.ctx.names(), attempt.order.symbol.id()),
                    filled,
                    orders::within_limit(slipped, filled, attempt.bound),
                    fee,
                    attempt.time,
                    N::zero().lt(from.ctx.settings.max_volume_participation),
                )
            };
        let price = orders::within_limit(slipped, filled, attempt.bound);
        lemma_one(from, Deed::Order { attempt, filled, price, fee }, to);
    }
}

/// A deed and a call to the strategy after it.
proof fn lemma_told<N: Number>(
    from: Engine<N>,
    deed: Deed<N>,
    acted: Engine<N>,
    notice: Notice<N>,
    to: Engine<N>,
)
    requires
        from.does(deed, acted),
        acted.tells(notice, to),
    ensures
        reaches(from, to),
{
    lemma_one(from, deed, acted);
    lemma_one(acted, Deed::Call { notice }, to);
    lemma_on(from, acted, to);
}

proof fn lemma_executes_all<N: Number>(
    from: Engine<N>,
    attempts: Seq<Attempt<N>>,
    to: Engine<N>,
)
    requires
        from.executes_all(attempts, to),
    ensures
        reaches(from, to),
    decreases attempts.len(),
{
    if attempts.len() == 0 {
        lemma_still(from);
    } else {
        let (mid, filled) = choose|mid: Engine<N>, filled: N|
            from.executes_all(attempts.drop_last(), mid) && #[trigger] mid.executes(
                attempts.last(),
                to,
                filled,
            );
        lemma_executes_all(from, attempts.drop_last(), mid);
        lemma_order(mid, attempts.last(), filled, to);
        lemma_on(from, mid, to);
    }
}

proof fn lemma_deferred<N: Number>(
    from: Engine<N>,
    bars: Seq<(Symbol, Bar<N>)>,
    time: Time,
    to: Engine<N>,
)
    requires
        from.fills_deferred(bars, time, to),
    ensures
        reaches(from, to),
    decreases bars.len(),
{
    if bars.len() == 0 {
        lemma_still(from);
    } else {
        let (symbol, bar) = bars.last();
        let (mid, taken) = choose|mid: Engine<N>, taken: Engine<N>|
            {
                &&& from.fills_deferred(bars.drop_last(), time, mid)
                &&& #[trigger] mid.takes_deferred(symbol.id(), taken)
                &&& taken.executes_all(
                    orders::at_open(queue::queued(mid.books.deferred@, symbol.id()), bar, time),
                    to,
                )
            };
        lemma_deferred(from, bars.drop_last(), time, mid);
        lemma_one(mid, Deed::Upkeep, taken);
        lemma_on(from, mid, taken);
        lemma_executes_all(
            taken,
            orders::at_open(queue::queued(mid.books.deferred@, symbol.id()), bar, time),
            to,
        );
        lemma_on(from, taken, to);
    }
}

proof fn lemma_tests<N: Number>(
    from: Engine<N>,
    symbol: Symbol,
    orders: Seq<RestingOrder<N>>,
    bar: Bar<N>,
    time: Time,
    to: Engine<N>,
    kept: Seq<RestingOrder<N>>,
)
    requires
        from.tests_resting(symbol, orders, bar, time, to, kept),
    ensures
        reaches(from, to),
    decreases orders.len(),
{
    if orders.len() == 0 {
        lemma_still(from);
    } else {
        let (mid, before) = choose|mid: Engine<N>, before: Seq<RestingOrder<N>>|
            {
                &&& from.tests_resting(symbol, orders.drop_last(), bar, time, mid, before)
                &&& #[trigger] mid.tests_one(
                    before,
                    symbol,
                    orders.last(),
                    bar,
                    time,
                    to,
                    kept,
                )
            };
        lemma_tests(from, symbol, orders.drop_last(), bar, time, mid, before);
        let order = orders.last();
        match orders::trigger_price(order.kind, order.qty, bar) {
            Some(price) => {
                let attempt = orders::at_trigger(symbol, order, price, bar, time);
                let filled = choose|filled: N|
                    #[trigger] mid.executes(attempt, to, filled) && kept == orders::keep_rest(
                        before,
                        order,
                        filled,
                    );
                lemma_order(mid, attempt, filled, to);
            },
            None => {
                lemma_still(mid);
            },
        }
        lemma_on(from, mid, to);
    }
}

proof fn lemma_resting<N: Number>(
    from: Engine<N>,
    bars: Seq<(Symbol, Bar<N>)>,
    time: Time,
    to: Engine<N>,
)
    requires
        from.fills_resting(bars, time, to),
    ensures
        reaches(from, to),
    decreases bars.len(),
{
    if bars.len() == 0 {
        lemma_still(from);
    } else {
        let (symbol, bar) = bars.last();
        let (mid, tested, kept) = choose|
            mid: Engine<N>,
            tested: Engine<N>,
            kept: Seq<RestingOrder<N>>,
        |
            {
                &&& from.fills_resting(bars.drop_last(), time, mid)
                &&& #[trigger] mid.tests_resting(
                    symbol,
                    queue::queued(mid.books.resting@, symbol.id()),
                    bar,
                    time,
                    tested,
                    kept,
                )
                &&& tested.puts_resting(symbol.id(), kept, to)
            };
        lemma_resting(from, bars.drop_last(), time, mid);
        lemma_tests(
            mid,
            symbol,
            queue::queued(mid.books.resting@, symbol.id()),
            bar,
            time,
            tested,
            kept,
        );
        lemma_on(from, mid, tested);
        lemma_one(tested, Deed::Upkeep, to);
        lemma_on(from, tested, to);
    }
}

proof fn lemma_routes_one<N: Number>(
    from: Engine<N>,
    order: Order<N>,
    bars: Map<u16, Bar<N>>,
    time: Time,
    to: Engine<N>,
)
    requires
        from.routes_one(order, bars, time, to),
    ensures
        reaches(from, to),
{
    if from.defers(order, to) {
        lemma_one(from, Deed::Upkeep, to);
    } else {
        let bar = bars[order.symbol.id()];
        let attempt = Attempt { order, price: bar.close, bar, time, bound: None };
        let filled = choose|filled: N| #[trigger] from.executes(attempt, to, filled);
        lemma_order(from, attempt, filled, to);
    }
}

proof fn lemma_splits<N: Number>(
    from: Engine<N>,
    items: Seq<(Symbol, N)>,
    time: Time,
    to: Engine<N>,
)
    requires
        from.splits_all(items, time, to),
    ensures
        reaches(from, to),
    decreases items.len(),
{
    if items.len() == 0 {
        lemma_still(from);
    } else {
        let mid = choose|mid: Engine<N>|
            from.splits_all(items.drop_last(), time, mid) && #[trigger] mid.splits_one(
                items.last(), time,
                to,
            );
        lemma_splits(from, items.drop_last(), time, mid);
        let item = items.last();
        let notice = Notice::Split { symbol: item.0, ratio: item.1 };
        let acted = choose|acted: Engine<N>| #[trigger]
            mid.splits(item.0, item.1, time, acted) && acted.tells(notice, to);
        lemma_told(mid, Deed::Split { symbol: item.0, ratio: item.1, time }, acted, notice, to);
        lemma_on(from, mid, to);
    }
}

proof fn lemma_dividends<N: Number>(
    from: Engine<N>,
    items: Seq<(Symbol, N)>,
    to: Engine<N>,
)
    requires
        from.pays_all(items, to),
    ensures
        reaches(from, to),
    decreases items.len(),
{
    if items.len() == 0 {
        lemma_still(from);
    } else {
        let mid = choose|mid: Engine<N>|
            from.pays_all(items.drop_last(), mid) && #[trigger] mid.pays_one(
                items.last(),
                to,
            );
        lemma_dividends(from, items.drop_last(), mid);
        let item = items.last();
        if mid.holds(item.0) {
            let notice = Notice::Dividend { symbol: item.0, amount: item.1 };
            let acted = choose|acted: Engine<N>| #[trigger]
                mid.pays(item.0, item.1, acted) && acted.tells(notice, to);
            lemma_told(mid, Deed::Dividend { symbol: item.0, amount: item.1 }, acted, notice, to);
        } else {
            lemma_still(mid);
        }
        lemma_on(from, mid, to);
    }
}

proof fn lemma_renames<N: Number>(
    from: Engine<N>,
    items: Seq<(Symbol, Symbol)>,
    to: Engine<N>,
)
    requires
        from.renames_all(items, to),
    ensures
        reaches(from, to),
    decreases items.len(),
{
    if items.len() == 0 {
        lemma_still(from);
    } else {
        let mid = choose|mid: Engine<N>|
            from.renames_all(items.drop_last(), mid) && #[trigger] mid.renames_one(
                items.last(),
                to,
            );
        lemma_renames(from, items.drop_last(), mid);
        let item = items.last();
        let notice = Notice::Rename { from: item.0, to: item.1 };
        let acted = choose|acted: Engine<N>| #[trigger]
            mid.renames(item.0, item.1, acted) && acted.tells(notice, to);
        lemma_told(mid, Deed::Rename { from: item.0, to: item.1 }, acted, notice, to);
        lemma_on(from, mid, to);
    }
}

proof fn lemma_delistings<N: Number>(
    from: Engine<N>,
    items: Seq<Symbol>,
    time: Time,
    to: Engine<N>,
)
    requires
        from.delists_all(items, time, to),
    ensures
        reaches(from, to),
    decreases items.len(),
{
    if items.len() == 0 {
        lemma_still(from);
    } else {
        let mid = choose|mid: Engine<N>|
            from.delists_all(items.drop_last(), time, mid) && #[trigger] mid.delists_one(
                items.last(), time,
                to,
            );
        lemma_delistings(from, items.drop_last(), time, mid);
        let symbol = items.last();
        let notice = Notice::Delisted { symbol };
        let acted = choose|acted: Engine<N>| #[trigger]
            mid.delists(symbol, time, acted) && acted.tells(notice, to);
        lemma_told(mid, Deed::Delisting { symbol, time }, acted, notice, to);
        lemma_on(from, mid, to);
    }
}

proof fn lemma_routes<N: Number>(
    from: Engine<N>,
    items: Seq<Order<N>>,
    bars: Map<u16, Bar<N>>,
    time: Time,
    to: Engine<N>,
)
    requires
        from.routes(items, bars, time, to),
    ensures
        reaches(from, to),
    decreases items.len(),
{
    if items.len() == 0 {
        lemma_still(from);
    } else {
        let mid = choose|mid: Engine<N>|
            from.routes(items.drop_last(), bars, time, mid) && #[trigger] mid.routes_one(
                items.last(), bars, time,
                to,
            );
        lemma_routes(from, items.drop_last(), bars, time, mid);
        lemma_routes_one(mid, items.last(), bars, time, to);
        lemma_on(from, mid, to);
    }
}

proof fn lemma_tells<N: Number>(from: Engine<N>, notices: Seq<Notice<N>>, to: Engine<N>)
    requires
        from.tells_all(notices, to),
    ensures
        reaches(from, to),
    decreases notices.len(),
{
    if notices.len() == 0 {
        lemma_still(from);
    } else {
        let mid = choose|mid: Engine<N>|
            from.tells_all(notices.drop_last(), mid) && #[trigger] mid.tells(notices.last(), to);
        lemma_tells(from, notices.drop_last(), mid);
        lemma_one(mid, Deed::Call { notice: notices.last() }, to);
        lemma_on(from, mid, to);
    }
}

proof fn lemma_emits<N: Number>(
    from: Engine<N>,
    i: int,
    entry: ConsolidatorEntry<N>,
    emitted: Option<Bar<N>>,
    to: Engine<N>,
)
    requires
        from.emits(i, entry, emitted, to),
    ensures
        reaches(from, to),
{
    let changed = choose|changed: Engine<N>|
        {
            &&& #[trigger] from.changes_entry(i, entry, changed)
            &&& match emitted {
                Some(bar) => changed.hands(i as usize, bar, to),
                None => to == changed,
            }
        };
    lemma_one(from, Deed::Upkeep, changed);
    if let Some(bar) = emitted {
        lemma_one(
            changed,
            Deed::Call { notice: Notice::Consolidated { handle: i as usize, bar } },
            to,
        );
        lemma_on(from, changed, to);
    }
}

proof fn lemma_offers_bar<N: Number>(
    from: Engine<N>,
    end: int,
    item: (Symbol, Bar<N>),
    to: Engine<N>,
)
    requires
        from.offers_bar(end, item, to),
    ensures
        reaches(from, to),
    decreases end,
{
    if end <= 0 {
        lemma_still(from);
    } else {
        let mid = choose|mid: Engine<N>|
            from.offers_bar(end - 1, item, mid) && #[trigger] mid.offers_one(end - 1, item, to);
        lemma_offers_bar(from, end - 1, item, mid);
        let entry = mid.ctx.consolidators@[end - 1];
        if item.0 == entry.source() {
            let (fed, emitted) = choose|fed: ConsolidatorEntry<N>, emitted: Option<Bar<N>>|
                #[trigger] entry.fed(item.1, fed, emitted) && mid.emits(end - 1, fed, emitted, to);
            lemma_emits(mid, end - 1, fed, emitted, to);
        } else {
            lemma_still(mid);
        }
        lemma_on(from, mid, to);
    }
}

proof fn lemma_offers<N: Number>(from: Engine<N>, bars: Seq<(Symbol, Bar<N>)>, to: Engine<N>)
    requires
        from.offers_all(bars, to),
    ensures
        reaches(from, to),
    decreases bars.len(),
{
    if bars.len() == 0 {
        lemma_still(from);
    } else {
        let mid = choose|mid: Engine<N>|
            from.offers_all(bars.drop_last(), mid) && #[trigger] mid.offers_next(bars.last(), to);
        lemma_offers(from, bars.drop_last(), mid);
        lemma_offers_bar(mid, mid.ctx.consolidators@.len() as int, bars.last(), to);
        lemma_on(from, mid, to);
    }
}

proof fn lemma_flushes<N: Number>(from: Engine<N>, end: int, to: Engine<N>)
    requires
        from.flushes_below(end, to),
    ensures
        reaches(from, to),
        to.clock == from.clock,
        to.record == from.record,
    decreases end,
{
    if end <= 0 {
        lemma_still(from);
    } else {
        let mid = choose|mid: Engine<N>|
            from.flushes_below(end - 1, mid) && #[trigger] mid.flushes_one(end - 1, to);
        lemma_flushes(from, end - 1, mid);
        let entry = mid.ctx.consolidators@[end - 1];
        let emptied = choose|emptied: ConsolidatorEntry<N>|
            #[trigger] result::flushed(entry, emptied) && mid.emits(
                end - 1,
                emptied,
                entry.current(),
                to,
            );
        lemma_emits(mid, end - 1, emptied, entry.current(), to);
        lemma_on(from, mid, to);
    }
}

proof fn lemma_closes_day<N: Number>(from: Engine<N>, day: Date, to: Engine<N>)
    requires
        from.closes_day(day, to),
    ensures
        reaches(from, to),
{
    let marked = choose|marked: Engine<N>| #[trigger]
        from.marks_day(day, marked) && marked.tells(Notice::EndOfDay, to);
    lemma_told(from, Deed::Upkeep, marked, Notice::EndOfDay, to);
}

proof fn lemma_works_day<N: Number>(from: Engine<N>, date: Date, time: Time, to: Engine<N>)
    requires
        from.works_day(date, time, to),
    ensures
        reaches(from, to),
{
    let (turned, split, paid, renamed, financed) = choose|
        turned: Engine<N>,
        split: Engine<N>,
        paid: Engine<N>,
        renamed: Engine<N>,
        financed: Engine<N>,
    |
        {
            &&& #[trigger] from.turns_day(date, turned)
            &&& #[trigger] turned.applies_splits(date, time, split)
            &&& #[trigger] split.applies_dividends(date, paid)
            &&& #[trigger] paid.applies_renames(date, renamed)
            &&& #[trigger] renamed.finances(financed)
            &&& financed.closes_delisted(time, to)
        };
    let day = date.day();
    lemma_one(from, Deed::Upkeep, turned);

    let splits = agenda::items_through(turned.pending.splits@, day);
    let drained = choose|drained: Engine<N>| #[trigger]
        turned.drains_splits(day, drained) && drained.splits_all(splits, time, split);
    lemma_one(turned, Deed::Upkeep, drained);
    lemma_on(from, turned, drained);
    lemma_splits(drained, splits, time, split);
    lemma_on(from, drained, split);

    let dividends = agenda::items_through(split.pending.dividends@, day);
    let emptied = choose|drained: Engine<N>| #[trigger]
        split.drains_dividends(day, drained) && drained.pays_all(dividends, paid);
    lemma_one(split, Deed::Upkeep, emptied);
    lemma_on(from, split, emptied);
    lemma_dividends(emptied, dividends, paid);
    lemma_on(from, emptied, paid);

    let renames = agenda::items_through(paid.pending.renames@, day);
    let cleared = choose|drained: Engine<N>| #[trigger]
        paid.drains_renames(day, drained) && drained.renames_all(renames, renamed);
    lemma_one(paid, Deed::Upkeep, cleared);
    lemma_on(from, paid, cleared);
    lemma_renames(cleared, renames, renamed);
    lemma_on(from, cleared, renamed);

    lemma_one(renamed, Deed::Financing, financed);
    lemma_on(from, renamed, financed);
    let symbols = choose|symbols: Seq<Symbol>| #[trigger]
        financed.lists_stale(symbols) && financed.delists_all(symbols, time, to);
    lemma_delistings(financed, symbols, time, to);
    lemma_on(from, financed, to);
}

proof fn lemma_prepares<N: Number>(
    from: Engine<N>,
    bars: Seq<(Symbol, Bar<N>)>,
    time: Time,
    date: Date,
    to: Engine<N>,
)
    requires
        from.prepares(bars, time, date, to),
    ensures
        reaches(from, to),
{
    let (cleared, closed, started, seen, deferred, rested, advanced) = choose|
        cleared: Engine<N>,
        closed: Engine<N>,
        started: Engine<N>,
        seen: Engine<N>,
        deferred: Engine<N>,
        rested: Engine<N>,
        advanced: Engine<N>,
    |
        {
            &&& #[trigger] from.clears_volume(cleared)
            &&& #[trigger] cleared.passes_boundary(date, closed)
            &&& #[trigger] closed.starts_day(date, time, started)
            &&& #[trigger] started.sees(bars, seen)
            &&& #[trigger] seen.fills_deferred(bars, time, deferred)
            &&& #[trigger] deferred.fills_resting(bars, time, rested)
            &&& #[trigger] rested.advances(bars, advanced)
            &&& advanced.remembers(bars, to)
        };
    lemma_one(from, Deed::Upkeep, cleared);
    if cleared.clock.last_date is Some && cleared.clock.last_date != Some(date) {
        lemma_closes_day(cleared, cleared.clock.last_date->0, closed);
    } else {
        lemma_still(cleared);
    }
    lemma_on(from, cleared, closed);
    if closed.clock.global_last_date is None {
        lemma_one(closed, Deed::Upkeep, started);
    } else if closed.clock.global_last_date == Some(date) {
        lemma_still(closed);
    } else {
        lemma_works_day(closed, date, time, started);
    }
    lemma_on(from, closed, started);
    lemma_one(started, Deed::Upkeep, seen);
    lemma_on(from, started, seen);
    lemma_deferred(seen, bars, time, deferred);
    lemma_on(from, seen, deferred);
    lemma_resting(deferred, bars, time, rested);
    lemma_on(from, deferred, rested);
    lemma_one(rested, Deed::Upkeep, advanced);
    lemma_on(from, rested, advanced);
    let pushed = choose|pushed: Engine<N>| #[trigger]
        advanced.keeps_windows(bars, pushed) && pushed.offers_all(bars, to);
    lemma_one(advanced, Deed::Upkeep, pushed);
    lemma_on(from, advanced, pushed);
    lemma_offers(pushed, bars, to);
    lemma_on(from, pushed, to);
}

proof fn lemma_trades<N: Number>(
    from: Engine<N>,
    bars: Seq<(Symbol, Bar<N>)>,
    time: Time,
    date: Date,
    to: Engine<N>,
)
    requires
        from.trades(bars, time, date, to),
    ensures
        reaches(from, to),
{
    let (anchored, called, routed) = choose|
        anchored: Engine<N>,
        called: Engine<N>,
        routed: Engine<N>,
    |
        {
            &&& #[trigger] from.anchors(date, anchored)
            &&& #[trigger] anchored.calls_strategy(run::slice_of(bars), time, date, called)
            &&& #[trigger] called.routes_new(run::slice_of(bars), time, routed)
            &&& routed.marks_tick(time, to)
        };
    lemma_one(from, Deed::Upkeep, anchored);
    let reminders = run::reminders(
        context::due_below(
            anchored.ctx.time_callbacks@,
            calendar::eastern_clock(time.secs()).1,
            date,
            anchored.ctx.time_callbacks@.len() as int,
        ),
    );
    let notice = Notice::Data { time, bars: run::slice_of(bars) };
    let (marked, reminded) = choose|marked: Engine<N>, reminded: Engine<N>|
        {
            &&& #[trigger] anchored.marks_times(time, date, marked)
            &&& #[trigger] marked.tells_all(reminders, reminded)
            &&& reminded.tells(notice, called)
        };
    lemma_one(anchored, Deed::Upkeep, marked);
    lemma_on(from, anchored, marked);
    lemma_tells(marked, reminders, reminded);
    lemma_on(from, marked, reminded);
    lemma_one(reminded, Deed::Call { notice }, called);
    lemma_on(from, reminded, called);
    let placed = called.ctx.pending_orders@;
    let (taken, sent) = choose|taken: Engine<N>, sent: Engine<N>|
        {
            &&& #[trigger] called.hands_over(taken)
            &&& #[trigger] taken.routes(placed, run::slice_of(bars), time, sent)
            &&& sent.books_resting(called.ctx.resting_orders@, routed)
        };
    lemma_one(called, Deed::Upkeep, taken);
    lemma_on(from, called, taken);
    lemma_routes(taken, placed, run::slice_of(bars), time, sent);
    lemma_on(from, taken, sent);
    lemma_one(sent, Deed::Upkeep, routed);
    lemma_on(from, sent, routed);
    lemma_one(routed, Deed::Upkeep, to);
    lemma_on(from, routed, to);
}

/// A tick is a chain of deeds.
pub proof fn a_tick_is_a_chain<N: Number>(
    engine: Engine<N>,
    bars: Seq<(Symbol, Bar<N>)>,
    time: Time,
    date: Date,
    after: Engine<N>,
)
    requires
        engine.ticks(bars, time, date, after),
    ensures
        reaches(engine, after),
{
    let prepared = choose|prepared: Engine<N>|
        {
            &&& #[trigger] engine.prepares(bars, time, date, prepared)
            &&& if prepared.ctx.warm_up_remaining > 0 {
                prepared.warms_up(after)
            } else {
                prepared.trades(bars, time, date, after)
            }
        };
    lemma_prepares(engine, bars, time, date, prepared);
    if prepared.ctx.warm_up_remaining > 0 {
        lemma_one(prepared, Deed::Upkeep, after);
    } else {
        lemma_trades(prepared, bars, time, date, after);
    }
    lemma_on(engine, prepared, after);
}

/// What a run reports, it reports of a state that a chain of deeds leads to
/// from where its ticks end.
pub proof fn a_run_ends_in_a_chain<N: Number>(
    engine: Engine<N>,
    result: BacktestResult<N>,
    told: Seq<Call<N>>,
)
    requires
        engine.finishes(result, told),
    ensures
        exists|ended: Engine<N>|
            reaches(engine, ended) && #[trigger] ended.reports(result) && ended.told() == told,
{
    let ended = choose|ended: Engine<N>|
        {
            &&& #[trigger] engine.ends(ended)
            &&& ended.reports(result)
            &&& ended.told() == told
        };
    let flushed = choose|flushed: Engine<N>|
        {
            &&& #[trigger] engine.flushes(flushed)
            &&& match engine.clock.last_date {
                Some(last) => flushed.closes_day(last, ended),
                None => ended == flushed,
            }
        };
    lemma_flushes(engine, engine.ctx.consolidators@.len() as int, flushed);
    if engine.clock.last_date is Some {
        lemma_closes_day(flushed, engine.clock.last_date->0, ended);
    } else {
        lemma_still(flushed);
    }
    lemma_on(engine, flushed, ended);
    assert(reaches(engine, ended) && ended.reports(result));
}

/// A sound deed keeps a run balanced, but for its slack.
pub proof fn sound_deeds_keep_a_run_balanced<N: Number>(
    engine: Engine<N>,
    deed: Deed<N>,
    after: Engine<N>,
    bound: real,
    val: spec_fn(N) -> real,
    step: real,
)
    requires
        exact::near(val, step),
        engine.balanced(bound, val),
        engine.does(deed, after),
        engine.soundly(deed, after, val),
        deed is Call ==> after.told().last().leaves_books(),
    ensures
        after.balanced(bound + engine.slack(deed, after, val, step), val),
{
    broadcast use symbol::group_symbol;

    let account = engine.account();
    match deed {
        Deed::Order { attempt, filled, price, fee } => {
            if after != engine {
                accounting::fills_keep_the_balance(
                    account,
                    attempt.order.symbol,
                    context::shown_name(engine.ctx.names(), attempt.order.symbol.id()),
                    filled,
                    price,
                    fee,
                    attempt.time,
                    N::zero().lt(engine.ctx.settings.max_volume_participation),
                    val,
                    step,
                );
            }
        },
        Deed::Split { symbol, ratio, time } => {
            accounting::splits_keep_the_balance(
                account,
                symbol,
                context::shown_name(engine.ctx.names(), symbol.id()),
                ratio,
                corporate_actions::split_prices(engine.prices(), symbol.id(), ratio),
                engine.ctx.settings.lot_size,
                time,
                val,
                step,
            );
        },
        Deed::Dividend { symbol, amount } => {
            accounting::dividends_keep_the_balance(account, symbol.id(), amount, val, step);
        },
        Deed::Rename { from, to } => {
            if from != to {
                assert(from.id() != to.id());
                accounting::renames_keep_the_balance(account, from, to, val, step);
            }
        },
        Deed::Delisting { symbol, time } => {
            accounting::delistings_keep_the_balance(
                account,
                symbol,
                context::shown_name(engine.ctx.names(), symbol.id()),
                engine.prices(),
                engine.ctx.settings.delist_haircut,
                time,
                val,
                step,
            );
        },
        Deed::Financing => {
            accounting::financing_keeps_the_balance(
                account,
                engine.prices(),
                engine.ctx.settings.short_borrow_rate,
                engine.ctx.settings.margin_interest_rate,
                val,
                step,
            );
        },
        _ => {},
    }
}

/// What the strategy was told is never taken back: a deed adds one call if it is
/// one, and none otherwise.
proof fn lemma_told_grows<N: Number>(engine: Engine<N>, deed: Deed<N>, after: Engine<N>)
    requires
        engine.does(deed, after),
    ensures
        match deed {
            Deed::Call { notice: _ } => {
                &&& after.told().len() == engine.told().len() + 1
                &&& after.told().drop_last() == engine.told()
            },
            _ => after.told() == engine.told(),
        },
{
    if let Deed::Call { notice } = deed {
        assert(after.told().drop_last() =~= engine.told());
    }
}

proof fn lemma_prefix<N: Number>(chain: Chain<N>, i: int, j: int)
    requires
        chain.links(),
        0 <= i <= j < chain.states.len(),
    ensures
        chain.states[i].told().is_prefix_of(chain.states[j].told()),
    decreases j - i,
{
    if i < j {
        lemma_prefix(chain, i, j - 1);
        lemma_told_grows(chain.states[j - 1], chain.deeds[j - 1], chain.states[j - 1 + 1]);
    }
}

/// A sound chain keeps a run balanced from one end to the other, but for the
/// slack of its deeds, if the strategy leaves the books alone.
pub proof fn sound_chains_stay_balanced<N: Number>(
    chain: Chain<N>,
    i: int,
    val: spec_fn(N) -> real,
    step: real,
)
    requires
        exact::near(val, step),
        chain.links(),
        chain.sound(val),
        hands_off(chain.states.last().told()),
        chain.states[0].balanced(0real, val),
        0 <= i < chain.states.len(),
    ensures
        chain.states[i].balanced(chain.slack_below(i, val, step), val),
    decreases i,
{
    if i > 0 {
        sound_chains_stay_balanced(chain, i - 1, val, step);
        let deed = chain.deeds[i - 1];
        let after = chain.states[i - 1 + 1];
        if deed is Call {
            lemma_told_grows(chain.states[i - 1], deed, after);
            lemma_prefix(chain, i, chain.states.len() - 1);
            let last = after.told().len() - 1;
            assert(chain.states.last().told()[last] == after.told()[last]);
        }
        sound_deeds_keep_a_run_balanced(
            chain.states[i - 1],
            deed,
            after,
            chain.slack_below(i - 1, val, step),
            val,
            step,
        );
    }
}

/// A chain that starts from nothing adds up at its end: the starting cash, the
/// profit of completed trades and the profit of open positions, realized and
/// not, make the final equity, whatever the strategy ordered and whatever befell
/// what it held, to within the slack of the chain.
pub proof fn a_sound_chain_adds_up<N: Number>(
    chain: Chain<N>,
    result: BacktestResult<N>,
    val: spec_fn(N) -> real,
    step: real,
)
    requires
        exact::near(val, step),
        chain.links(),
        chain.sound(val),
        hands_off(chain.states.last().told()),
        chain.states[0].fresh(),
        chain.states[0].account().positions == Map::<u16, Position<N>>::empty(),
        chain.states[0].account().cash == chain.states[0].starting_cash(),
        chain.states.last().reports(result),
    ensures
        accounting::misses_by(result, val) <= chain.slack(val, step),
{
    let n = chain.states.len() - 1;
    accounting::a_fresh_run_is_balanced(chain.states[0], val);
    sound_chains_stay_balanced(chain, n, val, step);
    accounting::the_report_adds_up(
        chain.states.last(),
        result,
        chain.slack_below(n, val, step),
        val,
        step,
    );
}

} // verus!
