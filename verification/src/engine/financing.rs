//! Financing: a borrow fee on shorts and margin interest on negative cash,
//! accrued once per trading day.

use vstd::prelude::*;

use crate::broker;
use crate::broker::{price_or, Position};
use crate::engine::state::{Account, Engine};
use crate::number::Number;
use crate::stats::TRADING_DAYS_PER_YEAR;
use crate::symbol;
use crate::symbol::Symbol;

verus! {

/// The ids of the short positions.
pub open spec fn short_ids<N: Number>(positions: Map<u16, Position<N>>) -> Set<u16> {
    Set::new(|id: u16| positions.contains_key(id) && positions[id].quantity.lt(N::zero()))
}

/// The ids of the long positions.
pub open spec fn long_ids<N: Number>(positions: Map<u16, Position<N>>) -> Set<u16> {
    Set::new(|id: u16| positions.contains_key(id) && N::zero().lt(positions[id].quantity))
}

/// Who bears margin interest: the long book, which is what the borrowing
/// funds, or the whole book where there is no long position.
pub open spec fn interest_pool<N: Number>(positions: Map<u16, Position<N>>) -> Set<u16> {
    let longs = long_ids(positions);
    if longs =~= Set::<u16>::empty() {
        positions.dom()
    } else {
        longs
    }
}

/// An annual rate, per trading day.
pub open spec fn per_day<N: Number>(annual_rate: N) -> N {
    annual_rate.div(N::from_u64(TRADING_DAYS_PER_YEAR))
}

impl<N: Number> Account<N> {
    /// The account with the borrow fee of the short positions among the ids
    /// below `end` taken: out of cash, and out of what each has realized.
    pub open spec fn with_borrow_fees(self, prices: Seq<Option<N>>, daily: N, end: int) -> Account<
        N,
    >
        decreases end,
    {
        if end <= 0 {
            self
        } else {
            let before = self.with_borrow_fees(prices, daily, end - 1);
            let id = (end - 1) as u16;
            if short_ids(self.positions).contains(id) {
                let fee = daily.mul(broker::gross(self.positions, prices, id));
                Account {
                    cash: before.cash.sub(fee),
                    ledger: before.ledger.with_charge(id, fee),
                    ..before
                }
            } else {
                before
            }
        }
    }

    /// The account with the ids below `end` of a pool charged their share of an
    /// amount, by market value.
    pub open spec fn with_shares(
        self,
        prices: Seq<Option<N>>,
        pool: Set<u16>,
        amount: N,
        total: N,
        end: int,
    ) -> Account<N>
        decreases end,
    {
        if end <= 0 {
            self
        } else {
            let before = self.with_shares(prices, pool, amount, total, end - 1);
            let id = (end - 1) as u16;
            if pool.contains(id) {
                let share = amount.mul(broker::gross(self.positions, prices, id).div(total));
                Account { ledger: before.ledger.with_charge(id, share), ..before }
            } else {
                before
            }
        }
    }

    /// The account with margin interest on negative cash taken and spread over
    /// the pool. Where the pool is worth nothing there is no open lifetime to
    /// attribute it to, and nothing is charged.
    pub open spec fn with_interest(self, prices: Seq<Option<N>>, daily: N) -> Account<N> {
        let pool = interest_pool(self.positions);
        let total = broker::sum_over(
            pool,
            |id: u16| broker::gross(self.positions, prices, id),
        );
        if N::zero().lt(total) {
            let interest = daily.mul(self.cash.neg());
            Account { cash: self.cash.sub(interest), ..self }.with_shares(
                prices,
                pool,
                interest,
                total,
                0x1_0000,
            )
        } else {
            self
        }
    }

    /// The account after one trading day of financing.
    pub open spec fn with_financing(
        self,
        prices: Seq<Option<N>>,
        borrow_rate: N,
        interest_rate: N,
    ) -> Account<N> {
        if borrow_rate.le(N::zero()) && interest_rate.le(N::zero()) {
            self
        } else {
            let borrowed = if N::zero().lt(borrow_rate) {
                self.with_borrow_fees(prices, per_day(borrow_rate), 0x1_0000)
            } else {
                self
            };
            if N::zero().lt(interest_rate) && borrowed.cash.lt(N::zero()) {
                borrowed.with_interest(prices, per_day(interest_rate))
            } else {
                borrowed
            }
        }
    }
}

proof fn lemma_fees_keep_positions<N: Number>(
    account: Account<N>,
    prices: Seq<Option<N>>,
    daily: N,
    end: int,
)
    ensures
        account.with_borrow_fees(prices, daily, end).positions == account.positions,
    decreases end,
{
    if end > 0 {
        lemma_fees_keep_positions(account, prices, daily, end - 1);
    }
}

proof fn lemma_fees_gap<N: Number>(
    account: Account<N>,
    prices: Seq<Option<N>>,
    daily: N,
    low: int,
    high: int,
)
    requires
        0 <= low <= high <= 0x1_0000,
        forall|id: u16| low <= id < high ==> !short_ids(account.positions).contains(id),
    ensures
        account.with_borrow_fees(prices, daily, high) == account.with_borrow_fees(
            prices,
            daily,
            low,
        ),
    decreases high - low,
{
    if low < high {
        lemma_fees_gap(account, prices, daily, low, high - 1);
        assert(!short_ids(account.positions).contains((high - 1) as u16));
    }
}

proof fn lemma_shares_gap<N: Number>(
    account: Account<N>,
    prices: Seq<Option<N>>,
    pool: Set<u16>,
    amount: N,
    total: N,
    low: int,
    high: int,
)
    requires
        0 <= low <= high <= 0x1_0000,
        forall|id: u16| low <= id < high ==> !pool.contains(id),
    ensures
        account.with_shares(prices, pool, amount, total, high) == account.with_shares(
            prices,
            pool,
            amount,
            total,
            low,
        ),
    decreases high - low,
{
    if low < high {
        lemma_shares_gap(account, prices, pool, amount, total, low, high - 1);
        assert(!pool.contains((high - 1) as u16));
    }
}

impl<N: Number> Engine<N> {
    /// `after` is `self` once a day of financing has been taken.
    pub open(crate) spec fn finances(self, after: Engine<N>) -> bool {
        &&& after.moved_account(self)
        &&& after.account() == self.account().with_financing(
            self.prices(),
            self.ctx.settings.short_borrow_rate,
            self.ctx.settings.margin_interest_rate,
        )
    }

    /// Accrue one trading day of financing on positions carried into a new day:
    /// a borrow fee on shorts and margin interest on any negative cash balance.
    /// Charges are deducted from cash and attributed to position PnL: shorts
    /// bear their own borrow fee, margin interest is spread across the long
    /// book by market value.
    pub fn apply_financing(&mut self)
        ensures
            old(self).finances(*final(self)),
    {
        let borrow_rate = self.ctx.settings.short_borrow_rate;
        let interest_rate = self.ctx.settings.margin_interest_rate;
        if borrow_rate.le(N::zero()) && interest_rate.le(N::zero()) {
            return;
        }
        if N::zero().lt(borrow_rate) {
            let daily = borrow_rate.div(N::from_u64(TRADING_DAYS_PER_YEAR));
            self.charge_borrow_fees(daily);
        }
        if N::zero().lt(interest_rate) && self.ctx.portfolio.cash.lt(N::zero()) {
            let daily = interest_rate.div(N::from_u64(TRADING_DAYS_PER_YEAR));
            self.charge_interest(daily);
        }
    }

    /// What the position in `symbol` is worth in size.
    fn gross_of(&self, symbol: Symbol) -> (r: N)
        requires
            self.ctx.portfolio.held().contains_key(symbol.id()),
        ensures
            r == broker::gross(self.ctx.portfolio.held(), self.prices(), symbol.id()),
    {
        let price = price_or(
            &self.last_known_prices,
            symbol,
            self.ctx.portfolio.basis(symbol),
        );
        self.ctx.portfolio.quantity(symbol).abs().mul(price)
    }

    fn charge_borrow_fees(&mut self, daily: N)
        ensures
            final(self).moved_account(*old(self)),
            final(self).account() == old(self).account().with_borrow_fees(
                old(self).prices(),
                daily,
                0x1_0000,
            ),
    {
        let symbols = self.ctx.portfolio.positions.symbols();
        let ghost start = *self;
        let ghost listed = symbol::ids_of(symbols@);
        let ghost shorts = short_ids(start.account().positions);
        proof {
            broker::lemma_listed_walks(listed, start.ctx.portfolio.held(), shorts);
        }
        for i in 0..symbols.len()
            invariant
                listed == symbol::ids_of(symbols@),
                symbol::lists_ids(listed, start.ctx.portfolio.held()),
                shorts == short_ids(start.account().positions),
                broker::walks(listed, shorts),
                self.moved_account(start),
                self.account() == start.account().with_borrow_fees(
                    start.prices(),
                    daily,
                    broker::end_before(listed, i as int),
                ),
        {
            let symbol = symbols[i];
            proof {
                assert(listed[i as int] == symbol.id());
                assert(listed.contains(symbol.id()));
                assert(start.ctx.portfolio.held().contains_key(symbol.id()));
                broker::lemma_nothing_between(listed, shorts, i as int);
                lemma_fees_gap(
                    start.account(),
                    start.prices(),
                    daily,
                    broker::end_before(listed, i as int),
                    symbol.id() as int,
                );
                lemma_fees_keep_positions(
                    start.account(),
                    start.prices(),
                    daily,
                    symbol.id() as int,
                );
            }
            if self.ctx.portfolio.quantity(symbol).lt(N::zero()) {
                let fee = daily.mul(self.gross_of(symbol));
                self.ctx.portfolio.cash = self.ctx.portfolio.cash.sub(fee);
                self.ledger.charge(symbol, fee);
            }
        }
        proof {
            broker::lemma_nothing_between(listed, shorts, listed.len() as int);
            lemma_fees_gap(
                start.account(),
                start.prices(),
                daily,
                broker::end_before(listed, listed.len() as int),
                0x1_0000,
            );
        }
    }

    /// The symbols that bear margin interest, in id order, and what their
    /// positions are worth in size.
    fn interest_bearers(&self) -> (r: (Vec<Symbol>, N))
        ensures
            symbol::lists_members(
                symbol::ids_of(r.0@),
                interest_pool(self.ctx.portfolio.held()),
            ),
            r.1 == broker::sum_over(
                interest_pool(self.ctx.portfolio.held()),
                |id: u16| broker::gross(self.ctx.portfolio.held(), self.prices(), id),
            ),
    {
        let symbols = self.ctx.portfolio.positions.symbols();
        let ghost held = self.ctx.portfolio.held();
        let ghost listed = symbol::ids_of(symbols@);
        let mut longs: Vec<Symbol> = Vec::new();
        for i in 0..symbols.len()
            invariant
                held == self.ctx.portfolio.held(),
                listed == symbol::ids_of(symbols@),
                symbol::lists_ids(listed, held),
                forall|j: int, k: int|
                    0 <= j < k < longs@.len() ==> #[trigger] longs@[j].id() < #[trigger] longs@[k].id(),
                forall|j: int|
                    0 <= j < longs@.len() ==> #[trigger] longs@[j].id() < broker::end_before(
                        listed,
                        i as int,
                    ),
                forall|j: int|
                    0 <= j < longs@.len() ==> long_ids(held).contains(#[trigger] longs@[j].id()),
                forall|j: int|
                    0 <= j < i && long_ids(held).contains(#[trigger] listed[j])
                        ==> symbol::ids_of(longs@).contains(listed[j]),
        {
            let symbol = symbols[i];
            let ghost before = longs@;
            proof {
                assert(listed[i as int] == symbol.id());
                assert(listed.contains(symbol.id()));
                assert(held.contains_key(symbol.id()));
            }
            if N::zero().lt(self.ctx.portfolio.quantity(symbol)) {
                longs.push(symbol);
                proof {
                    assert(symbol::ids_of(longs@) =~= symbol::ids_of(before).push(symbol.id()));
                    assert(symbol::ids_of(longs@)[before.len() as int] == symbol.id());
                    assert forall|j: int|
                        0 <= j < i + 1 && long_ids(held).contains(
                            #[trigger] listed[j],
                        ) implies symbol::ids_of(longs@).contains(listed[j]) by {
                        if j < i {
                            let ids = symbol::ids_of(before);
                            let k = choose|k: int| 0 <= k < ids.len() && ids[k] == listed[j];
                            assert(symbol::ids_of(longs@)[k] == listed[j]);
                        }
                    }
                }
            }
        }
        proof {
            assert forall|id: u16| #[trigger]
                long_ids(held).contains(id) <==> symbol::ids_of(longs@).contains(id) by {
                if long_ids(held).contains(id) {
                    assert(held.contains_key(id));
                    let j = choose|j: int| 0 <= j < listed.len() && listed[j] == id;
                    assert(long_ids(held).contains(listed[j]));
                }
                if symbol::ids_of(longs@).contains(id) {
                    let ids = symbol::ids_of(longs@);
                    let j = choose|j: int| 0 <= j < ids.len() && ids[j] == id;
                    assert(longs@[j].id() == id);
                }
            }
        }
        let ghost pool = interest_pool(held);
        let bearers: Vec<Symbol>;
        if longs.len() == 0 {
            proof {
                assert forall|id: u16| !long_ids(held).contains(id) by {
                    assert(!symbol::ids_of(longs@).contains(id));
                }
                assert(long_ids(held) =~= Set::<u16>::empty());
                assert forall|id: u16| #[trigger] pool.contains(id) <==> listed.contains(id) by {
                    assert(held.contains_key(id) <==> listed.contains(id));
                }
            }
            bearers = symbols;
        } else {
            proof {
                assert(long_ids(held).contains(longs@[0].id()));
                assert(!(long_ids(held) =~= Set::<u16>::empty()));
            }
            bearers = longs;
        }
        let ghost walked = symbol::ids_of(bearers@);
        let ghost term = |id: u16| broker::gross(held, self.prices(), id);
        assert(symbol::lists_members(walked, pool));
        let mut total = N::zero();
        for i in 0..bearers.len()
            invariant
                held == self.ctx.portfolio.held(),
                pool == interest_pool(held),
                walked == symbol::ids_of(bearers@),
                symbol::lists_members(walked, pool),
                term == (|id: u16| broker::gross(held, self.prices(), id)),
                total == broker::sum_below(pool, term, broker::end_before(walked, i as int)),
        {
            let symbol = bearers[i];
            proof {
                assert(walked[i as int] == symbol.id());
                assert(walked.contains(symbol.id()));
                assert(pool.contains(symbol.id()));
                broker::lemma_sum_step(walked, pool, term, i as int);
            }
            total = total.add(self.gross_of(symbol));
        }
        proof {
            broker::lemma_sum_end(walked, pool, term);
        }
        (bearers, total)
    }

    fn charge_interest(&mut self, daily: N)
        ensures
            final(self).moved_account(*old(self)),
            final(self).account() == old(self).account().with_interest(old(self).prices(), daily),
    {
        let (bearers, total) = self.interest_bearers();
        if !N::zero().lt(total) {
            return;
        }
        let ghost start = *self;
        let ghost pool = interest_pool(start.account().positions);
        let ghost walked = symbol::ids_of(bearers@);
        let interest = daily.mul(self.ctx.portfolio.cash.neg());
        self.ctx.portfolio.cash = self.ctx.portfolio.cash.sub(interest);
        let ghost paid = self.account();
        for i in 0..bearers.len()
            invariant
                walked == symbol::ids_of(bearers@),
                pool == interest_pool(start.account().positions),
                symbol::lists_members(walked, pool),
                paid.positions == start.account().positions,
                self.moved_account(start),
                self.ctx.portfolio.held() == start.ctx.portfolio.held(),
                self.account() == paid.with_shares(
                    start.prices(),
                    pool,
                    interest,
                    total,
                    broker::end_before(walked, i as int),
                ),
        {
            let symbol = bearers[i];
            proof {
                assert(walked[i as int] == symbol.id());
                assert(walked.contains(symbol.id()));
                assert(pool.contains(symbol.id()));
                broker::lemma_nothing_between(walked, pool, i as int);
                lemma_shares_gap(
                    paid,
                    start.prices(),
                    pool,
                    interest,
                    total,
                    broker::end_before(walked, i as int),
                    symbol.id() as int,
                );
            }
            let share = interest.mul(self.gross_of(symbol).div(total));
            self.ledger.charge(symbol, share);
        }
        proof {
            broker::lemma_nothing_between(walked, pool, walked.len() as int);
            lemma_shares_gap(
                paid,
                start.prices(),
                pool,
                interest,
                total,
                broker::end_before(walked, walked.len() as int),
                0x1_0000,
            );
        }
    }
}

} // verus!
