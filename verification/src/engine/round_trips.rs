//! Trades as averages: a completed trade was entered at the average price of the
//! fills that built the position and left at that of the fills that unwound it, and
//! it realized the cash that went in and out.

use vstd::prelude::*;

use crate::broker;
use crate::engine::accounting;
use crate::engine::ledger::OpenLifetime;
use crate::engine::state::{Account, FilledOrder};
use crate::exact;
use crate::number;
use crate::number::Number;
use crate::stats::TradeView;
use crate::symbol::Symbol;

verus! {

impl<N: Number> Account<N> {
    /// The account after the first `n` of some fills of one symbol.
    pub open spec fn traded(
        self,
        symbol: Symbol,
        name: Seq<char>,
        deals: Seq<FilledOrder<N>>,
        counts_volume: bool,
        n: int,
    ) -> Account<N>
        decreases n,
    {
        if n <= 0 {
            self
        } else {
            let deal = deals[n - 1];
            self.traded(symbol, name, deals, counts_volume, n - 1).with_fill(
                symbol,
                name,
                deal.quantity,
                deal.price,
                deal.fee,
                deal.time,
                counts_volume,
            )
        }
    }

    /// Whether nothing runs out of range as a fill is taken into the account, its
    /// position and its lifetime.
    pub open spec fn deal_fits(self, symbol: Symbol, name: Seq<char>, deal: FilledOrder<N>)
        -> bool {
        let fill = self.filled(symbol, name, deal.quantity, deal.price, deal.fee, deal.time);
        let lifetime = self.ledger.lifetime_or(symbol.id(), deal.time, fill.held.signum());
        &&& !number::negligible(deal.quantity)
        &&& self.fill_fits(fill)
        &&& deal.quantity.abs().mul(deal.price).is_finite()
        &&& lifetime.entry_qty.add(deal.quantity.abs()).is_finite()
        &&& lifetime.entry_value.add(deal.quantity.abs().mul(deal.price)).is_finite()
        &&& fill.held.abs().is_finite()
        &&& fill.closed().mul(deal.price).is_finite()
        &&& lifetime.closed_qty.add(fill.closed()).is_finite()
        &&& lifetime.close_value.add(fill.closed().mul(deal.price)).is_finite()
    }
}

/// Whether a fill of `qty` shares adds to `held` shares, or opens the position.
pub open spec fn builds(held: real, qty: real) -> bool {
    held == 0real || (held > 0real && qty > 0real) || (held < 0real && qty < 0real)
}

/// The shares held after the first `n` fills from flat.
pub open spec fn shares_held<N>(
    deals: Seq<FilledOrder<N>>,
    val: spec_fn(N) -> real,
    n: int,
) -> real
    decreases n,
{
    if n <= 0 {
        0real
    } else {
        shares_held(deals, val, n - 1) + val(deals[n - 1].quantity)
    }
}

/// The shares the first `n` fills bought into the position, either way.
pub open spec fn shares_built<N>(
    deals: Seq<FilledOrder<N>>,
    val: spec_fn(N) -> real,
    n: int,
) -> real
    decreases n,
{
    if n <= 0 {
        0real
    } else {
        let qty = val(deals[n - 1].quantity);
        shares_built(deals, val, n - 1) + if builds(shares_held(deals, val, n - 1), qty) {
            exact::magnitude(qty)
        } else {
            0real
        }
    }
}

/// What those shares came to, each at the price of its fill.
pub open spec fn amount_built<N>(
    deals: Seq<FilledOrder<N>>,
    val: spec_fn(N) -> real,
    n: int,
) -> real
    decreases n,
{
    if n <= 0 {
        0real
    } else {
        let qty = val(deals[n - 1].quantity);
        amount_built(deals, val, n - 1) + if builds(shares_held(deals, val, n - 1), qty) {
            exact::magnitude(qty) * val(deals[n - 1].price)
        } else {
            0real
        }
    }
}

/// The shares the first `n` fills unwound: of a fill that goes past flat, those
/// that were held.
pub open spec fn shares_unwound<N>(
    deals: Seq<FilledOrder<N>>,
    val: spec_fn(N) -> real,
    n: int,
) -> real
    decreases n,
{
    if n <= 0 {
        0real
    } else {
        let held = shares_held(deals, val, n - 1);
        let qty = val(deals[n - 1].quantity);
        shares_unwound(deals, val, n - 1) + if builds(held, qty) {
            0real
        } else {
            exact::smaller(exact::magnitude(qty), exact::magnitude(held))
        }
    }
}

/// What those shares came to, each at the price of its fill.
pub open spec fn amount_unwound<N>(
    deals: Seq<FilledOrder<N>>,
    val: spec_fn(N) -> real,
    n: int,
) -> real
    decreases n,
{
    if n <= 0 {
        0real
    } else {
        let held = shares_held(deals, val, n - 1);
        let qty = val(deals[n - 1].quantity);
        amount_unwound(deals, val, n - 1) + if builds(held, qty) {
            0real
        } else {
            exact::smaller(exact::magnitude(qty), exact::magnitude(held)) * val(
                deals[n - 1].price,
            )
        }
    }
}

/// The fees of the first `n` fills.
pub open spec fn fees_paid<N>(deals: Seq<FilledOrder<N>>, val: spec_fn(N) -> real, n: int) -> real
    decreases n,
{
    if n <= 0 {
        0real
    } else {
        fees_paid(deals, val, n - 1) + val(deals[n - 1].fee)
    }
}

impl<N: Number> Account<N> {
    /// Whether a position under `id` is open, in the direction of `way`, with its
    /// lifetime.
    pub open spec fn carries(self, id: u16, way: real, val: spec_fn(N) -> real) -> bool {
        &&& self.positions.contains_key(id)
        &&& self.ledger.lifetimes.contains_key(id)
        &&& exact::sign(val(self.positions[id].quantity)) == way
    }

    /// Whether nothing is held under `id`.
    pub open spec fn is_flat(self, id: u16) -> bool {
        &&& !self.positions.contains_key(id)
        &&& !self.ledger.lifetimes.contains_key(id)
    }

    /// Whether some fills of one symbol are one round trip: from flat, through a
    /// position held in one direction, to flat again.
    pub open spec fn makes_a_round_trip(
        self,
        symbol: Symbol,
        name: Seq<char>,
        deals: Seq<FilledOrder<N>>,
        counts_volume: bool,
        val: spec_fn(N) -> real,
    ) -> bool {
        let id = symbol.id();
        let way = exact::sign(val(deals[0].quantity));
        &&& deals.len() >= 2
        &&& self.is_flat(id)
        &&& self.paired(val)
        &&& forall|i: int|
            0 < i < deals.len() ==> (#[trigger] self.traded(symbol, name, deals, counts_volume, i))
                .carries(id, way, val)
        &&& self.traded(symbol, name, deals, counts_volume, deals.len() as int).is_flat(id)
        &&& forall|i: int|
            0 <= i < deals.len() ==> (#[trigger] self.traded(symbol, name, deals, counts_volume, i))
                .deal_fits(symbol, name, deals[i])
    }
}

/// Whether a lifetime's figures are those of the first `n` fills.
pub open spec fn sums_up<N>(
    lifetime: OpenLifetime<N>,
    deals: Seq<FilledOrder<N>>,
    val: spec_fn(N) -> real,
    step: real,
    n: int,
) -> bool {
    let slack = exact::integer(n) * step;
    &&& val(lifetime.entry_qty) == shares_built(deals, val, n)
    &&& exact::close(val(lifetime.entry_value), amount_built(deals, val, n), slack)
    &&& val(lifetime.closed_qty) == shares_unwound(deals, val, n)
    &&& exact::close(val(lifetime.close_value), amount_unwound(deals, val, n), slack)
    &&& val(lifetime.direction) == exact::sign(val(deals[0].quantity))
    &&& lifetime.entry_time == deals[0].time
}

/// The lifetime of a position once another fill is taken into it, still open or
/// about to be netted.
proof fn lemma_deal<N: Number>(
    account: Account<N>,
    symbol: Symbol,
    name: Seq<char>,
    deal: FilledOrder<N>,
    counts_volume: bool,
    val: spec_fn(N) -> real,
    step: real,
)
    requires
        exact::near(val, step),
        account.paired(val),
        account.deal_fits(symbol, name, deal),
    ensures
        ({
            let id = symbol.id();
            let held = val(broker::quantity_of(account.positions, id));
            let qty = val(deal.quantity);
            let price = val(deal.price);
            let after = account.with_fill(
                symbol,
                name,
                deal.quantity,
                deal.price,
                deal.fee,
                deal.time,
                counts_volume,
            );
            let old = account.ledger.lifetimes[id];
            let new = after.ledger.lifetimes[id];
            let closed = exact::smaller(exact::magnitude(qty), exact::magnitude(held));
            &&& qty != 0real
            &&& after.positions.contains_key(id) ==> val(after.positions[id].quantity) == held + qty
            &&& held == 0real ==> {
                &&& after.ledger.lifetimes.contains_key(id)
                &&& after.ledger.trades == account.ledger.trades
                &&& val(new.entry_qty) == exact::magnitude(qty)
                &&& exact::close(val(new.entry_value), exact::magnitude(qty) * price, step)
                &&& val(new.closed_qty) == 0real
                &&& val(new.close_value) == 0real
                &&& val(new.direction) == exact::sign(qty)
                &&& new.entry_time == deal.time
            }
            &&& held != 0real && builds(held, qty) && account.ledger.lifetimes.contains_key(id)
                ==> {
                &&& after.ledger.lifetimes.contains_key(id)
                &&& after.ledger.trades == account.ledger.trades
                &&& val(new.entry_qty) == val(old.entry_qty) + exact::magnitude(qty)
                &&& exact::close(
                    val(new.entry_value),
                    val(old.entry_value) + exact::magnitude(qty) * price,
                    step,
                )
                &&& val(new.closed_qty) == val(old.closed_qty)
                &&& val(new.close_value) == val(old.close_value)
                &&& val(new.direction) == val(old.direction)
                &&& new.entry_time == old.entry_time
            }
            &&& !builds(held, qty) && account.ledger.lifetimes.contains_key(id) ==> {
                let gain = account.filled(
                    symbol,
                    name,
                    deal.quantity,
                    deal.price,
                    deal.fee,
                    deal.time,
                ).gain().sub(deal.fee);
                let fill = account.filled(
                    symbol,
                    name,
                    deal.quantity,
                    deal.price,
                    deal.fee,
                    deal.time,
                );
                let last = old.unwound(fill.closed(), deal.price, gain);
                &&& val(last.entry_qty) == val(old.entry_qty)
                &&& val(last.entry_value) == val(old.entry_value)
                &&& val(last.closed_qty) == val(old.closed_qty) + closed
                &&& exact::close(
                    val(last.close_value),
                    val(old.close_value) + closed * price,
                    step,
                )
                &&& val(last.direction) == val(old.direction)
                &&& last.entry_time == old.entry_time
                &&& !after.ledger.lifetimes.contains_key(id) ==> after.ledger.trades
                    == account.ledger.trades.push(last.trade(name, deal.time, "signal"@))
                &&& after.carries(id, exact::sign(held), val) ==> {
                    &&& new == last
                    &&& after.ledger.trades == account.ledger.trades
                }
            }
        }),
{
    let id = symbol.id();
    let fill = account.filled(symbol, name, deal.quantity, deal.price, deal.fee, deal.time);
    let held = val(fill.held);
    let qty = val(deal.quantity);
    assert(exact::short_of(
        val(deal.quantity.abs().mul(deal.price)),
        exact::magnitude(qty) * val(deal.price),
        step,
    ));
    assert(exact::short_of(
        val(fill.closed().mul(deal.price)),
        val(fill.closed()) * val(deal.price),
        step,
    ));
    if held != 0real {
        assert(exact::short_of(val(deal.quantity.mul(fill.held)), qty * held, step));
        assert((builds(held, qty) ==> qty * held > 0real) && (!builds(held, qty) ==> qty * held
            < 0real)) by (nonlinear_arith)
            requires
                held != 0real,
                qty != 0real,
        ;
        assert(fill.adds() <==> builds(held, qty));
    }
}

proof fn lemma_life<N: Number>(
    account: Account<N>,
    symbol: Symbol,
    name: Seq<char>,
    deals: Seq<FilledOrder<N>>,
    counts_volume: bool,
    val: spec_fn(N) -> real,
    step: real,
    n: int,
)
    requires
        exact::near(val, step),
        account.makes_a_round_trip(symbol, name, deals, counts_volume, val),
        0 < n < deals.len(),
    ensures
        ({
            let id = symbol.id();
            let now = account.traded(symbol, name, deals, counts_volume, n);
            &&& now.paired(val)
            &&& now.carries(id, exact::sign(val(deals[0].quantity)), val)
            &&& val(now.positions[id].quantity) == shares_held(deals, val, n)
            &&& shares_held(deals, val, n) != 0real
            &&& now.ledger.trades == account.ledger.trades
            &&& sums_up(now.ledger.lifetimes[id], deals, val, step, n)
        }),
    decreases n,
{
    let id = symbol.id();
    let before = account.traded(symbol, name, deals, counts_volume, n - 1);
    let deal = deals[n - 1];
    assert(before.deal_fits(symbol, name, deal));
    let now = account.traded(symbol, name, deals, counts_volume, n);
    assert(now.carries(id, exact::sign(val(deals[0].quantity)), val));
    if n > 1 {
        lemma_life(account, symbol, name, deals, counts_volume, val, step, n - 1);
    } else {
        assert(shares_held(deals, val, 0) == 0real);
        assert(shares_built(deals, val, 0) == 0real);
        assert(amount_built(deals, val, 0) == 0real);
        assert(shares_unwound(deals, val, 0) == 0real);
        assert(amount_unwound(deals, val, 0) == 0real);
    }
    lemma_deal(before, symbol, name, deal, counts_volume, val, step);
    accounting::fills_keep_the_balance(
        before,
        symbol,
        name,
        deal.quantity,
        deal.price,
        deal.fee,
        deal.time,
        counts_volume,
        val,
        step,
    );
    assert(exact::integer(n) * step == exact::integer(n - 1) * step + step) by (nonlinear_arith)
        requires
            exact::integer(n) == exact::integer(n - 1) + 1real,
    ;
    assert(exact::integer(n - 1) * step >= 0real) by (nonlinear_arith)
        requires
            exact::integer(n - 1) >= 0real,
            step >= 0real,
    ;
}

proof fn lemma_average(shares: real, value: real, average: real, amount: real, n: real, step: real)
    by (nonlinear_arith)
    requires
        shares > 0real,
        step >= 0real,
        exact::close(value, amount, n * step),
        exact::close(average, value / shares, step),
    ensures
        exact::close(average * shares, amount, (shares + n) * step),
{
    let q = value / shares;
    assert(q * shares == value);
    assert((q - step) * shares <= average * shares <= (q + step) * shares);
    assert((shares + n) * step == shares * step + n * step);
}

proof fn lemma_built_is_positive<N: Number>(
    deals: Seq<FilledOrder<N>>,
    val: spec_fn(N) -> real,
    n: int,
)
    requires
        n >= 1,
        val(deals[0].quantity) != 0real,
    ensures
        shares_built(deals, val, n) > 0real,
        shares_unwound(deals, val, n) >= 0real,
    decreases n,
{
    if n > 1 {
        lemma_built_is_positive(deals, val, n - 1);
    } else {
        assert(shares_held(deals, val, 0) == 0real);
        assert(shares_built(deals, val, 0) == 0real);
        assert(shares_unwound(deals, val, 0) == 0real);
    }
}

impl<N: Number> Account<N> {
    /// Whether the averages of a completed trade stay in range.
    pub open spec fn averages_fit(
        self,
        symbol: Symbol,
        name: Seq<char>,
        deals: Seq<FilledOrder<N>>,
        counts_volume: bool,
    ) -> bool {
        let trades = self.traded(
            symbol,
            name,
            deals,
            counts_volume,
            deals.len() as int,
        ).ledger.trades;
        trades.last().entry_price.is_finite() && trades.last().exit_price.is_finite()
    }
}

/// A round trip becomes one trade. Its entry price times the shares entered is
/// what the fills that built the position came to, each at its own size and price;
/// its exit price times the shares it closed is what the fills that unwound it came
/// to, but for the rounding of a product a fill and of the average. It tells the
/// direction, the instant of the first fill and that of the last.
pub proof fn trades_average_their_fills<N: Number>(
    account: Account<N>,
    symbol: Symbol,
    name: Seq<char>,
    deals: Seq<FilledOrder<N>>,
    counts_volume: bool,
    val: spec_fn(N) -> real,
    step: real,
) -> (trade: TradeView<N>)
    requires
        exact::near(val, step),
        account.makes_a_round_trip(symbol, name, deals, counts_volume, val),
        account.averages_fit(symbol, name, deals, counts_volume),
    ensures
        account.traded(symbol, name, deals, counts_volume, deals.len() as int).ledger.trades
            == account.ledger.trades.push(trade),
        ({
            let n = deals.len() as int;
            let built = shares_built(deals, val, n);
            let unwound = shares_unwound(deals, val, n);
            &&& built > 0real
            &&& unwound > 0real
            &&& exact::close(
                val(trade.entry_price) * built,
                amount_built(deals, val, n),
                (built + exact::integer(n)) * step,
            )
            &&& exact::close(
                val(trade.exit_price) * unwound,
                amount_unwound(deals, val, n),
                (unwound + exact::integer(n)) * step,
            )
            &&& val(trade.quantity) == unwound
            &&& trade.symbol == name
            &&& trade.direction == if val(deals[0].quantity) > 0real {
                "long"@
            } else {
                "short"@
            }
            &&& trade.entry_time == crate::calendar::instant_text(
                deals[0].time.secs(),
                deals[0].time.subsec(),
            )
            &&& trade.exit_time == crate::calendar::instant_text(
                deals.last().time.secs(),
                deals.last().time.subsec(),
            )
            &&& trade.exit_reason == "signal"@
        }),
{
    let id = symbol.id();
    let n = deals.len() as int;
    let before = account.traded(symbol, name, deals, counts_volume, n - 1);
    let deal = deals[n - 1];
    lemma_life(account, symbol, name, deals, counts_volume, val, step, n - 1);
    assert(before.deal_fits(symbol, name, deal));
    assert(account.traded(symbol, name, deals, counts_volume, 0).deal_fits(symbol, name, deals[0]));
    lemma_deal(before, symbol, name, deal, counts_volume, val, step);
    let held = shares_held(deals, val, n - 1);
    let qty = val(deal.quantity);
    let after = account.traded(symbol, name, deals, counts_volume, n);
    assert(!after.ledger.lifetimes.contains_key(id));
    assert(!builds(held, qty));
    let fill = before.filled(symbol, name, deal.quantity, deal.price, deal.fee, deal.time);
    let last = before.ledger.lifetimes[id].unwound(
        fill.closed(),
        deal.price,
        fill.gain().sub(deal.fee),
    );
    let trade = last.trade(name, deal.time, "signal"@);
    assert(after.ledger.trades.last() == trade);
    lemma_built_is_positive(deals, val, n - 1);
    assert(exact::integer(n) * step == exact::integer(n - 1) * step + step) by (nonlinear_arith)
        requires
            exact::integer(n) == exact::integer(n - 1) + 1real,
    ;
    assert(exact::short_of(
        val(trade.entry_price),
        val(last.entry_value) / val(last.entry_qty),
        step,
    ));
    assert(exact::short_of(
        val(trade.exit_price),
        val(last.close_value) / val(last.closed_qty),
        step,
    ));
    lemma_average(
        shares_built(deals, val, n),
        val(last.entry_value),
        val(trade.entry_price),
        amount_built(deals, val, n),
        exact::integer(n),
        step,
    );
    lemma_average(
        shares_unwound(deals, val, n),
        val(last.close_value),
        val(trade.exit_price),
        amount_unwound(deals, val, n),
        exact::integer(n),
        step,
    );
    trade
}

proof fn lemma_amounts_lie_between<N: Number>(
    deals: Seq<FilledOrder<N>>,
    val: spec_fn(N) -> real,
    low: real,
    high: real,
    n: int,
)
    requires
        0 <= n <= deals.len(),
        forall|i: int| 0 <= i < deals.len() ==> low <= val((#[trigger] deals[i]).price) <= high,
    ensures
        low * shares_built(deals, val, n) <= amount_built(deals, val, n) <= high * shares_built(
            deals,
            val,
            n,
        ),
        low * shares_unwound(deals, val, n) <= amount_unwound(deals, val, n) <= high
            * shares_unwound(deals, val, n),
    decreases n,
{
    if n > 0 {
        lemma_amounts_lie_between(deals, val, low, high, n - 1);
        let deal = deals[n - 1];
        let held = shares_held(deals, val, n - 1);
        let qty = val(deal.quantity);
        let built = if builds(held, qty) {
            exact::magnitude(qty)
        } else {
            0real
        };
        let unwound = if builds(held, qty) {
            0real
        } else {
            exact::smaller(exact::magnitude(qty), exact::magnitude(held))
        };
        lemma_weighed(shares_built(deals, val, n - 1), built, val(deal.price), low, high);
        lemma_weighed(shares_unwound(deals, val, n - 1), unwound, val(deal.price), low, high);
    } else {
        assert(low * 0real == 0real && high * 0real == 0real) by (nonlinear_arith);
    }
}

proof fn lemma_weighed(before: real, more: real, price: real, low: real, high: real)
    by (nonlinear_arith)
    requires
        more >= 0real,
        low <= price <= high,
    ensures
        low * (before + more) <= low * before + more * price,
        high * before + more * price <= high * (before + more),
        more == 0real ==> more * price == 0real,
{
}

/// A trade's entry and exit prices lie between the lowest and the highest price of
/// its fills, but for rounding.
pub proof fn trades_are_priced_between_their_fills<N: Number>(
    account: Account<N>,
    symbol: Symbol,
    name: Seq<char>,
    deals: Seq<FilledOrder<N>>,
    counts_volume: bool,
    low: real,
    high: real,
    val: spec_fn(N) -> real,
    step: real,
)
    requires
        exact::near(val, step),
        account.makes_a_round_trip(symbol, name, deals, counts_volume, val),
        account.averages_fit(symbol, name, deals, counts_volume),
        forall|i: int| 0 <= i < deals.len() ==> low <= val((#[trigger] deals[i]).price) <= high,
    ensures
        ({
            let n = deals.len() as int;
            let built = shares_built(deals, val, n);
            let unwound = shares_unwound(deals, val, n);
            let trade = account.traded(symbol, name, deals, counts_volume, n).ledger.trades.last();
            &&& (low - step) * built - exact::integer(n) * step <= val(trade.entry_price) * built
                <= (high + step) * built + exact::integer(n) * step
            &&& (low - step) * unwound - exact::integer(n) * step <= val(trade.exit_price)
                * unwound <= (high + step) * unwound + exact::integer(n) * step
        }),
{
    let n = deals.len() as int;
    let trade = trades_average_their_fills(
        account,
        symbol,
        name,
        deals,
        counts_volume,
        val,
        step,
    );
    lemma_amounts_lie_between(deals, val, low, high, n);
    let built = shares_built(deals, val, n);
    let unwound = shares_unwound(deals, val, n);
    lemma_widened(built, low, high, exact::integer(n), step);
    lemma_widened(unwound, low, high, exact::integer(n), step);
}

proof fn lemma_widened(shares: real, low: real, high: real, n: real, step: real)
    by (nonlinear_arith)
    ensures
        low * shares - (shares + n) * step == (low - step) * shares - n * step,
        high * shares + (shares + n) * step == (high + step) * shares + n * step,
{
}

impl<N: Number> Account<N> {
    /// What the first `n` fills may move the balance of the books by.
    pub open spec fn trading_slack(
        self,
        symbol: Symbol,
        name: Seq<char>,
        deals: Seq<FilledOrder<N>>,
        counts_volume: bool,
        val: spec_fn(N) -> real,
        step: real,
        n: int,
    ) -> real
        decreases n,
    {
        if n <= 0 {
            0real
        } else {
            let before = self.traded(symbol, name, deals, counts_volume, n - 1);
            let deal = deals[n - 1];
            self.trading_slack(symbol, name, deals, counts_volume, val, step, n - 1)
                + before.fill_slack(symbol.id(), deal.quantity, deal.price, val, step)
        }
    }
}

/// The shares of the first `n` fills, each at its price: what was paid, less what
/// was got.
pub open spec fn amount_paid<N>(deals: Seq<FilledOrder<N>>, val: spec_fn(N) -> real, n: int) -> real
    decreases n,
{
    if n <= 0 {
        0real
    } else {
        amount_paid(deals, val, n - 1) + val(deals[n - 1].quantity) * val(deals[n - 1].price)
    }
}

proof fn lemma_books<N: Number>(
    account: Account<N>,
    symbol: Symbol,
    name: Seq<char>,
    deals: Seq<FilledOrder<N>>,
    counts_volume: bool,
    val: spec_fn(N) -> real,
    step: real,
    n: int,
)
    requires
        exact::near(val, step),
        account.makes_a_round_trip(symbol, name, deals, counts_volume, val),
        0 <= n <= deals.len(),
    ensures
        ({
            let id = symbol.id();
            let now = account.traded(symbol, name, deals, counts_volume, n);
            &&& now.paired(val)
            &&& now.positions.remove(id) == account.positions.remove(id)
            &&& now.ledger.lifetimes.remove(id) == account.ledger.lifetimes.remove(id)
            &&& exact::close(
                now.balance(val),
                account.balance(val),
                account.trading_slack(symbol, name, deals, counts_volume, val, step, n),
            )
            &&& exact::close(
                val(now.cash),
                val(account.cash) - amount_paid(deals, val, n) - fees_paid(deals, val, n),
                exact::integer(n) * step,
            )
        }),
    decreases n,
{
    let id = symbol.id();
    if n > 0 {
        lemma_books(account, symbol, name, deals, counts_volume, val, step, n - 1);
        let before = account.traded(symbol, name, deals, counts_volume, n - 1);
        let now = account.traded(symbol, name, deals, counts_volume, n);
        let deal = deals[n - 1];
        assert(before.deal_fits(symbol, name, deal));
        accounting::fills_keep_the_balance(
            before,
            symbol,
            name,
            deal.quantity,
            deal.price,
            deal.fee,
            deal.time,
            counts_volume,
            val,
            step,
        );
        assert(now.positions.remove(id) =~= before.positions.remove(id));
        assert(now.ledger.lifetimes.remove(id) =~= before.ledger.lifetimes.remove(id));
        assert(exact::short_of(
            val(deal.quantity.mul(deal.price)),
            val(deal.quantity) * val(deal.price),
            step,
        ));
        assert(exact::integer(n) * step == exact::integer(n - 1) * step + step)
            by (nonlinear_arith)
            requires
                exact::integer(n) == exact::integer(n - 1) + 1real,
        ;
    } else {
        assert(exact::integer(0) * step == 0real) by (nonlinear_arith)
            requires
                exact::integer(0) == 0real,
        ;
    }
}

proof fn lemma_paid_both_ways<N: Number>(
    account: Account<N>,
    symbol: Symbol,
    name: Seq<char>,
    deals: Seq<FilledOrder<N>>,
    counts_volume: bool,
    val: spec_fn(N) -> real,
    step: real,
    n: int,
)
    requires
        exact::near(val, step),
        account.makes_a_round_trip(symbol, name, deals, counts_volume, val),
        0 <= n <= deals.len(),
        n == deals.len() ==> shares_held(deals, val, n) == 0real,
    ensures
        ({
            let way = exact::sign(val(deals[0].quantity));
            &&& amount_paid(deals, val, n) == way * (amount_built(deals, val, n) - amount_unwound(
                deals,
                val,
                n,
            ))
            &&& shares_held(deals, val, n) == way * (shares_built(deals, val, n) - shares_unwound(
                deals,
                val,
                n,
            ))
        }),
    decreases n,
{
    let way = exact::sign(val(deals[0].quantity));
    if n > 0 {
        lemma_paid_both_ways(account, symbol, name, deals, counts_volume, val, step, n - 1);
        if n > 1 {
            lemma_life(account, symbol, name, deals, counts_volume, val, step, n - 1);
        }
        if n < deals.len() {
            lemma_life(account, symbol, name, deals, counts_volume, val, step, n);
        }
        let deal = deals[n - 1];
        assert(account.traded(symbol, name, deals, counts_volume, n - 1).deal_fits(
            symbol,
            name,
            deal,
        ));
        let held = shares_held(deals, val, n - 1);
        let qty = val(deal.quantity);
        assert(qty != 0real);
        lemma_both_ways(
            way,
            qty,
            val(deal.price),
            amount_built(deals, val, n - 1) - amount_unwound(deals, val, n - 1),
            shares_built(deals, val, n - 1) - shares_unwound(deals, val, n - 1),
        );
    } else {
        assert(way * 0real == 0real) by (nonlinear_arith);
    }
}

proof fn lemma_both_ways(way: real, qty: real, price: real, amount: real, shares: real)
    by (nonlinear_arith)
    requires
        way == 1real || way == -1real,
    ensures
        exact::sign(qty) == way ==> {
            &&& way * amount + qty * price == way * (amount + exact::magnitude(qty) * price)
            &&& way * shares + qty == way * (shares + exact::magnitude(qty))
        },
        exact::sign(qty) == -way ==> {
            &&& way * amount + qty * price == way * (amount - exact::magnitude(qty) * price)
            &&& way * shares + qty == way * (shares - exact::magnitude(qty))
        },
{
}

proof fn lemma_profit(
    way: real,
    shares: real,
    entry: real,
    exit: real,
    built: real,
    unwound: real,
    slack: real,
)
    by (nonlinear_arith)
    requires
        way == 1real || way == -1real,
        exact::close(entry * shares, built, slack),
        exact::close(exit * shares, unwound, slack),
    ensures
        exact::close(-(way * (built - unwound)), (exit - entry) * shares * way, 2real * slack),
{
    assert((exit - entry) * shares == exit * shares - entry * shares);
}

/// A round trip realizes what it brought in: a trade's profit is the change in
/// cash from before its first fill to after its last, and so, where it left
/// nothing over, the exit price less the entry price on every share, the other way
/// around for a short, less the commissions; but for rounding.
pub proof fn trades_realize_their_cash<N: Number>(
    account: Account<N>,
    symbol: Symbol,
    name: Seq<char>,
    deals: Seq<FilledOrder<N>>,
    counts_volume: bool,
    val: spec_fn(N) -> real,
    step: real,
)
    requires
        exact::near(val, step),
        account.makes_a_round_trip(symbol, name, deals, counts_volume, val),
        account.averages_fit(symbol, name, deals, counts_volume),
    ensures
        ({
            let n = deals.len() as int;
            let after = account.traded(symbol, name, deals, counts_volume, n);
            let trade = after.ledger.trades.last();
            let way = exact::sign(val(deals[0].quantity));
            let slack = account.trading_slack(symbol, name, deals, counts_volume, val, step, n);
            &&& exact::close(val(trade.pnl), val(after.cash) - val(account.cash), slack)
            &&& shares_held(deals, val, n) == 0real ==> exact::close(
                val(trade.pnl),
                (val(trade.exit_price) - val(trade.entry_price)) * val(trade.quantity) * way
                    - fees_paid(deals, val, n),
                slack + exact::integer(n) * step + 2real * ((val(trade.quantity) + exact::integer(
                    n,
                )) * step),
            )
        }),
{
    let id = symbol.id();
    let n = deals.len() as int;
    let after = account.traded(symbol, name, deals, counts_volume, n);
    let way = exact::sign(val(deals[0].quantity));
    let trade = trades_average_their_fills(
        account,
        symbol,
        name,
        deals,
        counts_volume,
        val,
        step,
    );
    lemma_books(account, symbol, name, deals, counts_volume, val, step, n);
    assert(after.positions =~= account.positions) by {
        assert(after.positions =~= after.positions.remove(id));
        assert(account.positions =~= account.positions.remove(id));
    }
    assert(after.ledger.lifetimes =~= account.ledger.lifetimes) by {
        assert(after.ledger.lifetimes =~= after.ledger.lifetimes.remove(id));
        assert(account.ledger.lifetimes =~= account.ledger.lifetimes.remove(id));
    }
    assert(account.ledger.trades.push(trade).drop_last() =~= account.ledger.trades);
    assert(accounting::closed_profit(after.ledger.trades, val) == accounting::closed_profit(
        account.ledger.trades,
        val,
    ) + val(trade.pnl));
    if shares_held(deals, val, n) == 0real {
        lemma_paid_both_ways(account, symbol, name, deals, counts_volume, val, step, n);
        let built = shares_built(deals, val, n);
        let unwound = shares_unwound(deals, val, n);
        assert(built == unwound) by (nonlinear_arith)
            requires
                0real == way * (built - unwound),
                way == 1real || way == -1real,
        ;
        lemma_profit(
            way,
            unwound,
            val(trade.entry_price),
            val(trade.exit_price),
            amount_built(deals, val, n),
            amount_unwound(deals, val, n),
            (unwound + exact::integer(n)) * step,
        );
    }
}

/// A fill that takes a position past flat ends its lifetime and begins another, in
/// the other direction: the first is netted into a trade at this fill for what was
/// held, and the second is entered at this instant and price for what is left over,
/// with nothing closed or realized yet.
pub proof fn turning_a_position_starts_a_new_lifetime<N: Number>(
    account: Account<N>,
    symbol: Symbol,
    name: Seq<char>,
    deal: FilledOrder<N>,
    counts_volume: bool,
    val: spec_fn(N) -> real,
    step: real,
)
    requires
        exact::near(val, step),
        account.deal_fits(symbol, name, deal),
        account.ledger.lifetimes.contains_key(symbol.id()),
        ({
            let held = val(broker::quantity_of(account.positions, symbol.id()));
            let total = held + val(deal.quantity);
            &&& held != 0real
            &&& exact::magnitude(total) > val(N::epsilon())
            &&& exact::sign(total) != exact::sign(held)
        }),
        account.filled(
            symbol,
            name,
            deal.quantity,
            deal.price,
            deal.fee,
            deal.time,
        ).total().abs().mul(deal.price).is_finite(),
    ensures
        ({
            let id = symbol.id();
            let held = val(broker::quantity_of(account.positions, id));
            let total = held + val(deal.quantity);
            let before = account.ledger.lifetimes[id];
            let after = account.with_fill(
                symbol,
                name,
                deal.quantity,
                deal.price,
                deal.fee,
                deal.time,
                counts_volume,
            );
            let new = after.ledger.lifetimes[id];
            let trade = after.ledger.trades.last();
            &&& after.ledger.trades.drop_last() == account.ledger.trades
            &&& after.ledger.trades.len() == account.ledger.trades.len() + 1
            &&& val(trade.quantity) == val(before.closed_qty) + exact::magnitude(held)
            &&& trade.exit_reason == "signal"@
            &&& after.ledger.lifetimes.contains_key(id)
            &&& after.ledger.lifetimes.remove(id) == account.ledger.lifetimes.remove(id)
            &&& val(new.direction) == exact::sign(total)
            &&& new.entry_time == deal.time
            &&& val(new.entry_qty) == exact::magnitude(total)
            &&& exact::close(
                val(new.entry_value),
                exact::magnitude(total) * val(deal.price),
                step,
            )
            &&& val(new.closed_qty) == 0real
            &&& val(new.close_value) == 0real
            &&& val(new.realized_pnl) == 0real
        }),
{
    let id = symbol.id();
    let fill = account.filled(symbol, name, deal.quantity, deal.price, deal.fee, deal.time);
    let held = val(fill.held);
    let qty = val(deal.quantity);
    assert(exact::short_of(val(deal.quantity.mul(fill.held)), qty * held, step));
    assert(qty * held < 0real) by (nonlinear_arith)
        requires
            (held > 0real && qty < 0real) || (held < 0real && qty > 0real),
    ;
    assert(!fill.adds());
    assert(val(fill.closed()) == exact::magnitude(held));
    assert(fill.finishes());
    assert(fill.flips());
    let after = account.with_fill(
        symbol,
        name,
        deal.quantity,
        deal.price,
        deal.fee,
        deal.time,
        counts_volume,
    );
    assert(exact::short_of(
        val(fill.total().abs().mul(deal.price)),
        val(fill.total().abs()) * val(deal.price),
        step,
    ));
    assert(after.ledger.trades.drop_last() =~= account.ledger.trades);
    assert(after.ledger.lifetimes.remove(id) =~= account.ledger.lifetimes.remove(id));
}

} // verus!
