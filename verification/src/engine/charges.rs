//! What a holder is paid and charged: dividends, the proceeds of a forced
//! liquidation, borrow fees and margin interest, as amounts.

use vstd::prelude::*;

use crate::broker;
use crate::broker::Position;
use crate::calendar::Time;
use crate::engine::corporate_actions;
use crate::engine::financing;
use crate::engine::state::{Account, Engine};
use crate::exact;
use crate::number;
use crate::number::Number;
use crate::symbol::Symbol;

verus! {

/// A dividend pays its amount for every share held long and takes it for every
/// share sold short, but for rounding; its lifetime realizes what the cash changed
/// by, and no position changes. On what is not held it pays nothing.
pub proof fn dividends_pay_every_share<N: Number>(
    account: Account<N>,
    id: u16,
    amount: N,
    val: spec_fn(N) -> real,
    step: real,
)
    requires
        exact::near(val, step),
        account.dividend_fits(id, amount),
        account.positions[id].quantity.mul(amount).is_finite(),
    ensures
        ({
            let after = account.with_dividend(id, amount);
            let paid = val(after.cash) - val(account.cash);
            &&& !account.positions.contains_key(id) ==> after == account
            &&& after.positions == account.positions
            &&& after.commission == account.commission
            &&& after.ledger.trades == account.ledger.trades
            &&& account.positions.contains_key(id) ==> {
                &&& exact::close(paid, val(account.positions[id].quantity) * val(amount), step)
                &&& account.ledger.lifetimes.contains_key(id) ==> val(
                    after.ledger.lifetimes[id].realized_pnl,
                ) == val(account.ledger.lifetimes[id].realized_pnl) + paid
            }
            &&& after.ledger.lifetimes.remove(id) == account.ledger.lifetimes.remove(id)
        }),
{
    let after = account.with_dividend(id, amount);
    let paid = account.positions[id].quantity.mul(amount);
    assert(exact::short_of(val(paid), val(account.positions[id].quantity) * val(amount), step));
    assert(after.ledger.lifetimes.remove(id) =~= account.ledger.lifetimes.remove(id));
}

proof fn lemma_recovered(
    qty: real,
    mark: real,
    kept: real,
    price: real,
    paid: real,
    step: real,
)
    by (nonlinear_arith)
    requires
        step >= 0real,
        exact::close(price, mark * kept, step),
        exact::close(paid, (-qty) * price, step),
    ensures
        exact::close(-paid, qty * mark * kept, (1real + exact::magnitude(qty)) * step),
{
    let e = price - mark * kept;
    assert(-step <= e <= step);
    assert((-qty) * price == -(qty * mark * kept) - qty * e);
    let m = exact::magnitude(qty);
    assert(-(m * step) <= qty * e <= m * step);
    assert((1real + m) * step == step + m * step);
}

/// A position in a symbol that stopped trading is closed in full at its last price,
/// or its basis where it never printed, less the haircut, but for rounding, and
/// without a commission; its lifetime is over, as a trade that says so.
pub proof fn delistings_recover_the_last_price<N: Number>(
    account: Account<N>,
    symbol: Symbol,
    name: Seq<char>,
    prices: Seq<Option<N>>,
    haircut: N,
    time: Time,
    val: spec_fn(N) -> real,
    step: real,
)
    requires
        exact::near(val, step),
        account.delisting_fits(symbol.id(), prices, haircut),
        account.positions.contains_key(symbol.id()),
        number::one::<N>().is_finite(),
        number::one::<N>().sub(haircut).is_finite(),
        broker::mark_or(prices, symbol.id(), account.positions[symbol.id()].avg_price).mul(
            number::one::<N>().sub(haircut),
        ).is_finite(),
    ensures
        ({
            let id = symbol.id();
            let after = account.with_delisting(symbol, name, prices, haircut, time);
            let position = account.positions[id];
            let last = val(
                match broker::mark(prices, id) {
                    Some(price) => price,
                    None => position.avg_price,
                },
            );
            &&& !after.positions.contains_key(id)
            &&& after.positions.remove(id) == account.positions.remove(id)
            &&& !after.ledger.lifetimes.contains_key(id)
            &&& after.commission == account.commission
            &&& exact::close(
                val(after.cash) - val(account.cash),
                val(position.quantity) * last * (1real - val(haircut)),
                (1real + exact::magnitude(val(position.quantity))) * step,
            )
            &&& after.ledger.trades.len() == account.ledger.trades.len() + 1
            &&& after.ledger.trades.drop_last() == account.ledger.trades
            &&& after.ledger.trades.last().exit_reason == "delisted"@
            &&& after.ledger.trades.last().symbol == name
            &&& account.ledger.lifetimes.contains_key(id)
                && account.ledger.lifetimes[id].closed_qty.add(
                position.quantity.abs(),
            ).is_finite() ==> val(after.ledger.trades.last().quantity) == val(
                account.ledger.lifetimes[id].closed_qty,
            ) + exact::magnitude(val(position.quantity))
        }),
{
    let id = symbol.id();
    let after = account.with_delisting(symbol, name, prices, haircut, time);
    let position = account.positions[id];
    let kept = number::one::<N>().sub(haircut);
    let mark = broker::mark_or(prices, id, position.avg_price);
    let price = mark.mul(kept);
    assert(exact::integer(1) == 1real);
    assert(exact::short_of(val(price), val(mark) * val(kept), step));
    let paid = position.quantity.neg().mul(price);
    assert(exact::short_of(val(paid), (-val(position.quantity)) * val(price), step));
    lemma_recovered(val(position.quantity), val(mark), val(kept), val(price), val(paid), step);
    assert(number::negligible(position.quantity.add(position.quantity.neg())));
    assert(after.positions.remove(id) =~= account.positions.remove(id));
    assert(after.ledger.trades.drop_last() =~= account.ledger.trades);
}

/// A held symbol counts as delisted exactly when it printed last at least as many
/// trading days ago as the setting says. Nothing does while the setting is nought,
/// nor what never printed.
pub proof fn delisting_waits_for_silence<N: Number>(engine: Engine<N>, id: u16)
    ensures
        engine.stale(id) <==> {
            let patience = engine.context().config().delist_after_days;
            &&& engine.account().positions.contains_key(id)
            &&& patience > 0
            &&& match corporate_actions::entry_of(engine.progress().last_seen_day@, id) {
                Some(seen) => seen + patience <= engine.progress().day_index,
                None => false,
            }
        },
{
}

/// What the position under an id is worth in size, at its last price or its basis.
pub open spec fn size_of<N: Number>(
    positions: Map<u16, Position<N>>,
    prices: Seq<Option<N>>,
    val: spec_fn(N) -> real,
    id: u16,
) -> real {
    exact::magnitude(val(positions[id].quantity)) * val(
        match broker::mark(prices, id) {
            Some(price) => price,
            None => positions[id].avg_price,
        },
    )
}

/// A 252nd of an annual rate on the size of the position under an id.
pub open spec fn borrow_fee<N: Number>(
    positions: Map<u16, Position<N>>,
    prices: Seq<Option<N>>,
    rate: N,
    val: spec_fn(N) -> real,
    id: u16,
) -> real {
    if val(positions[id].quantity) < 0real {
        val(rate) / 252real * size_of(positions, prices, val, id)
    } else {
        0real
    }
}

/// What a borrow fee may be off by: the cuts of the daily rate, on the whole size,
/// of the size, at the whole rate, and of their product.
pub open spec fn borrow_slack<N: Number>(
    positions: Map<u16, Position<N>>,
    prices: Seq<Option<N>>,
    rate: N,
    val: spec_fn(N) -> real,
    step: real,
    id: u16,
) -> real {
    if val(positions[id].quantity) < 0real {
        (1real + val(rate) / 252real + exact::magnitude(size_of(positions, prices, val, id)))
            * step
    } else {
        0real
    }
}

proof fn lemma_fee(rate: real, size: real, daily: real, gross: real, fee: real, step: real)
    by (nonlinear_arith)
    requires
        rate >= 0real,
        step >= 0real,
        exact::short_of(daily, rate / 252real, step),
        exact::close(gross, size, step),
        exact::close(fee, daily * gross, step),
    ensures
        exact::close(
            fee,
            rate / 252real * size,
            (1real + rate / 252real + exact::magnitude(size)) * step,
        ),
{
    let r = rate / 252real;
    assert(0real <= daily <= r);
    let e = gross - size;
    let d = daily - r;
    assert(daily * gross == r * size + d * size + daily * e);
    let m = exact::magnitude(size);
    assert(-(m * step) <= d * size <= m * step);
    assert(-(r * step) <= daily * e <= r * step);
    assert((1real + r + m) * step == step + r * step + m * step);
}

/// Whether the sizes of the short positions and the daily rate are in range.
pub open spec fn fees_are_sized<N: Number>(account: Account<N>, prices: Seq<Option<N>>, rate: N)
    -> bool {
    &&& N::from_u64(252).is_finite()
    &&& rate.div(N::from_u64(252)).is_finite()
    &&& forall|id: u16| #[trigger]
        account.positions.contains_key(id) ==> {
            &&& account.positions[id].quantity.abs().is_finite()
            &&& broker::gross(account.positions, prices, id).is_finite()
            &&& rate.div(N::from_u64(252)).mul(
                broker::gross(account.positions, prices, id),
            ).is_finite()
        }
}

/// What the lifetime under an id has realized, nought if none is open.
pub open spec fn realized<N: Number>(
    account: Account<N>,
    val: spec_fn(N) -> real,
    id: u16,
) -> real {
    if account.ledger.lifetimes.contains_key(id) {
        val(account.ledger.lifetimes[id].realized_pnl)
    } else {
        0real
    }
}

/// Whether the lifetimes open before and after are the same, and of the one under
/// `id` nothing changed but what it realized, which is `cost` less, to within
/// `slack`.
pub open spec fn costs<N: Number>(
    before: Account<N>,
    after: Account<N>,
    id: u16,
    cost: real,
    slack: real,
    val: spec_fn(N) -> real,
) -> bool {
    &&& before.ledger.lifetimes.contains_key(id) <==> after.ledger.lifetimes.contains_key(id)
    &&& before.ledger.lifetimes.contains_key(id) ==> exact::close(
        realized(after, val, id),
        realized(before, val, id) - cost,
        slack,
    )
}

proof fn lemma_borrow_fees<N: Number>(
    account: Account<N>,
    prices: Seq<Option<N>>,
    rate: N,
    val: spec_fn(N) -> real,
    step: real,
    end: int,
)
    requires
        exact::near(val, step),
        val(rate) > 0real,
        0 <= end <= 0x1_0000,
        fees_are_sized(account, prices, rate),
        account.fees_fit(prices, rate.div(N::from_u64(252))),
    ensures
        ({
            let after = account.with_borrow_fees(prices, rate.div(N::from_u64(252)), end);
            &&& after.positions == account.positions
            &&& after.commission == account.commission
            &&& after.ledger.trades == account.ledger.trades
            &&& exact::close(
                val(after.cash),
                val(account.cash) - exact::total_below(
                    account.positions.dom(),
                    |id: u16| borrow_fee(account.positions, prices, rate, val, id),
                    end,
                ),
                exact::total_below(
                    account.positions.dom(),
                    |id: u16| borrow_slack(account.positions, prices, rate, val, step, id),
                    end,
                ),
            )
            &&& forall|id: u16| #[trigger]
                account.positions.contains_key(id) && id < end ==> costs(
                    account,
                    after,
                    id,
                    borrow_fee(account.positions, prices, rate, val, id),
                    borrow_slack(account.positions, prices, rate, val, step, id),
                    val,
                )
            &&& forall|id: u16|
                id >= end || !account.positions.contains_key(id) ==> (
                #[trigger] account.ledger.lifetimes.contains_key(id)
                    <==> after.ledger.lifetimes.contains_key(id)) && (
                account.ledger.lifetimes.contains_key(id) ==> account.ledger.lifetimes[id]
                    == after.ledger.lifetimes[id])
        }),
    decreases end,
{
    if end > 0 {
        let daily = rate.div(N::from_u64(252));
        lemma_borrow_fees(account, prices, rate, val, step, end - 1);
        let before = account.with_borrow_fees(prices, daily, end - 1);
        let after = account.with_borrow_fees(prices, daily, end);
        let id = (end - 1) as u16;
        if account.positions.contains_key(id) && val(account.positions[id].quantity) < 0real {
            assert(financing::short_ids(account.positions).contains(id));
            let gross = broker::gross(account.positions, prices, id);
            let fee = daily.mul(gross);
            assert(exact::integer(252) == 252real);
            assert(exact::short_of(val(daily), val(rate) / 252real, step));
            let size = size_of(account.positions, prices, val, id);
            assert(exact::short_of(val(gross), size, step));
            assert(exact::short_of(val(fee), val(daily) * val(gross), step));
            lemma_fee(val(rate), size, val(daily), val(gross), val(fee), step);
        } else {
            assert(!financing::short_ids(account.positions).contains(id));
            assert(after == before);
        }
        assert forall|other: u16| #[trigger]
            account.positions.contains_key(other) && other < end implies costs(
            account,
            after,
            other,
            borrow_fee(account.positions, prices, rate, val, other),
            borrow_slack(account.positions, prices, rate, val, step, other),
            val,
        ) by {
            if other < end - 1 {
                assert(costs(
                    account,
                    before,
                    other,
                    borrow_fee(account.positions, prices, rate, val, other),
                    borrow_slack(account.positions, prices, rate, val, step, other),
                    val,
                ));
            }
        }
    }
}

/// A day of financing charges every short position a 252nd of the annual borrow
/// rate on its size, out of cash and out of what its lifetime realized, and no
/// other; but for rounding. Without a borrow rate it charges none, and without
/// either rate nothing.
pub proof fn shorts_pay_to_borrow<N: Number>(
    account: Account<N>,
    prices: Seq<Option<N>>,
    borrow_rate: N,
    val: spec_fn(N) -> real,
    step: real,
)
    requires
        exact::near(val, step),
        fees_are_sized(account, prices, borrow_rate),
        val(borrow_rate) > 0real ==> account.fees_fit(
            prices,
            borrow_rate.div(N::from_u64(252)),
        ),
    ensures
        ({
            let after = account.with_financing(prices, borrow_rate, N::zero());
            &&& val(borrow_rate) <= 0real ==> after == account
            &&& after.positions == account.positions
            &&& after.commission == account.commission
            &&& after.ledger.trades == account.ledger.trades
            &&& val(borrow_rate) > 0real ==> {
                &&& exact::close(
                    val(after.cash),
                    val(account.cash) - exact::total(
                        account.positions.dom(),
                        |id: u16| borrow_fee(account.positions, prices, borrow_rate, val, id),
                    ),
                    exact::total(
                        account.positions.dom(),
                        |id: u16|
                            borrow_slack(account.positions, prices, borrow_rate, val, step, id),
                    ),
                )
                &&& forall|id: u16| #[trigger]
                    account.positions.contains_key(id) ==> costs(
                        account,
                        after,
                        id,
                        borrow_fee(account.positions, prices, borrow_rate, val, id),
                        borrow_slack(account.positions, prices, borrow_rate, val, step, id),
                        val,
                    )
            }
        }),
{
    if val(borrow_rate) > 0real {
        lemma_borrow_fees(account, prices, borrow_rate, val, step, 0x1_0000);
    }
}

proof fn lemma_interest(rate: real, cash: real, daily: real, interest: real, step: real)
    by (nonlinear_arith)
    requires
        step >= 0real,
        rate >= 0real,
        exact::short_of(daily, rate / 252real, step),
        exact::close(interest, daily * (-cash), step),
    ensures
        exact::close(
            interest,
            rate / 252real * (-cash),
            (1real + exact::magnitude(cash)) * step,
        ),
{
    let r = rate / 252real;
    let d = daily - r;
    assert(daily * (-cash) == r * (-cash) - d * cash);
    let m = exact::magnitude(cash);
    assert(-(m * step) <= d * cash <= m * step);
    assert((1real + m) * step == step + m * step);
}

proof fn lemma_shares_keep_cash<N: Number>(
    account: Account<N>,
    prices: Seq<Option<N>>,
    pool: Set<u16>,
    amount: N,
    total: N,
    end: int,
)
    ensures
        ({
            let after = account.with_shares(prices, pool, amount, total, end);
            &&& after.cash == account.cash
            &&& after.positions == account.positions
            &&& after.commission == account.commission
            &&& after.ledger.trades == account.ledger.trades
        }),
    decreases end,
{
    if end > 0 {
        lemma_shares_keep_cash(account, prices, pool, amount, total, end - 1);
    }
}

/// A day of financing charges interest on what is owed: a 252nd of the annual rate
/// on cash below nought, once the borrow fees are paid, out of cash, but for
/// rounding. On cash that is not below nought it charges none, nor without a rate,
/// nor on a book worth nothing.
pub proof fn debts_bear_interest<N: Number>(
    account: Account<N>,
    prices: Seq<Option<N>>,
    borrow_rate: N,
    interest_rate: N,
    val: spec_fn(N) -> real,
    step: real,
)
    requires
        exact::near(val, step),
        N::from_u64(252).is_finite(),
        interest_rate.div(N::from_u64(252)).is_finite(),
        ({
            let owing = account.with_financing(prices, borrow_rate, N::zero());
            let interest = interest_rate.div(N::from_u64(252)).mul(owing.cash.neg());
            &&& owing.cash.neg().is_finite()
            &&& interest.is_finite()
            &&& owing.cash.sub(interest).is_finite()
        }),
    ensures
        ({
            let owing = account.with_financing(prices, borrow_rate, N::zero());
            let after = account.with_financing(prices, borrow_rate, interest_rate);
            let debt = -val(owing.cash);
            let bears = val(interest_rate) > 0real && debt > 0real && val(owing.pool_worth(prices))
                > 0real;
            &&& !bears ==> after == owing
            &&& bears ==> exact::close(
                val(after.cash),
                -(debt + val(interest_rate) / 252real * debt),
                (1real + debt) * step,
            )
            &&& after.positions == owing.positions
            &&& after.commission == owing.commission
            &&& after.ledger.trades == owing.ledger.trades
        }),
{
    let owing = account.with_financing(prices, borrow_rate, N::zero());
    let daily = interest_rate.div(N::from_u64(252));
    let interest = daily.mul(owing.cash.neg());
    let pool = financing::interest_pool(owing.positions);
    if val(interest_rate) > 0real {
        assert(exact::integer(252) == 252real);
        assert(exact::short_of(val(daily), val(interest_rate) / 252real, step));
        assert(exact::short_of(val(interest), val(daily) * (-val(owing.cash)), step));
        lemma_interest(
            val(interest_rate),
            val(owing.cash),
            val(daily),
            val(interest),
            step,
        );
        lemma_shares_keep_cash(
            Account { cash: owing.cash.sub(interest), ..owing },
            prices,
            pool,
            interest,
            owing.pool_worth(prices),
            0x1_0000,
        );
    }
}

/// Whether a position bears margin interest: every long one does, and where there
/// is none, every position.
pub open spec fn bears_interest<N: Number>(
    positions: Map<u16, Position<N>>,
    val: spec_fn(N) -> real,
    id: u16,
) -> bool {
    &&& positions.contains_key(id)
    &&& (val(positions[id].quantity) > 0real || forall|other: u16| #[trigger]
        positions.contains_key(other) ==> val(positions[other].quantity) <= 0real)
}

proof fn lemma_pool<N: Number>(positions: Map<u16, Position<N>>, val: spec_fn(N) -> real, id: u16)
    requires
        exact::ordered(val),
    ensures
        financing::interest_pool(positions).contains(id) <==> bears_interest(positions, val, id),
{
    let longs = financing::long_ids(positions);
    if longs =~= Set::<u16>::empty() {
        assert forall|other: u16| #[trigger] positions.contains_key(other) implies val(
            positions[other].quantity,
        ) <= 0real by {
            assert(!longs.contains(other));
        }
    } else {
        let other = choose|other: u16| longs.contains(other);
        assert(longs.contains(other));
        assert(positions.contains_key(other));
    }
}

proof fn lemma_share(amount: real, own: real, total: real, part: real, share: real, step: real)
    by (nonlinear_arith)
    requires
        total > 0real,
        step >= 0real,
        exact::close(part, own / total, step),
        exact::close(share, amount * part, step),
    ensures
        exact::close(
            share * total,
            amount * own,
            (1real + exact::magnitude(amount)) * step * total,
        ),
{
    let q = own / total;
    assert(q * total == own);
    let e = part - q;
    let m = exact::magnitude(amount);
    assert(amount * part == amount * q + amount * e);
    assert(-(m * step) <= amount * e <= m * step);
    let slack = (1real + m) * step;
    assert(slack == step + m * step);
    assert(amount * q - slack <= share <= amount * q + slack);
    assert((amount * q - slack) * total <= share * total <= (amount * q + slack) * total);
    assert(amount * q * total == amount * own);
}

proof fn lemma_spread_lifetimes<N: Number>(
    account: Account<N>,
    prices: Seq<Option<N>>,
    pool: Set<u16>,
    amount: N,
    total: N,
    val: spec_fn(N) -> real,
    step: real,
    end: int,
)
    requires
        exact::near(val, step),
        val(total) > 0real,
        0 <= end <= 0x1_0000,
        account.shares_fit(prices, pool, amount, total),
    ensures
        ({
            let after = account.with_shares(prices, pool, amount, total, end);
            &&& forall|id: u16| #[trigger]
                account.ledger.lifetimes.contains_key(id)
                    <==> after.ledger.lifetimes.contains_key(id)
            &&& forall|id: u16| #[trigger]
                account.ledger.lifetimes.contains_key(id) ==> if pool.contains(id) && id < end {
                    exact::close(
                        (realized(account, val, id) - realized(after, val, id)) * val(total),
                        val(amount) * val(broker::gross(account.positions, prices, id)),
                        (1real + exact::magnitude(val(amount))) * step * val(total),
                    )
                } else {
                    account.ledger.lifetimes[id] == after.ledger.lifetimes[id]
                }
        }),
    decreases end,
{
    if end > 0 {
        lemma_spread_lifetimes(account, prices, pool, amount, total, val, step, end - 1);
        let before = account.with_shares(prices, pool, amount, total, end - 1);
        let id = (end - 1) as u16;
        if pool.contains(id) {
            let gross = broker::gross(account.positions, prices, id);
            let part = gross.div(total);
            let share = amount.mul(part);
            assert(before == account.with_shares(prices, pool, amount, total, id as int));
            assert(exact::short_of(val(part), val(gross) / val(total), step));
            assert(exact::short_of(val(share), val(amount) * val(part), step));
            lemma_share(val(amount), val(gross), val(total), val(part), val(share), step);
            assert(account.ledger.lifetimes.contains_key(id)
                <==> before.ledger.lifetimes.contains_key(id));
        }
    }
}

/// Margin interest is borne by the long positions, or by all where there is no long
/// one: each lifetime is charged the share of it that the position has of their
/// size, but for rounding, and no other lifetime is charged.
pub proof fn interest_is_spread_by_size<N: Number>(
    account: Account<N>,
    prices: Seq<Option<N>>,
    interest_rate: N,
    val: spec_fn(N) -> real,
    step: real,
)
    requires
        exact::near(val, step),
        val(interest_rate) > 0real,
        val(account.cash) < 0real,
        val(account.pool_worth(prices)) > 0real,
        account.interest_fits(prices, interest_rate.div(N::from_u64(252))),
    ensures
        ({
            let after = account.with_financing(prices, N::zero(), interest_rate);
            let paid = val(account.cash) - val(after.cash);
            let total = exact::total(
                Set::new(|id: u16| bears_interest(account.positions, val, id)),
                |id: u16| val(broker::gross(account.positions, prices, id)),
            );
            forall|id: u16| #[trigger]
                account.ledger.lifetimes.contains_key(id) ==> {
                    &&& after.ledger.lifetimes.contains_key(id)
                    &&& if bears_interest(account.positions, val, id) {
                        exact::close(
                            (realized(account, val, id) - realized(after, val, id)) * total,
                            paid * val(broker::gross(account.positions, prices, id)),
                            (1real + exact::magnitude(paid)) * step * total,
                        )
                    } else {
                        account.ledger.lifetimes[id] == after.ledger.lifetimes[id]
                    }
                }
        }),
{
    let after = account.with_financing(prices, N::zero(), interest_rate);
    let daily = interest_rate.div(N::from_u64(252));
    let interest = daily.mul(account.cash.neg());
    let pool = financing::interest_pool(account.positions);
    let worth = account.pool_worth(prices);
    let charged = Account { cash: account.cash.sub(interest), ..account };
    lemma_shares_keep_cash(charged, prices, pool, interest, worth, 0x1_0000);
    lemma_spread_lifetimes(charged, prices, pool, interest, worth, val, step, 0x1_0000);
    let bearers = Set::new(|id: u16| bears_interest(account.positions, val, id));
    assert(pool =~= bearers) by {
        assert forall|id: u16| pool.contains(id) <==> bearers.contains(id) by {
            lemma_pool(account.positions, val, id);
        }
    }
    exact::lemma_sum_is_total(
        val,
        step,
        pool,
        |id: u16| broker::gross(account.positions, prices, id),
        |id: u16| val(broker::gross(account.positions, prices, id)),
        0x1_0000,
    );
    assert forall|id: u16| #[trigger] account.ledger.lifetimes.contains_key(id) implies {
        &&& after.ledger.lifetimes.contains_key(id)
        &&& if bears_interest(account.positions, val, id) {
            exact::close(
                (realized(account, val, id) - realized(after, val, id)) * val(worth),
                val(interest) * val(broker::gross(account.positions, prices, id)),
                (1real + exact::magnitude(val(interest))) * step * val(worth),
            )
        } else {
            account.ledger.lifetimes[id] == after.ledger.lifetimes[id]
        }
    } by {
        assert(charged.ledger.lifetimes.contains_key(id));
        assert(bearers.contains(id) <==> bears_interest(account.positions, val, id));
    }
}

} // verus!
