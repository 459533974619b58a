//! The portfolio: cash, positions, and what a fill does to them.

use vstd::prelude::*;

use crate::exact;
use crate::number;
use crate::number::{negligible, Number};
use crate::symbol;
use crate::symbol::{Symbol, SymbolMap, SymbolVec};

verus! {

/// Last known market price per symbol, `None` until the symbol prints a bar.
pub type PriceTable<N> = SymbolVec<Option<N>>;

/// The last known price of the symbol with id `id`.
pub open spec fn mark<N>(prices: Seq<Option<N>>, id: u16) -> Option<N> {
    if id < prices.len() {
        prices[id as int]
    } else {
        None
    }
}

/// The last known price of the symbol with id `id`, or `otherwise` where there
/// is none.
pub open spec fn mark_or<N>(prices: Seq<Option<N>>, id: u16, otherwise: N) -> N {
    match mark(prices, id) {
        Some(price) => price,
        None => otherwise,
    }
}

/// The last known price of `symbol`, or `otherwise` where there is none.
pub fn price_or<N: Number>(prices: &PriceTable<N>, symbol: Symbol, otherwise: N) -> (r: N)
    ensures
        r == mark_or(prices@, symbol.id(), otherwise),
{
    match prices.copied(symbol) {
        Some(price) => price,
        None => otherwise,
    }
}

#[derive(Debug, Clone, Copy)]
pub struct Position<N> {
    pub symbol: Symbol,
    pub quantity: N,
    pub avg_price: N,
}

/// The terms of the ids below `end` that are in `ids`, added up in id order.
pub open spec fn sum_below<N: Number>(ids: Set<u16>, term: spec_fn(u16) -> N, end: int) -> N
    decreases end,
{
    if end <= 0 {
        N::zero()
    } else {
        let before = sum_below(ids, term, end - 1);
        if ids.contains((end - 1) as u16) {
            before.add(term((end - 1) as u16))
        } else {
            before
        }
    }
}

/// The terms of all of `ids`, added up in id order.
pub open spec fn sum_over<N: Number>(ids: Set<u16>, term: spec_fn(u16) -> N) -> N {
    sum_below(ids, term, 0x1_0000)
}

/// One past the id before position `i` of an increasing list.
pub open spec fn end_before(ids: Seq<u16>, i: int) -> int {
    if i <= 0 {
        0
    } else {
        ids[i - 1] + 1
    }
}

proof fn lemma_sum_gap<N: Number>(ids: Set<u16>, term: spec_fn(u16) -> N, low: int, high: int)
    requires
        0 <= low <= high <= 0x1_0000,
        forall|id: u16| low <= id < high ==> !ids.contains(id),
    ensures
        sum_below(ids, term, high) == sum_below(ids, term, low),
    decreases high - low,
{
    if low < high {
        lemma_sum_gap(ids, term, low, high - 1);
        assert(!ids.contains((high - 1) as u16));
    }
}

/// `listed` is increasing and names every one of `ids`, perhaps others too.
pub open spec fn walks(listed: Seq<u16>, ids: Set<u16>) -> bool {
    &&& forall|i: int, j: int| 0 <= i < j < listed.len() ==> listed[i] < listed[j]
    &&& forall|id: u16| #[trigger] ids.contains(id) ==> listed.contains(id)
}

/// The list of a map's keys walks every set of them.
pub proof fn lemma_listed_walks<V>(listed: Seq<u16>, entries: Map<u16, V>, ids: Set<u16>)
    requires
        symbol::lists_ids(listed, entries),
        ids.subset_of(entries.dom()),
    ensures
        walks(listed, ids),
{
    assert forall|id: u16| #[trigger] ids.contains(id) implies listed.contains(id) by {
        assert(entries.contains_key(id));
    }
}

pub proof fn lemma_nothing_between(listed: Seq<u16>, ids: Set<u16>, i: int)
    requires
        walks(listed, ids),
        0 <= i <= listed.len(),
    ensures
        forall|id: u16|
            end_before(listed, i) <= id < (if i < listed.len() {
                listed[i] as int
            } else {
                0x1_0000
            }) ==> !ids.contains(id),
{
    assert forall|id: u16|
        end_before(listed, i) <= id < (if i < listed.len() {
            listed[i] as int
        } else {
            0x1_0000
        }) implies !ids.contains(id) by {
        if ids.contains(id) {
            let j = choose|j: int| 0 <= j < listed.len() && listed[j] == id;
            if j >= i {
                assert(listed[j] >= listed[i]);
            } else {
                assert(listed[j] <= listed[i - 1]);
            }
        }
    }
}

/// Adding up along an increasing list: one more id, and one more term if it is
/// among `ids`.
pub proof fn lemma_sum_step<N: Number>(
    listed: Seq<u16>,
    ids: Set<u16>,
    term: spec_fn(u16) -> N,
    i: int,
)
    requires
        walks(listed, ids),
        0 <= i < listed.len(),
    ensures
        ({
            let before = sum_below(ids, term, end_before(listed, i));
            sum_below(ids, term, end_before(listed, i + 1)) == if ids.contains(listed[i]) {
                before.add(term(listed[i]))
            } else {
                before
            }
        }),
{
    lemma_nothing_between(listed, ids, i);
    lemma_sum_gap(ids, term, end_before(listed, i), listed[i] as int);
}

/// Adding up along an increasing list: past the last there is nothing more.
pub proof fn lemma_sum_end<N: Number>(
    listed: Seq<u16>,
    ids: Set<u16>,
    term: spec_fn(u16) -> N,
)
    requires
        walks(listed, ids),
    ensures
        sum_below(ids, term, end_before(listed, listed.len() as int)) == sum_over(ids, term),
{
    lemma_nothing_between(listed, ids, listed.len() as int);
    lemma_sum_gap(ids, term, end_before(listed, listed.len() as int), 0x1_0000);
}

/// What the position with id `id` is worth at the last known prices, or at its
/// basis where its symbol never printed.
pub open spec fn worth<N: Number>(
    positions: Map<u16, Position<N>>,
    prices: Seq<Option<N>>,
    id: u16,
) -> N {
    positions[id].quantity.mul(mark_or(prices, id, positions[id].avg_price))
}

/// What all positions are worth.
pub open spec fn holdings<N: Number>(
    positions: Map<u16, Position<N>>,
    prices: Seq<Option<N>>,
) -> N {
    sum_over(positions.dom(), |id: u16| worth(positions, prices, id))
}

/// Net liquidation value: cash plus what all positions are worth.
pub open spec fn equity<N: Number>(
    cash: N,
    positions: Map<u16, Position<N>>,
    prices: Seq<Option<N>>,
) -> N {
    cash.add(holdings(positions, prices))
}

/// Whether nothing runs out of range as cash and positions are valued.
pub open spec fn value_fits<N: Number>(
    cash: N,
    positions: Map<u16, Position<N>>,
    prices: Seq<Option<N>>,
) -> bool {
    &&& exact::sum_fits(positions.dom(), |id: u16| worth(positions, prices, id))
    &&& equity(cash, positions, prices).is_finite()
    &&& forall|id: u16| #[trigger]
        positions.contains_key(id) ==> worth(positions, prices, id).is_finite()
}

/// The gross size of the position with id `id`.
pub open spec fn gross<N: Number>(
    positions: Map<u16, Position<N>>,
    prices: Seq<Option<N>>,
    id: u16,
) -> N {
    positions[id].quantity.abs().mul(mark_or(prices, id, positions[id].avg_price))
}

/// The gross size of all positions but the one with id `id`.
pub open spec fn exposure_besides<N: Number>(
    positions: Map<u16, Position<N>>,
    prices: Seq<Option<N>>,
    id: u16,
) -> N {
    sum_over(positions.remove(id).dom(), |other: u16| gross(positions, prices, other))
}

/// The quantity held under id `id`, nought if none is.
pub open spec fn quantity_of<N: Number>(positions: Map<u16, Position<N>>, id: u16) -> N {
    if positions.contains_key(id) {
        positions[id].quantity
    } else {
        N::zero()
    }
}

/// The basis of the position under id `id`, nought if there is none.
pub open spec fn basis_of<N: Number>(positions: Map<u16, Position<N>>, id: u16) -> N {
    if positions.contains_key(id) {
        positions[id].avg_price
    } else {
        N::zero()
    }
}

/// The basis after `qty` shares at `price` met `held` shares at basis `basis`:
/// the fill price when the fill opened the position or flipped it, the
/// weighted average when it added to it, the old basis when it reduced it.
pub open spec fn basis_after<N: Number>(held: N, basis: N, qty: N, price: N) -> N {
    let total = held.add(qty);
    if held.equals(N::zero()) || !held.signum().equals(total.signum()) {
        price
    } else if held.signum().equals(qty.signum()) {
        held.mul(basis).add(qty.mul(price)).div(total)
    } else {
        basis
    }
}

/// The positions after a fill of `qty` shares of `symbol` at `price`. What
/// is left is a position unless it is rounding noise.
pub open spec fn positions_after<N: Number>(
    positions: Map<u16, Position<N>>,
    symbol: Symbol,
    qty: N,
    price: N,
) -> Map<u16, Position<N>> {
    let held = quantity_of(positions, symbol.id());
    let basis = basis_of(positions, symbol.id());
    let total = held.add(qty);
    if number::negligible(total) {
        positions.remove(symbol.id())
    } else {
        positions.insert(
            symbol.id(),
            Position { symbol, quantity: total, avg_price: basis_after(held, basis, qty, price) },
        )
    }
}

pub struct Portfolio<N> {
    pub cash: N,
    pub(crate) positions: SymbolMap<Position<N>>,
}

impl<N: Number> Portfolio<N> {
    /// The cash balance.
    pub open(crate) spec fn balance(&self) -> N {
        self.cash
    }

    /// The positions, by ticker id.
    pub open(crate) spec fn held(&self) -> Map<u16, Position<N>> {
        self.positions@
    }

    /// What the portfolio is worth at `prices`.
    pub open(crate) spec fn value(&self, prices: Seq<Option<N>>) -> N {
        equity(self.cash, self.positions@, prices)
    }
}

impl<N: Number> Default for Portfolio<N> {
    /// A hundred thousand in cash and no positions.
    fn default() -> (r: Portfolio<N>)
        ensures
            r.balance() == N::from_u64(100_000),
            r.held() == Map::<u16, Position<N>>::empty(),
    {
        Portfolio { cash: N::from_u64(100_000), positions: SymbolMap::new() }
    }
}

impl<N: Number> Portfolio<N> {
    /// The position in `symbol`, if one is held.
    pub fn get(&self, symbol: Symbol) -> (r: Option<&Position<N>>)
        ensures
            r == (if self.held().contains_key(symbol.id()) {
                Some(&self.held()[symbol.id()])
            } else {
                None
            }),
    {
        self.positions.get(&symbol)
    }

    /// The quantity held in `symbol`, nought if flat.
    pub fn quantity(&self, symbol: Symbol) -> (r: N)
        ensures
            r == quantity_of(self.held(), symbol.id()),
    {
        match self.positions.get(&symbol) {
            Some(position) => position.quantity,
            None => N::zero(),
        }
    }

    /// The basis of the position in `symbol`, nought if flat.
    pub fn basis(&self, symbol: Symbol) -> (r: N)
        ensures
            r == basis_of(self.held(), symbol.id()),
    {
        match self.positions.get(&symbol) {
            Some(position) => position.avg_price,
            None => N::zero(),
        }
    }

    /// Cash plus every position at its last known price, or at its basis where
    /// its symbol never printed.
    pub fn total_value(&self, prices: &PriceTable<N>) -> (r: N)
        ensures
            r == self.value(prices@),
    {
        let symbols = self.positions.symbols();
        let ghost listed = symbol::ids_of(symbols@);
        let ghost term = |id: u16| worth(self.positions@, prices@, id);
        proof {
            lemma_listed_walks(listed, self.positions@, self.positions@.dom());
        }
        let mut total = N::zero();
        for i in 0..symbols.len()
            invariant
                listed == symbol::ids_of(symbols@),
                symbol::lists_ids(listed, self.positions@),
                walks(listed, self.positions@.dom()),
                term == (|id: u16| worth(self.positions@, prices@, id)),
                total == sum_below(self.positions@.dom(), term, end_before(listed, i as int)),
        {
            let symbol = symbols[i];
            proof {
                lemma_sum_step(listed, self.positions@.dom(), term, i as int);
                assert(listed[i as int] == symbol.id());
                assert(listed.contains(symbol.id()));
                assert(self.positions@.contains_key(symbol.id()));
            }
            let quantity = self.quantity(symbol);
            let price = price_or(prices, symbol, self.basis(symbol));
            total = total.add(quantity.mul(price));
        }
        proof {
            lemma_sum_end(listed, self.positions@.dom(), term);
        }
        self.cash.add(total)
    }

    /// The gross size, at the last known prices, of every position but the one
    /// in `besides`.
    pub fn exposure(&self, prices: &PriceTable<N>, besides: Symbol) -> (r: N)
        ensures
            r == exposure_besides(self.held(), prices@, besides.id()),
    {
        let symbols = self.positions.symbols();
        let ghost listed = symbol::ids_of(symbols@);
        let ghost term = |id: u16| gross(self.positions@, prices@, id);
        let ghost others = self.positions@.remove(besides.id());
        proof {
            lemma_listed_walks(listed, self.positions@, others.dom());
        }
        let mut total = N::zero();
        for i in 0..symbols.len()
            invariant
                listed == symbol::ids_of(symbols@),
                symbol::lists_ids(listed, self.positions@),
                walks(listed, others.dom()),
                term == (|id: u16| gross(self.positions@, prices@, id)),
                others == self.positions@.remove(besides.id()),
                total == sum_below(others.dom(), term, end_before(listed, i as int)),
        {
            let symbol = symbols[i];
            proof {
                lemma_sum_step(listed, others.dom(), term, i as int);
                assert(listed[i as int] == symbol.id());
                assert(listed.contains(symbol.id()));
                assert(self.positions@.contains_key(symbol.id()));
            }
            if symbol.ticker_id() != besides.ticker_id() {
                let quantity = self.quantity(symbol);
                let price = price_or(prices, symbol, self.basis(symbol));
                total = total.add(quantity.abs().mul(price));
            }
        }
        proof {
            lemma_sum_end(listed, others.dom(), term);
        }
        total
    }

    /// Take a fill into the portfolio: pay for it, and move the position.
    pub fn apply_fill(&mut self, symbol: Symbol, qty: N, price: N)
        ensures
            final(self).balance() == old(self).balance().sub(qty.mul(price)),
            final(self).held() == positions_after(old(self).held(), symbol, qty, price),
    {
        self.cash = self.cash.sub(qty.mul(price));

        let held = self.quantity(symbol);
        let basis = self.basis(symbol);
        let total = held.add(qty);
        if negligible(total) {
            self.positions.remove(&symbol);
            return;
        }
        let avg_price = if held.equals(N::zero()) || !held.signum().equals(total.signum()) {
            price
        } else if held.signum().equals(qty.signum()) {
            held.mul(basis).add(qty.mul(price)).div(total)
        } else {
            basis
        };
        self.positions.insert(symbol, Position { symbol, quantity: total, avg_price });
    }
}

} // verus!
