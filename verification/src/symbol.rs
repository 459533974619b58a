//! The engine's instrument identifier and the containers keyed by it.
//!
//! A [`Symbol`] is the dataset's encoded ticker id, the value every row
//! already carries. It is a `Copy` integer, so the event loop moves
//! instruments around without allocating or comparing text.

use std::cmp::Ordering;
use std::collections::BTreeMap;
use std::hash::Hasher;

use vstd::prelude::*;

verus! {

/// An instrument, identified by its encoded ticker id in the dataset.
///
/// Ids are only meaningful within one dataset.
#[derive(Debug, Clone, Copy, PartialEq, Eq, Ord, Hash, Structural)]
pub struct Symbol(u16);

/// Symbols are ordered by id.
impl PartialOrd for Symbol {
    fn partial_cmp(&self, other: &Symbol) -> (r: Option<Ordering>) {
        if self.0 < other.0 {
            Some(Ordering::Less)
        } else if self.0 == other.0 {
            Some(Ordering::Equal)
        } else {
            Some(Ordering::Greater)
        }
    }
}

impl vstd::std_specs::cmp::PartialOrdSpecImpl for Symbol {
    open spec fn obeys_partial_cmp_spec() -> bool {
        true
    }

    open spec fn partial_cmp_spec(&self, other: &Symbol) -> Option<Ordering> {
        if self.id() < other.id() {
            Some(Ordering::Less)
        } else if self.id() == other.id() {
            Some(Ordering::Equal)
        } else {
            Some(Ordering::Greater)
        }
    }
}

impl Symbol {
    /// The encoded ticker id.
    pub closed spec fn id(self) -> u16 {
        self.0
    }

    /// The symbol an encoded ticker id stands for. The id is not validated:
    /// one the dataset's ticker map does not list simply has no name.
    pub fn from_ticker_id(ticker_id: u16) -> (r: Symbol)
        ensures
            r.id() == ticker_id,
            r == symbol_of(ticker_id),
    {
        Symbol(ticker_id)
    }

    /// The encoded ticker id, as it appears in the data's ticker column.
    pub fn ticker_id(self) -> (r: u16)
        ensures
            r == self.id(),
    {
        self.0
    }

    /// The id as an index: its slot in any [`SymbolVec`].
    pub fn index(self) -> (r: usize)
        ensures
            r == self.id(),
    {
        self.0 as usize
    }
}

/// The symbol with ticker id `id`.
pub closed spec fn symbol_of(id: u16) -> Symbol {
    Symbol(id)
}

/// A symbol is its ticker id and nothing else: the two conversions undo each
/// other.
pub broadcast proof fn symbol_is_its_id(symbol: Symbol)
    ensures
        #![trigger symbol.id()]
        symbol_of(symbol.id()) == symbol,
{
}

/// Every id names a symbol that carries it.
pub broadcast proof fn id_of_symbol_of(id: u16)
    ensures
        #[trigger] symbol_of(id).id() == id,
{
}

pub broadcast group group_symbol {
    symbol_is_its_id,
    id_of_symbol_of,
}

/// 2^64 over the golden ratio, rounded to an odd number.
pub const GOLDEN_RATIO: u64 = 0x9E37_79B9_7F4A_7C15;

/// Hasher for [`Symbol`] keys. Ticker ids are small integers, so one multiply
/// by an odd 64-bit constant (Fibonacci hashing) spreads them across a table.
#[derive(Debug, Clone, Copy)]
pub struct SymbolHasher(u64);

impl SymbolHasher {
    /// What the hasher would finish with.
    pub closed spec fn state(self) -> u64 {
        self.0
    }
}

impl Default for SymbolHasher {
    fn default() -> (r: SymbolHasher)
        ensures
            r.state() == 0,
    {
        SymbolHasher(0)
    }
}

/// The hash of an id.
pub open spec fn hash_of(id: u64) -> u64 {
    id.wrapping_mul(GOLDEN_RATIO)
}

/// Distinct ids hash apart: an odd multiplier loses nothing.
pub proof fn ids_hash_apart(a: u64, b: u64)
    requires
        hash_of(a) == hash_of(b),
    ensures
        a == b,
{
    lemma_unhashed(a);
    lemma_unhashed(b);
}

/// Multiplying by the inverse of the multiplier undoes a hash.
proof fn lemma_unhashed(id: u64)
    ensures
        id == (hash_of(id) * 0xF1DE_83E1_9937_733Dint) % 0x1_0000_0000_0000_0000int,
{
    let range = 0x1_0000_0000_0000_0000int;
    let golden = GOLDEN_RATIO as int;
    let inverse = 0xF1DE_83E1_9937_733Dint;
    let turns = 10_771_413_168_148_108_919int;
    assert(golden * inverse == range * turns + 1);
    assert(hash_of(id) as int == (id * golden) % range);
    vstd::arithmetic::div_mod::lemma_mul_mod_noop_left(id * golden, inverse, range);
    assert((id * golden) * inverse == range * (id * turns) + id) by (nonlinear_arith)
        requires
            golden * inverse == range * turns + 1,
    ;
    vstd::arithmetic::div_mod::lemma_mod_multiples_vanish(id * turns, id as int, range);
    vstd::arithmetic::div_mod::lemma_small_mod(id as nat, range as nat);
}

/// The state a byte string leads to from `state`.
pub open spec fn hash_bytes(state: u64, bytes: Seq<u8>) -> u64
    decreases bytes.len(),
{
    if bytes.len() == 0 {
        state
    } else {
        (hash_bytes(state, bytes.drop_last()) ^ bytes.last() as u64).wrapping_mul(GOLDEN_RATIO)
    }
}

impl Hasher for SymbolHasher {
    fn write_u16(&mut self, value: u16)
        ensures
            final(self).state() == hash_of(value as u64),
    {
        self.0 = (value as u64).wrapping_mul(GOLDEN_RATIO);
    }

    fn write_u32(&mut self, value: u32)
        ensures
            final(self).state() == hash_of(value as u64),
    {
        self.0 = (value as u64).wrapping_mul(GOLDEN_RATIO);
    }

    fn write(&mut self, bytes: &[u8])
        ensures
            final(self).state() == hash_bytes(old(self).state(), bytes@),
    {
        let mut i: usize = 0;
        assert(bytes@.take(0) =~= Seq::<u8>::empty());
        while i < bytes.len()
            invariant
                0 <= i <= bytes@.len(),
                self.state() == hash_bytes(old(self).state(), bytes@.take(i as int)),
            decreases bytes@.len() - i,
        {
            self.0 = (self.0 ^ (bytes[i] as u64)).wrapping_mul(GOLDEN_RATIO);
            i = i + 1;
            assert(bytes@.take(i as int).drop_last() =~= bytes@.take(i - 1));
        }
        assert(bytes@.take(i as int) =~= bytes@);
    }

    fn finish(&self) -> (r: u64)
        ensures
            r == self.state(),
    {
        self.0
    }
}

/// A map keyed by [`Symbol`], walked in ticker-id order. Use it for state only
/// some symbols have (positions, order books); use a [`SymbolVec`] for state
/// every streaming symbol has.
pub struct SymbolMap<V> {
    entries: BTreeMap<u16, V>,
}

impl<V> View for SymbolMap<V> {
    type V = Map<u16, V>;

    closed spec fn view(&self) -> Map<u16, V> {
        self.entries@
    }
}

/// `ids` lists the keys of `entries`, each once, in increasing order.
pub open spec fn lists_ids<V>(ids: Seq<u16>, entries: Map<u16, V>) -> bool {
    &&& forall|i: int, j: int| 0 <= i < j < ids.len() ==> ids[i] < ids[j]
    &&& forall|id: u16| #[trigger] entries.contains_key(id) <==> ids.contains(id)
}

impl<V> Default for SymbolMap<V> {
    fn default() -> (r: SymbolMap<V>)
        ensures
            r@ == Map::<u16, V>::empty(),
    {
        SymbolMap { entries: BTreeMap::new() }
    }
}

impl<V> SymbolMap<V> {
    pub fn new() -> (r: SymbolMap<V>)
        ensures
            r@ == Map::<u16, V>::empty(),
    {
        SymbolMap { entries: BTreeMap::new() }
    }

    /// How many symbols have an entry.
    pub fn len(&self) -> (r: usize)
        ensures
            r == self@.dom().len(),
    {
        broadcast use vstd::std_specs::btree::group_btree_axioms;

        self.entries.len()
    }

    /// Whether no symbol has an entry.
    pub fn is_empty(&self) -> (r: bool)
        ensures
            r <==> self@.dom() =~= Set::<u16>::empty(),
    {
        self.entries.is_empty()
    }

    pub fn contains_key(&self, symbol: &Symbol) -> (r: bool)
        ensures
            r == self@.contains_key(symbol.id()),
    {
        self.entries.contains_key(&symbol.0)
    }

    /// The entry of `symbol`, or `None` if it has none.
    pub fn get(&self, symbol: &Symbol) -> (r: Option<&V>)
        ensures
            r == (if self@.contains_key(symbol.id()) {
                Some(&self@[symbol.id()])
            } else {
                None
            }),
    {
        self.entries.get(&symbol.0)
    }

    /// Give `symbol` the entry `value`, returning what it had.
    pub fn insert(&mut self, symbol: Symbol, value: V) -> (r: Option<V>)
        ensures
            final(self)@ == old(self)@.insert(symbol.id(), value),
            r == (if old(self)@.contains_key(symbol.id()) {
                Some(old(self)@[symbol.id()])
            } else {
                None
            }),
    {
        self.entries.insert(symbol.0, value)
    }

    /// Take the entry of `symbol` out, returning it.
    pub fn remove(&mut self, symbol: &Symbol) -> (r: Option<V>)
        ensures
            final(self)@ == old(self)@.remove(symbol.id()),
            r == (if old(self)@.contains_key(symbol.id()) {
                Some(old(self)@[symbol.id()])
            } else {
                None
            }),
    {
        let r = self.entries.remove(&symbol.0);
        proof {
            assert(self@ =~= old(self)@.remove(symbol.id()));
        }
        r
    }

    pub fn clear(&mut self)
        ensures
            final(self)@ == Map::<u16, V>::empty(),
    {
        self.entries.clear();
    }

    /// Every symbol with an entry, in ticker-id order.
    pub fn symbols(&self) -> (r: Vec<Symbol>)
        ensures
            lists_ids(ids_of(r@), self@),
    {
        let mut out: Vec<Symbol> = Vec::new();
        for k in it: self.entries.keys()
            invariant
                it.seq() == vstd::std_specs::iter::IteratorSpec::remaining(
                    &vstd::std_specs::btree::spec_keys_iter(&self.entries),
                ),
                out@.len() == it.index(),
                forall|i: int| 0 <= i < out@.len() ==> #[trigger] out@[i].id() == *it.seq()[i],
        {
            out.push(Symbol(*k));
        }
        proof {
            let keys = vstd::std_specs::iter::IteratorSpec::remaining(
                &vstd::std_specs::btree::spec_keys_iter(&self.entries),
            );
            assert(vstd::laws_cmp::obeys_cmp::<&u16>()) by {
                reveal(vstd::laws_cmp::obeys_cmp);
                reveal(vstd::laws_eq::obeys_eq);
                reveal(vstd::laws_cmp::obeys_partial_cmp_spec_properties);
                reveal(vstd::laws_cmp::obeys_cmp_partial_ord);
                reveal(vstd::laws_cmp::obeys_cmp_ord);
            }
            assert(vstd::std_specs::btree::increasing_seq(keys));
            let ids = ids_of(out@);
            assert forall|i: int, j: int| 0 <= i < j < ids.len() implies ids[i] < ids[j] by {
                assert(vstd::std_specs::cmp::OrdSpec::cmp_spec(&keys[i], &keys[j]) is Less);
                assert(out@[i].id() == *keys[i]);
                assert(out@[j].id() == *keys[j]);
            }
            assert(ids =~= keys.unref());
            assert forall|id: u16| #[trigger] self@.contains_key(id) <==> ids.contains(id) by {
                assert(keys.unref().to_set().contains(id) <==> keys.unref().contains(id));
            }
        }
        out
    }
}

/// The ticker ids of a list of symbols.
pub open spec fn ids_of(symbols: Seq<Symbol>) -> Seq<u16> {
    Seq::new(symbols.len(), |i: int| symbols[i].id())
}

/// A set of [`Symbol`]s, walked in ticker-id order.
pub struct SymbolSet {
    members: SymbolMap<()>,
}

impl View for SymbolSet {
    type V = Set<u16>;

    closed spec fn view(&self) -> Set<u16> {
        self.members@.dom()
    }
}

/// `ids` lists `members`, each once, in increasing order.
pub open spec fn lists_members(ids: Seq<u16>, members: Set<u16>) -> bool {
    &&& forall|i: int, j: int| 0 <= i < j < ids.len() ==> ids[i] < ids[j]
    &&& forall|id: u16| #[trigger] members.contains(id) <==> ids.contains(id)
}

impl Default for SymbolSet {
    fn default() -> (r: SymbolSet)
        ensures
            r@ == Set::<u16>::empty(),
    {
        SymbolSet { members: SymbolMap::new() }
    }
}

impl SymbolSet {
    pub fn contains(&self, symbol: &Symbol) -> (r: bool)
        ensures
            r == self@.contains(symbol.id()),
    {
        self.members.contains_key(symbol)
    }

    /// Add `symbol`, returning whether it was new.
    pub fn insert(&mut self, symbol: Symbol) -> (r: bool)
        ensures
            final(self)@ == old(self)@.insert(symbol.id()),
            r == !old(self)@.contains(symbol.id()),
    {
        let r = self.members.insert(symbol, ()).is_none();
        proof {
            assert(self@ =~= old(self)@.insert(symbol.id()));
        }
        r
    }

    pub fn len(&self) -> (r: usize)
        ensures
            r == self@.len(),
    {
        self.members.len()
    }

    /// Every member, in ticker-id order.
    pub fn symbols(&self) -> (r: Vec<Symbol>)
        ensures
            lists_members(ids_of(r@), self@),
    {
        let r = self.members.symbols();
        proof {
            assert forall|id: u16| #[trigger] self@.contains(id) <==> ids_of(r@).contains(id) by {
                assert(self.members@.contains_key(id) <==> ids_of(r@).contains(id));
            }
        }
        r
    }
}

/// A dense per-symbol table: one slot per ticker id, so a lookup is an array
/// index. Grows on demand, filling new slots with `T::default()`.
#[derive(Debug)]
pub struct SymbolVec<T> {
    slots: Vec<T>,
    /// Which slots were written.
    marks: Vec<bool>,
}

impl<T> SymbolVec<T> {
    /// The ids whose slots were written.
    pub closed spec fn written(&self) -> Set<u16> {
        Set::new(
            |id: u16| id < self.slots@.len() && id < self.marks@.len() && self.marks@[id as int],
        )
    }
}

impl<T> View for SymbolVec<T> {
    type V = Seq<T>;

    closed spec fn view(&self) -> Seq<T> {
        self.slots@
    }
}

/// `value` is what the default of `T` can be.
pub open spec fn defaulted<T: Default>(value: T) -> bool {
    call_ensures(T::default, (), value)
}

/// `grown` is `slots` with defaulted slots appended up to `len`.
pub open spec fn grown_to<T: Default>(slots: Seq<T>, grown: Seq<T>, len: int) -> bool {
    &&& grown.len() == (if slots.len() < len {
        len
    } else {
        slots.len() as int
    })
    &&& forall|i: int| 0 <= i < slots.len() ==> #[trigger] grown[i] == slots[i]
    &&& forall|i: int| slots.len() <= i < grown.len() ==> defaulted(#[trigger] grown[i])
}

impl<T> Default for SymbolVec<T> {
    fn default() -> (r: SymbolVec<T>)
        ensures
            r@ == Seq::<T>::empty(),
            r.written() == Set::<u16>::empty(),
    {
        SymbolVec { slots: Vec::new(), marks: Vec::new() }
    }
}

impl<T: Default> SymbolVec<T> {
    pub fn new() -> (r: SymbolVec<T>)
        ensures
            r@ == Seq::<T>::empty(),
            r.written() == Set::<u16>::empty(),
    {
        SymbolVec { slots: Vec::new(), marks: Vec::new() }
    }

    /// Append defaulted slots until there are `len`.
    fn grow(&mut self, len: usize)
        ensures
            grown_to(old(self)@, final(self)@, len as int),
            final(self).written() == old(self).written(),
            final(self).marks@.len() >= final(self)@.len(),
    {
        while self.marks.len() < self.slots.len()
            invariant
                self.slots == old(self).slots,
                self.written() =~= old(self).written(),
            decreases self.slots@.len() - self.marks@.len(),
        {
            self.marks.push(false);
        }
        while self.slots.len() < len
            invariant
                self.marks@.len() >= self@.len(),
                self.written() =~= old(self).written(),
                old(self)@.len() <= self@.len(),
                self@.len() <= len || self@.len() == old(self)@.len(),
                forall|i: int| 0 <= i < old(self)@.len() ==> #[trigger] self@[i] == old(self)@[i],
                forall|i: int|
                    old(self)@.len() <= i < self@.len() ==> defaulted(#[trigger] self@[i]),
            decreases len - self@.len(),
        {
            if self.marks.len() == self.slots.len() {
                self.marks.push(false);
            } else {
                let at: usize = self.slots.len();
                self.marks.set(at, false);
            }
            self.slots.push(T::default());
        }
    }

    /// A table with a defaulted slot for every id below `len`, so later writes
    /// never reallocate.
    pub fn with_len(len: usize) -> (r: SymbolVec<T>)
        ensures
            grown_to(Seq::<T>::empty(), r@, len as int),
            r.written() == Set::<u16>::empty(),
    {
        let mut table = SymbolVec { slots: Vec::new(), marks: Vec::new() };
        table.grow(len);
        table
    }

    /// The slot for `symbol`, or `None` if it was never written.
    pub fn get(&self, symbol: Symbol) -> (r: Option<&T>)
        ensures
            r == (if self.written().contains(symbol.id()) {
                Some(&self@[symbol.id() as int])
            } else {
                None
            }),
    {
        let at: usize = symbol.index();
        if at < self.slots.len() && at < self.marks.len() && self.marks[at] {
            Some(&self.slots[at])
        } else {
            None
        }
    }

    /// The slot for `symbol` to write to, or `None` if the table does not reach
    /// it.
    pub fn get_mut(&mut self, symbol: Symbol) -> (r: Option<&mut T>)
        ensures
            r is Some <==> symbol.id() < old(self)@.len(),
            match r {
                Some(slot) => {
                    &&& *slot == old(self)@[symbol.id() as int]
                    &&& final(self)@ == old(self)@.update(symbol.id() as int, *final(slot))
                    &&& final(self).written() == old(self).written().insert(symbol.id())
                },
                None => {
                    &&& final(self)@ == old(self)@
                    &&& final(self).written() == old(self).written()
                },
            },
    {
        if symbol.index() < self.slots.len() {
            Some(self.slot(symbol))
        } else {
            None
        }
    }

    /// The slot for `symbol`, defaulted if it was never written.
    pub fn copied(&self, symbol: Symbol) -> (r: T) where T: Copy
        ensures
            symbol.id() < self@.len() ==> r == self@[symbol.id() as int],
            symbol.id() >= self@.len() ==> defaulted(r),
    {
        if symbol.index() < self.slots.len() {
            self.slots[symbol.index()]
        } else {
            T::default()
        }
    }

    /// The slot for `symbol`, growing the table to reach it.
    pub fn slot(&mut self, symbol: Symbol) -> (r: &mut T)
        ensures
            exists|grown: Seq<T>|
                {
                    &&& #[trigger] grown_to(old(self)@, grown, symbol.id() + 1)
                    &&& *r == grown[symbol.id() as int]
                    &&& final(self)@ == grown.update(symbol.id() as int, *final(r))
                },
            final(self).written() == old(self).written().insert(symbol.id()),
    {
        self.grow(symbol.index() + 1);
        let ghost grown = self@;
        self.marks.set(symbol.index(), true);
        proof {
            assert(grown_to(old(self)@, grown, symbol.id() + 1));
            assert(self.written() =~= old(self).written().insert(symbol.id()));
        }
        &mut self.slots[symbol.index()]
    }

    /// Write `value` into the slot of `symbol`, growing the table to reach it.
    pub fn set(&mut self, symbol: Symbol, value: T)
        ensures
            final(self)@.len() == (if old(self)@.len() <= symbol.id() {
                symbol.id() + 1
            } else {
                old(self)@.len() as int
            }),
            final(self)@[symbol.id() as int] == value,
            forall|i: int|
                0 <= i < old(self)@.len() && i != symbol.id() ==> #[trigger] final(self)@[i] == old(
                    self,
                )@[i],
            forall|i: int|
                old(self)@.len() <= i < final(self)@.len() && i != symbol.id() ==> defaulted(
                    #[trigger] final(self)@[i],
                ),
            final(self).written() == old(self).written().insert(symbol.id()),
    {
        *self.slot(symbol) = value;
    }

    /// Reset the slot of `symbol` to the default, returning what was there.
    pub fn take(&mut self, symbol: Symbol) -> (r: T)
        ensures
            symbol.id() < old(self)@.len() ==> {
                &&& r == old(self)@[symbol.id() as int]
                &&& defaulted(final(self)@[symbol.id() as int])
                &&& final(self)@ == old(self)@.update(
                    symbol.id() as int,
                    final(self)@[symbol.id() as int],
                )
            },
            symbol.id() >= old(self)@.len() ==> {
                &&& defaulted(r)
                &&& final(self)@ == old(self)@
            },
            final(self).written() == old(self).written(),
    {
        let mut value = T::default();
        if symbol.index() < self.slots.len() {
            let slot = &mut self.slots[symbol.index()];
            std::mem::swap(slot, &mut value);
        }
        value
    }
}

} // verus!
