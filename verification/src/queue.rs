//! One queue of items per symbol.

use vstd::prelude::*;

use crate::symbol::{Symbol, SymbolMap};

verus! {

/// One queue per symbol, for the symbols that have one.
pub struct SymbolQueues<T> {
    queues: SymbolMap<Vec<T>>,
}

impl<T> View for SymbolQueues<T> {
    type V = Map<u16, Seq<T>>;

    closed spec fn view(&self) -> Map<u16, Seq<T>> {
        Map::new(|id: u16| self.queues@.contains_key(id), |id: u16| self.queues@[id]@)
    }
}

/// What is queued under an id, nothing where it has no queue.
pub open spec fn queued<T>(queues: Map<u16, Seq<T>>, id: u16) -> Seq<T> {
    if queues.contains_key(id) {
        queues[id]
    } else {
        Seq::empty()
    }
}

/// The queues with the one under an id replaced: an empty queue is none.
pub open spec fn with_queue<T>(queues: Map<u16, Seq<T>>, id: u16, items: Seq<T>) -> Map<
    u16,
    Seq<T>,
> {
    if items.len() == 0 {
        queues.remove(id)
    } else {
        queues.insert(id, items)
    }
}

impl<T> SymbolQueues<T> {
    pub fn new() -> (r: SymbolQueues<T>)
        ensures
            r@ == Map::<u16, Seq<T>>::empty(),
    {
        let r = SymbolQueues { queues: SymbolMap::new() };
        assert(r@ =~= Map::<u16, Seq<T>>::empty());
        r
    }

    /// Queue `item` behind what `symbol` already has.
    pub fn push(&mut self, symbol: Symbol, item: T)
        ensures
            final(self)@ == old(self)@.insert(
                symbol.id(),
                queued(old(self)@, symbol.id()).push(item),
            ),
    {
        let mut items = self.take(symbol);
        let ghost taken = self@;
        items.push(item);
        self.queues.insert(symbol, items);
        assert(self@ =~= taken.insert(symbol.id(), items@));
        assert(self@ =~= old(self)@.insert(symbol.id(), items@));
    }

    /// Take out all that is queued for `symbol`.
    pub fn take(&mut self, symbol: Symbol) -> (r: Vec<T>)
        ensures
            r@ == queued(old(self)@, symbol.id()),
            final(self)@ == old(self)@.remove(symbol.id()),
    {
        let r: Vec<T> = match self.queues.remove(&symbol) {
            Some(items) => items,
            None => Vec::new(),
        };
        assert(self@ =~= old(self)@.remove(symbol.id()));
        assert(r@ =~= queued(old(self)@, symbol.id()));
        r
    }

    /// What is queued for `symbol`.
    pub fn copied(&self, symbol: Symbol) -> (r: Vec<T>) where T: Copy
        ensures
            r@ == queued(self@, symbol.id()),
    {
        let mut out: Vec<T> = Vec::new();
        if let Some(items) = self.queues.get(&symbol) {
            for i in 0..items.len()
                invariant
                    out@ =~= items@.take(i as int),
            {
                out.push(items[i]);
            }
            assert(items@.take(items@.len() as int) =~= items@);
        }
        assert(out@ =~= queued(self@, symbol.id()));
        out
    }

    /// Make `items` the queue of `symbol`.
    pub fn put(&mut self, symbol: Symbol, items: Vec<T>)
        ensures
            final(self)@ == with_queue(old(self)@, symbol.id(), items@),
    {
        if items.len() == 0 {
            self.queues.remove(&symbol);
            assert(self@ =~= old(self)@.remove(symbol.id()));
        } else {
            self.queues.insert(symbol, items);
            assert(self@ =~= old(self)@.insert(symbol.id(), items@));
        }
    }
}

} // verus!
