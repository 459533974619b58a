//! What the strategy sees of one tick.

use vstd::prelude::*;

use crate::bar::Bar;
use crate::calendar::Time;
use crate::symbol::SymbolMap;

verus! {

/// Every bar that shares one timestamp.
pub struct Slice<N> {
    pub time: Time,
    /// This tick's bars, by symbol.
    pub bars: SymbolMap<Bar<N>>,
}

} // verus!
