//! Customizable margin (buying-power) models.
//!
//! A margin model decides how much of a proposed fill the account can
//! actually carry: the full quantity, a trimmed same-sign partial (rounded
//! down to the lot size by the engine), or nought to reject it. Orders that
//! reduce exposure should always be allowed (the built-ins do), so an
//! over-levered book can still de-risk.

use std::marker::PhantomData;

use vstd::prelude::*;

use crate::number::Number;
use crate::symbol::Symbol;

verus! {

/// Everything a margin model needs to size a single proposed fill. All values
/// are marked at the same prices order sizing uses.
pub struct MarginContext<N> {
    /// Symbol being traded.
    pub symbol: Symbol,
    /// Proposed signed fill quantity: positive = buy, negative = sell.
    pub quantity: N,
    /// Reference fill price for this order (pre-slippage).
    pub price: N,
    /// Signed quantity already held in `symbol` (nought if flat).
    pub current_qty: N,
    /// Portfolio cash balance.
    pub cash: N,
    /// Net liquidation value: cash plus all positions at their marks.
    pub equity: N,
    /// Gross market value of every other position.
    pub other_exposure: N,
}

/// Returns the signed quantity of a proposed fill the account may take.
pub trait MarginModel<N: Number> {
    /// Whether the model can allow `quantity` of `order`.
    spec fn allows(&self, order: &MarginContext<N>, quantity: N) -> bool;

    /// Whether the model never limits a fill.
    spec fn is_unlimited(&self) -> bool;

    fn allowed_quantity(&self, order: &MarginContext<N>) -> (r: N)
        ensures
            self.allows(order, r),
    ;

    /// Lets the engine skip the buying-power bookkeeping entirely. Only a
    /// model that always allows the whole quantity may return `true`.
    fn unlimited(&self) -> (r: bool)
        ensures
            r == self.is_unlimited(),
    ;
}

/// Unlimited buying power: every fill is allowed and cash can go arbitrarily
/// negative. This is the default.
pub struct NoMargin;

impl<N: Number> MarginModel<N> for NoMargin {
    open spec fn allows(&self, order: &MarginContext<N>, quantity: N) -> bool {
        quantity == order.quantity
    }

    open spec fn is_unlimited(&self) -> bool {
        true
    }

    fn allowed_quantity(&self, order: &MarginContext<N>) -> (r: N) {
        order.quantity
    }

    fn unlimited(&self) -> (r: bool) {
        true
    }
}

/// Cap gross exposure at a multiple of equity: one is a cash account, two is
/// overnight margin. Fills that would exceed the cap are trimmed to what fits
/// (and rejected once nothing fits); fills that reduce exposure always pass.
pub struct MaxLeverage<N> {
    /// Maximum gross exposure as a multiple of equity.
    pub leverage: N,
}

impl<N: Number> MaxLeverage<N> {
    /// Cap gross exposure at `leverage` times equity.
    pub fn new(leverage: N) -> (r: MaxLeverage<N>)
        requires
            N::zero().lt(leverage),
        ensures
            r.leverage == leverage,
    {
        MaxLeverage { leverage }
    }

    /// Shares of the order's symbol the account may hold, in either
    /// direction, with the rest of the book unchanged.
    pub open spec fn budget(&self, order: &MarginContext<N>) -> N {
        self.leverage.mul(order.equity).sub(order.other_exposure).div(order.price).max(N::zero())
    }
}

impl<N: Number> MarginModel<N> for MaxLeverage<N> {
    open spec fn allows(&self, order: &MarginContext<N>, quantity: N) -> bool {
        quantity == if order.price.le(N::zero()) {
            order.quantity
        } else if N::zero().lt(order.quantity) {
            order.quantity.min(self.budget(order).sub(order.current_qty).max(N::zero()))
        } else {
            order.quantity.max(self.budget(order).neg().sub(order.current_qty).min(N::zero()))
        }
    }

    open spec fn is_unlimited(&self) -> bool {
        false
    }

    fn allowed_quantity(&self, order: &MarginContext<N>) -> (r: N) {
        if order.price.le(N::zero()) {
            return order.quantity;
        }
        // Swapping cash for stock at the mark leaves equity itself unchanged.

        let budget = self.leverage.mul(order.equity).sub(order.other_exposure).div(order.price).max(
            N::zero(),
        );
        if N::zero().lt(order.quantity) {
            // The position after the fill may not exceed the budget; covering
            // a short on the way up is always fine.
            order.quantity.min(budget.sub(order.current_qty).max(N::zero()))
        } else {
            // Mirror image.
            order.quantity.max(budget.neg().sub(order.current_qty).min(N::zero()))
        }
    }

    fn unlimited(&self) -> (r: bool) {
        false
    }
}

/// A closure from a proposed fill to the allowed signed quantity, as a margin
/// model.
#[verifier::reject_recursive_types(N)]
#[verifier::reject_recursive_types(F)]
pub struct MarginFn<N: Number, F: Fn(&MarginContext<N>) -> N> {
    f: F,
    number: PhantomData<N>,
}

impl<N: Number, F: Fn(&MarginContext<N>) -> N> MarginFn<N, F> {
    /// The closure.
    pub closed spec fn function(&self) -> F {
        self.f
    }

    #[verifier::type_invariant]
    spec fn total(self) -> bool {
        forall|order: MarginContext<N>| #[trigger] call_requires(self.f, (&order,))
    }

    pub fn new(f: F) -> (r: MarginFn<N, F>)
        requires
            forall|order: MarginContext<N>| #[trigger] call_requires(f, (&order,)),
        ensures
            r.function() == f,
    {
        MarginFn { f, number: PhantomData }
    }
}

impl<N: Number, F: Fn(&MarginContext<N>) -> N> MarginModel<N> for MarginFn<N, F> {
    open spec fn allows(&self, order: &MarginContext<N>, quantity: N) -> bool {
        call_ensures(self.function(), (order,), quantity)
    }

    open spec fn is_unlimited(&self) -> bool {
        false
    }

    fn allowed_quantity(&self, order: &MarginContext<N>) -> (r: N) {
        proof {
            use_type_invariant(self);
        }
        (self.f)(order)
    }

    fn unlimited(&self) -> (r: bool) {
        false
    }
}

} // verus!
