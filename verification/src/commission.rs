//! Customizable commission models.
//!
//! A commission model returns the cash cost charged for a fill. Set one on
//! the [`Context`](crate::context::Context): a built-in model, your own type
//! implementing [`CommissionModel`], or a closure wrapped in a [`FillFn`].

use vstd::prelude::*;

use crate::exact;
use crate::number::Number;
use crate::slippage;
use crate::slippage::{FillContext, FillFn};

verus! {

/// Returns the cash commission charged for a fill. Commissions are deducted
/// from portfolio cash and attributed to the trade's PnL.
pub trait CommissionModel<N: Number> {
    /// Whether the model can charge `fee` for `fill`.
    spec fn charges(&self, fill: &FillContext<'_, N>, fee: N) -> bool;

    fn commission(&self, fill: &FillContext<'_, N>) -> (r: N)
        ensures
            self.charges(fill, r),
    ;
}

/// No commission. This is the default.
pub struct NoCommission;

impl<N: Number> CommissionModel<N> for NoCommission {
    open spec fn charges(&self, fill: &FillContext<'_, N>, fee: N) -> bool {
        fee == N::zero()
    }

    fn commission(&self, fill: &FillContext<'_, N>) -> (r: N) {
        N::zero()
    }
}

/// A fixed cash amount per share with a per-order minimum.
pub struct PerShareCommission<N> {
    /// Cash per share.
    pub per_share: N,
    /// Minimum charge per order.
    pub minimum: N,
}

impl<N: Number> CommissionModel<N> for PerShareCommission<N> {
    open spec fn charges(&self, fill: &FillContext<'_, N>, fee: N) -> bool {
        fee == fill.quantity.abs().mul(self.per_share).max(self.minimum)
    }

    fn commission(&self, fill: &FillContext<'_, N>) -> (r: N) {
        fill.quantity.abs().mul(self.per_share).max(self.minimum)
    }
}

/// Commission as a fraction of traded notional value.
pub struct PercentCommission<N> {
    /// Fraction of notional: a thousandth is ten basis points.
    pub rate: N,
}

impl<N: Number> PercentCommission<N> {
    /// Construct from basis points: a hundredth of a percent each.
    pub fn bps(bps: N) -> (r: PercentCommission<N>)
        ensures
            r.rate == slippage::basis_points(bps),
            r.rate == bps.div(N::from_u64(10_000)),
    {
        PercentCommission { rate: bps.div(N::from_u64(10_000)) }
    }
}

impl<N: Number> CommissionModel<N> for PercentCommission<N> {
    open spec fn charges(&self, fill: &FillContext<'_, N>, fee: N) -> bool {
        fee == fill.quantity.abs().mul(fill.price).mul(self.rate)
    }

    fn commission(&self, fill: &FillContext<'_, N>) -> (r: N) {
        fill.quantity.abs().mul(fill.price).mul(self.rate)
    }
}

impl<N: Number, F: for <'a>Fn(&FillContext<'a, N>) -> N> CommissionModel<N> for FillFn<N, F> {
    open spec fn charges(&self, fill: &FillContext<'_, N>, fee: N) -> bool {
        call_ensures(self.function(), (fill,), fee)
    }

    fn commission(&self, fill: &FillContext<'_, N>) -> (r: N) {
        self.call(fill)
    }
}

proof fn lemma_notional(size: real, price: real, rate: real, traded: real, fee: real, step: real)
    by (nonlinear_arith)
    requires
        step >= 0real,
        size >= 0real,
        price >= 0real,
        rate >= 0real,
        exact::short_of(traded, size * price, step),
        exact::short_of(fee, traded * rate, step),
    ensures
        fee >= 0real,
        fee <= rate * size * price,
        fee >= rate * size * price - (rate + 1real) * step,
{
    assert(size * price >= 0real);
    assert(traded >= 0real);
    assert(traded * rate >= 0real);
    assert(traded * rate <= (size * price) * rate);
    assert((size * price) * rate == rate * size * price);
    assert(traded * rate >= (size * price - step) * rate);
}

/// Whether nothing runs out of range as a percent commission is worked out.
pub open spec fn percent_fits<N: Number>(fill: &FillContext<'_, N>, rate: N) -> bool {
    &&& fill.quantity.abs().is_finite()
    &&& fill.quantity.abs().mul(fill.price).is_finite()
    &&& fill.quantity.abs().mul(fill.price).mul(rate).is_finite()
}

/// A percent commission is the rate times the size of the fill times its price,
/// but for rounding: never a rebate, never more than that, and the same for a
/// sale as for a purchase of that size.
pub proof fn percent_commission_is_a_share_of_the_notional<N: Number>(
    model: PercentCommission<N>,
    fill: &FillContext<'_, N>,
    fee: N,
    other: &FillContext<'_, N>,
    other_fee: N,
    val: spec_fn(N) -> real,
    step: real,
)
    requires
        exact::near(val, step),
        val(model.rate) >= 0real,
        val(fill.price) >= 0real,
        percent_fits(fill, model.rate),
        model.charges(fill, fee),
        val(other.price) == val(fill.price),
        val(other.quantity) == -val(fill.quantity),
        percent_fits(other, model.rate),
        model.charges(other, other_fee),
    ensures
        val(fee) >= 0real,
        ({
            let due = val(model.rate) * exact::magnitude(val(fill.quantity)) * val(fill.price);
            &&& due - (val(model.rate) + 1real) * step <= val(fee) <= due
            &&& due - (val(model.rate) + 1real) * step <= val(other_fee) <= due
        }),
{
    let size = exact::magnitude(val(fill.quantity));
    lemma_notional(
        size,
        val(fill.price),
        val(model.rate),
        val(fill.quantity.abs().mul(fill.price)),
        val(fee),
        step,
    );
    lemma_notional(
        size,
        val(fill.price),
        val(model.rate),
        val(other.quantity.abs().mul(other.price)),
        val(other_fee),
        step,
    );
}

/// A commission per share is that much for each share bought or sold, but for
/// rounding, or the minimum where that is more; and nothing is charged without a
/// commission.
pub proof fn per_share_commission_counts_shares<N: Number>(
    model: PerShareCommission<N>,
    fill: &FillContext<'_, N>,
    fee: N,
    val: spec_fn(N) -> real,
    step: real,
)
    requires
        exact::near(val, step),
        fill.quantity.abs().is_finite(),
        fill.quantity.abs().mul(model.per_share).is_finite(),
        model.charges(fill, fee),
    ensures
        exact::close(
            val(fee),
            exact::larger(
                val(model.per_share) * exact::magnitude(val(fill.quantity)),
                val(model.minimum),
            ),
            step,
        ),
        val(fee) >= val(model.minimum),
        forall|free: N| #[trigger]
            (<NoCommission as CommissionModel<N>>::charges(&NoCommission, fill, free)) ==> val(free)
                == 0real,
{
    let size = exact::magnitude(val(fill.quantity));
    assert(size * val(model.per_share) == val(model.per_share) * size) by (nonlinear_arith);
}

} // verus!
