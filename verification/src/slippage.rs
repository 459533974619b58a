//! Customizable slippage models.
//!
//! A slippage model maps the reference price of a fill to the actual
//! execution price. Set one on the [`Context`](crate::context::Context): a
//! built-in model, your own type implementing [`SlippageModel`], or a closure
//! wrapped in a [`FillFn`].

use std::marker::PhantomData;

use vstd::prelude::*;

use crate::bar::Bar;
use crate::exact;
use crate::number;
use crate::number::Number;
use crate::symbol::Symbol;

verus! {

/// Everything a slippage model needs to price a single fill.
pub struct FillContext<'a, N> {
    /// Symbol being traded.
    pub symbol: Symbol,
    /// Signed order quantity: positive = buy, negative = sell.
    pub quantity: N,
    /// Reference price before slippage.
    pub price: N,
    /// The bar the fill occurs on.
    pub bar: &'a Bar<N>,
}

impl<'a, N: Number> FillContext<'a, N> {
    /// Plus one for a buy, minus one for a sell. Multiply by this so a model
    /// always moves the price against the aggressor.
    pub fn direction(&self) -> (r: N)
        ensures
            r == self.quantity.signum(),
    {
        self.quantity.signum()
    }
}

/// Maps a reference price to an actual fill price.
pub trait SlippageModel<N: Number> {
    /// Whether the model can fill `fill` at `price`.
    spec fn quotes(&self, fill: &FillContext<'_, N>, price: N) -> bool;

    fn fill_price(&self, fill: &FillContext<'_, N>) -> (r: N)
        ensures
            self.quotes(fill, r),
    ;
}

/// No slippage: fills at the reference price. This is the default.
pub struct NoSlippage;

impl<N: Number> SlippageModel<N> for NoSlippage {
    open spec fn quotes(&self, fill: &FillContext<'_, N>, price: N) -> bool {
        price == fill.price
    }

    fn fill_price(&self, fill: &FillContext<'_, N>) -> (r: N) {
        fill.price
    }
}

/// So many basis points as a fraction.
pub open spec fn basis_points<N: Number>(points: N) -> N {
    points.div(N::from_u64(10_000))
}

/// Slippage as a fraction of price, moving against the aggressor: buys fill
/// higher, sells fill lower.
pub struct PercentSlippage<N> {
    /// Fraction of price: a thousandth is ten basis points.
    pub rate: N,
}

impl<N: Number> PercentSlippage<N> {
    /// Construct from basis points: a hundredth of a percent each.
    pub fn bps(bps: N) -> (r: PercentSlippage<N>)
        ensures
            r.rate == basis_points(bps),
            r.rate == bps.div(N::from_u64(10_000)),
    {
        PercentSlippage { rate: bps.div(N::from_u64(10_000)) }
    }
}

impl<N: Number> SlippageModel<N> for PercentSlippage<N> {
    open spec fn quotes(&self, fill: &FillContext<'_, N>, price: N) -> bool {
        price == fill.price.mul(number::one::<N>().add(self.rate.mul(fill.quantity.signum())))
    }

    fn fill_price(&self, fill: &FillContext<'_, N>) -> (r: N) {
        fill.price.mul(N::from_u64(1).add(self.rate.mul(fill.direction())))
    }
}

/// Fixed cash slippage per share, moving against the aggressor. Never below
/// nought.
pub struct FixedSlippage<N> {
    /// Cash amount per share.
    pub per_share: N,
}

impl<N: Number> SlippageModel<N> for FixedSlippage<N> {
    open spec fn quotes(&self, fill: &FillContext<'_, N>, price: N) -> bool {
        price == fill.price.add(self.per_share.mul(fill.quantity.signum())).max(N::zero())
    }

    fn fill_price(&self, fill: &FillContext<'_, N>) -> (r: N) {
        fill.price.add(self.per_share.mul(fill.direction())).max(N::zero())
    }
}

/// A closure from a fill to a number, as a slippage model (the number is the
/// fill price) or as a commission model (the number is the charge).
#[verifier::reject_recursive_types(N)]
#[verifier::reject_recursive_types(F)]
pub struct FillFn<N: Number, F: for <'a>Fn(&FillContext<'a, N>) -> N> {
    f: F,
    number: PhantomData<N>,
}

impl<N: Number, F: for <'a>Fn(&FillContext<'a, N>) -> N> FillFn<N, F> {
    /// The closure.
    pub closed spec fn function(&self) -> F {
        self.f
    }

    #[verifier::type_invariant]
    spec fn total(self) -> bool {
        forall|fill: FillContext<'_, N>| #[trigger] call_requires(self.f, (&fill,))
    }

    pub fn new(f: F) -> (r: FillFn<N, F>)
        requires
            forall|fill: FillContext<'_, N>| #[trigger] call_requires(f, (&fill,)),
        ensures
            r.function() == f,
    {
        FillFn { f, number: PhantomData }
    }

    /// What the closure returns for `fill`.
    pub fn call(&self, fill: &FillContext<'_, N>) -> (r: N)
        ensures
            call_ensures(self.function(), (fill,), r),
    {
        proof {
            use_type_invariant(self);
        }
        (self.f)(fill)
    }
}

impl<N: Number, F: for <'a>Fn(&FillContext<'a, N>) -> N> SlippageModel<N> for FillFn<N, F> {
    open spec fn quotes(&self, fill: &FillContext<'_, N>, price: N) -> bool {
        call_ensures(self.function(), (fill,), price)
    }

    fn fill_price(&self, fill: &FillContext<'_, N>) -> (r: N) {
        self.call(fill)
    }
}

proof fn lemma_moved(price: real, way: real, rate: real, moved: real, step: real)
    by (nonlinear_arith)
    requires
        step >= 0real,
        price >= 0real,
        rate >= 0real,
        rate <= 1real,
        way == 1real || way == -1real,
        exact::short_of(moved, price * (1real + rate * way), step),
    ensures
        exact::close(moved, price + way * (rate * price), step),
        way == -1real ==> 0real <= moved <= price - rate * price,
{
    assert(price * (1real + rate * way) == price + way * (rate * price));
    if way == -1real {
        assert(rate * price <= price);
    }
}

/// Slippage as a fraction moves the price against whoever trades, by that
/// fraction of it, but for rounding: a purchase pays more, a sale gets less and
/// never less than nothing.
pub proof fn percent_slippage_moves_against_the_order<N: Number>(
    model: PercentSlippage<N>,
    fill: &FillContext<'_, N>,
    price: N,
    val: spec_fn(N) -> real,
    step: real,
)
    requires
        exact::near(val, step),
        0real <= val(model.rate) <= 1real,
        val(fill.price) >= 0real,
        N::from_u64(1).is_finite(),
        model.rate.mul(fill.quantity.signum()).is_finite(),
        N::from_u64(1).add(model.rate.mul(fill.quantity.signum())).is_finite(),
        price.is_finite(),
        model.quotes(fill, price),
    ensures
        val(fill.quantity) > 0real ==> exact::close(
            val(price),
            val(fill.price) + val(model.rate) * val(fill.price),
            step,
        ),
        val(fill.quantity) < 0real ==> exact::close(
            val(price),
            val(fill.price) - val(model.rate) * val(fill.price),
            step,
        ),
        val(fill.quantity) < 0real ==> 0real <= val(price) <= val(fill.price),
{
    exact::lemma_signed_product(val, step, model.rate, fill.quantity);
    assert(exact::integer(1) == 1real);
    let way = exact::sign(val(fill.quantity));
    lemma_moved(val(fill.price), way, val(model.rate), val(price), step);
    assert(val(model.rate) * val(fill.price) >= 0real) by (nonlinear_arith)
        requires
            val(model.rate) >= 0real,
            val(fill.price) >= 0real,
    ;
    assert(1real * (val(model.rate) * val(fill.price)) == val(model.rate) * val(fill.price))
        by (nonlinear_arith);
    assert(-1real * (val(model.rate) * val(fill.price)) == -(val(model.rate) * val(fill.price)))
        by (nonlinear_arith);
}

/// Slippage per share moves the price against whoever trades, by that amount: a
/// purchase pays it on top, a sale gets that much less, and never less than
/// nothing.
pub proof fn fixed_slippage_moves_against_the_order<N: Number>(
    model: FixedSlippage<N>,
    fill: &FillContext<'_, N>,
    price: N,
    val: spec_fn(N) -> real,
    step: real,
)
    requires
        exact::near(val, step),
        model.per_share.mul(fill.quantity.signum()).is_finite(),
        fill.price.add(model.per_share.mul(fill.quantity.signum())).is_finite(),
        model.quotes(fill, price),
    ensures
        val(fill.quantity) > 0real ==> val(price) == exact::larger(
            val(fill.price) + val(model.per_share),
            0real,
        ),
        val(fill.quantity) < 0real ==> val(price) == exact::larger(
            val(fill.price) - val(model.per_share),
            0real,
        ),
{
    exact::lemma_signed_product(val, step, model.per_share, fill.quantity);
}

/// Without slippage a fill prints at the price it was sized at.
pub proof fn no_slippage_keeps_the_price<N: Number>(
    fill: &FillContext<'_, N>,
    price: N,
    val: spec_fn(N) -> real,
)
    requires
        <NoSlippage as SlippageModel<N>>::quotes(&NoSlippage, fill, price),
    ensures
        val(price) == val(fill.price),
{
}

proof fn lemma_basis_points(points: real, rate: real, step: real)
    by (nonlinear_arith)
    requires
        step >= 0real,
        exact::short_of(rate, points / 10000real, step),
    ensures
        exact::close(rate * 10000real, points, 10000real * step),
        points >= 0real ==> 0real <= rate * 10000real <= points,
{
}

/// A rate of so many basis points is that many ten-thousandths, but for rounding.
pub proof fn basis_points_are_ten_thousandths<N: Number>(
    points: N,
    val: spec_fn(N) -> real,
    step: real,
)
    requires
        exact::near(val, step),
        N::from_u64(10_000).is_finite(),
        basis_points(points).is_finite(),
    ensures
        exact::close(val(basis_points(points)) * 10000real, val(points), 10000real * step),
        val(points) >= 0real ==> 0real <= val(basis_points(points)) * 10000real <= val(points),
{
    assert(exact::integer(10_000) == 10000real);
    lemma_basis_points(val(points), val(basis_points(points)), step);
}


} // verus!
