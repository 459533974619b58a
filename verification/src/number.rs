//! The arithmetic the engine computes with.
//!
//! Every price, quantity and cash amount is a [`Number`]. The engine never
//! looks inside one: it adds, multiplies and compares, and its contracts say
//! which operations were applied to which values, in which order. What the
//! operations compute is up to the implementation, so the same engine runs on
//! [`Decimal`](crate::decimal::Decimal), whose arithmetic is exact to a
//! millionth, and on a machine type that rounds every operation.

use vstd::prelude::*;

verus! {

/// A numeric type the engine can run on.
///
/// Each operation is a function of its operands: the `spec_` function of the
/// same name stands for its result. Nothing else is asked of an
/// implementation - no identity, no rounding rule, no order law.
pub trait Number: Copy + Sized {
    spec fn spec_zero() -> Self;

    spec fn spec_epsilon() -> Self;

    spec fn spec_infinity() -> Self;

    spec fn spec_from_u64(value: u64) -> Self;

    spec fn spec_to_u64(self) -> u64;

    spec fn spec_add(self, rhs: Self) -> Self;

    spec fn spec_sub(self, rhs: Self) -> Self;

    spec fn spec_mul(self, rhs: Self) -> Self;

    spec fn spec_div(self, rhs: Self) -> Self;

    spec fn spec_neg(self) -> Self;

    spec fn spec_abs(self) -> Self;

    spec fn spec_signum(self) -> Self;

    spec fn spec_min(self, rhs: Self) -> Self;

    spec fn spec_max(self, rhs: Self) -> Self;

    spec fn spec_round(self) -> Self;

    spec fn spec_trunc(self) -> Self;

    spec fn spec_sqrt(self) -> Self;

    spec fn spec_lt(self, rhs: Self) -> bool;

    spec fn spec_le(self, rhs: Self) -> bool;

    spec fn spec_equals(self, rhs: Self) -> bool;

    spec fn spec_is_finite(self) -> bool;

    /// Nought.
    #[verifier::when_used_as_spec(spec_zero)]
    fn zero() -> (r: Self)
        ensures
            r == Self::zero(),
    ;

    /// Tolerance on share quantities: anything smaller in magnitude is
    /// rounding noise, not a position.
    #[verifier::when_used_as_spec(spec_epsilon)]
    fn epsilon() -> (r: Self)
        ensures
            r == Self::epsilon(),
    ;

    /// The largest value, standing for a quotient that has no bound.
    #[verifier::when_used_as_spec(spec_infinity)]
    fn infinity() -> (r: Self)
        ensures
            r == Self::infinity(),
    ;

    /// The whole number `value`.
    #[verifier::when_used_as_spec(spec_from_u64)]
    fn from_u64(value: u64) -> (r: Self)
        ensures
            r == Self::from_u64(value),
    ;

    /// The whole part as an integer, clamped to its range.
    #[verifier::when_used_as_spec(spec_to_u64)]
    fn to_u64(self) -> (r: u64)
        ensures
            r == self.to_u64(),
    ;

    #[verifier::when_used_as_spec(spec_add)]
    fn add(self, rhs: Self) -> (r: Self)
        ensures
            r == self.add(rhs),
    ;

    #[verifier::when_used_as_spec(spec_sub)]
    fn sub(self, rhs: Self) -> (r: Self)
        ensures
            r == self.sub(rhs),
    ;

    #[verifier::when_used_as_spec(spec_mul)]
    fn mul(self, rhs: Self) -> (r: Self)
        ensures
            r == self.mul(rhs),
    ;

    #[verifier::when_used_as_spec(spec_div)]
    fn div(self, rhs: Self) -> (r: Self)
        ensures
            r == self.div(rhs),
    ;

    #[verifier::when_used_as_spec(spec_neg)]
    fn neg(self) -> (r: Self)
        ensures
            r == self.neg(),
    ;

    #[verifier::when_used_as_spec(spec_abs)]
    fn abs(self) -> (r: Self)
        ensures
            r == self.abs(),
    ;

    /// One with the sign of `self`; plus one for nought.
    #[verifier::when_used_as_spec(spec_signum)]
    fn signum(self) -> (r: Self)
        ensures
            r == self.signum(),
    ;

    #[verifier::when_used_as_spec(spec_min)]
    fn min(self, rhs: Self) -> (r: Self)
        ensures
            r == self.min(rhs),
    ;

    #[verifier::when_used_as_spec(spec_max)]
    fn max(self, rhs: Self) -> (r: Self)
        ensures
            r == self.max(rhs),
    ;

    /// The nearest whole number, halves away from nought.
    #[verifier::when_used_as_spec(spec_round)]
    fn round(self) -> (r: Self)
        ensures
            r == self.round(),
    ;

    /// The whole part, towards nought.
    #[verifier::when_used_as_spec(spec_trunc)]
    fn trunc(self) -> (r: Self)
        ensures
            r == self.trunc(),
    ;

    #[verifier::when_used_as_spec(spec_sqrt)]
    fn sqrt(self) -> (r: Self)
        ensures
            r == self.sqrt(),
    ;

    #[verifier::when_used_as_spec(spec_lt)]
    fn lt(self, rhs: Self) -> (r: bool)
        ensures
            r == self.lt(rhs),
    ;

    #[verifier::when_used_as_spec(spec_le)]
    fn le(self, rhs: Self) -> (r: bool)
        ensures
            r == self.le(rhs),
    ;

    /// Numeric equality.
    #[verifier::when_used_as_spec(spec_equals)]
    fn equals(self, rhs: Self) -> (r: bool)
        ensures
            r == self.equals(rhs),
    ;

    #[verifier::when_used_as_spec(spec_is_finite)]
    fn is_finite(self) -> (r: bool)
        ensures
            r == self.is_finite(),
    ;
}

/// The number one.
pub open spec fn one<N: Number>() -> N {
    N::from_u64(1)
}

/// Whether a quantity is rounding noise rather than a position.
pub open spec fn spec_negligible<N: Number>(quantity: N) -> bool {
    quantity.abs().lt(N::epsilon())
}

#[verifier::when_used_as_spec(spec_negligible)]
pub fn negligible<N: Number>(quantity: N) -> (r: bool)
    ensures
        r == negligible(quantity),
{
    quantity.abs().lt(N::epsilon())
}

/// `value` held between `low` and `high`.
pub open spec fn spec_clamp<N: Number>(value: N, low: N, high: N) -> N {
    let raised = if value.lt(low) {
        low
    } else {
        value
    };
    if high.lt(raised) {
        high
    } else {
        raised
    }
}

#[verifier::when_used_as_spec(spec_clamp)]
pub fn clamp<N: Number>(value: N, low: N, high: N) -> (r: N)
    ensures
        r == clamp(value, low, high),
{
    let raised = if value.lt(low) {
        low
    } else {
        value
    };
    if high.lt(raised) {
        high
    } else {
        raised
    }
}

/// `quantity` cut down to a whole number of lots, towards nought.
pub open spec fn spec_whole_lots<N: Number>(quantity: N, lot: N) -> N {
    quantity.div(lot).trunc().mul(lot)
}

#[verifier::when_used_as_spec(spec_whole_lots)]
pub fn whole_lots<N: Number>(quantity: N, lot: N) -> (r: N)
    ensures
        r == whole_lots(quantity, lot),
{
    quantity.div(lot).trunc().mul(lot)
}

} // verus!
