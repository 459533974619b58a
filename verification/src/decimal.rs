//! Fixed-point arithmetic, exact to a millionth.

use vstd::prelude::*;

use crate::number::Number;

verus! {

/// Millionths in a unit.
pub const SCALE: i64 = 1_000_000;

/// A number held as a whole count of millionths.
///
/// Results that no count can hold are clamped to the nearest one that can.
/// Products, quotients and roots are cut towards nought; a quotient by nought
/// is the bound with the sign of the dividend.
#[derive(Debug, Clone, Copy, PartialEq, Eq, Structural)]
pub struct Decimal {
    pub units: i64,
}

/// The count nearest to `exact`.
pub open spec fn saturate(exact: int) -> i64 {
    if exact > i64::MAX {
        i64::MAX
    } else if exact < i64::MIN {
        i64::MIN
    } else {
        exact as i64
    }
}

/// The distance of `value` from nought.
pub open spec fn magnitude(value: int) -> int {
    if value < 0 {
        -value
    } else {
        value
    }
}

/// `size` with the sign of the product of `a` and `b`.
pub open spec fn signed_like(a: int, b: int, size: int) -> int {
    if (a < 0) != (b < 0) {
        -size
    } else {
        size
    }
}

/// `root` is the largest integer whose square does not pass `square`.
pub open spec fn floor_root(square: int, root: int) -> bool {
    0 <= root && root * root <= square < (root + 1) * (root + 1)
}

fn clamp_units(exact: i128) -> (r: i64)
    ensures
        r == saturate(exact as int),
{
    if exact > i64::MAX as i128 {
        i64::MAX
    } else if exact < i64::MIN as i128 {
        i64::MIN
    } else {
        exact as i64
    }
}

fn magnitude_of(value: i64) -> (r: u128)
    ensures
        r == magnitude(value as int),
        r <= 0x8000_0000_0000_0000,
{
    if value < 0 {
        (-(value as i128)) as u128
    } else {
        value as u128
    }
}

fn with_sign(a: i64, b: i64, size: u128) -> (r: i64)
    requires
        size <= 0x4000_0000_0000_0000_0000_0000_0000_0000,
    ensures
        r == saturate(signed_like(a as int, b as int, size as int)),
{
    if (a < 0) != (b < 0) {
        clamp_units(-(size as i128))
    } else {
        clamp_units(size as i128)
    }
}

proof fn lemma_floor_root_unique(square: int, a: int, b: int)
    requires
        floor_root(square, a),
        floor_root(square, b),
    ensures
        a == b,
{
    if a < b {
        assert((a + 1) * (a + 1) <= b * b) by (nonlinear_arith)
            requires
                0 <= a,
                a + 1 <= b,
        ;
    } else if b < a {
        assert((b + 1) * (b + 1) <= a * a) by (nonlinear_arith)
            requires
                0 <= b,
                b + 1 <= a,
        ;
    }
}

/// The whole part of the square root of `square`.
fn root_of(square: u128) -> (r: u64)
    requires
        square < 0x1_0000_0000_0000_0000_0000_0000_0000,
    ensures
        floor_root(square as int, r as int),
{
    let mut low: u64 = 0;
    let mut high: u64 = 0x100_0000_0000_0000;
    assert(high * high == 0x1_0000_0000_0000_0000_0000_0000_0000) by (nonlinear_arith)
        requires
            high == 0x100_0000_0000_0000u64,
    ;
    while high - low > 1
        invariant
            low < high <= 0x100_0000_0000_0000,
            low * low <= square < high * high,
        decreases high - low,
    {
        let middle: u64 = low + (high - low) / 2;
        assert(middle * middle <= 0x100_0000_0000_0000 * 0x100_0000_0000_0000) by (nonlinear_arith)
            requires
                middle <= 0x100_0000_0000_0000u64,
        ;
        if (middle as u128) * (middle as u128) <= square {
            low = middle;
        } else {
            high = middle;
        }
    }
    assert(high == low + 1);
    low
}

impl Decimal {
    /// A whole number of units.
    pub fn whole(value: i32) -> (r: Decimal)
        ensures
            r.units == value * SCALE,
    {
        Decimal { units: value as i64 * SCALE }
    }
}

impl Number for Decimal {
    open spec fn spec_zero() -> Decimal {
        Decimal { units: 0 }
    }

    open spec fn spec_epsilon() -> Decimal {
        Decimal { units: 1 }
    }

    open spec fn spec_infinity() -> Decimal {
        Decimal { units: i64::MAX }
    }

    open spec fn spec_from_u64(value: u64) -> Decimal {
        Decimal { units: saturate(value * SCALE) }
    }

    open spec fn spec_to_u64(self) -> u64 {
        if self.units < 0 {
            0
        } else {
            (self.units / SCALE) as u64
        }
    }

    open spec fn spec_add(self, rhs: Decimal) -> Decimal {
        Decimal { units: saturate(self.units + rhs.units) }
    }

    open spec fn spec_sub(self, rhs: Decimal) -> Decimal {
        Decimal { units: saturate(self.units - rhs.units) }
    }

    open spec fn spec_mul(self, rhs: Decimal) -> Decimal {
        let size = magnitude(self.units as int) * magnitude(rhs.units as int) / (SCALE as int);
        Decimal { units: saturate(signed_like(self.units as int, rhs.units as int, size)) }
    }

    open spec fn spec_div(self, rhs: Decimal) -> Decimal {
        if rhs.units == 0 {
            if self.units == 0 {
                Decimal { units: 0 }
            } else if self.units > 0 {
                Decimal { units: i64::MAX }
            } else {
                Decimal { units: i64::MIN }
            }
        } else {
            let size = magnitude(self.units as int) * SCALE / magnitude(rhs.units as int);
            Decimal { units: saturate(signed_like(self.units as int, rhs.units as int, size)) }
        }
    }

    open spec fn spec_neg(self) -> Decimal {
        Decimal { units: saturate(-self.units) }
    }

    open spec fn spec_abs(self) -> Decimal {
        Decimal { units: saturate(magnitude(self.units as int)) }
    }

    open spec fn spec_signum(self) -> Decimal {
        if self.units < 0 {
            Decimal { units: (-SCALE) as i64 }
        } else {
            Decimal { units: SCALE }
        }
    }

    open spec fn spec_min(self, rhs: Decimal) -> Decimal {
        if rhs.units < self.units {
            rhs
        } else {
            self
        }
    }

    open spec fn spec_max(self, rhs: Decimal) -> Decimal {
        if self.units < rhs.units {
            rhs
        } else {
            self
        }
    }

    open spec fn spec_round(self) -> Decimal {
        let size = (magnitude(self.units as int) + SCALE / 2) / (SCALE as int) * SCALE;
        Decimal { units: saturate(signed_like(self.units as int, 1, size)) }
    }

    open spec fn spec_trunc(self) -> Decimal {
        let size = magnitude(self.units as int) / (SCALE as int) * SCALE;
        Decimal { units: saturate(signed_like(self.units as int, 1, size)) }
    }

    open spec fn spec_sqrt(self) -> Decimal {
        if self.units <= 0 {
            Decimal { units: 0 }
        } else {
            Decimal {
                units: choose|root: i64| #[trigger] floor_root(self.units * SCALE, root as int),
            }
        }
    }

    open spec fn spec_lt(self, rhs: Decimal) -> bool {
        self.units < rhs.units
    }

    open spec fn spec_le(self, rhs: Decimal) -> bool {
        self.units <= rhs.units
    }

    open spec fn spec_equals(self, rhs: Decimal) -> bool {
        self.units == rhs.units
    }

    open spec fn spec_is_finite(self) -> bool {
        i64::MIN < self.units < i64::MAX
    }

    fn zero() -> (r: Decimal) {
        Decimal { units: 0 }
    }

    fn epsilon() -> (r: Decimal) {
        Decimal { units: 1 }
    }

    fn infinity() -> (r: Decimal) {
        Decimal { units: i64::MAX }
    }

    fn from_u64(value: u64) -> (r: Decimal) {
        Decimal { units: clamp_units(value as i128 * SCALE as i128) }
    }

    fn to_u64(self) -> (r: u64) {
        if self.units < 0 {
            0
        } else {
            (self.units / SCALE) as u64
        }
    }

    fn add(self, rhs: Decimal) -> (r: Decimal) {
        Decimal { units: clamp_units(self.units as i128 + rhs.units as i128) }
    }

    fn sub(self, rhs: Decimal) -> (r: Decimal) {
        Decimal { units: clamp_units(self.units as i128 - rhs.units as i128) }
    }

    fn mul(self, rhs: Decimal) -> (r: Decimal) {
        let a: u128 = magnitude_of(self.units);
        let b: u128 = magnitude_of(rhs.units);
        assert(a * b <= 0x8000_0000_0000_0000 * 0x8000_0000_0000_0000) by (nonlinear_arith)
            requires
                a <= 0x8000_0000_0000_0000u128,
                b <= 0x8000_0000_0000_0000u128,
        ;
        Decimal { units: with_sign(self.units, rhs.units, a * b / (SCALE as u128)) }
    }

    fn div(self, rhs: Decimal) -> (r: Decimal) {
        if rhs.units == 0 {
            if self.units == 0 {
                Decimal { units: 0 }
            } else if self.units > 0 {
                Decimal { units: i64::MAX }
            } else {
                Decimal { units: i64::MIN }
            }
        } else {
            let a: u128 = magnitude_of(self.units);
            let b: u128 = magnitude_of(rhs.units);
            assert(0 <= (a * SCALE) / (b as int) <= a * SCALE) by (nonlinear_arith)
                requires
                    b >= 1,
                    SCALE >= 0,
            ;
            Decimal { units: with_sign(self.units, rhs.units, a * (SCALE as u128) / b) }
        }
    }

    fn neg(self) -> (r: Decimal) {
        Decimal { units: clamp_units(-(self.units as i128)) }
    }

    fn abs(self) -> (r: Decimal) {
        Decimal { units: with_sign(1, 1, magnitude_of(self.units)) }
    }

    fn signum(self) -> (r: Decimal) {
        if self.units < 0 {
            Decimal { units: -SCALE }
        } else {
            Decimal { units: SCALE }
        }
    }

    fn min(self, rhs: Decimal) -> (r: Decimal) {
        if rhs.units < self.units {
            rhs
        } else {
            self
        }
    }

    fn max(self, rhs: Decimal) -> (r: Decimal) {
        if self.units < rhs.units {
            rhs
        } else {
            self
        }
    }

    fn round(self) -> (r: Decimal) {
        let size: u128 = (magnitude_of(self.units) + (SCALE / 2) as u128) / (SCALE as u128) * (
        SCALE as u128);
        Decimal { units: with_sign(self.units, 1, size) }
    }

    fn trunc(self) -> (r: Decimal) {
        let size: u128 = magnitude_of(self.units) / (SCALE as u128) * (SCALE as u128);
        Decimal { units: with_sign(self.units, 1, size) }
    }

    fn sqrt(self) -> (r: Decimal) {
        if self.units <= 0 {
            Decimal { units: 0 }
        } else {
            let square: u128 = self.units as u128 * SCALE as u128;
            let root: u64 = root_of(square);
            assert(root < 0x8000_0000_0000_0000) by (nonlinear_arith)
                requires
                    root * root <= square,
                    square <= 0x7fff_ffff_ffff_ffff * 1_000_000,
            ;
            proof {
                assert(floor_root(self.units * SCALE, (root as i64) as int));
                let chosen = choose|candidate: i64|
                    #[trigger] floor_root(self.units * SCALE, candidate as int);
                lemma_floor_root_unique(self.units * SCALE, root as int, chosen as int);
            }
            Decimal { units: root as i64 }
        }
    }

    fn lt(self, rhs: Decimal) -> (r: bool) {
        self.units < rhs.units
    }

    fn le(self, rhs: Decimal) -> (r: bool) {
        self.units <= rhs.units
    }

    fn equals(self, rhs: Decimal) -> (r: bool) {
        self.units == rhs.units
    }

    fn is_finite(self) -> (r: bool) {
        i64::MIN < self.units && self.units < i64::MAX
    }
}

} // verus!
