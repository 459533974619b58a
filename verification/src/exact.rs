//! How numbers stand for reals.
//!
//! The engine's contracts say which operations are applied to which numbers.
//! Whether the amounts then add up depends on the numbers: a type that rounds
//! gives every identity a rounding error. The laws that speak of amounts are
//! stated for numbers whose products and quotients are cut by at most a step,
//! and of operations that stay in range; they bound the error by steps.

use vstd::prelude::*;

use crate::broker;
use crate::decimal;
use crate::decimal::Decimal;
use crate::number::Number;

verus! {

/// The magnitude of a real.
pub open spec fn magnitude(x: real) -> real {
    if x < 0real {
        -x
    } else {
        x
    }
}

/// One with the sign of a real; plus one for nought.
pub open spec fn sign(x: real) -> real {
    if x < 0real {
        -1real
    } else {
        1real
    }
}

/// The smaller of two reals.
pub open spec fn smaller(x: real, y: real) -> real {
    if x <= y {
        x
    } else {
        y
    }
}

/// The larger of two reals.
pub open spec fn larger(x: real, y: real) -> real {
    if x >= y {
        x
    } else {
        y
    }
}

/// An integer as a real.
pub open spec fn integer(k: int) -> real {
    k as real
}

/// Whether a real is a whole number.
pub open spec fn whole(x: real) -> bool {
    exists|k: int| x == #[trigger] integer(k)
}

/// Whether every number stands for the real `val` gives it, as far as order
/// goes. This much holds of numbers that round, too.
pub open spec fn ordered<N: Number>(val: spec_fn(N) -> real) -> bool {
    &&& val(N::zero()) == 0real
    &&& forall|a: N, b: N| val(#[trigger] a.min(b)) == smaller(val(a), val(b))
    &&& forall|a: N, b: N| val(#[trigger] a.max(b)) == larger(val(a), val(b))
    &&& forall|a: N, b: N| #[trigger] a.lt(b) <==> val(a) < val(b)
    &&& forall|a: N, b: N| #[trigger] a.le(b) <==> val(a) <= val(b)
    &&& forall|a: N, b: N| #[trigger] a.equals(b) <==> val(a) == val(b)
}

/// Whether `r` is the nearest whole number to `x`, halves away from nought.
pub open spec fn rounds(x: real, r: real) -> bool {
    &&& whole(r)
    &&& -1real <= 2real * (r - x) <= 1real
    &&& 2real * (r - x) == 1real ==> x > 0real
    &&& 2real * (r - x) == -1real ==> x < 0real
}

/// Whether `r` is the whole part of `x`.
pub open spec fn cuts(x: real, r: real) -> bool {
    &&& whole(r)
    &&& if x >= 0real {
        0real <= r <= x && x < r + 1real
    } else {
        x <= r <= 0real && r - 1real < x
    }
}

/// The terms of the ids below `end` that are in `ids`, added up.
pub open spec fn total_below(ids: Set<u16>, term: spec_fn(u16) -> real, end: int) -> real
    decreases end,
{
    if end <= 0 {
        0real
    } else {
        let before = total_below(ids, term, end - 1);
        if ids.contains((end - 1) as u16) {
            before + term((end - 1) as u16)
        } else {
            before
        }
    }
}

/// The terms of all of `ids`, added up.
pub open spec fn total(ids: Set<u16>, term: spec_fn(u16) -> real) -> real {
    total_below(ids, term, 0x1_0000)
}

/// What one id adds to a total.
pub open spec fn part(ids: Set<u16>, term: spec_fn(u16) -> real, id: u16) -> real {
    if ids.contains(id) {
        term(id)
    } else {
        0real
    }
}

proof fn lemma_total_below_change(
    ids: Set<u16>,
    term: spec_fn(u16) -> real,
    other_ids: Set<u16>,
    other_term: spec_fn(u16) -> real,
    id: u16,
    end: int,
)
    requires
        end <= 0x1_0000,
        forall|a: u16| a != id ==> #[trigger] part(ids, term, a) == part(other_ids, other_term, a),
    ensures
        total_below(other_ids, other_term, end) == total_below(ids, term, end) + if id < end {
            part(other_ids, other_term, id) - part(ids, term, id)
        } else {
            0real
        },
    decreases end,
{
    if end > 0 {
        lemma_total_below_change(ids, term, other_ids, other_term, id, end - 1);
        let last = (end - 1) as u16;
        if last != id {
            assert(part(ids, term, last) == part(other_ids, other_term, last));
        }
    }
}

/// Two totals that differ in one id differ by what it adds.
pub proof fn lemma_total_change(
    ids: Set<u16>,
    term: spec_fn(u16) -> real,
    other_ids: Set<u16>,
    other_term: spec_fn(u16) -> real,
    id: u16,
)
    requires
        forall|a: u16| a != id ==> #[trigger] part(ids, term, a) == part(other_ids, other_term, a),
    ensures
        total(other_ids, other_term) == total(ids, term) + part(other_ids, other_term, id) - part(
            ids,
            term,
            id,
        ),
{
    lemma_total_below_change(ids, term, other_ids, other_term, id, 0x1_0000);
}

/// Whether two reals are at most `step` apart.
pub open spec fn close(x: real, y: real, step: real) -> bool {
    y - step <= x <= y + step
}

/// Whether `x` is `y` cut towards nought, by at most `step`.
pub open spec fn short_of(x: real, y: real, step: real) -> bool {
    if y >= 0real {
        0real <= x <= y && y - step <= x
    } else {
        y <= x <= 0real && x <= y + step
    }
}

/// Whether every number stands for the real `val` gives it, and every operation
/// that does not run out of range for the operation on reals: sums and
/// differences without error, products and quotients cut by at most `step`, a
/// product by a whole number not at all.
pub open spec fn near<N: Number>(val: spec_fn(N) -> real, step: real) -> bool {
    &&& ordered(val)
    &&& step >= 0real
    &&& val(N::epsilon()) > 0real
    &&& forall|k: u64|
        (#[trigger] N::from_u64(k)).is_finite() ==> val(N::from_u64(k)) == integer(k as int)
    &&& forall|a: N, b: N| (#[trigger] a.add(b)).is_finite() ==> val(a.add(b)) == val(a) + val(b)
    &&& forall|a: N, b: N| (#[trigger] a.sub(b)).is_finite() ==> val(a.sub(b)) == val(a) - val(b)
    &&& forall|a: N, b: N|
        (#[trigger] a.mul(b)).is_finite() ==> short_of(val(a.mul(b)), val(a) * val(b), step)
    &&& forall|a: N, b: N|
        (#[trigger] a.mul(b)).is_finite() && (whole(val(a)) || whole(val(b))) ==> val(a.mul(b))
            == val(a) * val(b)
    &&& forall|a: N, b: N|
        val(b) != 0real && (#[trigger] a.div(b)).is_finite() ==> short_of(
            val(a.div(b)),
            val(a) / val(b),
            step,
        )
    &&& forall|a: N| (#[trigger] a.neg()).is_finite() ==> val(a.neg()) == -val(a)
    &&& forall|a: N| (#[trigger] a.abs()).is_finite() ==> val(a.abs()) == magnitude(val(a))
    &&& forall|a: N| val(#[trigger] a.signum()) == sign(val(a))
    &&& forall|a: N| (#[trigger] a.round()).is_finite() ==> rounds(val(a), val(a.round()))
    &&& forall|a: N| cuts(val(a), val(#[trigger] a.trunc()))
}

/// Whether every number that is not below nought, nor past the largest count, counts
/// as its whole part.
pub open spec fn counts<N: Number>(val: spec_fn(N) -> real) -> bool {
    forall|a: N|
        0real <= val(a) <= integer(u64::MAX as int) ==> cuts(
            val(a),
            integer((#[trigger] a.to_u64()) as int),
        )
}

/// Whether every number that is not below nought has its square root, cut by at most
/// `step`.
pub open spec fn has_roots<N: Number>(val: spec_fn(N) -> real, step: real) -> bool {
    forall|a: N| val(a) >= 0real ==> is_root(val(a), val(#[trigger] a.sqrt()), step)
}

/// Whether `root` is the square root of `square`, cut by at most `step`.
pub open spec fn is_root(square: real, root: real, step: real) -> bool {
    &&& root >= 0real
    &&& root * root <= square
    &&& square <= (root + step) * (root + step)
}

/// A product by a sign keeps its size.
pub proof fn lemma_signed_product<N: Number>(val: spec_fn(N) -> real, step: real, a: N, b: N)
    requires
        near(val, step),
    ensures
        a.mul(b.signum()).is_finite() ==> val(a.mul(b.signum())) == val(a) * sign(val(b)),
        b.signum().mul(a).is_finite() ==> val(b.signum().mul(a)) == sign(val(b)) * val(a),
{
    assert(1real == integer(1));
    assert(-1real == integer(-1));
    assert(whole(val(b.signum())));
}

/// What a decimal stands for: its count of millionths.
pub open spec fn decimal_value() -> spec_fn(Decimal) -> real {
    |d: Decimal| integer(d.units as int) / 1000000real
}

proof fn lemma_cut_product(a: int, b: int, k: int)
    by (nonlinear_arith)
    requires
        a >= 0,
        b >= 0,
        k == a * b / 1000000,
    ensures
        short_of(
            (k as real) / 1000000real,
            ((a as real) / 1000000real) * ((b as real) / 1000000real),
            1real / 1000000real,
        ),
{
    let rest = a * b - k * 1000000;
    assert(0 <= rest < 1000000);
    assert((a * b) as real == (a as real) * (b as real));
    assert((a * b) as real == (k as real) * 1000000real + (rest as real));
}

proof fn lemma_cut_quotient(a: int, b: int, k: int)
    by (nonlinear_arith)
    requires
        a >= 0,
        b > 0,
        k == a * 1000000 / b,
    ensures
        short_of(
            (k as real) / 1000000real,
            ((a as real) / 1000000real) / ((b as real) / 1000000real),
            1real / 1000000real,
        ),
{
    let rest = a * 1000000 - k * b;
    assert(0 <= rest < b);
    assert((k * b) as real == (k as real) * (b as real));
    assert((a as real) * 1000000real == (k as real) * (b as real) + (rest as real));
    let x = a as real;
    let y = b as real;
    assert((x / 1000000real) / (y / 1000000real) == x / y);
    assert(x / y == (k as real) / 1000000real + (rest as real) / y / 1000000real);
    assert(0real <= (rest as real) / y < 1real);
}

proof fn lemma_signs(x: real, y: real, r: real)
    by (nonlinear_arith)
    ensures
        (-x) * y == -(x * y),
        x * (-y) == -(x * y),
        y != 0real ==> (-x) / y == -(x / y),
        y != 0real ==> x / (-y) == -(x / y),
        (-r) / 1000000real == -(r / 1000000real),
{
}

proof fn lemma_unsaturated(exact: int)
    ensures
        i64::MIN < decimal::saturate(exact) < i64::MAX ==> decimal::saturate(exact) == exact,
{
}

proof fn lemma_decimal_product(a: Decimal, b: Decimal)
    requires
        a.mul(b).is_finite(),
    ensures
        short_of(
            decimal_value()(a.mul(b)),
            decimal_value()(a) * decimal_value()(b),
            1real / 1000000real,
        ),
{
    let x = a.units as int;
    let y = b.units as int;
    let size = decimal::magnitude(x) * decimal::magnitude(y) / 1000000;
    lemma_unsaturated(decimal::signed_like(x, y, size));
    lemma_cut_product(decimal::magnitude(x), decimal::magnitude(y), size);
    lemma_signs(integer(x) / 1000000real, integer(y) / 1000000real, integer(x));
    lemma_signs(-(integer(x) / 1000000real), integer(y) / 1000000real, integer(y));
    lemma_signs(0real, 1real, integer(size));
    assert(integer(-size) == -integer(size));
    assert(integer(-x) == -integer(x));
    assert(integer(-y) == -integer(y));
}

proof fn lemma_decimal_quotient(a: Decimal, b: Decimal)
    requires
        b.units != 0,
        a.div(b).is_finite(),
    ensures
        short_of(
            decimal_value()(a.div(b)),
            decimal_value()(a) / decimal_value()(b),
            1real / 1000000real,
        ),
{
    let x = a.units as int;
    let y = b.units as int;
    let size = decimal::magnitude(x) * 1000000 / decimal::magnitude(y);
    lemma_unsaturated(decimal::signed_like(x, y, size));
    lemma_cut_quotient(decimal::magnitude(x), decimal::magnitude(y), size);
    lemma_signs(integer(x) / 1000000real, integer(y) / 1000000real, integer(x));
    lemma_signs(-(integer(x) / 1000000real), integer(y) / 1000000real, integer(y));
    lemma_signs(0real, 1real, integer(size));
    assert(integer(-size) == -integer(size));
    assert(integer(-x) == -integer(x));
    assert(integer(-y) == -integer(y));
}

proof fn lemma_whole_product(x: int, y: int, k: int)
    by (nonlinear_arith)
    requires
        x == k * 1000000 || x == -(k * 1000000),
        x >= 0,
        y >= 0,
    ensures
        x * y / 1000000 == if x == k * 1000000 {
            k * y
        } else {
            -(k * y)
        },
{
    if x == k * 1000000 {
        assert(x * y == (k * y) * 1000000);
    } else {
        assert(x * y == (-(k * y)) * 1000000);
    }
}

proof fn lemma_decimal_multiple(a: Decimal, b: Decimal)
    requires
        a.mul(b).is_finite(),
        whole(decimal_value()(a)),
    ensures
        decimal_value()(a.mul(b)) == decimal_value()(a) * decimal_value()(b),
        decimal_value()(b.mul(a)) == decimal_value()(b) * decimal_value()(a),
{
    let x = a.units as int;
    let y = b.units as int;
    let k = choose|k: int| decimal_value()(a) == #[trigger] integer(k);
    assert(integer(x) == integer(k * 1000000));
    assert(x == k * 1000000);
    let size = decimal::magnitude(x) * decimal::magnitude(y) / 1000000;
    lemma_whole_product(decimal::magnitude(x), decimal::magnitude(y), k);
    assert(decimal::signed_like(x, y, size) == k * y) by (nonlinear_arith)
        requires
            x == k * 1000000,
            size == if decimal::magnitude(x) == k * 1000000 {
                k * decimal::magnitude(y)
            } else {
                -(k * decimal::magnitude(y))
            },
    ;
    lemma_unsaturated(k * y);
    assert(decimal::magnitude(x) * decimal::magnitude(y) == decimal::magnitude(y)
        * decimal::magnitude(x)) by (nonlinear_arith);
    assert(decimal::signed_like(y, x, size) == k * y) by (nonlinear_arith)
        requires
            decimal::signed_like(x, y, size) == k * y,
            x == k * 1000000,
    ;
    assert(integer(k * y) == integer(k) * integer(y)) by (nonlinear_arith);
    assert((integer(k) * integer(y)) / 1000000real == integer(k) * (integer(y) / 1000000real))
        by (nonlinear_arith);
    assert(integer(k) * (integer(y) / 1000000real) == (integer(y) / 1000000real) * integer(k))
        by (nonlinear_arith);
}

proof fn lemma_decimal_whole(a: Decimal)
    ensures
        a.round().is_finite() ==> rounds(decimal_value()(a), decimal_value()(a.round())),
        cuts(decimal_value()(a), decimal_value()(a.trunc())),
{
    let x = a.units as int;
    let m = decimal::magnitude(x);
    let near = (m + 500000) / 1000000;
    let cut = m / 1000000;
    lemma_unsaturated(decimal::signed_like(x, 1, near * 1000000));
    assert(decimal::signed_like(x, 1, cut * 1000000) == decimal::saturate(
        decimal::signed_like(x, 1, cut * 1000000),
    ));
    assert(integer(near * 1000000) / 1000000real == integer(near));
    assert(integer(cut * 1000000) / 1000000real == integer(cut));
    assert(integer(-(near * 1000000)) / 1000000real == integer(-near));
    assert(integer(-(cut * 1000000)) / 1000000real == integer(-cut));
}

proof fn lemma_root_exists(square: int) -> (root: int)
    requires
        square >= 0,
    ensures
        decimal::floor_root(square, root),
    decreases square,
{
    if square == 0 {
        assert(decimal::floor_root(0, 0)) by {
            assert(0int * 0int == 0 && (0int + 1) * (0int + 1) == 1) by (nonlinear_arith);
        }
        0
    } else {
        let root = lemma_root_exists(square - 1);
        if (root + 1) * (root + 1) <= square {
            assert((root + 2) * (root + 2) > (root + 1) * (root + 1)) by (nonlinear_arith)
                requires
                    root >= 0,
            ;
            root + 1
        } else {
            root
        }
    }
}

proof fn lemma_decimal_root(a: Decimal)
    requires
        a.units >= 0,
    ensures
        is_root(decimal_value()(a), decimal_value()(a.sqrt()), 1real / 1000000real),
{
    if a.units > 0 {
        let square = a.units * 1000000;
        let found = lemma_root_exists(square);
        assert(found <= i64::MAX) by (nonlinear_arith)
            requires
                found >= 0,
                found * found <= square,
                square <= 0x7fff_ffff_ffff_ffff * 1000000,
        ;
        assert(decimal::floor_root(square, (found as i64) as int));
        let root = a.sqrt().units as int;
        assert(decimal::floor_root(square, root));
        lemma_root_in_millionths(square, root, a.units as int);
    } else {
        assert(integer(0) / 1000000real == 0real);
        assert(is_root(0real, 0real, 1real / 1000000real)) by (nonlinear_arith);
    }
}

proof fn lemma_root_in_millionths(square: int, root: int, units: int)
    by (nonlinear_arith)
    requires
        decimal::floor_root(square, root),
        square == units * 1000000,
    ensures
        is_root(
            (units as real) / 1000000real,
            (root as real) / 1000000real,
            1real / 1000000real,
        ),
{
    let r = (root as real) / 1000000real;
    let u = (units as real) / 1000000real;
    assert((root * root) as real == (root as real) * (root as real));
    assert(((root + 1) * (root + 1)) as real == ((root + 1) as real) * ((root + 1) as real));
    assert((root as real) * (root as real) <= (square as real));
    assert((square as real) == (units as real) * 1000000real);
    assert(r * r == (root as real) * (root as real) / 1000000000000real);
    assert(u == (square as real) / 1000000000000real);
    let e = r + 1real / 1000000real;
    assert(e == ((root + 1) as real) / 1000000real);
    assert(e * e == ((root + 1) as real) * ((root + 1) as real) / 1000000000000real);
}

/// Decimals stand for their counts of millionths, to within one: where nothing
/// is clamped, a product, a quotient or a root loses less than a millionth, and
/// nothing else loses anything.
pub proof fn decimals_are_near()
    ensures
        near(decimal_value(), 1real / 1000000real),
        counts(decimal_value()),
        has_roots(decimal_value(), 1real / 1000000real),
{
    let val = decimal_value();
    assert forall|a: Decimal, b: Decimal| (#[trigger] a.mul(b)).is_finite() implies short_of(
        val(a.mul(b)),
        val(a) * val(b),
        1real / 1000000real,
    ) by {
        lemma_decimal_product(a, b);
    }
    assert forall|a: Decimal, b: Decimal|
        val(b) != 0real && (#[trigger] a.div(b)).is_finite() implies short_of(
        val(a.div(b)),
        val(a) / val(b),
        1real / 1000000real,
    ) by {
        lemma_decimal_quotient(a, b);
    }
    assert forall|a: Decimal, b: Decimal|
        (#[trigger] a.mul(b)).is_finite() && (whole(val(a)) || whole(val(b))) implies val(a.mul(b))
        == val(a) * val(b) by {
        if whole(val(a)) {
            lemma_decimal_multiple(a, b);
        } else {
            assert(decimal::magnitude(a.units as int) * decimal::magnitude(b.units as int)
                == decimal::magnitude(b.units as int) * decimal::magnitude(a.units as int))
                by (nonlinear_arith);
            assert(b.mul(a).units == a.mul(b).units);
            lemma_decimal_multiple(b, a);
        }
    }
    assert forall|a: Decimal| (#[trigger] a.round()).is_finite() implies rounds(
        val(a),
        val(a.round()),
    ) by {
        lemma_decimal_whole(a);
    }
    assert forall|a: Decimal| cuts(val(a), val(#[trigger] a.trunc())) by {
        lemma_decimal_whole(a);
    }
    assert forall|a: Decimal| 0real <= val(a) <= integer(u64::MAX as int) implies cuts(
        val(a),
        integer((#[trigger] a.to_u64()) as int),
    ) by {
        let whole_part = a.units as int / 1000000;
        assert(a.to_u64() == whole_part);
        assert(whole(integer(whole_part)));
    }
    assert forall|a: Decimal| val(a) >= 0real implies is_root(
        val(a),
        val(#[trigger] a.sqrt()),
        1real / 1000000real,
    ) by {
        lemma_decimal_root(a);
    }
    assert forall|a: Decimal| (#[trigger] a.neg()).is_finite() implies val(a.neg()) == -val(a) by {
        lemma_unsaturated(-(a.units as int));
    }
    assert forall|k: u64| (#[trigger] Decimal::from_u64(k)).is_finite() implies val(
        Decimal::from_u64(k),
    ) == integer(k as int) by {
        lemma_unsaturated(k * 1000000);
    }
}

/// Whether `result` is the outcome of an operation whose exact result is `exact`:
/// in range, or else the bound it ran into.
pub open spec fn clamps(exact: real, result: Decimal) -> bool {
    let top = decimal_value()(Decimal::infinity());
    let bottom = -top - 1real / 1000000real;
    &&& bottom < exact < top ==> result.is_finite()
    &&& exact >= top ==> !result.is_finite() && decimal_value()(result) == top
    &&& exact <= bottom ==> !result.is_finite() && decimal_value()(result) == bottom
}

proof fn lemma_clamped(exact: real, size: int, negative: bool, result: Decimal)
    requires
        size >= 0,
        integer(size) / 1000000real <= magnitude(exact) < integer(size + 1) / 1000000real,
        negative ==> exact <= 0real,
        !negative ==> exact >= 0real,
        result.units == decimal::saturate(
            if negative {
                -size
            } else {
                size
            },
        ),
    ensures
        clamps(exact, result),
{
}

proof fn lemma_product_is_cut(a: int, b: int, k: int)
    by (nonlinear_arith)
    requires
        a >= 0,
        b >= 0,
        k == a * b / 1000000,
    ensures
        k >= 0,
        (k as real) / 1000000real <= ((a as real) / 1000000real) * ((b as real) / 1000000real)
            < ((k + 1) as real) / 1000000real,
{
    let rest = a * b - k * 1000000;
    assert(0 <= rest < 1000000);
    assert((a * b) as real == (a as real) * (b as real));
    assert((a * b) as real == (k as real) * 1000000real + (rest as real));
}

proof fn lemma_quotient_is_cut(a: int, b: int, k: int)
    by (nonlinear_arith)
    requires
        a >= 0,
        b > 0,
        k == a * 1000000 / b,
    ensures
        k >= 0,
        (k as real) / 1000000real <= ((a as real) / 1000000real) / ((b as real) / 1000000real)
            < ((k + 1) as real) / 1000000real,
{
    let rest = a * 1000000 - k * b;
    assert(0 <= rest < b);
    assert((k * b) as real == (k as real) * (b as real));
    assert((a as real) * 1000000real == (k as real) * (b as real) + (rest as real));
    let x = a as real;
    let y = b as real;
    assert((x / 1000000real) / (y / 1000000real) == x / y);
    assert(x / y == (k as real) / 1000000real + (rest as real) / y / 1000000real);
    assert(0real <= (rest as real) / y < 1real);
}

proof fn lemma_sizes(x: real, y: real)
    by (nonlinear_arith)
    ensures
        magnitude(x) * magnitude(y) == magnitude(x * y),
        y != 0real ==> magnitude(x) / magnitude(y) == magnitude(x / y),
        (x < 0real) != (y < 0real) ==> x * y <= 0real,
        (x < 0real) == (y < 0real) ==> x * y >= 0real,
        y != 0real && (x < 0real) != (y < 0real) ==> x / y <= 0real,
        y != 0real && (x < 0real) == (y < 0real) ==> x / y >= 0real,
{
}

proof fn lemma_product_clamps(a: Decimal, b: Decimal)
    ensures
        clamps(decimal_value()(a) * decimal_value()(b), a.mul(b)),
{
    let x = a.units as int;
    let y = b.units as int;
    let m = decimal::magnitude(x);
    let n = decimal::magnitude(y);
    let size = m * n / 1000000;
    lemma_product_is_cut(m, n, size);
    lemma_sizes(integer(x) / 1000000real, integer(y) / 1000000real);
    assert(integer(m) / 1000000real == magnitude(integer(x) / 1000000real));
    assert(integer(n) / 1000000real == magnitude(integer(y) / 1000000real));
    lemma_clamped(
        decimal_value()(a) * decimal_value()(b),
        size,
        (x < 0) != (y < 0),
        a.mul(b),
    );
}

proof fn lemma_quotient_clamps(a: Decimal, b: Decimal)
    ensures
        b.units != 0 ==> clamps(decimal_value()(a) / decimal_value()(b), a.div(b)),
{
    if b.units != 0 {
        let x = a.units as int;
        let y = b.units as int;
        let m = decimal::magnitude(x);
        let n = decimal::magnitude(y);
        let size = m * 1000000 / n;
        lemma_quotient_is_cut(m, n, size);
        lemma_sizes(integer(x) / 1000000real, integer(y) / 1000000real);
        assert(integer(m) / 1000000real == magnitude(integer(x) / 1000000real));
        assert(integer(n) / 1000000real == magnitude(integer(y) / 1000000real));
        lemma_clamped(
            decimal_value()(a) / decimal_value()(b),
            size,
            (x < 0) != (y < 0),
            a.div(b),
        );
    }
}

/// A decimal operation runs out of range only where its result passes the largest
/// or the smallest decimal, and then comes to that. A quotient by nought has no
/// bound, the root of what is below nought is nought, and so is its whole part as
/// a count. No decimal is larger than infinity, and none that is positive is
/// smaller than the threshold.
pub proof fn decimals_clamp(a: Decimal, b: Decimal, k: u64)
    ensures
        ({
            let val = decimal_value();
            &&& clamps(val(a) + val(b), a.add(b))
            &&& clamps(val(a) - val(b), a.sub(b))
            &&& clamps(val(a) * val(b), a.mul(b))
            &&& val(b) != 0real ==> clamps(val(a) / val(b), a.div(b))
            &&& val(b) == 0real && val(a) > 0real ==> a.div(b) == Decimal::infinity()
            &&& val(b) == 0real && val(a) == 0real ==> val(a.div(b)) == 0real
            &&& val(b) == 0real && val(a) < 0real ==> !a.div(b).is_finite() && val(a.div(b)) < -val(
                Decimal::infinity(),
            )
            &&& clamps(-val(a), a.neg())
            &&& clamps(magnitude(val(a)), a.abs())
            &&& clamps(integer(k as int), Decimal::from_u64(k))
            &&& val(a) <= val(Decimal::infinity())
            &&& val(a) > 0real ==> val(Decimal::epsilon()) <= val(a)
            &&& val(a) < 0real ==> val(a.sqrt()) == 0real && a.to_u64() == 0
        }),
{
    let val = decimal_value();
    assert(integer(a.units + b.units) / 1000000real == val(a) + val(b));
    assert(integer(a.units - b.units) / 1000000real == val(a) - val(b));
    lemma_product_clamps(a, b);
    lemma_quotient_clamps(a, b);
}

/// Decimals are ordered as their counts are.
pub proof fn decimals_are_ordered()
    ensures
        ordered(decimal_value()),
{
}

/// Whether no sum runs out of range as the terms of `ids` are added up.
pub open spec fn sum_fits<N: Number>(ids: Set<u16>, term: spec_fn(u16) -> N) -> bool {
    forall|id: u16| #[trigger]
        ids.contains(id) ==> broker::sum_below(ids, term, id as int).add(term(id)).is_finite()
}

/// A sum that stays in range stands for the total of what its terms stand for.
pub proof fn lemma_sum_is_total<N: Number>(
    val: spec_fn(N) -> real,
    step: real,
    ids: Set<u16>,
    term: spec_fn(u16) -> N,
    real_term: spec_fn(u16) -> real,
    end: int,
)
    requires
        near(val, step),
        sum_fits(ids, term),
        end <= 0x1_0000,
        forall|a: u16| #[trigger] ids.contains(a) ==> real_term(a) == val(term(a)),
    ensures
        val(broker::sum_below(ids, term, end)) == total_below(ids, real_term, end),
    decreases end,
{
    if end > 0 {
        lemma_sum_is_total(val, step, ids, term, real_term, end - 1);
        let last = (end - 1) as u16;
        assert(broker::sum_below(ids, term, last as int) == broker::sum_below(ids, term, end - 1));
    }
}

/// How many of the ids below `end` are in `ids`.
pub open spec fn count_below(ids: Set<u16>, end: int) -> real {
    total_below(ids, |id: u16| 1real, end)
}

/// How many ids there are.
pub open spec fn count(ids: Set<u16>) -> real {
    count_below(ids, 0x1_0000)
}

pub proof fn lemma_count(ids: Set<u16>, end: int)
    ensures
        count_below(ids, end) >= 0real,
    decreases end,
{
    if end > 0 {
        lemma_count(ids, end - 1);
    }
}

} // verus!
