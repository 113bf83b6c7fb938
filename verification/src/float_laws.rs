//! How rounded arithmetic keeps the order of values, and where it is exact.
use crate::float::{FloatValue, Format};
use crate::rounding;
use vstd::arithmetic::div_mod::*;
use vstd::arithmetic::power2::*;
use vstd::prelude::*;

verus! {

/// Whether both values are numbers that are not negative, and the first is not above the second.
pub open spec fn ordered(x: FloatValue, y: FloatValue) -> bool {
    match (x, y) {
        (
            FloatValue::Finite { negative: s, units: a },
            FloatValue::Finite { negative: t, units: b },
        ) => !s && !t && a <= b,
        (FloatValue::Finite { negative: s, .. }, FloatValue::Infinite { negative: t }) => !s && !t,
        (FloatValue::Infinite { negative: s }, FloatValue::Infinite { negative: t }) => !s && !t,
        _ => false,
    }
}

/// The units of the value nearest to the integer `n`.
pub open spec fn nat_units(f: Format, n: nat) -> nat {
    rounding::round_to(n * pow2(f.scale), 1, f.precision)
}

/// A value that is not negative, with so many units.
pub open spec fn plain(units: nat) -> FloatValue {
    FloatValue::Finite { negative: false, units }
}

/// The lesser of two numbers.
pub open spec fn least(x: nat, y: nat) -> nat {
    if x < y {
        x
    } else {
        y
    }
}

/// The integers that fit sixty-four bits.
pub open spec fn is_small(n: nat) -> bool {
    n <= pow2(64)
}

/// Every `usize` is small.
pub proof fn lemma_usize_is_small(n: usize)
    ensures
        is_small(n as nat),
{
    lemma2_to64();
}

/// Rounding a rounded number again changes nothing.
pub proof fn law_rounding_is_idempotent(n: nat, d: nat, e: nat, precision: nat)
    requires
        d > 0,
        e > 0,
        precision > 0,
    ensures
        rounding::round_to(rounding::round_to(n, d, precision) * e, e, precision)
            == rounding::round_to(n, d, precision),
{
    let j = rounding::spacing(n / d, precision);
    let g = pow2(j);
    let m = rounding::nearest(n, d * g);
    rounding::lemma_significand_fits(n, d, precision);
    rounding::law_rounding_keeps_representable(m, j, e, precision);
}

/// Integers that fit sixty-four bits have finite values, in their order, and those with at most
/// as many bits as a significand are exact.
pub proof fn law_integers_are_ordered(f: Format, m: nat, n: nat)
    requires
        f.is_supported(),
        m <= n,
        is_small(n),
    ensures
        FloatValue::of_nat(f, m) == plain(nat_units(f, m)),
        FloatValue::of_nat(f, n) == plain(nat_units(f, n)),
        nat_units(f, m) <= nat_units(f, n),
        nat_units(f, n) <= pow2(64 + f.scale),
        n > 0 ==> nat_units(f, n) >= pow2(f.scale),
        n <= pow2(f.precision) ==> nat_units(f, n) == n * pow2(f.scale),
{
    let one = pow2(f.scale);
    lemma_pow2_pos(f.scale);
    lemma_pow2_pos(f.precision);
    lemma2_to64();
    assert(m * one <= n * one) by (nonlinear_arith)
        requires
            m <= n,
    ;
    rounding::law_rounding_is_monotone(m * one, 1, n * one, 1, f.precision);
    // 2^64 ones are representable, and below the overflow.
    lemma_pow2_adds(64, f.scale);
    assert(n * one <= pow2(64 + f.scale)) by (nonlinear_arith)
        requires
            n <= pow2(64),
            pow2(64 + f.scale) == pow2(64) * one,
    ;
    lemma_representable(f, 1, 64 + f.scale);
    assert(1 * pow2(64 + f.scale) == pow2(64 + f.scale));
    rounding::law_rounding_is_monotone(n * one, 1, pow2(64 + f.scale), 1, f.precision);
    lemma_pow2_strictly_increases(64 + f.scale, (f.precision + f.max_shift()) as nat);
    if n > 0 {
        lemma_representable(f, 1, f.scale);
        assert(1 * one == one);
        assert(one <= n * one) by (nonlinear_arith)
            requires
                n >= 1,
        ;
        rounding::law_rounding_is_monotone(one, 1, n * one, 1, f.precision);
    }
    if n <= pow2(f.precision) {
        lemma_representable(f, n, f.scale);
    }
}

/// A number of units with few enough bits is kept.
proof fn lemma_representable(f: Format, m: nat, shift: nat)
    requires
        f.is_supported(),
        m <= pow2(f.precision),
    ensures
        rounding::round_to(m * pow2(shift), 1, f.precision) == m * pow2(shift),
{
    rounding::law_rounding_keeps_representable(m, shift, 1, f.precision);
    assert(m * pow2(shift) * 1 == m * pow2(shift)) by (nonlinear_arith);
}

/// Rounding keeps the order, overflow and all.
pub proof fn law_fractions_are_ordered(f: Format, a: nat, b: nat, c: nat, d: nat)
    requires
        f.is_supported(),
        b > 0,
        d > 0,
        a * d <= c * b,
    ensures
        ordered(
            FloatValue::of_fraction(f, false, a, b),
            FloatValue::of_fraction(f, false, c, d),
        ),
{
    rounding::law_rounding_is_monotone(a, b, c, d, f.precision);
}

/// A product grows with its factor.
pub proof fn law_products_are_ordered(f: Format, x: nat, y: nat, z: nat)
    requires
        f.is_supported(),
        x <= y,
    ensures
        ordered(plain(z).times(f, plain(x)), plain(z).times(f, plain(y))),
        ordered(plain(x).times(f, plain(z)), plain(y).times(f, plain(z))),
{
    let one = pow2(f.scale);
    lemma_pow2_pos(f.scale);
    assert((z * x) * one <= (z * y) * one && (x * z) * one <= (y * z) * one) by (nonlinear_arith)
        requires
            x <= y,
    ;
    law_fractions_are_ordered(f, z * x, one, z * y, one);
    law_fractions_are_ordered(f, x * z, one, y * z, one);
}

/// A quotient grows with its dividend.
pub proof fn law_quotients_are_ordered(f: Format, x: FloatValue, y: FloatValue, d: nat)
    requires
        f.is_supported(),
        ordered(x, y),
        d > 0,
    ensures
        ordered(x.over(f, plain(d)), y.over(f, plain(d))),
{
    let one = pow2(f.scale);
    match (x, y) {
        (FloatValue::Finite { units: a, .. }, FloatValue::Finite { units: b, .. }) => {
            assert((a * one) * d <= (b * one) * d) by (nonlinear_arith)
                requires
                    a <= b,
            ;
            law_fractions_are_ordered(f, a * one, d, b * one, d);
        },
        _ => {},
    }
}

/// The conversions to integers keep the order.
pub proof fn law_conversions_are_ordered(f: Format, x: FloatValue, y: FloatValue, limit: nat)
    requires
        ordered(x, y),
    ensures
        x.truncated(f, limit) <= y.truncated(f, limit),
        x.rounded(f, limit) <= y.rounded(f, limit),
{
    let one = pow2(f.scale);
    lemma_pow2_pos(f.scale);
    match (x, y) {
        (FloatValue::Finite { units: a, .. }, FloatValue::Finite { units: b, .. }) => {
            lemma_div_is_ordered(a as int, b as int, one as int);
            assert(a * one <= b * one) by (nonlinear_arith)
                requires
                    a <= b,
            ;
            rounding::lemma_nearest_monotone(a, one, b, one);
        },
        _ => {},
    }
}

/// Of two values that are numbers, exactly one is less, or each is at least the other; finite ones
/// are ordered as their signed units, and infinities lie beyond them all.
pub proof fn law_numbers_are_ordered(x: FloatValue, y: FloatValue)
    ensures
        x is Nan || y is Nan ==> !x.less(y) && !x.at_least(y),
        !(x is Nan) && !(y is Nan) ==> (x.less(y) <==> !x.at_least(y)),
        !(x.less(y) && y.less(x)),
        x is Finite && y is Finite ==> (x.less(y) <==> x.signed() < y.signed()),
        x matches FloatValue::Finite { negative, units } ==> x.signed() == (if negative {
            -(units as int)
        } else {
            units as int
        }),
        x is Finite && y is Infinite ==> (x.less(y) <==> !y->Infinite_negative) && (y.less(x)
            <==> y->Infinite_negative),
        x is Infinite && y is Infinite ==> (x.less(y) <==> x->Infinite_negative
            && !y->Infinite_negative),
{
}

/// The greater and the lesser of two values are among them, and bound them; a NaN gives way.
pub proof fn law_extremes_are_among_the_values(x: FloatValue, y: FloatValue)
    ensures
        x is Nan ==> x.greater_of(y) == y && x.lesser_of(y) == y,
        y is Nan ==> x.greater_of(y) == x && x.lesser_of(y) == x,
        x.greater_of(y) == x || x.greater_of(y) == y,
        x.lesser_of(y) == x || x.lesser_of(y) == y,
        !(x is Nan) && !(y is Nan) ==> x.greater_of(y).at_least(x) && x.greater_of(y).at_least(y)
            && x.at_least(x.lesser_of(y)) && y.at_least(x.lesser_of(y)),
{
}

/// A product of finite values is the nearest value of the format to the exact product, with the
/// sign that the signs give; an infinity times anything but zero is one.
pub proof fn law_products_are_rounded(f: Format, s: bool, a: nat, t: bool, b: nat)
    ensures
        ({
            let x = FloatValue::Finite { negative: s, units: a };
            let y = FloatValue::Finite { negative: t, units: b };
            let far = FloatValue::Infinite { negative: s };
            let r = rounding::round_to(a * b, pow2(f.scale), f.precision);
            &&& x.times(f, y) == y.times(f, x)
            &&& r < f.overflow() ==> x.times(f, y) == (FloatValue::Finite {
                negative: s != t,
                units: r,
            })
            &&& r >= f.overflow() ==> x.times(f, y) == (FloatValue::Infinite { negative: s != t })
            &&& b > 0 ==> far.times(f, y) == (FloatValue::Infinite { negative: s != t })
            &&& b == 0 ==> far.times(f, y) is Nan
            &&& far.times(f, y) == y.times(f, far)
            &&& x.times(f, FloatValue::Nan) is Nan
            &&& FloatValue::Nan.times(f, x) is Nan
        }),
{
    assert(a * b == b * a) by (nonlinear_arith);
}

/// A quotient of finite values is the nearest value of the format to the exact quotient, with the
/// sign that the signs give; over zero it is an infinity, or no number for zero over zero.
pub proof fn law_quotients_are_rounded(f: Format, s: bool, a: nat, t: bool, b: nat)
    ensures
        ({
            let x = FloatValue::Finite { negative: s, units: a };
            let y = FloatValue::Finite { negative: t, units: b };
            let far = FloatValue::Infinite { negative: s };
            let r = rounding::round_to(a * pow2(f.scale), b, f.precision);
            &&& b > 0 && r < f.overflow() ==> x.over(f, y) == (FloatValue::Finite {
                negative: s != t,
                units: r,
            })
            &&& b > 0 && r >= f.overflow() ==> x.over(f, y) == (FloatValue::Infinite {
                negative: s != t,
            })
            &&& b == 0 && a > 0 ==> x.over(f, y) == (FloatValue::Infinite { negative: s != t })
            &&& b == 0 && a == 0 ==> x.over(f, y) is Nan
            &&& far.over(f, y) == (FloatValue::Infinite { negative: s != t })
            &&& y.over(f, far) == (FloatValue::Finite { negative: s != t, units: 0 })
            &&& far.over(f, far) is Nan
            &&& x.over(f, FloatValue::Nan) is Nan
            &&& FloatValue::Nan.over(f, x) is Nan
        }),
{
}

/// Towards zero, a value is converted to its whole part, and to the nearest integer, to one that is
/// at most a half away, the even one of two; each is held to `0..=limit`, and a NaN is zero.
pub proof fn law_conversions_are_held(f: Format, negative: bool, units: nat, limit: nat)
    ensures
        ({
            let x = FloatValue::Finite { negative, units };
            let one = pow2(f.scale);
            let k = x.truncated(f, limit);
            let n = x.rounded(f, limit);
            &&& negative ==> k == 0 && n == 0
            &&& !negative && k < limit ==> k * one <= units < (k + 1) * one
            &&& !negative && k >= limit ==> k == limit && k * one <= units
            &&& !negative && n < limit ==> (2 * n - 1) * one <= 2 * units <= (2 * n + 1) * one
            &&& !negative && n < limit && 2 * units == (2 * n + 1) * one ==> n % 2 == 0
            &&& !negative && n < limit && 2 * units == (2 * n - 1) * one ==> n % 2 == 0
            &&& !negative && n >= limit ==> n == limit && (2 * n - 1) * one <= 2 * units
            &&& FloatValue::Nan.truncated(f, limit) == 0
            &&& FloatValue::Nan.rounded(f, limit) == 0
            &&& (FloatValue::Infinite { negative }).truncated(f, limit) == (if negative {
                0
            } else {
                limit
            })
            &&& (FloatValue::Infinite { negative }).rounded(f, limit) == (if negative {
                0
            } else {
                limit
            })
        }),
{
    let one = pow2(f.scale);
    lemma_pow2_pos(f.scale);
    let q = units / one;
    let m = rounding::nearest(units, one);
    lemma_fundamental_div_mod(units as int, one as int);
    lemma_mod_bound(units as int, one as int);
    rounding::lemma_nearest(units, one);
    assert(q * one <= units < (q + 1) * one) by (nonlinear_arith)
        requires
            units == one * q + units % one,
            0 <= units % one < one,
    ;
    assert(limit <= q ==> limit * one <= q * one) by (nonlinear_arith)
        requires
            one > 0,
    ;
    assert(limit <= m ==> (2 * limit - 1) * one <= (2 * m - 1) * one) by (nonlinear_arith)
        requires
            one > 0,
    ;
}

} // verus!
