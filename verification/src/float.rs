//! Binary floating point in integer arithmetic.
//!
//! A [`Float`] is a datum of an IEEE 754 binary format: it holds a sign, a significand and the
//! exponent of its gap as integers, and multiplication, division and the conversions round to
//! nearest with ties to even, as the format does. The mathematical value of a finite datum is a
//! natural number of *units*, where `2^scale` units make one.
use crate::rounding;
use vstd::arithmetic::div_mod::*;
use vstd::arithmetic::power2::*;
use vstd::prelude::*;

verus! {

/// The parameters of a binary format: the bits of a significand, and how many units (as a power
/// of two) make one, where a unit is the least positive value.
pub struct Format {
    pub precision: nat,
    pub scale: nat,
}

impl Format {
    /// The exponent of the widest gap.
    pub open spec fn max_shift(self) -> int {
        2 * self.scale - 2 * self.precision + 3
    }

    /// The least number of units that no finite datum reaches.
    pub open spec fn overflow(self) -> nat {
        pow2((self.precision + self.max_shift()) as nat)
    }

    /// The formats that fit the integer types of this module.
    pub open spec fn is_supported(self) -> bool {
        &&& 2 <= self.precision <= 53
        &&& self.precision + 64 <= self.scale <= 2000
    }
}

/// The double precision format.
pub open spec fn binary64() -> Format {
    Format { precision: 53, scale: 1074 }
}

/// The single precision format.
pub open spec fn binary32() -> Format {
    Format { precision: 24, scale: 149 }
}

/// The mathematical value of a datum.
pub enum FloatValue {
    Nan,
    Infinite { negative: bool },
    Finite { negative: bool, units: nat },
}

impl FloatValue {
    /// Zero with a positive sign.
    pub open spec fn zero() -> FloatValue {
        FloatValue::Finite { negative: false, units: 0 }
    }

    /// A number of units, or an infinity where the format has no such finite value.
    pub open spec fn of_units(f: Format, negative: bool, units: nat) -> FloatValue {
        if units >= f.overflow() {
            FloatValue::Infinite { negative }
        } else {
            FloatValue::Finite { negative, units }
        }
    }

    /// The value of the format that is nearest to `n / d` units.
    pub open spec fn of_fraction(f: Format, negative: bool, n: nat, d: nat) -> FloatValue {
        FloatValue::of_units(f, negative, rounding::round_to(n, d, f.precision))
    }

    /// The value of the format that is nearest to the integer `n`.
    pub open spec fn of_nat(f: Format, n: nat) -> FloatValue {
        FloatValue::of_fraction(f, false, n * pow2(f.scale), 1)
    }

    /// The rounded product.
    pub open spec fn times(self, f: Format, other: FloatValue) -> FloatValue {
        match (self, other) {
            (FloatValue::Nan, _) => FloatValue::Nan,
            (_, FloatValue::Nan) => FloatValue::Nan,
            (
                FloatValue::Infinite { negative: s },
                FloatValue::Infinite { negative: t },
            ) => FloatValue::Infinite { negative: s != t },
            (
                FloatValue::Infinite { negative: s },
                FloatValue::Finite { negative: t, units },
            ) => if units == 0 {
                FloatValue::Nan
            } else {
                FloatValue::Infinite { negative: s != t }
            },
            (
                FloatValue::Finite { negative: s, units },
                FloatValue::Infinite { negative: t },
            ) => if units == 0 {
                FloatValue::Nan
            } else {
                FloatValue::Infinite { negative: s != t }
            },
            (
                FloatValue::Finite { negative: s, units: a },
                FloatValue::Finite { negative: t, units: b },
            ) => FloatValue::of_fraction(f, s != t, a * b, pow2(f.scale)),
        }
    }

    /// The rounded quotient.
    pub open spec fn over(self, f: Format, other: FloatValue) -> FloatValue {
        match (self, other) {
            (FloatValue::Nan, _) => FloatValue::Nan,
            (_, FloatValue::Nan) => FloatValue::Nan,
            (FloatValue::Infinite { .. }, FloatValue::Infinite { .. }) => FloatValue::Nan,
            (
                FloatValue::Infinite { negative: s },
                FloatValue::Finite { negative: t, .. },
            ) => FloatValue::Infinite { negative: s != t },
            (
                FloatValue::Finite { negative: s, .. },
                FloatValue::Infinite { negative: t },
            ) => FloatValue::Finite { negative: s != t, units: 0 },
            (
                FloatValue::Finite { negative: s, units: a },
                FloatValue::Finite { negative: t, units: b },
            ) => if b == 0 && a == 0 {
                FloatValue::Nan
            } else if b == 0 {
                FloatValue::Infinite { negative: s != t }
            } else {
                FloatValue::of_fraction(f, s != t, a * pow2(f.scale), b)
            },
        }
    }

    /// Conversion to an integer in `0..=limit` towards zero; what lies outside goes to the nearer
    /// end, and a NaN to zero.
    pub open spec fn truncated(self, f: Format, limit: nat) -> nat {
        match self {
            FloatValue::Nan => 0,
            FloatValue::Infinite { negative } => if negative {
                0
            } else {
                limit
            },
            FloatValue::Finite { negative, units } => if negative {
                0
            } else if units / pow2(f.scale) > limit {
                limit
            } else {
                units / pow2(f.scale)
            },
        }
    }

    /// Conversion to the nearest integer (ties to even) in `0..=limit`; what lies outside goes to
    /// the nearer end, and a NaN to zero.
    pub open spec fn rounded(self, f: Format, limit: nat) -> nat {
        match self {
            FloatValue::Nan => 0,
            FloatValue::Infinite { negative } => if negative {
                0
            } else {
                limit
            },
            FloatValue::Finite { negative, units } => if negative {
                0
            } else if rounding::nearest(units, pow2(f.scale)) > limit {
                limit
            } else {
                rounding::nearest(units, pow2(f.scale))
            },
        }
    }

    /// The signed number of units of a finite value.
    pub open spec fn signed(self) -> int {
        match self {
            FloatValue::Finite { negative, units } => if negative {
                -units
            } else {
                units as int
            },
            _ => 0,
        }
    }

    /// The order of the values; nothing is ordered with a NaN.
    pub open spec fn less(self, other: FloatValue) -> bool {
        match (self, other) {
            (FloatValue::Nan, _) => false,
            (_, FloatValue::Nan) => false,
            (FloatValue::Infinite { negative: s }, FloatValue::Infinite { negative: t }) => s && !t,
            (FloatValue::Infinite { negative: s }, FloatValue::Finite { .. }) => s,
            (FloatValue::Finite { .. }, FloatValue::Infinite { negative: t }) => !t,
            (FloatValue::Finite { .. }, FloatValue::Finite { .. }) => self.signed()
                < other.signed(),
        }
    }

    /// Whether this value is the other one or above it.
    pub open spec fn at_least(self, other: FloatValue) -> bool {
        !(self is Nan) && !(other is Nan) && !self.less(other)
    }

    /// The greater of two values, or the one that is a number.
    pub open spec fn greater_of(self, other: FloatValue) -> FloatValue {
        if self is Nan || self.less(other) {
            other
        } else {
            self
        }
    }

    /// The lesser of two values, or the one that is a number.
    pub open spec fn lesser_of(self, other: FloatValue) -> FloatValue {
        if self is Nan || other.less(self) {
            other
        } else {
            self
        }
    }

    /// Whether this is a finite value above zero.
    pub open spec fn is_positive_finite(self) -> bool {
        self matches FloatValue::Finite { negative, units } && !negative && units > 0
    }
}

/// A datum of the binary format with `PRECISION` bits of significand and `2^SCALE` units to one.
///
/// The finite data are kept in one form each: the significand has all `PRECISION` bits unless the
/// gap is one unit.
#[derive(Clone, Copy, Debug, PartialEq, Eq)]
pub enum Float<const PRECISION: u32, const SCALE: u32> {
    Nan,
    Infinite { negative: bool },
    Finite { negative: bool, significand: u64, shift: u32 },
}

/// Double precision data.
pub type Binary64 = Float<53, 1074>;

/// Single precision data.
pub type Binary32 = Float<24, 149>;

impl<const PRECISION: u32, const SCALE: u32> View for Float<PRECISION, SCALE> {
    type V = FloatValue;

    open spec fn view(&self) -> FloatValue {
        match *self {
            Float::Nan => FloatValue::Nan,
            Float::Infinite { negative } => FloatValue::Infinite { negative },
            Float::Finite { negative, significand, shift } => FloatValue::Finite {
                negative,
                units: significand as nat * pow2(shift as nat),
            },
        }
    }
}

impl<const PRECISION: u32, const SCALE: u32> Float<PRECISION, SCALE> {
    pub open spec fn format() -> Format {
        Format { precision: PRECISION as nat, scale: SCALE as nat }
    }

    /// The one form of each finite datum.
    pub open spec fn well_formed(self) -> bool {
        self matches Float::Finite { significand, shift, .. } ==> {
            &&& significand < pow2(PRECISION as nat)
            &&& shift > 0 ==> significand >= pow2((PRECISION - 1) as nat)
            &&& shift <= Self::format().max_shift()
        }
    }

    /// The datum nearest to `n / d * 2^k` units.
    fn from_scaled(negative: bool, n: u128, d: u128, k: i32) -> (r: Self)
        requires
            Self::format().is_supported(),
            n < 0x1000_0000_0000_0000_0000_0000_0000u128,
            0 < d <= 0x1_0000_0000_0000_0000u128,
            -10_000 <= k <= 10_000,
        ensures
            r.well_formed(),
            r@ == FloatValue::of_fraction(
                Self::format(),
                negative,
                (n * rounding::up(k as int)) as nat,
                (d * rounding::up(-k as int)) as nat,
            ),
    {
        let ghost f = Self::format();
        proof {
            lemma_overflow_positive(f);
        }
        if n == 0 {
            proof {
                lemma2_to64();
                lemma_up_positive(-k as int);
                let dd = (d * rounding::up(-k as int)) as nat;
                assert(dd > 0) by (nonlinear_arith)
                    requires
                        dd == d * rounding::up(-k as int),
                        d > 0,
                        rounding::up(-k as int) > 0,
                ;
                lemma_pow2_pos(f.precision);
                let nn = (n * rounding::up(k as int)) as nat;
                assert(nn == 0 && nn == 0 * pow2(0) * dd) by (nonlinear_arith)
                    requires
                        nn == n * rounding::up(k as int),
                        n == 0,
                ;
                rounding::law_rounding_keeps_representable(0, 0, dd, f.precision);
            }
            return Float::Finite { negative, significand: 0, shift: 0 };
        }
        let (significand, shift): (u64, u32) = rounding::round_scaled(n, d, k, PRECISION);
        let max_shift: u32 = 2 * SCALE - 2 * PRECISION + 3;
        proof {
            lemma_canonical_range(f, significand as nat, shift as nat);
        }
        if shift > max_shift {
            Float::Infinite { negative }
        } else {
            Float::Finite { negative, significand, shift }
        }
    }

    /// The datum nearest to an integer.
    pub fn from_usize(n: usize) -> (r: Self)
        requires
            Self::format().is_supported(),
        ensures
            r.well_formed(),
            r@ == FloatValue::of_nat(Self::format(), n as nat),
    {
        let r = Self::from_scaled(false, n as u128, 1, SCALE as i32);
        proof {
            assert(rounding::up(SCALE as int) == pow2(SCALE as nat));
            assert(rounding::up(-(SCALE as int)) == 1);
        }
        r
    }

    /// The product, rounded once.
    pub fn mul(self, other: Self) -> (r: Self)
        requires
            Self::format().is_supported(),
            self.well_formed(),
            other.well_formed(),
        ensures
            r.well_formed(),
            r@ == self@.times(Self::format(), other@),
    {
        match (self, other) {
            (Float::Nan, _) => Float::Nan,
            (_, Float::Nan) => Float::Nan,
            (Float::Infinite { negative: s }, Float::Infinite { negative: t }) => Float::Infinite {
                negative: s != t,
            },
            (
                Float::Infinite { negative: s },
                Float::Finite { negative: t, significand, shift },
            ) => {
                proof {
                    lemma_units_zero(significand as nat, shift as nat);
                }
                if significand == 0 {
                    Float::Nan
                } else {
                    Float::Infinite { negative: s != t }
                }
            },
            (
                Float::Finite { negative: s, significand, shift },
                Float::Infinite { negative: t },
            ) => {
                proof {
                    lemma_units_zero(significand as nat, shift as nat);
                }
                if significand == 0 {
                    Float::Nan
                } else {
                    Float::Infinite { negative: s != t }
                }
            },
            (
                Float::Finite { negative: s, significand: m, shift: i },
                Float::Finite { negative: t, significand: n, shift: j },
            ) => {
                let ghost f = Self::format();
                proof {
                    lemma_precision_bound(f);
                    assert(m * n < 0x20_0000_0000_0000 * 0x20_0000_0000_0000) by (nonlinear_arith)
                        requires
                            m < 0x20_0000_0000_0000,
                            n < 0x20_0000_0000_0000,
                    ;
                }
                let product: u128 = (m as u128) * (n as u128);
                let k: i32 = (i as i32) + (j as i32) - (SCALE as i32);
                let r = Self::from_scaled(s != t, product, 1, k);
                proof {
                    lemma_product_units(m as nat, i as nat, n as nat, j as nat, f);
                }
                r
            },
        }
    }

    /// The quotient, rounded once.
    pub fn div(self, other: Self) -> (r: Self)
        requires
            Self::format().is_supported(),
            self.well_formed(),
            other.well_formed(),
        ensures
            r.well_formed(),
            r@ == self@.over(Self::format(), other@),
    {
        let ghost f = Self::format();
        proof {
            lemma_precision_bound(f);
            lemma2_to64();
        }
        match (self, other) {
            (Float::Nan, _) => Float::Nan,
            (_, Float::Nan) => Float::Nan,
            (Float::Infinite { .. }, Float::Infinite { .. }) => Float::Nan,
            (
                Float::Infinite { negative: s },
                Float::Finite { negative: t, .. },
            ) => Float::Infinite { negative: s != t },
            (Float::Finite { negative: s, .. }, Float::Infinite { negative: t }) => Float::Finite {
                negative: s != t,
                significand: 0,
                shift: 0,
            },
            (
                Float::Finite { negative: s, significand: m, shift: i },
                Float::Finite { negative: t, significand: n, shift: j },
            ) => {
                proof {
                    lemma_units_zero(m as nat, i as nat);
                    lemma_units_zero(n as nat, j as nat);
                }
                if n == 0 {
                    if m == 0 {
                        Float::Nan
                    } else {
                        Float::Infinite { negative: s != t }
                    }
                } else {
                    let k: i32 = (i as i32) + (SCALE as i32) - (j as i32);
                    let r = Self::from_scaled(s != t, m as u128, n as u128, k);
                    proof {
                        lemma_quotient_units(m as nat, i as nat, n as nat, j as nat, f);
                    }
                    r
                }
            },
        }
    }
}

impl<const PRECISION: u32, const SCALE: u32> Float<PRECISION, SCALE> {
    /// The integer part of a finite datum that is not negative, up to `usize::MAX`.
    fn saturate(significand: u64, widen: u32) -> (r: usize)
        ensures
            r == (if significand * pow2(widen as nat) > usize::MAX {
                usize::MAX as int
            } else {
                significand * pow2(widen as nat)
            }),
    {
        let limit: u128 = usize::MAX as u128;
        let mut v: u128 = significand as u128;
        let mut left: u32 = widen;
        proof {
            lemma2_to64();
        }
        while left > 0 && v > 0 && v <= limit
            invariant
                v * pow2(left as nat) == significand * pow2(widen as nat),
                limit == usize::MAX,
                v <= 2 * (u64::MAX as u128),
            decreases left,
        {
            proof {
                lemma_pow2_unfold(left as nat);
                assert(v * pow2(left as nat) == (2 * v) * pow2((left - 1) as nat)) by (nonlinear_arith)
                    requires
                        pow2(left as nat) == 2 * pow2((left - 1) as nat),
                ;
            }
            v = 2 * v;
            left = left - 1;
        }
        proof {
            lemma2_to64();
            lemma_pow2_pos(left as nat);
            assert(v * pow2(left as nat) >= v) by (nonlinear_arith)
                requires
                    pow2(left as nat) >= 1,
            ;
            lemma_gap_of_one(v as nat);
            assert(v == 0 ==> v * pow2(left as nat) == 0) by (nonlinear_arith);
        }
        if v > limit {
            usize::MAX
        } else {
            v as usize
        }
    }

    /// Conversion to an integer towards zero, within the range of the type; a NaN gives zero.
    pub fn truncate(self) -> (r: usize)
        requires
            Self::format().is_supported(),
            self.well_formed(),
        ensures
            r == self@.truncated(Self::format(), usize::MAX as nat),
    {
        match self {
            Float::Nan => 0,
            Float::Infinite { negative } => if negative {
                0
            } else {
                usize::MAX
            },
            Float::Finite { negative, significand, shift } => if negative {
                0
            } else if shift >= SCALE {
                proof {
                    lemma_units_of_integer(significand as nat, shift as nat, SCALE as nat);
                }
                Self::saturate(significand, shift - SCALE)
            } else {
                let down: u32 = SCALE - shift;
                proof {
                    lemma_precision_bound(Self::format());
                    lemma_units_below_one(significand as nat, shift as nat, SCALE as nat);
                }
                let whole: u64 = if down >= 63 {
                    0
                } else {
                    significand / power_of_two(down)
                };
                proof {
                    lemma_gap_of_one(whole as nat);
                }
                Self::saturate(whole, 0)
            },
        }
    }

    /// Conversion to the nearest integer, ties to even, within the range of the type; a NaN gives
    /// zero.
    pub fn round_ties_even(self) -> (r: usize)
        requires
            Self::format().is_supported(),
            self.well_formed(),
        ensures
            r == self@.rounded(Self::format(), usize::MAX as nat),
    {
        match self {
            Float::Nan => 0,
            Float::Infinite { negative } => if negative {
                0
            } else {
                usize::MAX
            },
            Float::Finite { negative, significand, shift } => if negative {
                0
            } else if shift >= SCALE {
                proof {
                    lemma_units_of_integer(significand as nat, shift as nat, SCALE as nat);
                }
                Self::saturate(significand, shift - SCALE)
            } else {
                let down: u32 = SCALE - shift;
                proof {
                    lemma_precision_bound(Self::format());
                    lemma_units_below_one(significand as nat, shift as nat, SCALE as nat);
                }
                let whole: u64 = if down >= 63 {
                    0
                } else {
                    let one: u64 = power_of_two(down);
                    let q: u64 = significand / one;
                    let r: u64 = significand % one;
                    if 2 * (r as u128) < one as u128 || (2 * (r as u128) == one as u128 && q % 2
                        == 0) {
                        q
                    } else {
                        q + 1
                    }
                };
                proof {
                    lemma_gap_of_one(whole as nat);
                }
                Self::saturate(whole, 0)
            },
        }
    }

    /// Whether the datum is finite and above zero.
    pub fn is_positive_finite(self) -> (r: bool)
        ensures
            r == self@.is_positive_finite(),
    {
        match self {
            Float::Finite { negative, significand, shift } => {
                proof {
                    lemma_units_zero(significand as nat, shift as nat);
                }
                !negative && significand > 0
            },
            _ => false,
        }
    }

    /// Whether this datum is below the other one.
    pub fn less(self, other: Self) -> (r: bool)
        requires
            Self::format().is_supported(),
            self.well_formed(),
            other.well_formed(),
        ensures
            r == self@.less(other@),
    {
        match (self, other) {
            (Float::Nan, _) => false,
            (_, Float::Nan) => false,
            (Float::Infinite { negative: s }, Float::Infinite { negative: t }) => s && !t,
            (Float::Infinite { negative: s }, Float::Finite { .. }) => s,
            (Float::Finite { .. }, Float::Infinite { negative: t }) => !t,
            (
                Float::Finite { negative: s, significand: m, shift: i },
                Float::Finite { negative: t, significand: n, shift: j },
            ) => {
                proof {
                    lemma_units_order(m as nat, i as nat, n as nat, j as nat, Self::format());
                    lemma_units_order(n as nat, j as nat, m as nat, i as nat, Self::format());
                    lemma_units_zero(m as nat, i as nat);
                    lemma_units_zero(n as nat, j as nat);
                }
                let below: bool = i < j || (i == j && m < n);
                let above: bool = j < i || (i == j && n < m);
                if s {
                    if t {
                        above
                    } else {
                        m > 0 || n > 0
                    }
                } else {
                    !t && below
                }
            },
        }
    }

    /// Whether this datum is equal to the other one or above it.
    pub fn at_least(self, other: Self) -> (r: bool)
        requires
            Self::format().is_supported(),
            self.well_formed(),
            other.well_formed(),
        ensures
            r == self@.at_least(other@),
    {
        !matches!(self, Float::Nan) && !matches!(other, Float::Nan) && !self.less(other)
    }

    /// The greater of two data, or the one that is a number.
    pub fn max(self, other: Self) -> (r: Self)
        requires
            Self::format().is_supported(),
            self.well_formed(),
            other.well_formed(),
        ensures
            r.well_formed(),
            r@ == self@.greater_of(other@),
    {
        if matches!(self, Float::Nan) || self.less(other) {
            other
        } else {
            self
        }
    }

    /// The lesser of two data, or the one that is a number.
    pub fn min(self, other: Self) -> (r: Self)
        requires
            Self::format().is_supported(),
            self.well_formed(),
            other.well_formed(),
        ensures
            r.well_formed(),
            r@ == self@.lesser_of(other@),
    {
        if matches!(self, Float::Nan) || other.less(self) {
            other
        } else {
            self
        }
    }
}

fn power_of_two(e: u32) -> (r: u64)
    requires
        e < 63,
    ensures
        r == pow2(e as nat),
        r > 0,
{
    proof {
        lemma2_to64();
        lemma2_to64_rest();
        lemma_pow2_strictly_increases(e as nat, 63);
        vstd::bits::lemma_u64_shl_is_mul(1, e as u64);
        lemma_pow2_pos(e as nat);
    }
    1u64 << (e as u64)
}

/// A datum whose gap is one or more is an integer.
proof fn lemma_units_of_integer(m: nat, shift: nat, scale: nat)
    requires
        shift >= scale,
    ensures
        (m * pow2(shift)) / pow2(scale) == m * pow2((shift - scale) as nat),
        rounding::nearest(m * pow2(shift), pow2(scale)) == m * pow2((shift - scale) as nat),
{
    let w = (shift - scale) as nat;
    let x = m * pow2(w);
    lemma_pow2_adds(w, scale);
    lemma_pow2_pos(scale);
    assert(m * pow2(shift) == x * pow2(scale)) by (nonlinear_arith)
        requires
            pow2(shift) == pow2(w) * pow2(scale),
            x == m * pow2(w),
    ;
    lemma_div_multiples_vanish(x as int, pow2(scale) as int);
    assert(x * pow2(scale) == pow2(scale) * x) by (nonlinear_arith);
    rounding::lemma_nearest_exact(x, pow2(scale));
}

/// Where the gap is a fraction of one, the integers around a datum come from its significand.
proof fn lemma_units_below_one(m: nat, shift: nat, scale: nat)
    requires
        shift < scale,
        m < 0x20_0000_0000_0000,
    ensures
        (m * pow2(shift)) / pow2(scale) == m / pow2((scale - shift) as nat),
        rounding::nearest(m * pow2(shift), pow2(scale)) == rounding::nearest(
            m,
            pow2((scale - shift) as nat),
        ),
        pow2((scale - shift) as nat) > 0,
        scale - shift >= 63 ==> m / pow2((scale - shift) as nat) == 0 && rounding::nearest(
            m,
            pow2((scale - shift) as nat),
        ) == 0,
        rounding::nearest(m, pow2((scale - shift) as nat)) <= m / pow2((scale - shift) as nat) + 1,
{
    let t = (scale - shift) as nat;
    let g = pow2(shift);
    let w = pow2(t);
    lemma_pow2_adds(t, shift);
    lemma_pow2_pos(shift);
    lemma_pow2_pos(t);
    lemma_pow2_pos(scale);
    lemma2_to64();
    lemma2_to64_rest();
    lemma_div_multiples_vanish(m as int, g as int);
    assert((m * g) / (g * w) == ((m * g) / g) / w) by {
        lemma_div_denominator((m * g) as int, g as int, w as int);
    }
    assert(m * g == g * m && g * w == w * g) by (nonlinear_arith);
    assert((m * g) * w == m * pow2(scale)) by (nonlinear_arith)
        requires
            pow2(scale) == w * g,
    ;
    rounding::lemma_nearest_same(m * g, pow2(scale), m, w);
    if t >= 63 {
        if t > 63 {
            lemma_pow2_strictly_increases(63, t);
        }
        lemma_basic_div(m as int, w as int);
        lemma_small_mod(m, w);
    }
}

/// The order of two data is that of their gaps, then of their significands.
proof fn lemma_units_order(m: nat, i: nat, n: nat, j: nat, f: Format)
    requires
        f.is_supported(),
        m < pow2(f.precision),
        j > 0 ==> n >= pow2((f.precision - 1) as nat),
    ensures
        i < j ==> m * pow2(i) < n * pow2(j),
        i == j && m < n ==> m * pow2(i) < n * pow2(j),
        i == j && m == n ==> m * pow2(i) == n * pow2(j),
{
    lemma_pow2_pos(i);
    if i == j && m < n {
        assert(m * pow2(i) < n * pow2(i)) by (nonlinear_arith)
            requires
                m < n,
                pow2(i) > 0,
        ;
    }
    if i < j {
        lemma_pow2_unfold(f.precision);
        lemma_pow2_unfold(i + 1);
        if i + 1 < j {
            lemma_pow2_strictly_increases(i + 1, j);
        }
        let h = pow2((f.precision - 1) as nat);
        assert(m * pow2(i) < n * pow2(j)) by (nonlinear_arith)
            requires
                m < 2 * h,
                n >= h,
                pow2(j) >= 2 * pow2(i),
                pow2(i) > 0,
        ;
    }
}

/// The bits of a double precision datum.
///
/// Two of them are equal where the data are equal numbers: the zeros are, and a NaN is not equal to
/// anything.
#[derive(Clone, Copy, Debug)]
pub struct F64Bits {
    pub bits: u64,
}

impl PartialEq for F64Bits {
    fn eq(&self, other: &Self) -> (r: bool) {
        let a = self.decode();
        let b = other.decode();
        a.at_least(b) && b.at_least(a)
    }
}

impl vstd::std_specs::cmp::PartialEqSpecImpl for F64Bits {
    open spec fn obeys_eq_spec() -> bool {
        true
    }

    open spec fn eq_spec(&self, other: &Self) -> bool {
        self@.at_least(other@) && other@.at_least(self@)
    }
}

/// What a double precision datum is, by its bits: one of sign, eleven of exponent and fifty-two
/// of fraction.
pub open spec fn decoded(bits: u64) -> FloatValue {
    let negative = bits >= 0x8000_0000_0000_0000u64;
    let exponent = (bits as nat / 0x10_0000_0000_0000) % 0x800;
    let fraction = bits as nat % 0x10_0000_0000_0000;
    if exponent == 0x7ff && fraction == 0 {
        FloatValue::Infinite { negative }
    } else if exponent == 0x7ff {
        FloatValue::Nan
    } else if exponent == 0 {
        FloatValue::Finite { negative, units: fraction }
    } else {
        FloatValue::Finite {
            negative,
            units: (0x10_0000_0000_0000 + fraction) * pow2((exponent - 1) as nat),
        }
    }
}

impl View for F64Bits {
    type V = FloatValue;

    open spec fn view(&self) -> FloatValue {
        decoded(self.bits)
    }
}

impl F64Bits {
    pub fn from_bits(bits: u64) -> (r: Self)
        ensures
            r.bits == bits,
            r@ == decoded(bits),
    {
        F64Bits { bits }
    }

    /// The datum that the bits stand for.
    pub fn decode(self) -> (r: Binary64)
        ensures
            r.well_formed(),
            r@ == self@,
    {
        let negative: bool = self.bits >= 0x8000_0000_0000_0000u64;
        let exponent: u64 = (self.bits / 0x10_0000_0000_0000u64) % 0x800u64;
        let fraction: u64 = self.bits % 0x10_0000_0000_0000u64;
        proof {
            lemma2_to64();
            lemma2_to64_rest();
            lemma_gap_of_one(fraction as nat);
        }
        if exponent == 0x7ff {
            if fraction == 0 {
                Float::Infinite { negative }
            } else {
                Float::Nan
            }
        } else if exponent == 0 {
            Float::Finite { negative, significand: fraction, shift: 0 }
        } else {
            Float::Finite {
                negative,
                significand: 0x10_0000_0000_0000u64 + fraction,
                shift: (exponent - 1) as u32,
            }
        }
    }
}

proof fn lemma_gap_of_one(m: nat)
    ensures
        m * pow2(0) == m,
{
    lemma2_to64();
    assert(m * pow2(0) == m) by (nonlinear_arith)
        requires
            pow2(0) == 1,
    ;
}

/// Zero parts of anything are the value zero.
pub proof fn lemma_zero_fraction(f: Format, d: nat)
    requires
        f.is_supported(),
        d > 0,
    ensures
        FloatValue::of_fraction(f, false, 0, d) == FloatValue::zero(),
{
    lemma_overflow_positive(f);
    lemma_pow2_pos(f.precision);
    assert(0 * pow2(0) * d == 0 && 0 * pow2(0) == 0) by (nonlinear_arith);
    rounding::law_rounding_keeps_representable(0, 0, d, f.precision);
}

/// The integer zero is the value zero.
pub proof fn lemma_zero(f: Format)
    requires
        f.is_supported(),
    ensures
        FloatValue::of_nat(f, 0) == FloatValue::zero(),
{
    assert(0 * pow2(f.scale) == 0) by (nonlinear_arith);
    lemma_zero_fraction(f, 1);
}

/// A datum has zero units exactly where its significand is zero.
proof fn lemma_units_zero(m: nat, shift: nat)
    ensures
        m * pow2(shift) == 0 <==> m == 0,
{
    lemma_pow2_pos(shift);
    assert(m * pow2(shift) == 0 <==> m == 0) by (nonlinear_arith)
        requires
            pow2(shift) > 0,
    ;
}

proof fn lemma_precision_bound(f: Format)
    requires
        f.is_supported(),
    ensures
        4 <= pow2(f.precision) <= 0x20_0000_0000_0000,
{
    lemma2_to64();
    lemma2_to64_rest();
    if f.precision < 53 {
        lemma_pow2_strictly_increases(f.precision, 53);
    }
    if f.precision > 2 {
        lemma_pow2_strictly_increases(2, f.precision);
    }
}

/// Fractions that are equal are rounded alike.
proof fn lemma_round_same(a: nat, b: nat, c: nat, d: nat, precision: nat)
    requires
        b > 0,
        d > 0,
        precision > 0,
        a * d == c * b,
    ensures
        rounding::round_to(a, b, precision) == rounding::round_to(c, d, precision),
{
    rounding::law_rounding_is_monotone(a, b, c, d, precision);
    rounding::law_rounding_is_monotone(c, d, a, b, precision);
}

/// The product of two significands, scaled, is the product of the two values.
proof fn lemma_product_units(m: nat, i: nat, n: nat, j: nat, f: Format)
    requires
        f.is_supported(),
    ensures
        ({
            let k = i + j - f.scale;
            rounding::round_to(m * n * rounding::up(k), 1 * rounding::up(-k), f.precision)
                == rounding::round_to(
                (m * pow2(i)) * (n * pow2(j)),
                pow2(f.scale),
                f.precision,
            )
        }),
{
    let k = i + j - f.scale;
    let one = pow2(f.scale);
    lemma_up_positive(-k);
    lemma_pow2_pos(f.scale);
    lemma_pow2_adds(i, j);
    let a = m * n * rounding::up(k);
    let b = 1 * rounding::up(-k);
    let c = (m * pow2(i)) * (n * pow2(j));
    assert(c == (m * n) * (pow2(i) * pow2(j))) by (nonlinear_arith)
        requires
            c == (m * pow2(i)) * (n * pow2(j)),
    ;
    lemma2_to64();
    // Both sides are `m n 2^(i + j)`, over `2^scale`.
    if k > 0 {
        lemma_pow2_adds(k as nat, f.scale);
        assert(k as nat + f.scale == i + j);
    } else if k < 0 {
        lemma_pow2_adds((-k) as nat, i + j);
        assert((-k) as nat + (i + j) == f.scale);
    }
    let (u, v) = (rounding::up(k), rounding::up(-k));
    assert(u * one == v * pow2(i + j)) by (nonlinear_arith)
        requires
            (v == 1 && u * one == pow2(i + j)) || (u == 1 && one == v * pow2(i + j)) || (u == 1 && v
                == 1 && one == pow2(i + j)),
    ;
    assert(a * one == c * b) by (nonlinear_arith)
        requires
            a == m * n * rounding::up(k),
            b == 1 * rounding::up(-k),
            c == (m * n) * (pow2(i) * pow2(j)),
            rounding::up(k) * one == rounding::up(-k) * (pow2(i) * pow2(j)),
    ;
    lemma_round_same(a, b, c, one, f.precision);
}

/// The quotient of two significands, scaled, is the quotient of the two values.
proof fn lemma_quotient_units(m: nat, i: nat, n: nat, j: nat, f: Format)
    requires
        f.is_supported(),
        n > 0,
    ensures
        ({
            let k = i + f.scale - j;
            rounding::round_to(m * rounding::up(k), n * rounding::up(-k), f.precision)
                == rounding::round_to(
                (m * pow2(i)) * pow2(f.scale),
                n * pow2(j),
                f.precision,
            )
        }),
{
    let k = i + f.scale - j;
    let one = pow2(f.scale);
    lemma_up_positive(-k);
    lemma_pow2_pos(j);
    lemma_pow2_adds(i, f.scale);
    let a = m * rounding::up(k);
    let b = n * rounding::up(-k);
    let c = (m * pow2(i)) * one;
    let d = n * pow2(j);
    lemma2_to64();
    if k > 0 {
        lemma_pow2_adds(k as nat, j);
        assert(k as nat + j == i + f.scale);
    } else if k < 0 {
        lemma_pow2_adds((-k) as nat, i + f.scale);
        assert((-k) as nat + (i + f.scale) == j);
    }
    let (u, v) = (rounding::up(k), rounding::up(-k));
    assert(u * pow2(j) == v * pow2(i + f.scale)) by (nonlinear_arith)
        requires
            (v == 1 && u * pow2(j) == pow2(i + f.scale)) || (u == 1 && pow2(j) == v * pow2(
                i + f.scale,
            )) || (u == 1 && v == 1 && pow2(j) == pow2(i + f.scale)),
    ;
    assert(b > 0 && d > 0) by (nonlinear_arith)
        requires
            b == n * rounding::up(-k),
            d == n * pow2(j),
            n > 0,
            rounding::up(-k) > 0,
            pow2(j) > 0,
    ;
    assert(a * d == c * b) by (nonlinear_arith)
        requires
            a == m * rounding::up(k),
            b == n * rounding::up(-k),
            c == (m * pow2(i)) * one,
            d == n * pow2(j),
            rounding::up(k) * pow2(j) == rounding::up(-k) * (pow2(i) * one),
    ;
    lemma_round_same(a, b, c, d, f.precision);
}

proof fn lemma_up_positive(k: int)
    ensures
        rounding::up(k) > 0,
{
    lemma_pow2_pos(if k > 0 {
        k as nat
    } else {
        0
    });
}

proof fn lemma_overflow_positive(f: Format)
    requires
        f.is_supported(),
    ensures
        f.overflow() > 0,
{
    lemma_pow2_pos((f.precision + f.max_shift()) as nat);
}

/// A significand with all its bits overflows exactly where its gap is too wide.
proof fn lemma_canonical_range(f: Format, significand: nat, shift: nat)
    requires
        f.is_supported(),
        significand < pow2(f.precision),
        shift > 0 ==> significand >= pow2((f.precision - 1) as nat),
    ensures
        shift <= f.max_shift() <==> significand * pow2(shift) < f.overflow(),
{
    let top = f.max_shift() as nat;
    lemma_pow2_pos(shift);
    lemma_pow2_adds(f.precision, top);
    if shift <= top {
        if shift < top {
            lemma_pow2_strictly_increases(shift, top);
        }
        assert(significand * pow2(shift) < pow2(f.precision) * pow2(top)) by (nonlinear_arith)
            requires
                significand < pow2(f.precision),
                0 < pow2(shift) <= pow2(top),
        ;
    } else {
        let h = pow2((f.precision - 1) as nat);
        lemma_pow2_unfold(f.precision);
        lemma_pow2_unfold(top + 1);
        if shift > top + 1 {
            lemma_pow2_strictly_increases(top + 1, shift);
        }
        assert(significand * pow2(shift) >= (2 * h) * pow2(top)) by (nonlinear_arith)
            requires
                significand >= h,
                pow2(shift) >= 2 * pow2(top),
        ;
    }
}

} // verus!
