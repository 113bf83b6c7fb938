//! Correct rounding of non-negative rationals to a fixed number of significant bits.
//!
//! Every quantity is a natural number of *units*; a rational `n / d` is rounded to the nearest
//! number of units that has at most `precision` significant bits, and a tie goes to the even
//! significand.
use vstd::arithmetic::div_mod::*;
use vstd::arithmetic::power2::*;
use vstd::prelude::*;

verus! {

/// The integer nearest to `n / d`; a tie goes to the even neighbour.
pub open spec fn nearest(n: nat, d: nat) -> nat {
    let q = n / d;
    let r = n % d;
    if 2 * r < d || (2 * r == d && q % 2 == 0) {
        q
    } else {
        q + 1
    }
}

/// The binary exponent of the gap between neighbouring `precision`-bit numbers around `x`.
pub open spec fn spacing(x: nat, precision: nat) -> nat
    decreases x,
{
    if x < pow2(precision) || x == 0 {
        0
    } else {
        1 + spacing(x / 2, precision)
    }
}

/// `n / d` rounded to `precision` significant bits, never finer than one unit.
pub open spec fn round_to(n: nat, d: nat, precision: nat) -> nat {
    let gap = pow2(spacing(n / d, precision));
    nearest(n, d * gap) * gap
}

/// `2^k` for a positive `k`, and one otherwise.
pub open spec fn up(k: int) -> nat {
    if k > 0 {
        pow2(k as nat)
    } else {
        1
    }
}

/// What characterises the nearest integer: it is at most half a step away, and even on a tie.
pub proof fn lemma_nearest(n: nat, d: nat)
    requires
        d > 0,
    ensures
        2 * n <= (2 * nearest(n, d) + 1) * d,
        2 * n >= (2 * nearest(n, d) - 1) * d,
        2 * n == (2 * nearest(n, d) + 1) * d ==> nearest(n, d) % 2 == 0,
        2 * n == (2 * nearest(n, d) - 1) * d ==> nearest(n, d) % 2 == 0,
{
    let q = n / d;
    let r = n % d;
    lemma_fundamental_div_mod(n as int, d as int);
    assert(n == d * q + r);
    assert(r < d);
    assert((2 * q + 1) * d == 2 * (d * q) + d) by (nonlinear_arith);
    assert((2 * q - 1) * d == 2 * (d * q) - d) by (nonlinear_arith);
    assert((2 * (q + 1) - 1) * d == 2 * (d * q) + d) by (nonlinear_arith);
    assert((2 * (q + 1) + 1) * d == 2 * (d * q) + 3 * d) by (nonlinear_arith);
}

/// Rounding to the nearest integer keeps the order of fractions.
pub proof fn lemma_nearest_monotone(a: nat, b: nat, c: nat, d: nat)
    requires
        b > 0,
        d > 0,
        a * d <= c * b,
    ensures
        nearest(a, b) <= nearest(c, d),
{
    let m1 = nearest(a, b) as int;
    let m2 = nearest(c, d) as int;
    lemma_nearest(a, b);
    lemma_nearest(c, d);
    if m1 > m2 {
        // 2a >= (2 m1 - 1) b and 2c <= (2 m2 + 1) d force both to be the same tie.
        assert((2 * a) * d >= ((2 * m1 - 1) * b) * d) by (nonlinear_arith)
            requires
                2 * a >= (2 * m1 - 1) * b,
                d > 0,
        ;
        assert((2 * c) * b <= ((2 * m2 + 1) * d) * b) by (nonlinear_arith)
            requires
                2 * c <= (2 * m2 + 1) * d,
                b > 0,
        ;
        assert((2 * a) * d == 2 * (a * d)) by (nonlinear_arith);
        assert((2 * c) * b == 2 * (c * b)) by (nonlinear_arith);
        assert(((2 * m1 - 1) * b) * d == (2 * m1 - 1) * (b * d)) by (nonlinear_arith);
        assert(((2 * m2 + 1) * d) * b == (2 * m2 + 1) * (b * d)) by (nonlinear_arith);
        assert((2 * m1 - 1) * (b * d) <= (2 * m2 + 1) * (b * d));
        assert(2 * m1 - 1 <= 2 * m2 + 1) by (nonlinear_arith)
            requires
                (2 * m1 - 1) * (b * d) <= (2 * m2 + 1) * (b * d),
                b > 0,
                d > 0,
        ;
        assert(m1 == m2 + 1);
        assert((2 * a) * d == ((2 * m1 - 1) * b) * d);
        assert(2 * a == (2 * m1 - 1) * b) by (nonlinear_arith)
            requires
                (2 * a) * d == ((2 * m1 - 1) * b) * d,
                d > 0,
        ;
        assert((2 * c) * b == ((2 * m2 + 1) * d) * b);
        assert(2 * c == (2 * m2 + 1) * d) by (nonlinear_arith)
            requires
                (2 * c) * b == ((2 * m2 + 1) * d) * b,
                b > 0,
        ;
        assert(false);
    }
}

/// An integer less than half a step away is the nearest one.
pub proof fn lemma_nearest_unique(n: nat, d: nat, m: nat)
    requires
        d > 0,
        2 * n < (2 * m + 1) * d,
        2 * n > (2 * m - 1) * d,
    ensures
        nearest(n, d) == m,
{
    let k = nearest(n, d);
    lemma_nearest(n, d);
    assert(2 * m - 1 < 2 * k + 1) by (nonlinear_arith)
        requires
            (2 * m - 1) * d < (2 * k + 1) * d,
            d > 0,
    ;
    assert(2 * k - 1 < 2 * m + 1) by (nonlinear_arith)
        requires
            (2 * k - 1) * d < (2 * m + 1) * d,
            d > 0,
    ;
}

/// Equal fractions have the same nearest integer.
pub proof fn lemma_nearest_same(a: nat, b: nat, c: nat, d: nat)
    requires
        b > 0,
        d > 0,
        a * d == c * b,
    ensures
        nearest(a, b) == nearest(c, d),
{
    lemma_nearest_monotone(a, b, c, d);
    lemma_nearest_monotone(c, d, a, b);
}

/// An integer is its own nearest integer.
pub proof fn lemma_nearest_exact(m: nat, d: nat)
    requires
        d > 0,
    ensures
        nearest(m * d, d) == m,
{
    lemma_div_multiples_vanish(m as int, d as int);
    lemma_mod_multiples_basic(m as int, d as int);
    assert(m * d == d * m) by (nonlinear_arith);
}

/// The gap around `x` is the one at which `x` has exactly `precision` bits, or one unit.
pub proof fn lemma_spacing_unique(x: nat, precision: nat, j: nat)
    requires
        x < pow2(precision + j),
        j == 0 || x >= pow2((precision + j - 1) as nat),
    ensures
        spacing(x, precision) == j,
    decreases j,
{
    lemma_pow2_pos(precision);
    if j > 0 {
        let k = (j - 1) as nat;
        lemma_pow2_unfold(precision + j);
        lemma_pow2_pos((precision + k) as nat);
        if precision < precision + k {
            lemma_pow2_strictly_increases(precision, precision + k);
        }
        if k > 0 {
            lemma_pow2_unfold(precision + k);
        }
        lemma_spacing_unique(x / 2, precision, k);
    }
}

/// The gap around `x` fits `x`.
pub proof fn lemma_spacing(x: nat, precision: nat)
    ensures
        x < pow2(precision + spacing(x, precision)),
        spacing(x, precision) > 0 ==> x >= pow2((precision + spacing(x, precision) - 1) as nat),
    decreases x,
{
    lemma_pow2_pos(precision);
    if x >= pow2(precision) {
        let j = spacing(x / 2, precision);
        lemma_spacing(x / 2, precision);
        lemma_pow2_unfold(precision + j + 1);
        if j > 0 {
            lemma_pow2_unfold(precision + j);
        }
    }
}

/// Doubling one side of a scaled fraction is undone by one step of its exponent.
proof fn lemma_up_steps(k: int)
    ensures
        k > 0 ==> up(k) == 2 * up(k - 1) && up(-k) == 1 && up(1 - k) == 1,
        k < 0 ==> up(-k) == 2 * up(-k - 1) && up(k) == 1 && up(k + 1) == 1,
        k >= 0 ==> up(k + 1) == 2 * up(k) && up(-k) == 1 && up(-k - 1) == 1,
        up(k) > 0,
        up(-k) > 0,
{
    lemma2_to64();
    if k > 1 {
        lemma_pow2_unfold(k as nat);
        lemma_pow2_pos(k as nat);
    }
    if k < -1 {
        lemma_pow2_unfold((-k) as nat);
        lemma_pow2_pos((-k) as nat);
    }
    if k > 0 {
        lemma_pow2_unfold((k + 1) as nat);
    }
}

/// A fraction brought to `precision` bits at the exponent `k` rounds to its nearest integer there.
proof fn lemma_round_at(nn: nat, dd: nat, n: nat, d: nat, k: nat, precision: nat)
    requires
        precision > 0,
        d > 0,
        dd > 0,
        nn * d == (n * pow2(k)) * dd,
        n < d * pow2(precision),
        k == 0 || n >= d * pow2((precision - 1) as nat),
    ensures
        round_to(nn, dd, precision) == nearest(n, d) * pow2(k),
        nearest(n, d) <= pow2(precision),
        k == 0 || nearest(n, d) >= pow2((precision - 1) as nat),
{
    let p = pow2(precision);
    let h = pow2((precision - 1) as nat);
    let g = pow2(k);
    lemma_pow2_pos(k);
    lemma_pow2_pos(precision);
    lemma_pow2_pos((precision - 1) as nat);
    lemma_pow2_adds(precision, k);
    let x = nn / dd;
    lemma_fundamental_div_mod(nn as int, dd as int);
    assert(nn < dd * (p * g)) by (nonlinear_arith)
        requires
            nn * d == (n * g) * dd,
            n < d * p,
            d > 0,
            dd > 0,
            g > 0,
    ;
    assert(x < p * g) by (nonlinear_arith)
        requires
            nn == dd * x + nn % dd,
            nn % dd >= 0,
            nn < dd * (p * g),
            dd > 0,
    ;
    if k > 0 {
        lemma_pow2_adds((precision - 1) as nat, k);
        assert((precision + k - 1) as nat == ((precision - 1) as nat) + k);
        assert(nn >= dd * (h * g)) by (nonlinear_arith)
            requires
                nn * d == (n * g) * dd,
                n >= d * h,
                d > 0,
                dd > 0,
                g > 0,
        ;
        assert(x >= h * g) by (nonlinear_arith)
            requires
                nn == dd * x + nn % dd,
                nn % dd < dd,
                nn >= dd * (h * g),
                dd > 0,
        ;
    }
    lemma_spacing_unique(x, precision, k);
    assert(nn * d == n * (dd * g)) by (nonlinear_arith)
        requires
            nn * d == (n * g) * dd,
    ;
    assert(dd * g > 0) by (nonlinear_arith)
        requires
            dd > 0,
            g > 0,
    ;
    lemma_nearest_same(nn, dd * g, n, d);
    assert(n * 1 <= (p * d) * 1 && n * d <= (p * d) * d) by (nonlinear_arith)
        requires
            n < d * p,
            d > 0,
    ;
    lemma_nearest_exact(p, d);
    lemma_nearest_monotone(n, d, p * d, d);
    if k > 0 {
        assert((h * d) * d <= n * d) by (nonlinear_arith)
            requires
                n >= d * h,
                d > 0,
        ;
        lemma_nearest_exact(h, d);
        lemma_nearest_monotone(h * d, d, n, d);
    }
}

/// Rounds `n / d * 2^k` to `precision` significant bits.
///
/// The result is the significand and the exponent of its gap. The significand has exactly
/// `precision` bits unless the gap is one unit.
pub fn round_scaled(n: u128, d: u128, k: i32, precision: u32) -> (r: (u64, u32))
    requires
        0 < n < 0x1000_0000_0000_0000_0000_0000_0000u128,
        0 < d <= 0x1_0000_0000_0000_0000u128,
        -10_000 <= k <= 10_000,
        2 <= precision <= 53,
    ensures
        r.0 * pow2(r.1 as nat) == round_to(
            (n * up(k as int)) as nat,
            (d * up(-k as int)) as nat,
            precision as nat,
        ),
        r.0 < pow2(precision as nat),
        r.1 == 0 || r.0 >= pow2((precision - 1) as nat),
        r.1 <= 11_000,
{
    let ghost nn = (n * up(k as int)) as nat;
    let ghost dd = (d * up(-k as int)) as nat;
    let ghost p = precision as nat;
    let full: u64 = 1u64 << (precision as u64);
    let half: u64 = 1u64 << ((precision - 1) as u64);
    proof {
        lemma2_to64();
        lemma2_to64_rest();
        lemma_pow2_strictly_increases(p, 63);
        lemma_pow2_strictly_increases((p - 1) as nat, 63);
        vstd::bits::lemma_u64_shl_is_mul(1, precision as u64);
        vstd::bits::lemma_u64_shl_is_mul(1, (precision - 1) as u64);
        lemma_pow2_unfold(p);
        if p < 53 {
            lemma_pow2_strictly_increases(p, 53);
        }
        lemma_up_steps(k as int);
        lemma_pow2_pos((p - 1) as nat);
    }
    assert(full == pow2(p) && half == pow2((p - 1) as nat) && full == 2 * half);
    assert(full <= 0x20_0000_0000_0000u64);
    let mut a: u128 = n;
    let mut b: u128 = d;
    let mut e: i32 = k;
    assert(b * (half as u128) <= 0x1_0000_0000_0000_0000u128 * 0x10_0000_0000_0000u128)
        by (nonlinear_arith)
        requires
            b <= 0x1_0000_0000_0000_0000u128,
            half <= 0x10_0000_0000_0000u64,
    ;
    assert(nn * (b * up(-e as int)) == (a * up(e as int)) * dd) by (nonlinear_arith)
        requires
            nn == n * up(k as int),
            dd == d * up(-k as int),
            a == n,
            b == d,
            e == k,
    ;
    assert(dd > 0) by (nonlinear_arith)
        requires
            dd == d * up(-k as int),
            d > 0,
            up(-k as int) > 0,
    ;
    // Large values: spend the exponent until the quotient has `precision` bits.
    while e > 0 && a < b * (half as u128)
        invariant
            b == d,
            0 < b <= 0x1_0000_0000_0000_0000u128,
            b * (half as u128) <= 0x1_0000_0000_0000_0000u128 * 0x10_0000_0000_0000u128,
            0 < a < 0x100_0000_0000_0000_0000_0000_0000_0000u128,
            -10_000 <= e <= 10_000,
            nn * (b * up(-e as int)) == (a * up(e as int)) * dd,
        decreases e,
    {
        proof {
            lemma_up_steps(e as int);
            assert(a * up(e as int) == (2 * a) * up(e - 1)) by (nonlinear_arith)
                requires
                    up(e as int) == 2 * up(e - 1),
            ;
        }
        a = 2 * a;
        e = e - 1;
    }
    let ghost split = e;
    // Tiny values: coarsen the denominator until the exponent is zero.
    while e < 0 && b <= 2 * a
        invariant
            0 < a < 0x100_0000_0000_0000_0000_0000_0000_0000u128,
            0 < b < 0x1000_0000_0000_0000_0000_0000_0000_0000u128,
            -10_000 <= e <= 10_000,
            split >= 0 ==> e == split && b == d,
            split < 0 ==> e <= 0,
            nn * (b * up(-e as int)) == (a * up(e as int)) * dd,
        decreases -e,
    {
        proof {
            lemma_up_steps(e as int);
            assert(b * up(-e as int) == (2 * b) * up(-e - 1)) by (nonlinear_arith)
                requires
                    up(-e as int) == 2 * up(-e - 1),
            ;
        }
        b = 2 * b;
        e = e + 1;
    }
    if e < 0 {
        proof {
            lemma_up_steps(e as int);
            let u = up(-e as int);
            assert(2 * nn < dd) by (nonlinear_arith)
                requires
                    nn * (b * u) == (a * 1) * dd,
                    b > 2 * a,
                    u >= 1,
                    dd > 0,
                    a > 0,
            ;
            lemma_small_div(nn, dd);
        }
        return (0, 0);
    }
    let ghost start = e;
    let ghost mut steps: nat = 0;
    assert(nn * b == (a * pow2(e as nat)) * dd) by {
        lemma_up_steps(e as int);
        assert(b * 1 == b);
    }
    // Bring the quotient down to `precision` bits.
    while a / (full as u128) >= b
        invariant
            0 < a < 0x100_0000_0000_0000_0000_0000_0000_0000u128,
            0 < b < 0x1000_0000_0000_0000_0000_0000_0000_0000u128,
            0 <= start <= 10_000,
            e == start + steps,
            b >= pow2(steps),
            steps <= 127,
            4 <= full <= 0x20_0000_0000_0000u64,
            full == 2 * half,
            e == 0 || a >= b * half,
            nn * b == (a * pow2(e as nat)) * dd,
        decreases a - b,
    {
        proof {
            lemma_pow2_unfold((e + 1) as nat);
            lemma_pow2_unfold(steps + 1);
            assert(b * full <= a) by (nonlinear_arith)
                requires
                    a / (full as u128) >= b,
                    full > 0,
            ;
            assert(4 * b <= b * full) by (nonlinear_arith)
                requires
                    full >= 4,
            ;
            assert(nn * (2 * b) == (a * pow2((e + 1) as nat)) * dd) by (nonlinear_arith)
                requires
                    nn * b == (a * pow2(e as nat)) * dd,
                    pow2((e + 1) as nat) == 2 * pow2(e as nat),
            ;
            assert((2 * b) * half == b * full) by (nonlinear_arith)
                requires
                    full == 2 * half,
            ;
            if steps + 1 > 127 {
                lemma2_to64();
                lemma_pow2_adds(64, 64);
                assert(0x1_0000_0000_0000_0000nat * 0x1_0000_0000_0000_0000nat
                    > 0x1000_0000_0000_0000_0000_0000_0000_0000nat) by (nonlinear_arith);
            }
            steps = steps + 1;
        }
        b = 2 * b;
        e = e + 1;
    }
    let q: u128 = a / b;
    let r: u128 = a % b;
    let up_one: bool = !(2 * r < b || (2 * r == b && q % 2 == 0));
    proof {
        assert(a < b * full) by (nonlinear_arith)
            requires
                a / (full as u128) < b,
                full > 0,
        ;
        lemma_round_at(nn, dd, a as nat, b as nat, e as nat, p);
    }
    assert(q <= nearest(a as nat, b as nat));
    let m: u64 = if up_one {
        (q + 1) as u64
    } else {
        q as u64
    };
    assert(m == nearest(a as nat, b as nat));
    if m == full {
        proof {
            lemma_pow2_unfold((e + 1) as nat);
            assert(half * pow2((e + 1) as nat) == full * pow2(e as nat)) by (nonlinear_arith)
                requires
                    full == 2 * half,
                    pow2((e + 1) as nat) == 2 * pow2(e as nat),
            ;
        }
        (half, (e + 1) as u32)
    } else {
        (m, e as u32)
    }
}

/// A fraction below one half rounds to zero.
proof fn lemma_small_div(n: nat, d: nat)
    requires
        2 * n < d,
    ensures
        forall|precision: nat| #[trigger] round_to(n, d, precision) == 0,
{
    lemma2_to64();
    lemma_basic_div(n as int, d as int);
    lemma_small_mod(n, d);
    assert forall|precision: nat| #[trigger] round_to(n, d, precision) == 0 by {
        assert(spacing(n / d, precision) == 0);
        assert(d * pow2(0) == d) by (nonlinear_arith)
            requires
                pow2(0) == 1,
        ;
        assert(nearest(n, d) == 0);
    }
}

/// The gap grows with the number.
proof fn lemma_spacing_monotone(x: nat, y: nat, precision: nat)
    requires
        x <= y,
    ensures
        spacing(x, precision) <= spacing(y, precision),
    decreases y,
{
    lemma_pow2_pos(precision);
    if x >= pow2(precision) {
        lemma_spacing_monotone(x / 2, y / 2, precision);
    }
}

/// Where a rounded fraction lies: between the powers of two around it.
proof fn lemma_round_bracket(n: nat, d: nat, precision: nat)
    requires
        d > 0,
        precision > 0,
    ensures
        ({
            let j = spacing(n / d, precision);
            &&& n < d * pow2(precision + j)
            &&& j > 0 ==> n >= d * pow2((precision + j - 1) as nat)
            &&& round_to(n, d, precision) <= pow2(precision + j)
            &&& j > 0 ==> round_to(n, d, precision) >= pow2((precision + j - 1) as nat)
        }),
{
    let x = n / d;
    let j = spacing(x, precision);
    let g = pow2(j);
    let p = pow2(precision);
    lemma_pow2_pos(j);
    lemma_spacing(x, precision);
    lemma_fundamental_div_mod(n as int, d as int);
    lemma_pow2_adds(precision, j);
    assert(n < d * (p * g)) by (nonlinear_arith)
        requires
            n == d * x + n % d,
            n % d < d,
            x < p * g,
            d > 0,
    ;
    let dg = d * g;
    assert(dg > 0) by (nonlinear_arith)
        requires
            d > 0,
            g > 0,
            dg == d * g,
    ;
    lemma_nearest_exact(p, dg);
    assert(n * dg <= (p * dg) * dg) by (nonlinear_arith)
        requires
            n < d * (p * g),
            dg == d * g,
            dg > 0,
    ;
    lemma_nearest_monotone(n, dg, p * dg, dg);
    let m = nearest(n, dg);
    assert(m * g <= p * g) by (nonlinear_arith)
        requires
            m <= p,
    ;
    if j > 0 {
        let h = pow2((precision - 1) as nat);
        lemma_pow2_adds((precision - 1) as nat, j);
        assert((precision + j - 1) as nat == ((precision - 1) as nat) + j);
        assert(n >= d * (h * g)) by (nonlinear_arith)
            requires
                n == d * x + n % d,
                n % d >= 0,
                x >= h * g,
                d > 0,
        ;
        lemma_nearest_exact(h, dg);
        assert((h * dg) * dg <= n * dg) by (nonlinear_arith)
            requires
                n >= d * (h * g),
                dg == d * g,
                dg > 0,
        ;
        lemma_nearest_monotone(h * dg, dg, n, dg);
        assert(m * g >= h * g) by (nonlinear_arith)
            requires
                m >= h,
        ;
    }
}

/// The significand of a rounded fraction has at most `precision` bits, or is the next power of two.
pub proof fn lemma_significand_fits(n: nat, d: nat, precision: nat)
    requires
        d > 0,
        precision > 0,
    ensures
        nearest(n, d * pow2(spacing(n / d, precision))) <= pow2(precision),
{
    let j = spacing(n / d, precision);
    let g = pow2(j);
    let p = pow2(precision);
    lemma_pow2_pos(j);
    lemma_pow2_adds(precision, j);
    lemma_round_bracket(n, d, precision);
    let dg = d * g;
    assert(dg > 0 && n * dg <= (p * dg) * dg) by (nonlinear_arith)
        requires
            n < d * (p * g),
            dg == d * g,
            d > 0,
            g > 0,
    ;
    lemma_nearest_exact(p, dg);
    lemma_nearest_monotone(n, dg, p * dg, dg);
}

/// Rounding keeps the order of fractions.
pub proof fn law_rounding_is_monotone(a: nat, b: nat, c: nat, d: nat, precision: nat)
    requires
        b > 0,
        d > 0,
        precision > 0,
        a * d <= c * b,
    ensures
        round_to(a, b, precision) <= round_to(c, d, precision),
{
    let x = a / b;
    let y = c / d;
    lemma_fundamental_div_mod(a as int, b as int);
    lemma_fundamental_div_mod(c as int, d as int);
    assert(x <= y) by (nonlinear_arith)
        requires
            a == b * x + a % b,
            a % b >= 0,
            c == d * y + c % d,
            c % d < d,
            a * d <= c * b,
            b > 0,
            d > 0,
    ;
    lemma_spacing_monotone(x, y, precision);
    let i = spacing(x, precision);
    let j = spacing(y, precision);
    lemma_round_bracket(a, b, precision);
    lemma_round_bracket(c, d, precision);
    if i == j {
        let g = pow2(i);
        lemma_pow2_pos(i);
        assert(b * g > 0 && d * g > 0 && a * (d * g) <= c * (b * g)) by (nonlinear_arith)
            requires
                a * d <= c * b,
                b > 0,
                d > 0,
                g > 0,
        ;
        lemma_nearest_monotone(a, b * g, c, d * g);
        let m1 = nearest(a, b * g);
        let m2 = nearest(c, d * g);
        assert(m1 * g <= m2 * g) by (nonlinear_arith)
            requires
                m1 <= m2,
        ;
    } else if precision + i < precision + j - 1 {
        lemma_pow2_strictly_increases(precision + i, (precision + j - 1) as nat);
    }
}

/// A number that has at most `precision` significant bits is kept by rounding.
pub proof fn law_rounding_keeps_representable(m: nat, shift: nat, d: nat, precision: nat)
    requires
        d > 0,
        precision > 0,
        m <= pow2(precision),
    ensures
        round_to(m * pow2(shift) * d, d, precision) == m * pow2(shift),
{
    let x = m * pow2(shift);
    let p = pow2(precision);
    let s = spacing(x, precision);
    lemma_div_multiples_vanish(x as int, d as int);
    assert(x * d == d * x) by (nonlinear_arith);
    lemma_spacing(x, precision);
    lemma_pow2_adds(precision, shift);
    lemma_pow2_pos(shift);
    lemma_pow2_pos(s);
    assert(x <= p * pow2(shift)) by (nonlinear_arith)
        requires
            x == m * pow2(shift),
            m <= p,
    ;
    if s > shift + 1 {
        lemma_pow2_strictly_increases(precision + shift, (precision + s - 1) as nat);
    }
    let g = pow2(s);
    let t: nat = if s <= shift {
        let up = pow2((shift - s) as nat);
        lemma_pow2_adds((shift - s) as nat, s);
        assert(x == (m * up) * g) by (nonlinear_arith)
            requires
                x == m * pow2(shift),
                pow2(shift) == up * g,
        ;
        m * up
    } else {
        // The number is `2^precision` steps of `2^shift`, that is half as many of twice the step.
        let h = pow2((precision - 1) as nat);
        lemma_pow2_adds((precision - 1) as nat, s);
        assert(x == h * g);
        h
    };
    assert(x * d == t * (d * g)) by (nonlinear_arith)
        requires
            x == t * g,
    ;
    assert(d * g > 0) by (nonlinear_arith)
        requires
            d > 0,
            g > 0,
    ;
    lemma_nearest_exact(t, d * g);
}

/// Away from the finest gap, rounding moves a fraction by at most one part in `2^precision`.
pub proof fn law_rounding_error_is_relative(n: nat, d: nat, precision: nat)
    requires
        d > 0,
        precision > 0,
        n >= d * pow2((precision - 1) as nat),
    ensures
        pow2(precision) * (round_to(n, d, precision) * d - n) <= n,
        pow2(precision) * (n - round_to(n, d, precision) * d) <= n,
{
    let j = spacing(n / d, precision);
    let g = pow2(j);
    let p = pow2(precision);
    let h = pow2((precision - 1) as nat);
    let dg = d * g;
    let m = nearest(n, dg);
    lemma_pow2_pos(j);
    lemma_pow2_unfold(precision);
    lemma_round_bracket(n, d, precision);
    assert(dg > 0) by (nonlinear_arith)
        requires
            d > 0,
            g > 0,
            dg == d * g,
    ;
    lemma_nearest(n, dg);
    lemma_pow2_adds((precision - 1) as nat, j);
    assert((precision + j - 1) as nat == ((precision - 1) as nat) + j);
    if j == 0 {
        lemma2_to64();
        assert(d * (h * g) == d * h) by (nonlinear_arith)
            requires
                g == 1,
        ;
    }
    assert(n >= d * (h * g));
    assert((m * g) * d == m * dg) by (nonlinear_arith)
        requires
            dg == d * g,
    ;
    let err = m * dg - n;
    assert((2 * m + 1) * dg == 2 * (m * dg) + dg) by (nonlinear_arith);
    assert((2 * m - 1) * dg == 2 * (m * dg) - dg) by (nonlinear_arith);
    assert(2 * err <= dg && -2 * err <= dg);
    assert(p * err <= h * dg && p * (-err) <= h * dg) by (nonlinear_arith)
        requires
            p == 2 * h,
            2 * err <= dg,
            -2 * err <= dg,
            h >= 0,
    ;
    assert(h * dg == d * (h * g)) by (nonlinear_arith)
        requires
            dg == d * g,
    ;
}

/// Another multiple of the gap is no nearer to a fraction than the nearest one.
proof fn lemma_no_multiple_is_nearer(n: nat, dg: nat, k: nat)
    requires
        dg > 0,
    ensures
        nearest(n, dg) * dg - n <= k * dg - n || nearest(n, dg) * dg - n <= n - k * dg,
        n - nearest(n, dg) * dg <= k * dg - n || n - nearest(n, dg) * dg <= n - k * dg,
{
    let m = nearest(n, dg);
    lemma_nearest(n, dg);
    assert((2 * m + 1) * dg == 2 * (m * dg) + dg) by (nonlinear_arith);
    assert((2 * m - 1) * dg == 2 * (m * dg) - dg) by (nonlinear_arith);
    if k > m {
        assert(k * dg >= m * dg + dg) by (nonlinear_arith)
            requires
                k >= m + 1,
                dg > 0,
        ;
    } else if k < m {
        assert(k * dg <= m * dg - dg) by (nonlinear_arith)
            requires
                k <= m - 1,
                dg > 0,
        ;
    }
}

/// The distance between two integers.
pub open spec fn distance(a: int, b: int) -> int {
    if a < b {
        b - a
    } else {
        a - b
    }
}

/// No number of at most `precision` significant bits is nearer to a fraction than what it is
/// rounded to.
pub proof fn law_rounding_is_nearest(n: nat, d: nat, precision: nat, m: nat, shift: nat)
    requires
        d > 0,
        precision > 0,
        m < pow2(precision),
    ensures
        distance((round_to(n, d, precision) * d) as int, n as int) <= distance(
            (m * pow2(shift) * d) as int,
            n as int,
        ),
{
    let j = spacing(n / d, precision);
    let g = pow2(j);
    let dg = d * g;
    let r = nearest(n, dg);
    let y = m * pow2(shift);
    lemma_pow2_pos(j);
    assert(dg > 0) by (nonlinear_arith)
        requires
            dg == d * g,
            d > 0,
            g > 0,
    ;
    assert((r * g) * d == r * dg) by (nonlinear_arith)
        requires
            dg == d * g,
    ;
    if shift >= j {
        // A multiple of the gap.
        let k = m * pow2((shift - j) as nat);
        lemma_pow2_adds((shift - j) as nat, j);
        assert(y * d == k * dg) by (nonlinear_arith)
            requires
                y == m * pow2(shift),
                pow2(shift) == pow2((shift - j) as nat) * g,
                k == m * pow2((shift - j) as nat),
                dg == d * g,
        ;
        lemma_no_multiple_is_nearer(n, dg, k);
    } else {
        // Below the power of two at which this gap starts.
        let h = pow2((precision - 1) as nat);
        lemma_round_bracket(n, d, precision);
        lemma_pow2_adds((precision - 1) as nat, j);
        assert((precision + j - 1) as nat == ((precision - 1) as nat) + j);
        lemma_pow2_unfold(precision);
        lemma_pow2_unfold(j);
        if shift < j - 1 {
            lemma_pow2_strictly_increases(shift, (j - 1) as nat);
        }
        assert(y <= h * g) by (nonlinear_arith)
            requires
                y == m * pow2(shift),
                m <= 2 * h,
                2 * pow2(shift) <= g,
        ;
        assert(y * d <= (h * g) * d && (h * g) * d == h * dg && d * (h * g) == h * dg)
            by (nonlinear_arith)
            requires
                y <= h * g,
                dg == d * g,
        ;
        lemma_no_multiple_is_nearer(n, dg, h);
    }
}

} // verus!
