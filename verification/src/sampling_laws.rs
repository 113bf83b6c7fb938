//! What the frame samplers promise of their indices.
use crate::float;
use crate::float::FloatValue;
use crate::float_laws;
use crate::rounding;
use crate::video_sampling;
use crate::video_sampling::{Sampling, VideoFrameMetadata, VideoFrameSamplingTarget};
use crate::vision::video_sampling::qwen2_vl;
use vstd::arithmetic::div_mod::*;
use vstd::arithmetic::power2::*;
use vstd::prelude::*;

verus! {

/// For a source of so many whole seconds, and whole rates, the estimate is the exact product of
/// seconds and target rate.
pub proof fn law_estimate_of_whole_seconds(
    source: VideoFrameMetadata,
    target: VideoFrameSamplingTarget,
    seconds: nat,
    source_rate: nat,
    target_rate: nat,
)
    requires
        source_rate > 0,
        source.original_fps@ == float_laws::plain(source_rate * pow2(1074)),
        target.fps@ == float_laws::plain(target_rate * pow2(1074)),
        source.total_frames == seconds * source_rate,
        source.total_frames <= 0x20_0000_0000_0000,
        seconds * target_rate <= 0x20_0000_0000_0000,
    ensures
        video_sampling::frame_estimate(source, target) == float_laws::plain(
            (seconds * target_rate) * pow2(1074),
        ),
        video_sampling::frame_estimate(source, target).truncated(
            float::binary64(),
            usize::MAX as nat,
        ) == float_laws::least(seconds * target_rate, usize::MAX as nat),
{
    let f = float::binary64();
    let one = pow2(f.scale);
    let total = source.total_frames as nat;
    let wanted = seconds * target_rate;
    lemma2_to64();
    lemma2_to64_rest();
    lemma_pow2_pos(f.scale);
    float_laws::law_integers_are_ordered(f, total, total);
    // The duration.
    let d = source_rate * one;
    assert(d > 0 && (total * one) * one == seconds * one * d) by (nonlinear_arith)
        requires
            d == source_rate * one,
            total == seconds * source_rate,
            source_rate > 0,
            one > 0,
    ;
    assert(seconds <= total) by (nonlinear_arith)
        requires
            total == seconds * source_rate,
            source_rate >= 1,
    ;
    rounding::law_rounding_keeps_representable(seconds, f.scale, d, f.precision);
    lemma_integer_below_overflow(seconds);
    // Its product with the rate.
    assert((seconds * one) * (target_rate * one) == wanted * one * one) by (nonlinear_arith)
        requires
            wanted == seconds * target_rate,
    ;
    rounding::law_rounding_keeps_representable(wanted, f.scale, one, f.precision);
    lemma_integer_below_overflow(wanted);
    lemma_div_multiples_vanish(wanted as int, one as int);
    assert(wanted * one == one * wanted) by (nonlinear_arith);
}

/// Later positions of a uniform sampling lie at later or equal values.
proof fn lemma_linspace_ordered(total: usize, count: usize, i: nat, j: nat)
    requires
        total > 0,
        i <= j < count,
    ensures
        ({
            let end = FloatValue::of_nat(float::binary64(), (total - 1) as nat);
            float_laws::ordered(
                video_sampling::linspace_value(end, count as nat, i),
                video_sampling::linspace_value(end, count as nat, j),
            )
        }),
{
    let f = float::binary64();
    let a = (total - 1) as nat;
    let c = (count - 1) as nat;
    float_laws::lemma_usize_is_small(total);
    float_laws::lemma_usize_is_small(count);
    if count > 1 {
        float_laws::law_integers_are_ordered(f, a, a);
        float_laws::law_integers_are_ordered(f, c, c);
        float_laws::law_integers_are_ordered(f, i, j);
        lemma_pow2_pos(f.scale);
        let z = float_laws::nat_units(f, a);
        let x = float_laws::nat_units(f, i);
        let y = float_laws::nat_units(f, j);
        float_laws::law_products_are_ordered(f, x, y, z);
        float_laws::law_quotients_are_ordered(
            f,
            float_laws::plain(z).times(f, float_laws::plain(x)),
            float_laws::plain(z).times(f, float_laws::plain(y)),
            float_laws::nat_units(f, c),
        );
    }
}

/// Uniform sampling never steps back, whatever the source and the count.
pub proof fn law_uniform_is_non_decreasing(total: usize, count: usize)
    requires
        total > 0,
    ensures
        video_sampling::non_decreasing(video_sampling::uniform_indices(total as nat, count as nat)),
{
    let f = float::binary64();
    let end = FloatValue::of_nat(f, (total - 1) as nat);
    let indices = video_sampling::uniform_indices(total as nat, count as nat);
    assert forall|i: int, j: int| 0 <= i <= j < indices.len() implies indices[i] <= indices[j] by {
        lemma_linspace_ordered(total, count, i as nat, j as nat);
        float_laws::law_conversions_are_ordered(
            f,
            video_sampling::linspace_value(end, count as nat, i as nat),
            video_sampling::linspace_value(end, count as nat, j as nat),
            usize::MAX as nat,
        );
    }
}

/// Uniform sampling starts at the first frame, whatever the source and the count.
pub proof fn law_uniform_starts_at_first_frame(total: usize, count: usize)
    requires
        total > 0,
        count > 0,
    ensures
        video_sampling::uniform_indices(total as nat, count as nat)[0] == 0,
{
    let f = float::binary64();
    let one = pow2(f.scale);
    lemma_pow2_pos(f.scale);
    float::lemma_zero(f);
    assert(rounding::nearest(0, one) == 0) by {
        rounding::lemma_nearest_exact(0, one);
        assert(0 * one == 0) by (nonlinear_arith);
    }
    if count > 1 {
        let a = (total - 1) as nat;
        let c = (count - 1) as nat;
        float_laws::lemma_usize_is_small(total);
        float_laws::lemma_usize_is_small(count);
        float_laws::law_integers_are_ordered(f, a, a);
        float_laws::law_integers_are_ordered(f, c, c);
        let z = float_laws::nat_units(f, a);
        let d = float_laws::nat_units(f, c);
        float::lemma_zero_fraction(f, one);
        float::lemma_zero_fraction(f, d);
        assert(z * 0 == 0 && 0 * one == 0) by (nonlinear_arith);
    }
}

/// All indices of a uniform sampling name frames of the source exactly where the last one does.
pub proof fn law_uniform_range_is_decided_by_last(total: usize, count: usize)
    requires
        total > 0,
        count > 0,
    ensures
        ({
            let indices = video_sampling::uniform_indices(total as nat, count as nat);
            video_sampling::in_range(indices, total as nat) <==> indices[count - 1] < total
        }),
{
    law_uniform_is_non_decreasing(total, count);
    let indices = video_sampling::uniform_indices(total as nat, count as nat);
    if indices[count - 1] < total {
        assert forall|i: int| 0 <= i < indices.len() implies #[trigger] indices[i] < total by {
            assert(indices[i] <= indices[count - 1]);
        }
    }
}

/// The product of the end and the number of steps, divided by the number of steps again, is the
/// end to within a quarter.
proof fn lemma_last_value(a: nat, c: nat)
    requires
        0 < a < 0x8_0000_0000_0000,
        0 < c,
        float_laws::is_small(c),
    ensures
        ({
            let f = float::binary64();
            let q = pow2((f.scale - 2) as nat);
            video_sampling::linspace_value(FloatValue::of_nat(f, a), c + 1, c) matches
                FloatValue::Finite { negative, units } && !negative && (4 * a - 1) * q <= units <= (
            4 * a + 1) * q
        }),
{
    let f = float::binary64();
    let one = pow2(f.scale);
    let q = pow2((f.scale - 2) as nat);
    let p = pow2(f.precision);
    lemma2_to64();
    lemma2_to64_rest();
    lemma_pow2_pos(f.scale);
    lemma_pow2_adds(2, (f.scale - 2) as nat);
    float_laws::law_integers_are_ordered(f, a, a);
    float_laws::law_integers_are_ordered(f, c, c);
    let x = float_laws::nat_units(f, a);
    let y = float_laws::nat_units(f, c);
    assert(x == a * one);
    // The product, in units: within one part in 2^53 of `x y / one`.
    let n = x * y;
    let r = rounding::round_to(n, one, f.precision);
    lemma_pow2_strictly_increases(52, f.scale);
    assert(n >= one * pow2(52)) by (nonlinear_arith)
        requires
            n == (a * one) * y,
            a >= 1,
            y >= one,
            one >= pow2(52),
            pow2(52) > 0,
    ;
    rounding::law_rounding_error_is_relative(n, one, f.precision);
    // It is far below the overflow.
    assert(a <= pow2(64));
    lemma_pow2_adds(64, 64 + f.scale);
    lemma_pow2_adds(64 + (64 + f.scale), f.scale);
    assert(n <= pow2(128 + f.scale) * one) by (nonlinear_arith)
        requires
            n == (a * one) * y,
            a <= pow2(64),
            y <= pow2(64 + f.scale),
            pow2(128 + f.scale) == pow2(64) * pow2(64 + f.scale),
    ;
    assert(n * 1 <= pow2(128 + f.scale) * one) by (nonlinear_arith)
        requires
            n <= pow2(128 + f.scale) * one,
    ;
    rounding::law_rounding_is_monotone(n, one, pow2(128 + f.scale), 1, f.precision);
    rounding::law_rounding_keeps_representable(1, 128 + f.scale, 1, f.precision);
    assert(1 * pow2(128 + f.scale) * 1 == pow2(128 + f.scale));
    lemma_pow2_strictly_increases(128 + f.scale, (f.precision + f.max_shift()) as nat);
    assert(r < f.overflow());
    let product = FloatValue::of_nat(f, a).times(f, FloatValue::of_nat(f, c));
    assert(product == float_laws::plain(r));
    // The quotient lies between (4a - 1) / 4 and (4a + 1) / 4.
    let lo = ((4 * a - 1) as nat) * q;
    let hi = (4 * a + 1) * q;
    let m = r * one;
    assert(m * 1 <= hi * y && lo * y <= m * 1) by (nonlinear_arith)
        requires
            m == r * one,
            n == (a * one) * y,
            p * (r * one - n) <= n,
            p * (n - r * one) <= n,
            p == 0x20_0000_0000_0000,
            0 < a < 0x8_0000_0000_0000,
            one == 4 * q,
            lo == (4 * a - 1) * q,
            hi == (4 * a + 1) * q,
            y > 0,
            q > 0,
    ;
    rounding::law_rounding_is_monotone(m, y, hi, 1, f.precision);
    rounding::law_rounding_is_monotone(lo, 1, m, y, f.precision);
    rounding::law_rounding_keeps_representable(4 * a + 1, (f.scale - 2) as nat, 1, f.precision);
    rounding::law_rounding_keeps_representable((4 * a - 1) as nat, (f.scale - 2) as nat, 1, f.precision);
    assert(hi * 1 == hi && lo * 1 == lo);
    assert(hi < f.overflow()) by {
        lemma_pow2_adds(53, (f.scale - 2) as nat);
        assert(hi <= pow2(53) * q) by (nonlinear_arith)
            requires
                hi == (4 * a + 1) * q,
                a < 0x8_0000_0000_0000,
                pow2(53) == 0x20_0000_0000_0000,
        ;
        lemma_pow2_strictly_increases(53 + (f.scale - 2) as nat, (f.precision + f.max_shift()) as nat);
    }
}

/// Of a source of at most `2^51` frames, uniform sampling names only frames of the source, and
/// from two frames on it ends at the last one.
pub proof fn law_uniform_covers_source(total: usize, count: usize)
    requires
        0 < total <= 0x8_0000_0000_0000,
        count > 0,
    ensures
        ({
            let indices = video_sampling::uniform_indices(total as nat, count as nat);
            &&& video_sampling::in_range(indices, total as nat)
            &&& count > 1 ==> indices[count - 1] == total - 1
        }),
{
    let f = float::binary64();
    let one = pow2(f.scale);
    let a = (total - 1) as nat;
    let c = (count - 1) as nat;
    let indices = video_sampling::uniform_indices(total as nat, count as nat);
    lemma_pow2_pos(f.scale);
    law_uniform_starts_at_first_frame(total, count);
    if count > 1 {
        float_laws::lemma_usize_is_small(count);
        if a == 0 {
            float_laws::law_integers_are_ordered(f, c, c);
            float::lemma_zero(f);
            let y = float_laws::nat_units(f, c);
            float::lemma_zero_fraction(f, one);
            float::lemma_zero_fraction(f, y);
            assert(0 * y == 0 && 0 * one == 0) by (nonlinear_arith);
            rounding::lemma_nearest_exact(0, one);
        } else {
            lemma_last_value(a, c);
            let q = pow2((f.scale - 2) as nat);
            let value = video_sampling::linspace_value(FloatValue::of_nat(f, a), c + 1, c);
            let units = value->units;
            lemma2_to64();
            lemma_pow2_adds(2, (f.scale - 2) as nat);
            lemma_pow2_pos((f.scale - 2) as nat);
            assert(2 * units < (2 * a + 1) * one && 2 * units > (2 * a - 1) * one)
                by (nonlinear_arith)
                requires
                    (4 * a - 1) * q <= units <= (4 * a + 1) * q,
                    one == 4 * q,
                    q > 0,
            ;
            rounding::lemma_nearest_unique(units, one, a);
            assert(indices[count - 1] == a);
        }
    }
    law_uniform_range_is_decided_by_last(total, count);
}

/// Where the frames times the steps stay below `2^52`, the index at position `i` of a uniform
/// sampling is the exact position `i * (total - 1) / (count - 1)`, rounded to the nearest frame
/// with ties to even.
pub proof fn law_uniform_is_exact(total: usize, count: usize, i: nat)
    requires
        total > 0,
        i < count,
        count > 1,
        (total - 1) * (count - 1) < 0x10_0000_0000_0000,
    ensures
        video_sampling::uniform_indices(total as nat, count as nat)[i as int]
            == rounding::nearest(i * ((total - 1) as nat), (count - 1) as nat),
{
    let f = float::binary64();
    let one = pow2(f.scale);
    let a = (total - 1) as nat;
    let c = (count - 1) as nat;
    let x = i * a;
    lemma2_to64();
    lemma2_to64_rest();
    lemma_pow2_pos(f.scale);
    float_laws::lemma_usize_is_small(count);
    float_laws::lemma_usize_is_small(total);
    if a == 0 {
        law_uniform_covers_source(total, count);
        let indices = video_sampling::uniform_indices(total as nat, count as nat);
        assert(indices[i as int] < total);
        assert(x == 0) by (nonlinear_arith)
            requires
                x == i * a,
                a == 0,
        ;
        rounding::lemma_nearest_exact(0, c);
        assert(0 * c == 0) by (nonlinear_arith);
    } else {
        assert(x < 0x10_0000_0000_0000 && a < 0x10_0000_0000_0000 && c < 0x10_0000_0000_0000)
            by (nonlinear_arith)
            requires
                x == i * a,
                0 < a,
                0 < c,
                0 <= i <= c,
                a * c < 0x10_0000_0000_0000,
        ;
        float_laws::law_integers_are_ordered(f, a, a);
        float_laws::law_integers_are_ordered(f, c, c);
        float_laws::law_integers_are_ordered(f, i, i);
        // The product is exact.
        let n = (a * one) * (i * one);
        assert(n == (x * one) * one) by (nonlinear_arith)
            requires
                n == (a * one) * (i * one),
                x == i * a,
        ;
        rounding::law_rounding_keeps_representable(x, f.scale, one, f.precision);
        lemma_integer_below_overflow(x);
        let end = FloatValue::of_nat(f, a);
        assert(end.times(f, FloatValue::of_nat(f, i)) == float_laws::plain(x * one));
        // The quotient is rounded once.
        let num = (x * one) * one;
        let den = c * one;
        let q = rounding::round_to(num, den, f.precision);
        assert(den > 0) by (nonlinear_arith)
            requires
                den == c * one,
                c > 0,
                one > 0,
        ;
        assert(num * 1 <= (x * one) * den) by (nonlinear_arith)
            requires
                num == (x * one) * one,
                den == c * one,
                c >= 1,
                one >= 1,
        ;
        rounding::law_rounding_is_monotone(num, den, x * one, 1, f.precision);
        rounding::law_rounding_keeps_representable(x, f.scale, 1, f.precision);
        assert(x * one * 1 == x * one) by (nonlinear_arith);
        assert(video_sampling::linspace_value(end, count as nat, i) == float_laws::plain(q));
        lemma_quotient_rounds_alike(x, c, q);
        assert(rounding::nearest(q, one) <= usize::MAX) by {
            assert(x <= c * a) by (nonlinear_arith)
                requires
                    x == i * a,
                    i <= c,
            ;
            rounding::lemma_nearest_exact(a, c);
            assert(x * c <= (a * c) * c) by (nonlinear_arith)
                requires
                    x <= c * a,
            ;
            rounding::lemma_nearest_monotone(x, c, a * c, c);
        }
    }
}

/// An integer of at most fifty-three bits is finite in double precision.
proof fn lemma_integer_below_overflow(x: nat)
    requires
        x <= pow2(53),
    ensures
        x * pow2(float::binary64().scale) < float::binary64().overflow(),
{
    let f = float::binary64();
    lemma_pow2_adds(53, f.scale);
    assert(x * pow2(f.scale) <= pow2(53) * pow2(f.scale)) by (nonlinear_arith)
        requires
            x <= pow2(53),
    ;
    lemma_pow2_strictly_increases(53 + f.scale, (f.precision + f.max_shift()) as nat);
}

/// Rounding a quotient of small integers to double precision first does not change its nearest
/// integer.
proof fn lemma_quotient_rounds_alike(x: nat, c: nat, q: nat)
    requires
        x < 0x10_0000_0000_0000,
        0 < c < 0x10_0000_0000_0000,
        q == rounding::round_to(
            (x * pow2(1074)) * pow2(1074),
            c * pow2(1074),
            53,
        ),
    ensures
        rounding::nearest(q, pow2(1074)) == rounding::nearest(x, c),
{
    let one = pow2(1074);
    let num = (x * one) * one;
    let den = c * one;
    lemma2_to64();
    lemma2_to64_rest();
    lemma_pow2_pos(1074);
    assert(den > 0) by (nonlinear_arith)
        requires
            den == c * one,
            c > 0,
            one > 0,
    ;
    if x == 0 {
        assert(num == 0 && num == 0 * pow2(0) * den && 0 * pow2(0) == 0 && 0 * one == 0 && 0 * c
            == 0) by (nonlinear_arith)
            requires
                num == (x * one) * one,
                x == 0,
        ;
        rounding::law_rounding_keeps_representable(0, 0, den, 53);
        rounding::lemma_nearest_exact(0, one);
        rounding::lemma_nearest_exact(0, c);
    } else {
        let m = rounding::nearest(q, one);
        if exists|t: nat| 2 * x == #[trigger] (t * c) {
            // A multiple of one half is exact in double precision.
            let t = choose|t: nat| 2 * x == #[trigger] (t * c);
            let half = pow2(1073);
            lemma_pow2_unfold(1074);
            assert(t < 0x20_0000_0000_0000) by (nonlinear_arith)
                requires
                    2 * x == t * c,
                    x < 0x10_0000_0000_0000,
                    c >= 1,
            ;
            assert(num == t * half * den) by (nonlinear_arith)
                requires
                    num == (x * one) * one,
                    den == c * one,
                    one == 2 * half,
                    2 * x == t * c,
            ;
            rounding::law_rounding_keeps_representable(t, 1073, den, 53);
            assert((t * half) * c == x * one) by (nonlinear_arith)
                requires
                    one == 2 * half,
                    2 * x == t * c,
            ;
            rounding::lemma_nearest_same(q, one, x, c);
        } else {
            lemma_pow2_adds(104, 970);
            lemma_pow2_adds(52, 52);
            lemma_pow2_pos(970);
            assert(num >= den * pow2(52)) by (nonlinear_arith)
                requires
                    num == (x * one) * one,
                    den == c * one,
                    x >= 1,
                    c < pow2(52),
                    one == (pow2(52) * pow2(52)) * pow2(970),
                    pow2(970) > 0,
                    pow2(52) == 0x10_0000_0000_0000,
            ;
            rounding::law_rounding_error_is_relative(num, den, 53);
            // The error is below half of `one / c`.
            assert(2 * (q * c) < (2 * x + 1) * one && 2 * (q * c) > (2 * x - 1) * one)
                by (nonlinear_arith)
                requires
                    pow2(53) * (q * den - num) <= num,
                    pow2(53) * (num - q * den) <= num,
                    pow2(53) == 0x20_0000_0000_0000,
                    num == (x * one) * one,
                    den == c * one,
                    x < 0x10_0000_0000_0000,
                    one > 0,
            ;
            rounding::lemma_nearest(q, one);
            assert(2 * x - 1 < (2 * m + 1) * c) by (nonlinear_arith)
                requires
                    2 * (q * c) > (2 * x - 1) * one,
                    2 * q <= (2 * m + 1) * one,
                    c > 0,
                    one > 0,
            ;
            assert(2 * x + 1 > (2 * m - 1) * c) by (nonlinear_arith)
                requires
                    2 * (q * c) < (2 * x + 1) * one,
                    2 * q >= (2 * m - 1) * one,
                    c > 0,
                    one > 0,
            ;
            assert(2 * x != (2 * m + 1) * c) by {
                let t = 2 * m + 1;
                assert(2 * x != t * c);
            }
            if m > 0 {
                let t = (2 * m - 1) as nat;
                assert(2 * x != t * c);
            } else {
                assert((2 * m - 1) * c < 0) by (nonlinear_arith)
                    requires
                        m == 0,
                        c > 0,
                ;
            }
            rounding::lemma_nearest_unique(x, c, m);
        }
    }
}

/// Where the frames times the steps stay below `2^52`, uniform sampling of no more frames than the
/// source has takes no frame twice.
pub proof fn law_uniform_takes_no_frame_twice(total: usize, count: usize, i: nat, j: nat)
    requires
        count <= total,
        i < j < count,
        (total - 1) * (count - 1) < 0x10_0000_0000_0000,
    ensures
        ({
            let indices = video_sampling::uniform_indices(total as nat, count as nat);
            indices[i as int] < indices[j as int]
        }),
{
    let a = (total - 1) as nat;
    let c = (count - 1) as nat;
    law_uniform_is_exact(total, count, i);
    law_uniform_is_exact(total, count, j);
    let m = rounding::nearest(i * a, c);
    let n = rounding::nearest(j * a, c);
    if a == c {
        rounding::lemma_nearest_exact(i, c);
        rounding::lemma_nearest_exact(j, c);
    } else {
        rounding::lemma_nearest(i * a, c);
        rounding::lemma_nearest(j * a, c);
        assert(j * a >= i * a + a) by (nonlinear_arith)
            requires
                j >= i + 1,
        ;
        assert(m < n) by (nonlinear_arith)
            requires
                2 * (i * a) >= (2 * m - 1) * c,
                2 * (j * a) <= (2 * n + 1) * c,
                j * a >= i * a + a,
                a > c,
                c > 0,
        ;
    }
}

/// The units of the single precision step from one sampled frame to the next.
pub open spec fn step_units(total: nat, count: nat) -> nat {
    let f = float::binary32();
    rounding::round_to(
        float_laws::nat_units(f, total) * pow2(f.scale),
        float_laws::nat_units(f, count),
        f.precision,
    )
}

/// The step is finite, and no longer than the source.
pub proof fn lemma_step(total: usize, count: usize)
    requires
        total > 0,
        count > 0,
    ensures
        ({
            let f = float::binary32();
            &&& FloatValue::of_nat(f, total as nat).over(f, FloatValue::of_nat(f, count as nat))
                == float_laws::plain(step_units(total as nat, count as nat))
            &&& step_units(total as nat, count as nat) <= float_laws::nat_units(f, total as nat)
        }),
{
    let f = float::binary32();
    let one = pow2(f.scale);
    lemma_pow2_pos(f.scale);
    float_laws::lemma_usize_is_small(total);
    float_laws::lemma_usize_is_small(count);
    float_laws::law_integers_are_ordered(f, total as nat, total as nat);
    float_laws::law_integers_are_ordered(f, count as nat, count as nat);
    let t = float_laws::nat_units(f, total as nat);
    let c = float_laws::nat_units(f, count as nat);
    assert((t * one) * 1 <= t * c) by (nonlinear_arith)
        requires
            c >= one,
    ;
    rounding::law_rounding_is_monotone(t * one, c, t, 1, f.precision);
    float_laws::law_rounding_is_idempotent((total as nat) * one, 1, 1, f.precision);
    assert(t * 1 == t);
    lemma_pow2_strictly_increases(64 + f.scale, (f.precision + f.max_shift()) as nat);
}

/// Later positions of a Qwen2-VL sampling lie at later or equal values.
proof fn lemma_arange_ordered(total: usize, count: usize, i: nat, j: nat)
    requires
        total > 0,
        count > 0,
        i <= j <= count,
    ensures
        float_laws::ordered(
            qwen2_vl::arange_value(total as nat, count as nat, i),
            qwen2_vl::arange_value(total as nat, count as nat, j),
        ),
{
    let f = float::binary32();
    lemma_step(total, count);
    float_laws::lemma_usize_is_small(count);
    float_laws::law_integers_are_ordered(f, i, j);
    float_laws::law_products_are_ordered(
        f,
        float_laws::nat_units(f, i),
        float_laws::nat_units(f, j),
        step_units(total as nat, count as nat),
    );
}

/// The positions end no earlier than where the search for their end starts.
pub proof fn lemma_arange_end(total: nat, count: nat, i: nat)
    requires
        i <= count + 1,
    ensures
        i <= qwen2_vl::arange_end(total, count, i) <= count + 1,
        forall|k: nat|
            i <= k < qwen2_vl::arange_end(total, count, i) ==> !qwen2_vl::arange_ends(
                total,
                count,
                k,
            ),
    decreases count + 1 - i,
{
    if i <= count && !qwen2_vl::arange_ends(total, count, i) {
        lemma_arange_end(total, count, i + 1);
    }
}

/// The first source frame is at the first position, which lies before the end of the source.
pub proof fn lemma_arange_starts(total: usize, count: usize)
    requires
        total > 0,
        count > 0,
    ensures
        qwen2_vl::arange_index(total as nat, count as nat, 0) == 0,
        !qwen2_vl::arange_ends(total as nat, count as nat, 0),
        qwen2_vl::arange_end(total as nat, count as nat, 0) > 0,
{
    let f = float::binary32();
    let one = pow2(f.scale);
    lemma_pow2_pos(f.scale);
    lemma_step(total, count);
    float::lemma_zero(f);
    float_laws::lemma_usize_is_small(total);
    float_laws::law_integers_are_ordered(f, 0, total as nat);
    let d = step_units(total as nat, count as nat);
    assert(0 * d == 0) by (nonlinear_arith);
    float::lemma_zero_fraction(f, one);
    assert(qwen2_vl::arange_index(total as nat, count as nat, 0) == 0) by {
        lemma_basic_div(0, one as int);
    }
    lemma_arange_end(total as nat, count as nat, 1);
}

/// The source frames at later positions are later or equal ones.
proof fn lemma_arange_steps(total: usize, count: usize, i: nat, j: nat)
    requires
        total > 0,
        count > 0,
        i <= j <= count,
    ensures
        qwen2_vl::arange_index(total as nat, count as nat, i) <= qwen2_vl::arange_index(
            total as nat,
            count as nat,
            j,
        ),
{
    lemma_arange_ordered(total, count, i, j);
    float_laws::law_conversions_are_ordered(
        float::binary32(),
        qwen2_vl::arange_value(total as nat, count as nat, i),
        qwen2_vl::arange_value(total as nat, count as nat, j),
        usize::MAX as nat,
    );
}

/// Qwen2-VL sampling, whatever the source, the count, the size of a patch and the limit, takes the
/// first frame first, never steps back, and names only frames of the source.
pub proof fn law_qwen2_indices_are_usable(total: usize, count: usize, size: nat, max_frames: nat)
    requires
        total > 0,
        count > 0,
        size > 0,
        qwen2_vl::aligned_down(max_frames, size) > 0,
    ensures
        ({
            let indices = qwen2_vl::taken_indices(size, total as nat, count as nat, max_frames);
            &&& indices.len() > 0
            &&& indices[0] == 0
            &&& video_sampling::non_decreasing(indices)
            &&& video_sampling::in_range(indices, total as nat)
        }),
{
    let indices = qwen2_vl::taken_indices(size, total as nat, count as nat, max_frames);
    let all = qwen2_vl::arange_indices(total as nat, count as nat);
    lemma_aligned_down(max_frames, max_frames, size);
    let n = if all.len() % size == 0 && all.len() <= max_frames {
        count
    } else {
        qwen2_vl::held_count(size, count as nat, max_frames) as usize
    };
    lemma_arange_starts(total, count);
    lemma_arange_end(total as nat, count as nat, 0);
    lemma_arange_starts(total, n);
    assert forall|i: int, j: int| 0 <= i <= j < indices.len() implies indices[i] <= indices[j] by {
        lemma_arange_steps(total, n, i as nat, j as nat);
    }
}

/// Up to `2^23` planned positions all lie before the end of the source, and one more does where
/// rounding leaves the position after them short of it.
pub proof fn law_qwen2_positions_lie_in_source(total: usize, count: usize)
    requires
        total > 0,
        0 < count <= 0x80_0000,
    ensures
        qwen2_vl::arange_indices(total as nat, count as nat).len() == (if qwen2_vl::arange_ends(
            total as nat,
            count as nat,
            count as nat,
        ) {
            count as int
        } else {
            count + 1
        }),
{
    let t = total as nat;
    let c = count as nat;
    assert forall|i: nat| i < c implies !#[trigger] qwen2_vl::arange_ends(t, c, i) by {
        lemma_position_before_end(total, count, i);
    }
    lemma_arange_end(t, c, 0);
    if qwen2_vl::arange_end(t, c, 0) <= c {
        lemma_arange_stops(t, c, 0);
    } else {
        assert(!qwen2_vl::arange_ends(t, c, c));
    }
}

/// Where the positions end early, the position there is past the source.
pub proof fn lemma_arange_stops(total: nat, count: nat, i: nat)
    requires
        i <= count,
        qwen2_vl::arange_end(total, count, i) <= count,
    ensures
        qwen2_vl::arange_ends(total, count, qwen2_vl::arange_end(total, count, i)),
    decreases count + 1 - i,
{
    if !qwen2_vl::arange_ends(total, count, i) {
        assert(qwen2_vl::arange_end(total, count, count + 1) == count + 1);
        lemma_arange_stops(total, count, i + 1);
    }
}

/// A planned position lies before the end of the source.
proof fn lemma_position_before_end(total: usize, count: usize, i: nat)
    requires
        total > 0,
        0 < count <= 0x80_0000,
        i < count,
    ensures
        !qwen2_vl::arange_ends(total as nat, count as nat, i),
{
    let f = float::binary32();
    let one = pow2(f.scale);
    let p = pow2(f.precision);
    let t = float_laws::nat_units(f, total as nat);
    let c = (count as nat) * one;
    let d = step_units(total as nat, count as nat);
    lemma2_to64();
    lemma_pow2_pos(f.scale);
    lemma_step(total, count);
    float_laws::lemma_usize_is_small(total);
    float_laws::law_integers_are_ordered(f, total as nat, total as nat);
    float_laws::law_integers_are_ordered(f, count as nat, count as nat);
    float_laws::law_integers_are_ordered(f, i, i);
    let x = i * one;
    if i == 0 {
        assert(0 * d == 0 && x == 0) by (nonlinear_arith)
            requires
                x == i * one,
                i == 0,
        ;
        float::lemma_zero_fraction(f, one);
        assert(float_laws::nat_units(f, i) == x);
        assert(qwen2_vl::arange_value(total as nat, count as nat, i) == float_laws::plain(0));
    } else {
        lemma_pow2_adds(46, 103);
        lemma_pow2_pos(103);
        lemma2_to64_rest();
        // The step exceeds `total / count` by at most one part in 2^24 ...
        assert(t * one >= c * pow2(23)) by (nonlinear_arith)
            requires
                t >= one,
                c == count * one,
                count <= 0x80_0000,
                one == 0x4000_0000_0000 * pow2(103),
                pow2(103) >= 1,
                pow2(23) == 0x80_0000,
        ;
        rounding::law_rounding_error_is_relative(t * one, c, f.precision);
        assert(d >= pow2(23)) by (nonlinear_arith)
            requires
                p * (t * one - d * c) <= t * one,
                p == 0x100_0000,
                t >= one,
                c == count * one,
                count <= 0x80_0000,
                one == 0x4000_0000_0000 * pow2(103),
                pow2(103) >= 1,
                pow2(23) == 0x80_0000,
        ;
        // ... and so does the position exceed its multiple of the step.
        let n = x * d;
        let r = rounding::round_to(n, one, f.precision);
        assert(n >= one * pow2(23)) by (nonlinear_arith)
            requires
                n == (i * one) * d,
                i >= 1,
                d >= pow2(23),
        ;
        rounding::law_rounding_error_is_relative(n, one, f.precision);
        assert(p * (r * one - n) <= n);
        assert(p * r <= (p + 1) * (i * d)) by (nonlinear_arith)
            requires
                p * (r * one - n) <= n,
                n == (i * one) * d,
                one > 0,
        ;
        assert(p * (d * count) <= (p + 1) * t) by (nonlinear_arith)
            requires
                p * (d * c - t * one) <= t * one,
                c == count * one,
                one > 0,
        ;
        assert((p * p) * (r * count) <= ((p + 1) * (p + 1)) * (i * t)) by (nonlinear_arith)
            requires
                p * r <= (p + 1) * (i * d),
                p * (d * count) <= (p + 1) * t,
                p > 0,
                i >= 1,
        ;
        assert(r < t) by (nonlinear_arith)
            requires
                (p * p) * (r * count) <= ((p + 1) * (p + 1)) * (i * t),
                p == 0x100_0000,
                1 <= i <= count - 1,
                count <= 0x80_0000,
                t > 0,
        ;
        lemma_pow2_strictly_increases(64 + f.scale, (f.precision + f.max_shift()) as nat);
        assert(float_laws::nat_units(f, i) == x);
        assert(qwen2_vl::arange_value(total as nat, count as nat, i) == float_laws::plain(r));
    }
}

/// Where the step is a number of at most twenty-four bits (`m / 2^s` frames), exactly the planned
/// positions lie before the end of the source.
pub proof fn law_qwen2_exact_step_takes_no_more(total: usize, count: usize, m: nat, s: nat)
    requires
        0 < total <= 0x100_0000,
        0 < count <= 0x80_0000,
        m <= 0x100_0000,
        s <= 149,
        m * count == total * pow2(s),
    ensures
        qwen2_vl::arange_indices(total as nat, count as nat).len() == count,
{
    let f = float::binary32();
    let one = pow2(f.scale);
    let g = pow2((149 - s) as nat);
    let t = (total as nat) * one;
    let c = (count as nat) * one;
    let d = m * g;
    lemma2_to64();
    lemma_pow2_pos(f.scale);
    lemma_pow2_adds(s, (149 - s) as nat);
    float_laws::law_integers_are_ordered(f, total as nat, total as nat);
    float_laws::law_integers_are_ordered(f, count as nat, count as nat);
    assert(c > 0 && t * one == d * c && c * d == t * one) by (nonlinear_arith)
        requires
            t == total * one,
            c == count * one,
            d == m * g,
            one == pow2(s) * g,
            m * count == total * pow2(s),
            count > 0,
            one > 0,
    ;
    rounding::law_rounding_keeps_representable(m, (149 - s) as nat, c, f.precision);
    assert(step_units(total as nat, count as nat) == d);
    lemma_step(total, count);
    rounding::law_rounding_keeps_representable(total as nat, f.scale, one, f.precision);
    lemma_pow2_strictly_increases(64 + f.scale, (f.precision + f.max_shift()) as nat);
    assert(qwen2_vl::arange_value(total as nat, count as nat, count as nat) == float_laws::plain(t));
    law_qwen2_positions_lie_in_source(total, count);
}

/// Rounding down to whole patches keeps the order and gives a multiple.
pub proof fn lemma_aligned_down(x: nat, y: nat, size: nat)
    requires
        size > 0,
        x <= y,
    ensures
        qwen2_vl::aligned_down(x, size) <= qwen2_vl::aligned_down(y, size) <= y,
        qwen2_vl::aligned_down(x, size) % size == 0,
{
    lemma_div_is_ordered(x as int, y as int, size as int);
    lemma_mod_multiples_basic((x / size) as int, size as int);
    let a = x / size;
    let b = y / size;
    lemma_fundamental_div_mod(y as int, size as int);
    assert(a * size <= b * size && b * size <= y) by (nonlinear_arith)
        requires
            a <= b,
            y == size * b + y % size,
            y % size >= 0,
    ;
}

/// A planned count is a number of the machine.
pub proof fn lemma_planned_count_fits(
    size: nat,
    source: VideoFrameMetadata,
    target: VideoFrameSamplingTarget,
)
    requires
        size > 0,
    ensures
        qwen2_vl::planned_count(size, source, target) <= usize::MAX,
        qwen2_vl::aligned_limit(size, source, target) > 0 ==> qwen2_vl::aligned_down(
            target.max_frames as nat,
            size,
        ) > 0,
{
    let x = qwen2_vl::wanted(size, source, target).truncated(float::binary64(), usize::MAX as nat);
    lemma_aligned_down(x, x, size);
    let most = if target.max_frames < source.total_frames {
        target.max_frames as nat
    } else {
        source.total_frames as nat
    };
    lemma_aligned_down(most, target.max_frames as nat, size);
}

/// Qwen2-VL plans a whole number of patches, whatever the request.
pub proof fn law_qwen2_plans_whole_patches(
    size: nat,
    source: VideoFrameMetadata,
    target: VideoFrameSamplingTarget,
)
    requires
        size > 0,
    ensures
        qwen2_vl::planned_count(size, source, target) % size == 0,
        qwen2_vl::aligned_limit(size, source, target) % size == 0,
        qwen2_vl::aligned_limit(size, source, target) <= target.max_frames,
        qwen2_vl::aligned_limit(size, source, target) <= source.total_frames,
{
    let most = if target.max_frames < source.total_frames {
        target.max_frames as nat
    } else {
        source.total_frames as nat
    };
    lemma_aligned_down(most, most, size);
    let x = qwen2_vl::wanted(size, source, target).truncated(float::binary64(), usize::MAX as nat);
    lemma_aligned_down(x, x, size);
}

/// Under a limit of at most `2^53` frames, Qwen2-VL plans no more frames than the limit allows and,
/// short of a patch, no fewer than the target and the limit ask for.
pub proof fn law_qwen2_plans_within_limits(
    size: nat,
    source: VideoFrameMetadata,
    target: VideoFrameSamplingTarget,
)
    requires
        size > 0,
        qwen2_vl::aligned_limit(size, source, target) <= 0x20_0000_0000_0000,
    ensures
        ({
            let limit = qwen2_vl::aligned_limit(size, source, target);
            let least = if target.min_frames < limit {
                target.min_frames as nat
            } else {
                limit
            };
            qwen2_vl::aligned_down(least, size) <= qwen2_vl::planned_count(size, source, target)
                <= limit
        }),
{
    let f = float::binary64();
    let one = pow2(f.scale);
    let limit = qwen2_vl::aligned_limit(size, source, target);
    let total = source.total_frames as nat;
    let least = if target.min_frames < limit {
        target.min_frames as nat
    } else {
        limit
    };
    law_qwen2_plans_whole_patches(size, source, target);
    lemma2_to64();
    lemma2_to64_rest();
    lemma_pow2_pos(f.scale);
    float_laws::lemma_usize_is_small(target.min_frames);
    float_laws::law_integers_are_ordered(f, least, target.min_frames as nat);
    float_laws::law_integers_are_ordered(f, least, least);
    float_laws::law_integers_are_ordered(f, limit, limit);
    float_laws::law_integers_are_ordered(f, limit, total);
    lemma_div_multiples_vanish(limit as int, one as int);
    lemma_div_multiples_vanish(least as int, one as int);
    assert(limit * one == one * limit && least * one == one * least) by (nonlinear_arith);
    assert(least * one <= limit * one) by (nonlinear_arith)
        requires
            least <= limit,
    ;
    let w = qwen2_vl::wanted(size, source, target);
    assert(w matches FloatValue::Finite { units, .. } && w.signed() >= least * one && w.signed()
        <= limit * one);
    let units = w->units;
    lemma_div_is_ordered((least * one) as int, w.signed(), one as int);
    lemma_div_is_ordered(w.signed(), (limit * one) as int, one as int);
    let x = w.truncated(f, usize::MAX as nat);
    assert(least <= x <= limit);
    lemma_aligned_down(least, x, size);
    lemma_aligned_down(x, limit, size);
}

/// A Qwen2-VL sample holds a whole number of temporal patches, at least one, and never more frames
/// than the target allows, whatever the request.
pub proof fn law_qwen2_sample_is_aligned(
    sampler: qwen2_vl::Qwen2VlFrameSampler,
    source: VideoFrameMetadata,
    target: VideoFrameSamplingTarget,
)
    ensures
        qwen2_vl::qwen2_sampling(sampler.temporal_patch_size as nat, source, target) matches Ok(
            indices,
        ) ==> {
            &&& indices.len() % (sampler.temporal_patch_size as nat) == 0
            &&& sampler.temporal_patch_size <= indices.len()
            &&& indices.len() <= target.max_frames
        },
{
    let size = sampler.temporal_patch_size as nat;
    let max_frames = target.max_frames as nat;
    if let Ok(indices) = qwen2_vl::qwen2_sampling(size, source, target) {
        let count = qwen2_vl::planned_count(size, source, target);
        law_qwen2_plans_whole_patches(size, source, target);
        lemma_aligned_down(max_frames, max_frames, size);
        lemma_planned_count_fits(size, source, target);
        law_qwen2_indices_are_usable(source.total_frames, count as usize, size, max_frames);
        if indices.len() < size {
            lemma_small_mod(indices.len(), size);
        }
    }
}

/// Under a limit of at most `2^53` frames, and up to `2^23` planned ones, Qwen2-VL takes the planned
/// number, and one more exactly where a patch is a single frame, the limit allows it, and rounding
/// leaves the position after the planned ones short of the end.
pub proof fn law_qwen2_takes_planned_frames(
    sampler: qwen2_vl::Qwen2VlFrameSampler,
    source: VideoFrameMetadata,
    target: VideoFrameSamplingTarget,
)
    requires
        qwen2_vl::planned_count(sampler.temporal_patch_size as nat, source, target) <= 0x80_0000,
        qwen2_vl::aligned_limit(sampler.temporal_patch_size as nat, source, target)
            <= 0x20_0000_0000_0000,
    ensures
        ({
            let size = sampler.temporal_patch_size as nat;
            let total = source.total_frames as nat;
            let count = qwen2_vl::planned_count(size, source, target);
            qwen2_vl::qwen2_sampling(size, source, target) matches Ok(indices) ==> indices.len()
                == (if size == 1 && count < target.max_frames && !qwen2_vl::arange_ends(
                total,
                count,
                count,
            ) {
                count + 1
            } else {
                count
            })
        }),
{
    let size = sampler.temporal_patch_size as nat;
    if qwen2_vl::qwen2_sampling(size, source, target) is Ok {
        let count = qwen2_vl::planned_count(size, source, target);
        law_qwen2_plans_whole_patches(size, source, target);
        law_qwen2_plans_within_limits(size, source, target);
        law_qwen2_positions_lie_in_source(source.total_frames, count as usize);
        if size > 1 {
            lemma_small_mod(1, size);
            lemma_mod_adds(count as int, 1, size as int);
        }
    }
}

/// Where every frame of the source is planned, the position after them is its end.
proof fn lemma_whole_source_ends(total: usize)
    requires
        total > 0,
    ensures
        qwen2_vl::arange_ends(total as nat, total as nat, total as nat),
{
    let f = float::binary32();
    let one = pow2(f.scale);
    let t = float_laws::nat_units(f, total as nat);
    lemma_pow2_pos(f.scale);
    lemma_step(total, total);
    float_laws::lemma_usize_is_small(total);
    float_laws::law_integers_are_ordered(f, total as nat, total as nat);
    assert(step_units(total as nat, total as nat) == one) by {
        lemma2_to64();
        rounding::law_rounding_keeps_representable(1, f.scale, t, f.precision);
        assert(1 * one == one && one * t == t * one) by (nonlinear_arith);
    }
    float_laws::law_rounding_is_idempotent((total as nat) * one, 1, one, f.precision);
    lemma_pow2_strictly_increases(64 + f.scale, (f.precision + f.max_shift()) as nat);
    assert(qwen2_vl::arange_value(total as nat, total as nat, total as nat) == float_laws::plain(t));
}

/// Under a limit of at most `2^53` frames, a Qwen2-VL sample is no longer than the source.
pub proof fn law_qwen2_sample_fits_source(
    sampler: qwen2_vl::Qwen2VlFrameSampler,
    source: VideoFrameMetadata,
    target: VideoFrameSamplingTarget,
)
    requires
        qwen2_vl::aligned_limit(sampler.temporal_patch_size as nat, source, target)
            <= 0x20_0000_0000_0000,
    ensures
        qwen2_vl::qwen2_sampling(sampler.temporal_patch_size as nat, source, target) matches Ok(
            indices,
        ) ==> indices.len() <= source.total_frames,
{
    let size = sampler.temporal_patch_size as nat;
    let total = source.total_frames as nat;
    if qwen2_vl::qwen2_sampling(size, source, target) is Ok {
        let count = qwen2_vl::planned_count(size, source, target);
        law_qwen2_plans_whole_patches(size, source, target);
        law_qwen2_plans_within_limits(size, source, target);
        lemma_arange_end(total, count, 0);
        if count == total {
            lemma_whole_source_ends(source.total_frames);
            assert(qwen2_vl::arange_end(total, count, 0) <= count);
        }
    }
}

/// Uniform sampling takes at least one frame, no more than the source has, and as many as the
/// limits say otherwise.
pub proof fn law_uniform_count_is_within_limits(
    source: VideoFrameMetadata,
    target: VideoFrameSamplingTarget,
)
    requires
        source.total_frames > 0,
        target.min_frames <= target.max_frames,
    ensures
        ({
            let count = video_sampling::uniform_count(source, target);
            &&& 1 <= count <= source.total_frames
            &&& target.max_frames > 0 ==> count <= target.max_frames
            &&& count >= target.min_frames || count == source.total_frames
        }),
{
}

/// What Qwen2-VL samples of a request that is not refused is always handed to the decoder.
pub proof fn law_qwen2_sampling_is_accepted(
    sampler: qwen2_vl::Qwen2VlFrameSampler,
    source: VideoFrameMetadata,
    target: VideoFrameSamplingTarget,
)
    requires
        video_sampling::request_refusal(source, target) is None,
    ensures
        qwen2_vl::qwen2_sampling(sampler.temporal_patch_size as nat, source, target) matches Ok(
            indices,
        ) ==> video_sampling::checked(indices, source.total_frames as nat) == Sampling::Ok(
            indices,
        ),
{
    let size = sampler.temporal_patch_size as nat;
    if let Ok(indices) = qwen2_vl::qwen2_sampling(size, source, target) {
        let count = qwen2_vl::planned_count(size, source, target);
        lemma_planned_count_fits(size, source, target);
        law_qwen2_indices_are_usable(
            source.total_frames,
            count as usize,
            size,
            target.max_frames as nat,
        );
    }
}

/// What uniform sampling takes of a request that is not refused is handed to the decoder exactly
/// where its last index names a frame of the source, and so for every source of at most `2^51`
/// frames.
pub proof fn law_uniform_sampling_is_accepted(
    source: VideoFrameMetadata,
    target: VideoFrameSamplingTarget,
)
    requires
        video_sampling::request_refusal(source, target) is None,
    ensures
        ({
            let count = video_sampling::uniform_count(source, target);
            let indices = video_sampling::uniform_indices(source.total_frames as nat, count);
            let accepted = video_sampling::checked(indices, source.total_frames as nat)
                == Sampling::Ok(indices);
            &&& accepted <==> indices[count - 1] < source.total_frames
            &&& source.total_frames <= 0x8_0000_0000_0000 ==> accepted
        }),
{
    let count = video_sampling::uniform_count(source, target) as usize;
    law_uniform_is_non_decreasing(source.total_frames, count);
    law_uniform_range_is_decided_by_last(source.total_frames, count);
    if source.total_frames <= 0x8_0000_0000_0000 {
        law_uniform_covers_source(source.total_frames, count);
    }
}

/// A higher target rate never asks for fewer frames.
proof fn lemma_estimate_grows(
    source: VideoFrameMetadata,
    slow: VideoFrameSamplingTarget,
    fast: VideoFrameSamplingTarget,
)
    requires
        source.original_fps@.is_positive_finite(),
        slow.fps@.is_positive_finite(),
        fast.fps@.is_positive_finite(),
        fast.fps@.at_least(slow.fps@),
    ensures
        float_laws::ordered(
            video_sampling::frame_estimate(source, slow),
            video_sampling::frame_estimate(source, fast),
        ),
{
    let f = float::binary64();
    float_laws::lemma_usize_is_small(source.total_frames);
    float_laws::law_integers_are_ordered(
        f,
        source.total_frames as nat,
        source.total_frames as nat,
    );
    let seconds = FloatValue::of_nat(f, source.total_frames as nat).over(f, source.original_fps@);
    if let FloatValue::Finite { units, .. } = seconds {
        float_laws::law_products_are_ordered(f, slow.fps@->units, fast.fps@->units, units);
    }
}

/// With the limits unchanged, a higher target rate never takes fewer frames in uniform sampling,
/// and never plans fewer in Qwen2-VL sampling.
pub proof fn law_higher_rate_takes_no_fewer(
    source: VideoFrameMetadata,
    slow: VideoFrameSamplingTarget,
    fast: VideoFrameSamplingTarget,
    size: nat,
)
    requires
        video_sampling::request_refusal(source, slow) is None,
        video_sampling::request_refusal(source, fast) is None,
        fast.fps@.at_least(slow.fps@),
        slow.min_frames == fast.min_frames,
        slow.max_frames == fast.max_frames,
        size > 0,
    ensures
        video_sampling::uniform_count(source, slow) <= video_sampling::uniform_count(source, fast),
        qwen2_vl::planned_count(size, source, slow) <= qwen2_vl::planned_count(size, source, fast),
{
    let f = float::binary64();
    let limit = usize::MAX as nat;
    lemma_estimate_grows(source, slow, fast);
    float_laws::law_conversions_are_ordered(
        f,
        video_sampling::frame_estimate(source, slow),
        video_sampling::frame_estimate(source, fast),
        limit,
    );
    float_laws::lemma_usize_is_small(slow.min_frames);
    float_laws::lemma_usize_is_small(source.total_frames);
    let most = qwen2_vl::aligned_limit(size, source, slow);
    law_qwen2_plans_whole_patches(size, source, slow);
    float_laws::law_integers_are_ordered(f, slow.min_frames as nat, slow.min_frames as nat);
    float_laws::law_integers_are_ordered(f, most, source.total_frames as nat);
    let x = qwen2_vl::wanted(size, source, slow);
    let y = qwen2_vl::wanted(size, source, fast);
    assert(float_laws::ordered(x, y));
    float_laws::law_conversions_are_ordered(f, x, y, limit);
    lemma_aligned_down(x.truncated(f, limit), y.truncated(f, limit), size);
}

} // verus!
