//! How far sampled positions can lie from the exact ones.
use crate::error::MediaConnectorErrorView;
use crate::float;
use crate::float::{FloatValue, Format};
use crate::float_laws;
use crate::rounding;
use crate::sampling_laws;
use crate::video_sampling;
use crate::video_sampling::{Sampling, VideoFrameMetadata, VideoFrameSamplingTarget};
use crate::vision::video_sampling::qwen2_vl;
use vstd::arithmetic::div_mod::*;
use vstd::arithmetic::power2::*;
use vstd::prelude::*;
use vstd::string::*;

verus! {

/// An integer is rounded by at most one part in `2^precision`.
proof fn lemma_integer_is_close(f: Format, n: nat)
    requires
        f.is_supported(),
        n > 0,
    ensures
        pow2(f.precision) * float_laws::nat_units(f, n) <= (pow2(f.precision) + 1) * (n * pow2(
            f.scale,
        )),
        pow2(f.precision) * float_laws::nat_units(f, n) >= (pow2(f.precision) - 1) * (n * pow2(
            f.scale,
        )),
{
    let one = pow2(f.scale);
    let p = pow2(f.precision);
    let h = pow2((f.precision - 1) as nat);
    let x = n * one;
    lemma_pow2_pos(f.scale);
    lemma_pow2_strictly_increases((f.precision - 1) as nat, f.scale);
    assert(x >= 1 * h) by (nonlinear_arith)
        requires
            x == n * one,
            n >= 1,
            one >= h,
    ;
    rounding::law_rounding_error_is_relative(x, 1, f.precision);
    let t = float_laws::nat_units(f, n);
    assert(t * 1 == t);
    assert(p * (t - x) == p * t - p * x && (p + 1) * x == p * x + x && (p - 1) * x == p * x - x
        && p * (x - t) == p * x - p * t) by (nonlinear_arith);
}

/// A quotient that is rounded, times a factor, rounded again.
pub open spec fn quotient_times(f: Format, t: nat, c: nat, x: nat) -> nat {
    rounding::round_to(
        x * rounding::round_to(t * pow2(f.scale), c, f.precision),
        pow2(f.scale),
        f.precision,
    )
}

/// A quotient times a factor is rounded by at most two parts in `2^precision`, or so.
proof fn lemma_quotient_times_is_close(f: Format, t: nat, c: nat, x: nat)
    requires
        f.is_supported(),
        c > 0,
        t * pow2(f.scale) >= c * pow2((f.precision - 1) as nat),
        x * rounding::round_to(t * pow2(f.scale), c, f.precision) >= pow2(f.scale) * pow2(
            (f.precision - 1) as nat,
        ),
    ensures
        ({
            let p = pow2(f.precision);
            let r = quotient_times(f, t, c, x);
            &&& (p * p) * (r * c) <= ((p + 1) * (p + 1)) * (x * t)
            &&& (p * p) * (r * c) >= ((p - 1) * (p - 1)) * (x * t)
        }),
{
    let one = pow2(f.scale);
    let p = pow2(f.precision);
    let d = rounding::round_to(t * one, c, f.precision);
    let r = quotient_times(f, t, c, x);
    lemma_pow2_pos(f.scale);
    lemma_pow2_pos(f.precision);
    rounding::law_rounding_error_is_relative(t * one, c, f.precision);
    rounding::law_rounding_error_is_relative(x * d, one, f.precision);
    let dc = d * c;
    let to = t * one;
    assert(p * dc <= (p + 1) * to && p * dc >= (p - 1) * to) by (nonlinear_arith)
        requires
            p * (dc - to) <= to,
            p * (to - dc) <= to,
    ;
    let ro = r * one;
    let xd = x * d;
    assert(p * ro <= (p + 1) * xd && p * ro >= (p - 1) * xd) by (nonlinear_arith)
        requires
            p * (ro - xd) <= xd,
            p * (xd - ro) <= xd,
    ;
    let u = p + 1;
    let l = p - 1;
    assert(l >= 0);
    // p p (r one) c <= p (p + 1) x (d c) <= (p + 1) (p + 1) x t one
    assert((p * p) * (ro * c) <= (u * u) * (x * to)) by {
        assert((p * ro) * (p * c) <= (u * xd) * (p * c)) by (nonlinear_arith)
            requires
                p * ro <= u * xd,
                p * c >= 0,
        ;
        assert((p * ro) * (p * c) == (p * p) * (ro * c)) by (nonlinear_arith);
        assert((u * xd) * (p * c) == (u * x) * (p * dc)) by (nonlinear_arith)
            requires
                xd == x * d,
                dc == d * c,
        ;
        assert((u * x) * (p * dc) <= (u * x) * (u * to)) by (nonlinear_arith)
            requires
                p * dc <= u * to,
                u * x >= 0,
        ;
        assert((u * x) * (u * to) == (u * u) * (x * to)) by (nonlinear_arith);
    }
    assert((p * p) * (ro * c) >= (l * l) * (x * to)) by {
        assert((p * ro) * (p * c) >= (l * xd) * (p * c)) by (nonlinear_arith)
            requires
                p * ro >= l * xd,
                p * c >= 0,
        ;
        assert((p * ro) * (p * c) == (p * p) * (ro * c)) by (nonlinear_arith);
        assert((l * xd) * (p * c) == (l * x) * (p * dc)) by (nonlinear_arith)
            requires
                xd == x * d,
                dc == d * c,
        ;
        assert((l * x) * (p * dc) >= (l * x) * (l * to)) by (nonlinear_arith)
            requires
                p * dc >= l * to,
                l * x >= 0,
        ;
        assert((l * x) * (l * to) == (l * l) * (x * to)) by (nonlinear_arith);
    }
    let pp = p * p;
    let uu = u * u;
    let ll = l * l;
    assert(pp * (ro * c) == (pp * (r * c)) * one) by (nonlinear_arith)
        requires
            ro == r * one,
    ;
    assert(uu * (x * to) == (uu * (x * t)) * one && ll * (x * to) == (ll * (x * t)) * one)
        by (nonlinear_arith)
        requires
            to == t * one,
    ;
    assert(pp * (r * c) <= uu * (x * t)) by (nonlinear_arith)
        requires
            (pp * (r * c)) * one <= (uu * (x * t)) * one,
            one > 0,
    ;
    assert(pp * (r * c) >= ll * (x * t)) by (nonlinear_arith)
        requires
            (pp * (r * c)) * one >= (ll * (x * t)) * one,
            one > 0,
    ;
}

/// The position of a frame past the first is the rounded step, times its number, rounded again.
proof fn lemma_position(total: usize, count: usize, i: nat)
    requires
        total > 0,
        count > 0,
        1 <= i <= count,
    ensures
        ({
            let f = float::binary32();
            let t = float_laws::nat_units(f, total as nat);
            let c = float_laws::nat_units(f, count as nat);
            let x = float_laws::nat_units(f, i);
            let r = quotient_times(f, t, c, x);
            let p = pow2(f.precision);
            &&& qwen2_vl::arange_value(total as nat, count as nat, i) == float_laws::plain(r)
            &&& (p * p) * (r * c) <= ((p + 1) * (p + 1)) * (x * t)
            &&& (p * p) * (r * c) >= ((p - 1) * (p - 1)) * (x * t)
        }),
{
    let f = float::binary32();
    let one = pow2(f.scale);
    let p = pow2(f.precision);
    let t = float_laws::nat_units(f, total as nat);
    let c = float_laws::nat_units(f, count as nat);
    let x = float_laws::nat_units(f, i);
    let d = rounding::round_to(t * one, c, f.precision);
    let r = quotient_times(f, t, c, x);
    lemma2_to64();
    lemma2_to64_rest();
    lemma_pow2_pos(f.scale);
    float_laws::lemma_usize_is_small(total);
    float_laws::lemma_usize_is_small(count);
    float_laws::law_integers_are_ordered(f, total as nat, total as nat);
    float_laws::law_integers_are_ordered(f, i, i);
    float_laws::law_integers_are_ordered(f, i, count as nat);
    sampling_laws::lemma_step(total, count);
    lemma_pow2_adds(64, f.scale);
    lemma_pow2_adds(23, 23);
    lemma_pow2_adds(46, 64);
    lemma_pow2_adds(110, 39);
    lemma_pow2_pos(39);
    let w = pow2(64);
    let h = pow2(23);
    assert(one >= (h * h) * w) by (nonlinear_arith)
        requires
            one == (h * h) * w * pow2(39),
            pow2(39) >= 1,
            (h * h) * w >= 0,
    ;
    assert(t * one >= c * h) by (nonlinear_arith)
        requires
            t >= one,
            c <= w * one,
            one >= (h * h) * w,
            h >= 1,
            w >= 1,
    ;
    rounding::law_rounding_error_is_relative(t * one, c, f.precision);
    assert(d >= h) by (nonlinear_arith)
        requires
            p * (t * one - d * c) <= t * one,
            p == 0x100_0000,
            t >= one,
            c <= w * one,
            one >= (h * h) * w,
            h == 0x80_0000,
            w >= 1,
            c > 0,
    ;
    assert(x * d >= one * h) by (nonlinear_arith)
        requires
            x >= one,
            d >= h,
            one >= 0,
            h >= 0,
    ;
    lemma_quotient_times_is_close(f, t, c, x);
    assert(r <= 4 * t) by (nonlinear_arith)
        requires
            (p * p) * (r * c) <= ((p + 1) * (p + 1)) * (x * t),
            x <= c,
            p == 0x100_0000,
            c > 0,
    ;
    lemma_pow2_adds(2, 64 + f.scale);
    lemma_pow2_strictly_increases(2 + (64 + f.scale), (f.precision + f.max_shift()) as nat);
    assert(r < f.overflow());
}

/// The index for a frame of a Qwen2-VL sample is the one before its exact position
/// `i * total / count`, to within what five roundings to twenty-four bits can move it, whatever the
/// source and the count.
pub proof fn law_qwen2_index_is_close(total: usize, count: usize, i: nat)
    requires
        total > 0,
        count > 0,
        i <= count,
    ensures
        ({
            let p: int = 0x100_0000;
            let k = qwen2_vl::arange_index(total as nat, count as nat, i);
            &&& (p * p * p * (p - 1)) * (k * count) <= ((p + 1) * (p + 1) * (p + 1) * (p + 1)) * (i
                * total)
            &&& k == total - 1 || (p * p * p * (p + 1)) * ((k + 1) * count) > ((p - 1) * (p - 1) * (
            p - 1) * (p - 1)) * (i * total)
        }),
{
    let f = float::binary32();
    let one = pow2(f.scale);
    lemma2_to64();
    lemma_pow2_pos(f.scale);
    let p: int = 0x100_0000;
    assert(pow2(f.precision) == p);
    let k = qwen2_vl::arange_index(total as nat, count as nat, i);
    let u = p + 1;
    let l = p - 1;
    if i == 0 {
        sampling_laws::lemma_arange_starts(total, count);
        assert(i * total == 0 && k * count == 0 && (k + 1) * count == count) by (nonlinear_arith)
            requires
                i == 0,
                k == 0,
        ;
        assert((p * p * p * u) * ((k + 1) * count) > 0) by (nonlinear_arith)
            requires
                (k + 1) * count == count,
                count > 0,
                p > 0,
                u > 0,
        ;
        assert((p * p * p * l) * (k * count) == 0 && (l * l * l * l) * (i * total) == 0 && (u * u * u
            * u) * (i * total) == 0) by (nonlinear_arith)
            requires
                i * total == 0,
                k * count == 0,
        ;
    } else {
        let t = float_laws::nat_units(f, total as nat);
        let c = float_laws::nat_units(f, count as nat);
        let x = float_laws::nat_units(f, i);
        let r = quotient_times(f, t, c, x);
        lemma_position(total, count, i);
        lemma_integer_is_close(f, total as nat);
        lemma_integer_is_close(f, count as nat);
        lemma_integer_is_close(f, i);
        let tt = (total as nat) * one;
        let cc = (count as nat) * one;
        let xx = i * one;
        lemma_three_integers(p, r, x, t, c, xx, tt, cc);
        // One factor of the units cancels.
        let big = p * p * p * l;
        let small = p * p * p * u;
        let up = u * u * u * u;
        let down = l * l * l * l;
        assert(big * (r * cc) == (big * (r * count)) * one && up * (xx * tt) == (up * (i * total
            * one)) * one && small * (r * cc) == (small * (r * count)) * one && down * (xx * tt) == (
        down * (i * total * one)) * one) by (nonlinear_arith)
            requires
                cc == count * one,
                xx == i * one,
                tt == total * one,
        ;
        assert(big * (r * count) <= up * (i * total * one)) by (nonlinear_arith)
            requires
                (big * (r * count)) * one <= (up * (i * total * one)) * one,
                one > 0,
        ;
        assert(small * (r * count) >= down * (i * total * one)) by (nonlinear_arith)
            requires
                (small * (r * count)) * one >= (down * (i * total * one)) * one,
                one > 0,
        ;
        let q = r / one;
        lemma_fundamental_div_mod(r as int, one as int);
        lemma_mod_bound(r as int, one as int);
        assert(q * one <= r < (q + 1) * one) by (nonlinear_arith)
            requires
                r == one * q + r % one,
                0 <= r % one < one,
        ;
        assert(k <= q);
        assert(big >= 0 && small > 0) by (nonlinear_arith)
            requires
                big == p * p * p * l,
                small == p * p * p * u,
                p == 0x100_0000,
                l == p - 1,
                u == p + 1,
        ;
        assert(big * (k * count) <= up * (i * total)) by (nonlinear_arith)
            requires
                big * (r * count) <= up * (i * total * one),
                q * one <= r,
                k <= q,
                k >= 0,
                big >= 0,
                count >= 0,
                one > 0,
        ;
        if k != total - 1 {
            assert(k == q);
            assert(small * ((k + 1) * count) > down * (i * total)) by (nonlinear_arith)
                requires
                    small * (r * count) >= down * (i * total * one),
                    r < (k + 1) * one,
                    small > 0,
                    count > 0,
                    one > 0,
            ;
        }
    }
}

/// Three integers that are rounded add three roundings.
proof fn lemma_three_integers(p: int, r: nat, x: nat, t: nat, c: nat, xx: nat, tt: nat, cc: nat)
    requires
        p > 1,
        (p * p) * (r * c) <= ((p + 1) * (p + 1)) * (x * t),
        (p * p) * (r * c) >= ((p - 1) * (p - 1)) * (x * t),
        p * x <= (p + 1) * xx,
        p * x >= (p - 1) * xx,
        p * t <= (p + 1) * tt,
        p * t >= (p - 1) * tt,
        p * c <= (p + 1) * cc,
        p * c >= (p - 1) * cc,
    ensures
        (p * p * p * (p - 1)) * (r * cc) <= ((p + 1) * (p + 1) * (p + 1) * (p + 1)) * (xx * tt),
        (p * p * p * (p + 1)) * (r * cc) >= ((p - 1) * (p - 1) * (p - 1) * (p - 1)) * (xx * tt),
{
    let u = p + 1;
    let l = p - 1;
    let pp = p * p;
    assert((p * x) * (p * t) <= (u * xx) * (u * tt)) by (nonlinear_arith)
        requires
            0 <= p * x <= u * xx,
            0 <= p * t <= u * tt,
    ;
    assert(0 <= l * xx && 0 <= l * tt) by (nonlinear_arith)
        requires
            l >= 0,
            xx >= 0,
            tt >= 0,
    ;
    assert((p * x) * (p * t) >= (l * xx) * (l * tt)) by (nonlinear_arith)
        requires
            0 <= l * xx <= p * x,
            0 <= l * tt <= p * t,
    ;
    assert((p * x) * (p * t) == pp * (x * t)) by (nonlinear_arith)
        requires
            pp == p * p,
    ;
    assert((u * xx) * (u * tt) == (u * u) * (xx * tt) && (l * xx) * (l * tt) == (l * l) * (xx * tt))
        by (nonlinear_arith);
    let uu = u * u;
    let ll = l * l;
    assert(uu >= 0 && ll >= 0 && pp >= 0) by (nonlinear_arith)
        requires
            uu == u * u,
            ll == l * l,
            pp == p * p,
    ;
    // pp pp (r c) <= uu pp (x t) <= uu uu (xx tt)
    assert(pp * (pp * (r * c)) <= uu * (uu * (xx * tt))) by {
        assert(pp * (pp * (r * c)) <= pp * (uu * (x * t))) by (nonlinear_arith)
            requires
                pp * (r * c) <= uu * (x * t),
                pp >= 0,
        ;
        assert(pp * (uu * (x * t)) == uu * (pp * (x * t))) by (nonlinear_arith);
        assert(uu * (pp * (x * t)) <= uu * (uu * (xx * tt))) by (nonlinear_arith)
            requires
                pp * (x * t) <= uu * (xx * tt),
                uu >= 0,
        ;
    }
    assert(pp * (pp * (r * c)) >= ll * (ll * (xx * tt))) by {
        assert(pp * (pp * (r * c)) >= pp * (ll * (x * t))) by (nonlinear_arith)
            requires
                pp * (r * c) >= ll * (x * t),
                pp >= 0,
        ;
        assert(pp * (ll * (x * t)) == ll * (pp * (x * t))) by (nonlinear_arith);
        assert(ll * (pp * (x * t)) >= ll * (ll * (xx * tt))) by (nonlinear_arith)
            requires
                pp * (x * t) >= ll * (xx * tt),
                ll >= 0,
        ;
    }
    let ppp = p * p * p;
    assert(ppp >= 0) by (nonlinear_arith)
        requires
            ppp == p * p * p,
            p > 0,
    ;
    let rp = r * ppp;
    assert(rp >= 0) by (nonlinear_arith)
        requires
            rp == r * ppp,
            ppp >= 0,
            r >= 0,
    ;
    assert(pp * (pp * (r * c)) == rp * (p * c)) by (nonlinear_arith)
        requires
            rp == r * ppp,
            ppp == p * p * p,
            pp == p * p,
    ;
    assert(rp * (p * c) >= rp * (l * cc) && rp * (p * c) <= rp * (u * cc)) by (nonlinear_arith)
        requires
            p * c >= l * cc,
            p * c <= u * cc,
            rp >= 0,
    ;
    assert(rp * (l * cc) == (ppp * l) * (r * cc) && rp * (u * cc) == (ppp * u) * (r * cc))
        by (nonlinear_arith)
        requires
            rp == r * ppp,
    ;
    assert(uu * (uu * (xx * tt)) == (u * u * u * u) * (xx * tt) && ll * (ll * (xx * tt)) == (l * l
        * l * l) * (xx * tt)) by (nonlinear_arith)
        requires
            uu == u * u,
            ll == l * l,
    ;
}

/// Of up to `2^24` frames, an index is off by what two roundings can move it.
proof fn lemma_small_index_is_close(total: usize, count: usize, i: nat)
    requires
        0 < total <= 0x100_0000,
        0 < count <= 0x100_0000,
        i <= count,
    ensures
        ({
            let p: int = 0x100_0000;
            let k = qwen2_vl::arange_index(total as nat, count as nat, i);
            &&& (p * p) * (k * count) <= ((p + 1) * (p + 1)) * (i * total)
            &&& k == total - 1 || (p * p) * ((k + 1) * count) > ((p - 1) * (p - 1)) * (i * total)
        }),
{
    let f = float::binary32();
    let one = pow2(f.scale);
    lemma2_to64();
    lemma_pow2_pos(f.scale);
    let p: int = 0x100_0000;
    assert(pow2(f.precision) == p);
    let k = qwen2_vl::arange_index(total as nat, count as nat, i);
    if i == 0 {
        sampling_laws::lemma_arange_starts(total, count);
        assert(i * total == 0 && k * count == 0 && (k + 1) * count == count) by (nonlinear_arith)
            requires
                i == 0,
                k == 0,
        ;
    } else {
        let c = (count as nat) * one;
        let r = quotient_times(f, (total as nat) * one, c, i * one);
        lemma_position(total, count, i);
        float_laws::lemma_usize_is_small(total);
        float_laws::lemma_usize_is_small(count);
        float_laws::law_integers_are_ordered(f, total as nat, total as nat);
        float_laws::law_integers_are_ordered(f, count as nat, count as nat);
        float_laws::law_integers_are_ordered(f, i, i);
        let pp = p * p;
        let uu = (p + 1) * (p + 1);
        let ll = (p - 1) * (p - 1);
        let xt = (i * one) * (total * one);
        assert(pp * (r * c) == (pp * (r * count)) * one && uu * xt == (uu * (i * total * one)) * one
            && ll * xt == (ll * (i * total * one)) * one) by (nonlinear_arith)
            requires
                c == count * one,
                xt == (i * one) * (total * one),
        ;
        assert(pp * (r * count) <= uu * (i * total * one)) by (nonlinear_arith)
            requires
                (pp * (r * count)) * one <= (uu * (i * total * one)) * one,
                one > 0,
        ;
        assert(pp * (r * count) >= ll * (i * total * one)) by (nonlinear_arith)
            requires
                (pp * (r * count)) * one >= (ll * (i * total * one)) * one,
                one > 0,
        ;
        let q = r / one;
        lemma_fundamental_div_mod(r as int, one as int);
        lemma_mod_bound(r as int, one as int);
        assert(q * one <= r < (q + 1) * one) by (nonlinear_arith)
            requires
                r == one * q + r % one,
                0 <= r % one < one,
        ;
        assert(k <= q);
        assert(pp * (k * count) <= uu * (i * total)) by (nonlinear_arith)
            requires
                pp * (r * count) <= uu * (i * total * one),
                q * one <= r,
                k <= q,
                k >= 0,
                pp >= 0,
                count >= 0,
                one > 0,
        ;
        if k != total - 1 {
            assert(k == q);
            assert(pp * ((k + 1) * count) > ll * (i * total)) by (nonlinear_arith)
                requires
                    pp * (r * count) >= ll * (i * total * one),
                    r < (k + 1) * one,
                    pp > 0,
                    count > 0,
                    one > 0,
            ;
        }
    }
}

/// The frames of a Qwen2-VL sample are spread evenly over the whole source: the index at position
/// `i` is that of the frame at `i * total / count`. Where frames times count stay below `2^22`, it
/// is exactly the frame there, or the one before where that frame starts just there; up to `2^23`
/// frames it is at most one frame off; and beyond, it is off by what the roundings can move it.
pub proof fn law_qwen2_frames_are_spread_evenly(
    size: nat,
    total: usize,
    count: usize,
    max_frames: nat,
    i: int,
)
    requires
        size > 0,
        total > 0,
        0 < count <= max_frames,
        0 <= i < qwen2_vl::taken_indices(size, total as nat, count as nat, max_frames).len(),
    ensures
        ({
            let p: int = 0x100_0000;
            let k = qwen2_vl::taken_indices(size, total as nat, count as nat, max_frames)[i];
            &&& total * count <= 0x40_0000 ==> k * count <= i * total <= (k + 1) * count
            &&& total <= 0x80_0000 && count <= 0x80_0000 ==> (k - 1) * count <= i * total < (k + 2)
                * count
            &&& (p * p * p * (p - 1)) * (k * count) <= ((p + 1) * (p + 1) * (p + 1) * (p + 1)) * (i
                * total)
            &&& k == total - 1 || (p * p * p * (p + 1)) * ((k + 1) * count) > ((p - 1) * (p - 1) * (
            p - 1) * (p - 1)) * (i * total)
        }),
{
    let n = i as nat;
    let k = qwen2_vl::arange_index(total as nat, count as nat, n);
    sampling_laws::lemma_arange_end(total as nat, count as nat, 0);
    assert(qwen2_vl::taken_indices(size, total as nat, count as nat, max_frames)[i] == k);
    assert(n <= count);
    law_qwen2_index_is_close(total, count, n);
    let it = n * total;
    let kc = k * count;
    let kc1 = (k + 1) * count;
    let ct = count * total;
    assert(it <= ct && kc1 == kc + count) by (nonlinear_arith)
        requires
            n <= count,
            it == n * total,
            ct == count * total,
            kc == k * count,
            kc1 == (k + 1) * count,
    ;
    assert(k == total - 1 ==> kc1 == ct) by (nonlinear_arith)
        requires
            kc1 == (k + 1) * count,
            ct == count * total,
    ;
    assert((k - 1) * count == kc - count && (k + 2) * count == kc1 + count) by (nonlinear_arith)
        requires
            kc == k * count,
            kc1 == (k + 1) * count,
    ;
    assert(total * count == ct) by (nonlinear_arith)
        requires
            ct == count * total,
    ;
    assert(total <= 0x80_0000 ==> ct <= 0x80_0000 * count) by (nonlinear_arith)
        requires
            ct == count * total,
    ;
    assert(total <= ct && count <= ct) by (nonlinear_arith)
        requires
            ct == count * total,
            count >= 1,
            total >= 1,
    ;
    if total <= 0x80_0000 && count <= 0x80_0000 || ct <= 0x40_0000 {
        lemma_small_index_is_close(total, count, n);
        assert(0x100_0000int * 0x100_0000int == 0x1_0000_0000_0000int);
        assert(0x100_0001int * 0x100_0001int == 0x1_0000_0200_0001int);
        assert(0xff_ffffint * 0xff_ffffint == 0xffff_fe00_0001int);
    }
}

/// A fraction is rounded alike in its lowest terms.
proof fn lemma_rounds_alike(a: nat, b: nat, g: nat, precision: nat)
    requires
        b > 0,
        g > 0,
        precision > 0,
    ensures
        rounding::round_to(a * g, b * g, precision) == rounding::round_to(a, b, precision),
{
    assert((a * g) * b == a * (b * g) && b * g > 0) by (nonlinear_arith)
        requires
            b > 0,
            g > 0,
    ;
    rounding::law_rounding_is_monotone(a * g, b * g, a, b, precision);
    rounding::law_rounding_is_monotone(a, b, a * g, b * g, precision);
}

/// Up to `2^24` frames, a position is the number of the frame times the step, each rounded once to
/// twenty-four bits: the index is the whole part of it, held to the last frame, and the source
/// ends where it is reached.
pub proof fn law_qwen2_positions_are_rounded_multiples(total: usize, count: usize, i: nat)
    requires
        0 < total <= 0x100_0000,
        0 < count <= 0x100_0000,
        i <= count,
    ensures
        ({
            let one = pow2(149);
            let step = rounding::round_to((total as nat) * one, count as nat, 24);
            let position = rounding::round_to(i * step, 1, 24);
            &&& qwen2_vl::arange_index(total as nat, count as nat, i) == float_laws::least(
                position / one,
                (total - 1) as nat,
            )
            &&& qwen2_vl::arange_ends(total as nat, count as nat, i) <==> position >= total * one
        }),
{
    let f = float::binary32();
    let one = pow2(149);
    lemma2_to64();
    lemma_pow2_pos(149);
    let t = (total as nat) * one;
    let c = (count as nat) * one;
    let x = i * one;
    let step = rounding::round_to(t, count as nat, 24);
    let position = rounding::round_to(i * step, 1, 24);
    float_laws::lemma_usize_is_small(total);
    float_laws::lemma_usize_is_small(count);
    float_laws::law_integers_are_ordered(f, total as nat, total as nat);
    float_laws::law_integers_are_ordered(f, count as nat, count as nat);
    float_laws::law_integers_are_ordered(f, i, i);
    if i == 0 {
        sampling_laws::lemma_arange_starts(total, count);
        assert(0 * step == 0 && 0 * pow2(0) * 1 == 0 && 0 * pow2(0) == 0) by (nonlinear_arith);
        rounding::law_rounding_keeps_representable(0, 0, 1, 24);
        assert(position == 0);
        lemma_basic_div(0, one as int);
        assert(total * one > 0) by (nonlinear_arith)
            requires
                total > 0,
                one > 0,
        ;
    } else {
        lemma_position(total, count, i);
        lemma_rounds_alike(t, count as nat, one, 24);
        assert(rounding::round_to(t * one, c, 24) == step);
        lemma_rounds_alike(i * step, 1, one, 24);
        assert((i * step) * one == x * step && 1 * one == one) by (nonlinear_arith)
            requires
                x == i * one,
        ;
        assert(quotient_times(f, t, c, x) == position);
        assert(qwen2_vl::arange_value(total as nat, count as nat, i) == float_laws::plain(position));
    }
}

/// Where the step from one frame to the next is a number `m / 2^s` of at most twenty-four bits, and
/// so is the position, the index at position `i` of a Qwen2-VL sample is exactly the frame at
/// `i * total / count`.
pub proof fn law_qwen2_exact_positions(
    size: nat,
    total: usize,
    count: usize,
    max_frames: nat,
    i: int,
    m: nat,
    s: nat,
)
    requires
        size > 0,
        0 < total <= 0x100_0000,
        0 < count <= 0x100_0000,
        count <= max_frames,
        0 <= i < count,
        i < qwen2_vl::taken_indices(size, total as nat, count as nat, max_frames).len(),
        m * count == total * pow2(s),
        s <= 149,
        m <= 0x100_0000,
        i * m <= 0x100_0000,
    ensures
        ({
            let k = qwen2_vl::taken_indices(size, total as nat, count as nat, max_frames)[i];
            k * count <= i * total < (k + 1) * count
        }),
{
    let n = i as nat;
    let one = pow2(149);
    let g = pow2((149 - s) as nat);
    let h = pow2(s);
    lemma2_to64();
    lemma_pow2_pos(s);
    lemma_pow2_pos((149 - s) as nat);
    lemma_pow2_adds(s, (149 - s) as nat);
    let step = rounding::round_to((total as nat) * one, count as nat, 24);
    let position = rounding::round_to(n * step, 1, 24);
    assert(total * one == m * g * count) by (nonlinear_arith)
        requires
            one == h * g,
            m * count == total * h,
    ;
    rounding::law_rounding_keeps_representable(m, (149 - s) as nat, count as nat, 24);
    assert(step == m * g);
    assert(n * step == (n * m) * g * 1) by (nonlinear_arith)
        requires
            step == m * g,
    ;
    rounding::law_rounding_keeps_representable(n * m, (149 - s) as nat, 1, 24);
    assert(position == (n * m) * g);
    law_qwen2_positions_are_rounded_multiples(total, count, n);
    let k = position / one;
    assert(k == (n * m) / h) by {
        lemma_div_denominator(position as int, g as int, h as int);
        assert(g * h == one) by (nonlinear_arith)
            requires
                one == h * g,
        ;
        lemma_div_multiples_vanish((n * m) as int, g as int);
        assert((n * m) * g == g * (n * m)) by (nonlinear_arith);
    }
    lemma_fundamental_div_mod((n * m) as int, h as int);
    lemma_mod_bound((n * m) as int, h as int);
    assert(k * h <= n * m < (k + 1) * h) by (nonlinear_arith)
        requires
            n * m == h * k + (n * m) % h,
            0 <= (n * m) % h < h,
    ;
    assert((n * m) * count == (n * total) * h) by (nonlinear_arith)
        requires
            m * count == total * h,
    ;
    assert(k * count <= n * total < (k + 1) * count) by (nonlinear_arith)
        requires
            k * h <= n * m < (k + 1) * h,
            (n * m) * count == (n * total) * h,
            h > 0,
            count > 0,
    ;
    assert(k <= total - 1) by (nonlinear_arith)
        requires
            k * count <= n * total,
            n < count,
            total > 0,
    ;
    sampling_laws::lemma_arange_end(total as nat, count as nat, 0);
    assert(qwen2_vl::taken_indices(size, total as nat, count as nat, max_frames)[i] == k);
}

/// Under a limit of at most `2^53` frames, Qwen2-VL plans the whole frames of the estimate, held to
/// the least number that is asked for and to the limit, less what is over a whole patch.
pub proof fn law_qwen2_plans_the_estimate(
    size: nat,
    source: VideoFrameMetadata,
    target: VideoFrameSamplingTarget,
)
    requires
        size > 0,
        qwen2_vl::aligned_limit(size, source, target) <= 0x20_0000_0000_0000,
    ensures
        ({
            let estimate = video_sampling::frame_estimate(source, target).truncated(
                float::binary64(),
                usize::MAX as nat,
            );
            let available = if target.max_frames < source.total_frames {
                target.max_frames as nat
            } else {
                source.total_frames as nat
            };
            let limit = (available - available % size) as nat;
            let least = if estimate < target.min_frames {
                target.min_frames as nat
            } else {
                estimate
            };
            let asked = if least < limit {
                least
            } else {
                limit
            };
            qwen2_vl::planned_count(size, source, target) == asked - asked % size
        }),
{
    let f = float::binary64();
    let one = pow2(f.scale);
    let max = usize::MAX as nat;
    let e = video_sampling::frame_estimate(source, target);
    let estimate = e.truncated(f, max);
    let available = if target.max_frames < source.total_frames {
        target.max_frames as nat
    } else {
        source.total_frames as nat
    };
    let limit = qwen2_vl::aligned_limit(size, source, target);
    let total = source.total_frames as nat;
    let min = target.min_frames as nat;
    lemma2_to64();
    lemma2_to64_rest();
    lemma_pow2_pos(f.scale);
    lemma_whole_patches(available, size);
    sampling_laws::law_qwen2_plans_whole_patches(size, source, target);
    float_laws::lemma_usize_is_small(target.min_frames);
    float_laws::lemma_usize_is_small(source.total_frames);
    float_laws::law_integers_are_ordered(f, min, min);
    float_laws::law_integers_are_ordered(f, limit, limit);
    float_laws::law_integers_are_ordered(f, limit, total);
    if min <= limit {
        float_laws::law_integers_are_ordered(f, min, limit);
    } else {
        float_laws::law_integers_are_ordered(f, limit, min);
    }
    let w = qwen2_vl::wanted(size, source, target);
    let least = if estimate < min {
        min
    } else {
        estimate
    };
    let asked = if least < limit {
        least
    } else {
        limit
    };
    lemma_div_multiples_vanish(limit as int, one as int);
    lemma_div_multiples_vanish(min as int, one as int);
    assert(limit * one == one * limit && min * one == one * min) by (nonlinear_arith);
    let x = w.truncated(f, max);
    match e {
        FloatValue::Finite { negative, units } => {
            if !negative {
                let q = units / one;
                lemma_fundamental_div_mod(units as int, one as int);
                lemma_mod_bound(units as int, one as int);
                assert(units >= limit * one <==> q >= limit) by (nonlinear_arith)
                    requires
                        units == one * q + units % one,
                        0 <= units % one < one,
                ;
                assert(units >= min * one <==> q >= min) by (nonlinear_arith)
                    requires
                        units == one * q + units % one,
                        0 <= units % one < one,
                ;
            }
            assert(x == asked);
        },
        _ => {
            assert(x == asked);
        },
    }
    lemma_whole_patches(asked, size);
}

/// What is left of a number when what is over whole patches is taken off.
proof fn lemma_whole_patches(x: nat, size: nat)
    requires
        size > 0,
    ensures
        qwen2_vl::aligned_down(x, size) == x - x % size,
        x % size <= x,
{
    lemma_fundamental_div_mod(x as int, size as int);
    lemma_mod_bound(x as int, size as int);
    assert(x / size * size == size * (x / size)) by (nonlinear_arith);
    assert(size * (x / size) >= 0) by (nonlinear_arith)
        requires
            size > 0,
            x / size >= 0,
    ;
}

/// How many frames Qwen2-VL takes: as many as have a position before the end of the source, where
/// they are whole patches within the limit, and as many as are planned otherwise.
pub proof fn law_qwen2_takes_what_lies_in_the_source(
    size: nat,
    total: usize,
    count: usize,
    max_frames: nat,
    n: nat,
)
    requires
        size > 0,
        total > 0,
        0 < count <= max_frames,
        n <= count + 1,
        forall|j: nat| j < n ==> !qwen2_vl::arange_ends(total as nat, count as nat, j),
        n <= count ==> qwen2_vl::arange_ends(total as nat, count as nat, n),
    ensures
        qwen2_vl::taken_indices(size, total as nat, count as nat, max_frames).len() == (if n % size
            == 0 && n <= max_frames {
            n
        } else {
            count as nat
        }),
{
    let t = total as nat;
    let c = count as nat;
    let e = qwen2_vl::arange_end(t, c, 0);
    sampling_laws::lemma_arange_end(t, c, 0);
    if e < n {
        sampling_laws::lemma_arange_stops(t, c, 0);
    }
    assert(e == n);
}

/// Where more frames are planned than the target allows, and not whole patches within the limit lie
/// before the end of the source, Qwen2-VL takes the most whole patches that are allowed, spread over
/// the source.
pub proof fn law_qwen2_holds_the_limit(
    size: nat,
    total: usize,
    count: usize,
    max_frames: usize,
    n: nat,
    i: int,
)
    requires
        0 < size <= max_frames < count,
        total > 0,
        n <= count + 1,
        forall|j: nat| j < n ==> !qwen2_vl::arange_ends(total as nat, count as nat, j),
        n <= count ==> qwen2_vl::arange_ends(total as nat, count as nat, n),
        n % size != 0 || n > max_frames,
        0 <= i < max_frames - max_frames as nat % size,
    ensures
        ({
            let held = (max_frames - max_frames as nat % size) as nat;
            let taken = qwen2_vl::taken_indices(
                size,
                total as nat,
                count as nat,
                max_frames as nat,
            );
            &&& taken.len() == held
            &&& held * total <= 0x40_0000 ==> taken[i] * held <= i * total <= (taken[i] + 1) * held
        }),
{
    let t = total as nat;
    let c = count as nat;
    let held = (max_frames - max_frames as nat % size) as nat;
    let e = qwen2_vl::arange_end(t, c, 0);
    sampling_laws::lemma_arange_end(t, c, 0);
    if e < n {
        sampling_laws::lemma_arange_stops(t, c, 0);
    }
    assert(e == n);
    lemma_whole_patches(max_frames as nat, size);
    let taken = qwen2_vl::taken_indices(size, t, c, max_frames as nat);
    assert(taken.len() == held);
    sampling_laws::lemma_arange_end(t, held, 0);
    let k = qwen2_vl::arange_index(t, held, i as nat);
    assert(taken[i] == k);
    if held * total <= 0x40_0000 {
        let it = i * total;
        let kh = k * held;
        let kh1 = (k + 1) * held;
        let ht = held * total;
        assert(it <= ht && kh1 == kh + held && held <= ht && total <= ht) by (nonlinear_arith)
            requires
                0 <= i < held,
                it == i * total,
                ht == held * total,
                kh == k * held,
                kh1 == (k + 1) * held,
                total >= 1,
        ;
        assert(k == total - 1 ==> kh1 == ht) by (nonlinear_arith)
            requires
                kh1 == (k + 1) * held,
                ht == held * total,
        ;
        let h = held as usize;
        let n = i as nat;
        assert(h == held && k == qwen2_vl::arange_index(t, h as nat, n));
        lemma_small_index_is_close(total, h, n);
        assert(n * total == it && k * h == kh && (k + 1) * h == kh1);
        assert(0x1_0000_0000_0000 * kh <= 0x1_0000_0200_0001 * it);
        assert(k == total - 1 || 0x1_0000_0000_0000 * kh1 > 0xffff_fe00_0001 * it);
        assert(ht <= 0x40_0000);
        assert(kh <= it <= kh1);
        assert(taken[i] * held == kh && (taken[i] + 1) * held == kh1);
    }
}

/// A Qwen2-VL request fails for the first of these, and only for these: a patch without frames,
/// fewer frames allowed or available than a patch has, or fewer planned.
pub proof fn law_qwen2_requests_fail(
    sampler: qwen2_vl::Qwen2VlFrameSampler,
    source: VideoFrameMetadata,
    target: VideoFrameSamplingTarget,
)
    ensures
        ({
            let size = sampler.temporal_patch_size as nat;
            let sampled = qwen2_vl::qwen2_sampling(size, source, target);
            let short = target.max_frames < size || source.total_frames < size;
            let planned = qwen2_vl::planned_count(size, source, target);
            &&& size == 0 ==> sampled == Sampling::Err(
                MediaConnectorErrorView::VideoDecode(
                    "Qwen2-VL temporal_patch_size must be greater than 0"@,
                ),
            )
            &&& size > 0 && short ==> sampled == Sampling::Err(
                MediaConnectorErrorView::VideoDecode(
                    "Qwen2-VL frame limit is smaller than temporal_patch_size"@,
                ),
            )
            &&& size > 0 && !short && planned == 0 ==> sampled == Sampling::Err(
                MediaConnectorErrorView::VideoDecode("Qwen2-VL sampling produced zero frames"@),
            )
            &&& size > 0 && !short && planned > 0 ==> sampled == Sampling::Ok(
                qwen2_vl::taken_indices(
                    size,
                    source.total_frames as nat,
                    planned,
                    target.max_frames as nat,
                ),
            )
        }),
{
    let size = sampler.temporal_patch_size as nat;
    if size > 0 {
        let available = if target.max_frames < source.total_frames {
            target.max_frames as nat
        } else {
            source.total_frames as nat
        };
        lemma_whole_patches(available, size);
        if available < size {
            lemma_small_mod(available, size);
        } else {
            lemma_mod_bound(available as int, size as int);
        }
    }
}

/// Of a video of whole seconds whose rate is `step` times the whole target rate, Qwen2-VL takes
/// every `step`-th frame from the first one on, and no other, where that makes whole patches within
/// the limits.
pub proof fn law_qwen2_takes_every_step(
    sampler: qwen2_vl::Qwen2VlFrameSampler,
    source: VideoFrameMetadata,
    target: VideoFrameSamplingTarget,
    seconds: nat,
    target_rate: nat,
    step: nat,
)
    requires
        sampler.temporal_patch_size > 0,
        step > 0,
        seconds * target_rate > 0,
        source.original_fps@ == float_laws::plain((target_rate * step) * pow2(1074)),
        target.fps@ == float_laws::plain(target_rate * pow2(1074)),
        source.total_frames == seconds * (target_rate * step),
        source.total_frames <= 0x80_0000,
        target.min_frames <= seconds * target_rate <= target.max_frames,
        (seconds * target_rate) % (sampler.temporal_patch_size as nat) == 0,
    ensures
        qwen2_vl::qwen2_sampling(sampler.temporal_patch_size as nat, source, target)
            == Sampling::Ok(Seq::new(seconds * target_rate, |i: int| (i * step) as usize)),
{
    let size = sampler.temporal_patch_size as nat;
    let n = seconds * target_rate;
    let total = source.total_frames as nat;
    let rate = target_rate * step;
    lemma2_to64();
    assert(total == n * step && n <= total && rate > 0) by (nonlinear_arith)
        requires
            total == seconds * (target_rate * step),
            n == seconds * target_rate,
            rate == target_rate * step,
            n > 0,
            step > 0,
    ;
    sampling_laws::law_estimate_of_whole_seconds(source, target, seconds, rate, target_rate);
    let available = if target.max_frames < source.total_frames {
        target.max_frames as nat
    } else {
        total
    };
    lemma_whole_patches(available, size);
    assert(n <= available);
    sampling_laws::lemma_aligned_down(n, available, size);
    lemma_whole_patches(n, size);
    law_qwen2_plans_the_estimate(size, source, target);
    assert(qwen2_vl::planned_count(size, source, target) == n);
    assert(n >= size) by {
        if n < size {
            lemma_small_mod(n, size);
        }
    }
    law_qwen2_requests_fail(sampler, source, target);
    assert(step * n == total * pow2(0)) by (nonlinear_arith)
        requires
            total == n * step,
            pow2(0) == 1,
    ;
    assert(step <= total) by (nonlinear_arith)
        requires
            total == n * step,
            n >= 1,
    ;
    sampling_laws::law_qwen2_exact_step_takes_no_more(source.total_frames, n as usize, step, 0);
    let taken = qwen2_vl::taken_indices(size, total, n, target.max_frames as nat);
    assert(taken.len() == n);
    assert forall|i: int| 0 <= i < n implies taken[i] == i * step by {
        assert(i * step <= total) by (nonlinear_arith)
            requires
                0 <= i < n,
                total == n * step,
        ;
        law_qwen2_exact_positions(
            size,
            source.total_frames,
            n as usize,
            target.max_frames as nat,
            i,
            step,
            0,
        );
        let k = taken[i] as int;
        assert(k == i * step) by (nonlinear_arith)
            requires
                k * n <= i * total < (k + 1) * n,
                total == n * step,
                n > 0,
        ;
    }
    assert(taken =~= Seq::new(n, |i: int| (i * step) as usize));
}

/// Powers of two that bound the values of an estimate.
proof fn lemma_estimate_bounds()
    ensures
        pow2(1074) * pow2(1074) >= pow2(1474) * pow2(600),
        pow2(600) >= pow2(64) * pow2(64),
        pow2(674) * pow2(400) == pow2(1074),
        pow2(1474) == pow2(1074) * pow2(400),
        pow2(400) >= pow2(64) * pow2(64),
        pow2(2000) < float::binary64().overflow(),
        pow2(2000) == pow2(1074) * pow2(926),
        pow2(926) >= pow2(400) * pow2(400) * pow2(64) * pow2(2),
{
    lemma_pow2_adds(1074, 1074);
    lemma_pow2_adds(1474, 600);
    lemma_pow2_strictly_increases(2074, 2148);
    lemma_pow2_adds(64, 64);
    lemma_pow2_strictly_increases(128, 600);
    lemma_pow2_strictly_increases(128, 400);
    lemma_pow2_adds(674, 400);
    lemma_pow2_adds(1074, 400);
    lemma_pow2_strictly_increases(2000, 2098);
    lemma_pow2_adds(1074, 926);
    lemma_pow2_adds(400, 400);
    lemma_pow2_adds(800, 64);
    lemma_pow2_adds(864, 2);
    lemma_pow2_strictly_increases(866, 926);
}

/// The estimate of frames is the number of frames of the source, times the target rate, over the
/// rate of the source, to within what three roundings to fifty-three bits can move it, for rates
/// between `2^-400` and `2^400`; a rate is given by its units, of which `2^1074` make one.
pub proof fn law_estimate_is_close(
    source: VideoFrameMetadata,
    target: VideoFrameSamplingTarget,
    source_rate: nat,
    target_rate: nat,
)
    requires
        source.total_frames > 0,
        source.original_fps@ == float_laws::plain(source_rate),
        target.fps@ == float_laws::plain(target_rate),
        pow2(674) <= source_rate <= pow2(1474),
        pow2(674) <= target_rate <= pow2(1474),
    ensures
        ({
            let p: int = 0x20_0000_0000_0000;
            let k = video_sampling::frame_estimate(source, target).truncated(
                float::binary64(),
                usize::MAX as nat,
            );
            let exact = source.total_frames * target_rate;
            &&& (p * p * p) * (k * source_rate) <= ((p + 1) * (p + 1) * (p + 1)) * exact
            &&& k == usize::MAX || (p * p * p) * ((k + 1) * source_rate) > ((p - 1) * (p - 1) * (p
                - 1)) * exact
        }),
{
    let f = float::binary64();
    let one = pow2(1074);
    let p: int = 0x20_0000_0000_0000;
    let a = source_rate;
    let b = target_rate;
    let total = source.total_frames as nat;
    let t = float_laws::nat_units(f, total);
    let w = pow2(64);
    let h = pow2(52);
    let m = pow2(400);
    lemma2_to64();
    lemma2_to64_rest();
    lemma_pow2_pos(1074);
    lemma_pow2_pos(674);
    lemma_estimate_bounds();
    assert(pow2(f.precision) == p);
    float_laws::lemma_usize_is_small(source.total_frames);
    float_laws::law_integers_are_ordered(f, total, total);
    lemma_integer_is_close(f, total);
    lemma_pow2_adds(64, 1074);
    let d = rounding::round_to(t * one, a, f.precision);
    let to = t * one;
    let big = pow2(600);
    assert(to >= a * big) by (nonlinear_arith)
        requires
            to == t * one,
            t >= one,
            one * one >= pow2(1474) * big,
            a <= pow2(1474),
            big >= 0,
    ;
    assert(to >= a * h) by (nonlinear_arith)
        requires
            to >= a * big,
            big >= w * w,
            w >= h,
            h >= 1,
            a >= 0,
    ;
    rounding::law_rounding_error_is_relative(to, a, f.precision);
    let da = d * a;
    assert(2 * da >= to && da <= 2 * to) by (nonlinear_arith)
        requires
            p * (to - da) <= to,
            p * (da - to) <= to,
            p == 0x20_0000_0000_0000,
            to >= 0,
            da >= 0,
    ;
    // The duration is finite.
    let low = pow2(674);
    assert(d <= 2 * w * one * m) by (nonlinear_arith)
        requires
            da == d * a,
            da <= 2 * to,
            to == t * one,
            t <= w * one,
            a >= low,
            low * m == one,
            low > 0,
            one > 0,
    ;
    assert(d <= pow2(2000)) by (nonlinear_arith)
        requires
            d <= 2 * w * one * m,
            pow2(2000) == one * pow2(926),
            pow2(926) >= m * m * w * 4,
            m >= 1,
            w >= 1,
            one >= 1,
    ;
    // So is its product with the rate, which is no subnormal either.
    assert(2 * (b * d) >= low * big) by (nonlinear_arith)
        requires
            2 * da >= to,
            to >= a * big,
            da == d * a,
            a > 0,
            b >= low,
            low > 0,
    ;
    assert(b * d >= one * h) by {
        assert(one * h <= low * (m * h)) by (nonlinear_arith)
            requires
                low * m == one,
        ;
        lemma_pow2_adds(400, 52);
        lemma_pow2_adds(452, 1);
        lemma_pow2_strictly_increases(453, 600);
        assert(2 * (m * h) <= big);
        assert(2 * (low * (m * h)) <= low * big) by (nonlinear_arith)
            requires
                2 * (m * h) <= big,
                low >= 0,
        ;
    }
    lemma_quotient_times_is_close(f, t, a, b);
    let r = quotient_times(f, t, a, b);
    assert(d * b == b * d) by (nonlinear_arith);
    assert(r * a <= 4 * (b * t)) by (nonlinear_arith)
        requires
            (p * p) * (r * a) <= ((p + 1) * (p + 1)) * (b * t),
            p == 0x20_0000_0000_0000,
    ;
    assert(r <= 4 * (m * m) * w * one) by (nonlinear_arith)
        requires
            r * a <= 4 * (b * t),
            a >= low,
            b <= one * m,
            t <= w * one,
            low * m == one,
            low > 0,
            one > 0,
    ;
    assert(r <= pow2(2000)) by (nonlinear_arith)
        requires
            r <= 4 * (m * m) * w * one,
            pow2(2000) == one * pow2(926),
            pow2(926) >= m * m * w * 4,
            one >= 0,
    ;
    let e = video_sampling::frame_estimate(source, target);
    assert(e == float_laws::plain(r));
    let k = e.truncated(f, usize::MAX as nat);
    // The integer of frames is rounded too.
    let u = p + 1;
    let l = p - 1;
    let tt = total * one;
    let exact = total * b;
    assert((p * p * p) * (r * a) <= (u * u * u) * (exact * one)) by {
        assert(p * ((p * p) * (r * a)) <= p * ((u * u) * (b * t))) by (nonlinear_arith)
            requires
                (p * p) * (r * a) <= (u * u) * (b * t),
                p > 0,
        ;
        assert(p * ((u * u) * (b * t)) == ((u * u) * b) * (p * t)) by (nonlinear_arith);
        assert(((u * u) * b) * (p * t) <= ((u * u) * b) * (u * tt)) by (nonlinear_arith)
            requires
                p * t <= u * tt,
                (u * u) * b >= 0,
        ;
        assert(((u * u) * b) * (u * tt) == (u * u * u) * (exact * one)) by (nonlinear_arith)
            requires
                tt == total * one,
                exact == total * b,
        ;
        assert(p * ((p * p) * (r * a)) == (p * p * p) * (r * a)) by (nonlinear_arith);
    }
    assert((p * p * p) * (r * a) >= (l * l * l) * (exact * one)) by {
        assert(p * ((p * p) * (r * a)) >= p * ((l * l) * (b * t))) by (nonlinear_arith)
            requires
                (p * p) * (r * a) >= (l * l) * (b * t),
                p > 0,
        ;
        assert(p * ((l * l) * (b * t)) == ((l * l) * b) * (p * t)) by (nonlinear_arith);
        assert(((l * l) * b) * (p * t) >= ((l * l) * b) * (l * tt)) by (nonlinear_arith)
            requires
                p * t >= l * tt,
                (l * l) * b >= 0,
        ;
        assert(((l * l) * b) * (l * tt) == (l * l * l) * (exact * one)) by (nonlinear_arith)
            requires
                tt == total * one,
                exact == total * b,
        ;
        assert(p * ((p * p) * (r * a)) == (p * p * p) * (r * a)) by (nonlinear_arith);
    }
    let q = r / one;
    lemma_fundamental_div_mod(r as int, one as int);
    lemma_mod_bound(r as int, one as int);
    assert(q * one <= r < (q + 1) * one) by (nonlinear_arith)
        requires
            r == one * q + r % one,
            0 <= r % one < one,
    ;
    let ppp = p * p * p;
    let uuu = u * u * u;
    let lll = l * l * l;
    assert(ppp > 0);
    assert(ppp * (k * a) <= uuu * exact) by (nonlinear_arith)
        requires
            ppp * (r * a) <= uuu * (exact * one),
            q * one <= r,
            0 <= k <= q,
            ppp > 0,
            a >= 0,
            one > 0,
    ;
    if k != usize::MAX {
        assert(k == q);
        assert(ppp * ((k + 1) * a) > lll * exact) by (nonlinear_arith)
            requires
                ppp * (r * a) >= lll * (exact * one),
                r < (k + 1) * one,
                ppp > 0,
                a > 0,
                one > 0,
        ;
    }
}

/// A product that is rounded, over a divisor, rounded again, is off by two parts in `2^precision`,
/// or so.
proof fn lemma_product_over_is_close(f: Format, e: nat, x: nat, y: nat)
    requires
        f.is_supported(),
        y > 0,
        e * x >= pow2(f.scale) * pow2((f.precision - 1) as nat),
        rounding::round_to(e * x, pow2(f.scale), f.precision) * pow2(f.scale) >= y * pow2(
            (f.precision - 1) as nat,
        ),
    ensures
        ({
            let p = pow2(f.precision);
            let product = rounding::round_to(e * x, pow2(f.scale), f.precision);
            let q = rounding::round_to(product * pow2(f.scale), y, f.precision);
            &&& (p * p) * (q * y) <= ((p + 1) * (p + 1)) * (x * e)
            &&& (p * p) * (q * y) >= ((p - 1) * (p - 1)) * (x * e)
        }),
{
    let one = pow2(f.scale);
    let p = pow2(f.precision);
    lemma_pow2_pos(f.scale);
    lemma_pow2_pos(f.precision);
    let ex = e * x;
    let product = rounding::round_to(ex, one, f.precision);
    let po = product * one;
    let q = rounding::round_to(po, y, f.precision);
    let qy = q * y;
    rounding::law_rounding_error_is_relative(ex, one, f.precision);
    rounding::law_rounding_error_is_relative(po, y, f.precision);
    let u = p + 1;
    let l = p - 1;
    assert(p * po <= u * ex && p * po >= l * ex) by (nonlinear_arith)
        requires
            p * (po - ex) <= ex,
            p * (ex - po) <= ex,
            u == p + 1,
            l == p - 1,
    ;
    assert(p * qy <= u * po && p * qy >= l * po) by (nonlinear_arith)
        requires
            p * (qy - po) <= po,
            p * (po - qy) <= po,
            u == p + 1,
            l == p - 1,
    ;
    assert((p * p) * qy <= (u * u) * ex) by {
        assert(p * (p * qy) <= p * (u * po)) by (nonlinear_arith)
            requires
                p * qy <= u * po,
                p >= 0,
        ;
        assert(p * (u * po) == u * (p * po)) by (nonlinear_arith);
        assert(u * (p * po) <= u * (u * ex)) by (nonlinear_arith)
            requires
                p * po <= u * ex,
                u >= 0,
        ;
        assert(p * (p * qy) == (p * p) * qy && u * (u * ex) == (u * u) * ex) by (nonlinear_arith);
    }
    assert((p * p) * qy >= (l * l) * ex) by {
        assert(p * (p * qy) >= p * (l * po)) by (nonlinear_arith)
            requires
                p * qy >= l * po,
                p >= 0,
        ;
        assert(p * (l * po) == l * (p * po)) by (nonlinear_arith);
        assert(l * (p * po) >= l * (l * ex)) by (nonlinear_arith)
            requires
                p * po >= l * ex,
                l >= 0,
        ;
        assert(p * (p * qy) == (p * p) * qy && l * (l * ex) == (l * l) * ex) by (nonlinear_arith);
    }
    assert(x * e == ex) by (nonlinear_arith)
        requires
            ex == e * x,
    ;
}

/// The index at position `i` of a uniform sample is the frame nearest to the exact position
/// `i * (total - 1) / (count - 1)`, to within what five roundings to fifty-three bits can move it,
/// whatever the source and the count.
pub proof fn law_uniform_index_is_close(total: usize, count: usize, i: nat)
    requires
        total > 0,
        count > 1,
        i < count,
    ensures
        ({
            let p: int = 0x20_0000_0000_0000;
            let k = video_sampling::uniform_indices(total as nat, count as nat)[i as int];
            &&& (p * p * p * (p - 1)) * ((2 * k - 1) * (count - 1)) <= 2 * (((p + 1) * (p + 1) * (p
                + 1) * (p + 1)) * (i * (total - 1)))
            &&& k == usize::MAX || (p * p * p * (p + 1)) * ((2 * k + 1) * (count - 1)) >= 2 * (((p
                - 1) * (p - 1) * (p - 1) * (p - 1)) * (i * (total - 1)))
        }),
{
    let f = float::binary64();
    let one = pow2(1074);
    let p: int = 0x20_0000_0000_0000;
    let u = p + 1;
    let l = p - 1;
    let a = (total - 1) as nat;
    let cn = (count - 1) as nat;
    let k = video_sampling::uniform_indices(total as nat, count as nat)[i as int];
    lemma2_to64();
    lemma2_to64_rest();
    lemma_pow2_pos(1074);
    assert(pow2(f.precision) == p);
    float_laws::lemma_usize_is_small(total);
    float_laws::lemma_usize_is_small(count);
    float_laws::law_integers_are_ordered(f, a, a);
    float_laws::law_integers_are_ordered(f, i, i);
    float_laws::law_integers_are_ordered(f, cn, cn);
    let e = float_laws::nat_units(f, a);
    let x = float_laws::nat_units(f, i);
    let y = float_laws::nat_units(f, cn);
    let big = p * p * p * l;
    let small = p * p * p * u;
    let up = u * u * u * u;
    let down = l * l * l * l;
    let ia = i * a;
    if ia == 0 {
        lemma_uniform_index_of_nothing(total, count, i);
        assert(k == 0);
        assert(big >= 0 && small >= 0) by (nonlinear_arith)
            requires
                big == p * p * p * l,
                small == p * p * p * u,
                p == 0x20_0000_0000_0000,
                l == p - 1,
                u == p + 1,
        ;
        assert(big * ((2 * k - 1) * cn) <= 0 && small * ((2 * k + 1) * cn) >= 0)
            by (nonlinear_arith)
            requires
                k == 0,
                big >= 0,
                small >= 0,
                cn >= 0,
        ;
        assert(up * ia == 0 && down * ia == 0) by (nonlinear_arith)
            requires
                ia == 0,
        ;
    } else {
        assert(i > 0 && a > 0) by (nonlinear_arith)
            requires
                i * a != 0,
                i >= 0,
                a >= 0,
        ;
        let w = pow2(64);
        let h = pow2(52);
        lemma_pow2_adds(64, 1074);
        lemma_pow2_adds(52, 64);
        lemma_pow2_adds(116, 2);
        lemma_pow2_strictly_increases(118, 1074);
        let ex = e * x;
        assert(ex >= one * one) by (nonlinear_arith)
            requires
                ex == e * x,
                e >= one,
                x >= one,
        ;
        assert(ex >= one * h) by (nonlinear_arith)
            requires
                ex >= one * one,
                one >= h,
                one >= 0,
        ;
        rounding::law_rounding_error_is_relative(ex, one, f.precision);
        let product = rounding::round_to(ex, one, f.precision);
        let po = product * one;
        assert(2 * po >= ex && po <= 2 * ex) by (nonlinear_arith)
            requires
                p * (ex - po) <= ex,
                p * (po - ex) <= ex,
                p == 0x20_0000_0000_0000,
                ex >= 0,
                po >= 0,
        ;
        assert(po >= y * h) by (nonlinear_arith)
            requires
                2 * po >= ex,
                ex >= one * one,
                y <= w * one,
                one >= h * w * 4,
                h >= 1,
                w >= 1,
        ;
        // Both are finite.
        assert(product <= 2 * (w * w) * one) by (nonlinear_arith)
            requires
                po == product * one,
                po <= 2 * ex,
                ex == e * x,
                e <= w * one,
                x <= w * one,
                one > 0,
        ;
        let q = rounding::round_to(po, y, f.precision);
        rounding::law_rounding_error_is_relative(po, y, f.precision);
        let qy = q * y;
        assert(qy <= 2 * po) by (nonlinear_arith)
            requires
                p * (qy - po) <= po,
                p == 0x20_0000_0000_0000,
                po >= 0,
                qy >= 0,
        ;
        assert(q <= 4 * (w * w) * one) by (nonlinear_arith)
            requires
                qy == q * y,
                qy <= 2 * po,
                po == product * one,
                product <= 2 * (w * w) * one,
                y >= one,
                one > 0,
        ;
        lemma_pow2_adds(64, 64);
        lemma_pow2_adds(2, 128);
        lemma_pow2_adds(130, 1074);
        lemma_pow2_strictly_increases(1204, (f.precision + f.max_shift()) as nat);
        assert(4 * (w * w) * one == pow2(1204)) by (nonlinear_arith)
            requires
                pow2(1204) == (4 * (w * w)) * one,
        ;
        assert(2 * (w * w) * one <= 4 * (w * w) * one) by (nonlinear_arith)
            requires
                w >= 0,
                one >= 0,
        ;
        lemma_product_over_is_close(f, e, x, y);
        lemma_integer_is_close(f, a);
        lemma_integer_is_close(f, i);
        lemma_integer_is_close(f, cn);
        let aa = a * one;
        let xx = i * one;
        let yy = cn * one;
        lemma_three_integers(p, q, x, e, y, xx, aa, yy);
        assert(big * (q * yy) == (big * (q * cn)) * one && up * (xx * aa) == (up * (ia * one)) * one
            && small * (q * yy) == (small * (q * cn)) * one && down * (xx * aa) == (down * (ia
            * one)) * one) by (nonlinear_arith)
            requires
                yy == cn * one,
                xx == i * one,
                aa == a * one,
                ia == i * a,
        ;
        assert(big * (q * cn) <= up * (ia * one)) by (nonlinear_arith)
            requires
                (big * (q * cn)) * one <= (up * (ia * one)) * one,
                one > 0,
        ;
        assert(small * (q * cn) >= down * (ia * one)) by (nonlinear_arith)
            requires
                (small * (q * cn)) * one >= (down * (ia * one)) * one,
                one > 0,
        ;
        let value = video_sampling::linspace_value(
            FloatValue::of_nat(f, a),
            count as nat,
            i,
        );
        assert(value == float_laws::plain(q));
        let n = rounding::nearest(q, one);
        rounding::lemma_nearest(q, one);
        assert(k <= n && (k < n ==> k == usize::MAX));
        assert(big >= 0 && small >= 0) by (nonlinear_arith)
            requires
                big == p * p * p * l,
                small == p * p * p * u,
                p == 0x20_0000_0000_0000,
                l == p - 1,
                u == p + 1,
        ;
        assert(big * ((2 * k - 1) * cn) <= 2 * (up * ia)) by {
            assert((2 * k - 1) * one <= 2 * q) by (nonlinear_arith)
                requires
                    2 * q >= (2 * n - 1) * one,
                    k <= n,
                    one > 0,
            ;
            let bc = big * cn;
            assert(bc >= 0) by (nonlinear_arith)
                requires
                    bc == big * cn,
                    big >= 0,
                    cn >= 0,
            ;
            assert(bc * ((2 * k - 1) * one) <= bc * (2 * q)) by (nonlinear_arith)
                requires
                    (2 * k - 1) * one <= 2 * q,
                    bc >= 0,
            ;
            assert(bc * ((2 * k - 1) * one) == (big * ((2 * k - 1) * cn)) * one && bc * (2 * q) == 2
                * (big * (q * cn)) && 2 * (up * (ia * one)) == (2 * (up * ia)) * one)
                by (nonlinear_arith)
                requires
                    bc == big * cn,
            ;
            assert(big * ((2 * k - 1) * cn) <= 2 * (up * ia)) by (nonlinear_arith)
                requires
                    (big * ((2 * k - 1) * cn)) * one <= (2 * (up * ia)) * one,
                    one > 0,
            ;
        }
        if k != usize::MAX {
            assert(small * ((2 * k + 1) * cn) >= 2 * (down * ia)) by {
                let sc = small * cn;
                assert(sc >= 0) by (nonlinear_arith)
                    requires
                        sc == small * cn,
                        small >= 0,
                        cn >= 0,
                ;
                assert(sc * ((2 * k + 1) * one) >= sc * (2 * q)) by (nonlinear_arith)
                    requires
                        (2 * k + 1) * one >= 2 * q,
                        sc >= 0,
                ;
                assert(sc * ((2 * k + 1) * one) == (small * ((2 * k + 1) * cn)) * one && sc * (2 * q)
                    == 2 * (small * (q * cn)) && 2 * (down * (ia * one)) == (2 * (down * ia)) * one)
                    by (nonlinear_arith)
                    requires
                        sc == small * cn,
                ;
                assert(small * ((2 * k + 1) * cn) >= 2 * (down * ia)) by (nonlinear_arith)
                    requires
                        (small * ((2 * k + 1) * cn)) * one >= (2 * (down * ia)) * one,
                        one > 0,
                ;
            }
        }
    }
}

/// At the first position, or of a single frame, a uniform sample names the first frame.
proof fn lemma_uniform_index_of_nothing(total: usize, count: usize, i: nat)
    requires
        total > 0,
        count > 1,
        i < count,
        i * ((total - 1) as nat) == 0,
    ensures
        video_sampling::uniform_indices(total as nat, count as nat)[i as int] == 0,
{
    if i == 0 {
        sampling_laws::law_uniform_starts_at_first_frame(total, count);
    } else {
        assert(total == 1) by (nonlinear_arith)
            requires
                i * ((total - 1) as nat) == 0,
                i > 0,
                total > 0,
        ;
        sampling_laws::law_uniform_covers_source(total, count);
    }
}

/// Of a video of whole seconds, at a whole target rate, uniform sampling takes as many frames as
/// seconds times rate, where the limits and the source allow that; each is the one nearest to the
/// exact position, between two frames the even one, so that the first and the last are taken.
pub proof fn law_uniform_samples_whole_seconds(
    source: VideoFrameMetadata,
    target: VideoFrameSamplingTarget,
    seconds: nat,
    source_rate: nat,
    target_rate: nat,
    i: int,
)
    requires
        source_rate > 0,
        source.original_fps@ == float_laws::plain(source_rate * pow2(1074)),
        target.fps@ == float_laws::plain(target_rate * pow2(1074)),
        source.total_frames == seconds * source_rate,
        target.min_frames <= seconds * target_rate <= target.max_frames,
        1 <= seconds * target_rate <= source.total_frames,
        (source.total_frames - 1) * (seconds * target_rate - 1) < 0x10_0000_0000_0000,
        source.total_frames <= 0x20_0000_0000_0000,
        0 <= i < seconds * target_rate,
    ensures
        ({
            let n = (seconds * target_rate) as int;
            let count = video_sampling::uniform_count(source, target);
            let k = video_sampling::uniform_indices(source.total_frames as nat, count)[i] as int;
            let last = source.total_frames - 1;
            &&& count == n
            &&& n == 1 ==> k == 0
            &&& n > 1 ==> (2 * k - 1) * (n - 1) <= 2 * (i * last) <= (2 * k + 1) * (n - 1)
            &&& n > 1 && (2 * (i * last) == (2 * k + 1) * (n - 1) || 2 * (i * last) == (2 * k - 1)
                * (n - 1)) ==> k % 2 == 0
            &&& n > 1 && i == 0 ==> k == 0
            &&& n > 1 && i == n - 1 ==> k == last
        }),
{
    let n = seconds * target_rate;
    sampling_laws::law_estimate_of_whole_seconds(
        source,
        target,
        seconds,
        source_rate,
        target_rate,
    );
    assert(video_sampling::uniform_count(source, target) == n);
    if n == 1 {
        sampling_laws::law_uniform_starts_at_first_frame(source.total_frames, 1);
    } else {
        let last = (source.total_frames - 1) as nat;
        sampling_laws::law_uniform_is_exact(source.total_frames, n as usize, i as nat);
        let k = rounding::nearest((i as nat) * last, (n - 1) as nat);
        rounding::lemma_nearest((i as nat) * last, (n - 1) as nat);
        if i == 0 {
            sampling_laws::law_uniform_starts_at_first_frame(source.total_frames, n as usize);
        }
        if i == n - 1 {
            rounding::lemma_nearest_exact(last, (n - 1) as nat);
            assert((i as nat) * last == last * ((n - 1) as nat)) by (nonlinear_arith)
                requires
                    i == n - 1,
            ;
        }
    }
}

} // verus!
