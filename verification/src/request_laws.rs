//! What a sampling request means: its rates, why it is refused, and how a result is checked.
use crate::error::{
    MediaConnectorError, MediaConnectorErrorView, ModelRegistryError, ModelRegistryErrorView,
};
use crate::float;
use crate::float::{F64Bits, FloatValue};
use crate::float_laws;
use crate::media;
use crate::text;
use crate::video_sampling;
use crate::video_sampling::{
    Sampling, UniformFpsFrameSampler, VideoFrameMetadata, VideoFrameSampler,
    VideoFrameSamplingTarget,
};
use crate::vision::video_sampling::qwen2_vl;
use crate::vision::video_sampling::qwen2_vl::Qwen2VlFrameSampler;
use crate::vision::video_sampling::qwen3_vl::Qwen3VlFrameSampler;
use crate::vision::video_sampling::FrameSampler;
use vstd::arithmetic::power2::*;
use vstd::prelude::*;
use vstd::string::*;

verus! {

/// The rate that bits stand for.
pub open spec fn rate_of(bits: u64) -> FloatValue {
    F64Bits { bits }@
}

/// A rate is a finite number above zero exactly where its bits lie between those of zero and those
/// of infinity; what follows infinity is no number, and a set top bit turns the sign.
pub proof fn law_bits_of_rates(bits: u64)
    ensures
        rate_of(bits).is_positive_finite() <==> 0 < bits < 0x7ff0_0000_0000_0000,
        bits == 0 ==> rate_of(bits) == float_laws::plain(0),
        bits == 0x7ff0_0000_0000_0000 ==> rate_of(bits) == (FloatValue::Infinite {
            negative: false,
        }),
        0x7ff0_0000_0000_0000 < bits < 0x8000_0000_0000_0000 ==> rate_of(bits) is Nan,
        bits < 0x7ff0_0000_0000_0000 ==> rate_of((bits + 0x8000_0000_0000_0000) as u64)
            == (FloatValue::Finite { negative: true, units: rate_of(bits)->units }),
{
    let exponent = (bits as nat / 0x10_0000_0000_0000) % 0x800;
    let fraction = bits as nat % 0x10_0000_0000_0000;
    if exponent > 0 {
        lemma_pow2_pos((exponent - 1) as nat);
        assert((0x10_0000_0000_0000 + fraction) * pow2((exponent - 1) as nat) > 0)
            by (nonlinear_arith)
            requires
                pow2((exponent - 1) as nat) > 0,
                fraction >= 0,
        ;
    }
}

/// One is where the exponent bits say so, a power of two on, each rate is doubled, and the least
/// rates count up from zero.
pub proof fn law_rates_double_with_their_exponent(bits: u64)
    ensures
        rate_of(0x3ff0_0000_0000_0000) == float_laws::plain(pow2(1074)),
        0x10_0000_0000_0000 <= bits < 0x7fe0_0000_0000_0000 ==> rate_of(
            (bits + 0x10_0000_0000_0000) as u64,
        ) == float_laws::plain(2 * rate_of(bits)->units),
        bits < 0x10_0000_0000_0000 ==> rate_of(bits) == float_laws::plain(bits as nat),
{
    let exponent = (bits as nat / 0x10_0000_0000_0000) % 0x800;
    let fraction = bits as nat % 0x10_0000_0000_0000;
    lemma2_to64();
    lemma2_to64_rest();
    assert(0x10_0000_0000_0000 * pow2(1022) == pow2(1074)) by {
        lemma_pow2_adds(52, 1022);
    }
    if 0x10_0000_0000_0000 <= bits < 0x7fe0_0000_0000_0000 {
        let low = pow2((exponent - 1) as nat);
        let high = pow2(exponent);
        lemma_pow2_unfold(exponent);
        assert((0x10_0000_0000_0000 + fraction) * high == 2 * ((0x10_0000_0000_0000 + fraction)
            * low)) by (nonlinear_arith)
            requires
                high == 2 * low,
        ;
    }
}

/// The gap from the rate of some bits to the next one.
pub open spec fn gap_after(bits: u64) -> int {
    rate_of((bits + 1) as u64)->units - rate_of(bits)->units
}

/// The gap after a rate is a power of two: that of its exponent bits.
proof fn lemma_gap(bits: u64)
    requires
        bits < 0x7fef_ffff_ffff_ffff,
    ensures
        ({
            let exponent = bits as nat / 0x10_0000_0000_0000;
            gap_after(bits) == (if exponent > 0 {
                pow2((exponent - 1) as nat)
            } else {
                1
            })
        }),
{
    let exponent = bits as nat / 0x10_0000_0000_0000;
    let fraction = bits as nat % 0x10_0000_0000_0000;
    let next = (bits + 1) as u64;
    lemma2_to64();
    assert(exponent < 0x7ff);
    let low = if exponent > 0 {
        pow2((exponent - 1) as nat)
    } else {
        1
    };
    let m = 0x10_0000_0000_0000 + fraction;
    assert((m + 1) * low == m * low + low) by (nonlinear_arith);
    if fraction + 1 < 0x10_0000_0000_0000 {
        assert(next as nat % 0x10_0000_0000_0000 == fraction + 1);
        assert(next as nat / 0x10_0000_0000_0000 == exponent);
    } else {
        assert(next as nat % 0x10_0000_0000_0000 == 0);
        assert(next as nat / 0x10_0000_0000_0000 == exponent + 1);
        if exponent > 0 {
            lemma_pow2_unfold(exponent);
            assert(0x20_0000_0000_0000 * low == 0x10_0000_0000_0000 * (2 * low)) by (nonlinear_arith);
        }
        assert(0x10_0000_0000_0000 * pow2(0) == 0x10_0000_0000_0000);
    }
}

/// The rates of the bit patterns grow from each to the next, and are evenly spaced from one power
/// of two to the next.
pub proof fn law_rates_are_evenly_spaced(bits: u64)
    requires
        bits < 0x7fef_ffff_ffff_ffff,
    ensures
        gap_after(bits) > 0,
        bits < 0x7fef_ffff_ffff_fffe && (bits + 1) % 0x10_0000_0000_0000 != 0 ==> gap_after(bits)
            == gap_after((bits + 1) as u64),
{
    let exponent = bits as nat / 0x10_0000_0000_0000;
    lemma_gap(bits);
    if exponent > 0 {
        lemma_pow2_pos((exponent - 1) as nat);
    }
    if bits < 0x7fef_ffff_ffff_fffe && (bits + 1) % 0x10_0000_0000_0000 != 0 {
        lemma_gap((bits + 1) as u64);
        assert((bits + 1) as u64 as nat / 0x10_0000_0000_0000 == exponent);
    }
}

/// By default, between four and 768 frames are taken, at two frames in a second.
pub proof fn law_default_target()
    ensures
        media::default_target().min_frames == 4,
        media::default_target().max_frames == 768,
        media::default_target().fps@ == float_laws::plain(2 * pow2(1074)),
{
    law_rates_double_with_their_exponent(0x3ff0_0000_0000_0000);
}

/// A request is refused for the first of these: it has no frames, a rate of the video and then of
/// the target that is no finite number above zero, a limit of zero, or limits that cross.
pub proof fn law_requests_are_refused(source: VideoFrameMetadata, target: VideoFrameSamplingTarget)
    ensures
        ({
            let video = 0 < source.original_fps.bits < 0x7ff0_0000_0000_0000;
            let asked = 0 < target.fps.bits < 0x7ff0_0000_0000_0000;
            let refusal = video_sampling::request_refusal(source, target);
            &&& source.total_frames == 0 ==> refusal == Some("video contains no frames"@)
            &&& source.total_frames > 0 && !video ==> refusal == Some(
                "video sampling needs a known positive fps"@,
            )
            &&& source.total_frames > 0 && video && !asked ==> refusal == Some(
                "target sampling needs a known positive fps"@,
            )
            &&& source.total_frames > 0 && video && asked && (target.min_frames == 0
                || target.max_frames == 0) ==> refusal == Some(
                "video sampling frame limits must be greater than 0"@,
            )
            &&& source.total_frames > 0 && video && asked && target.max_frames > 0
                && target.min_frames > target.max_frames ==> refusal == Some(
                "min_frames must be less than or equal to max_frames"@,
            )
            &&& source.total_frames > 0 && video && asked && 0 < target.min_frames
                <= target.max_frames ==> refusal is None
        }),
{
    law_bits_of_rates(source.original_fps.bits);
    law_bits_of_rates(target.fps.bits);
    reveal_strlit("video");
    reveal_strlit("target");
    reveal_strlit(" sampling needs a known positive fps");
    reveal_strlit("video sampling needs a known positive fps");
    reveal_strlit("target sampling needs a known positive fps");
    assert("video"@ + " sampling needs a known positive fps"@
        =~= "video sampling needs a known positive fps"@);
    assert("target"@ + " sampling needs a known positive fps"@
        =~= "target sampling needs a known positive fps"@);
}

/// Indices are handed on, unchanged, exactly where there are any, each names a frame of the source,
/// and none is below the one before it.
pub proof fn law_usable_indices_are_handed_on(indices: Seq<usize>, total_frames: nat)
    ensures
        video_sampling::checked(indices, total_frames) is Ok <==> {
            &&& indices.len() > 0
            &&& forall|i: int| 0 <= i < indices.len() ==> #[trigger] indices[i] < total_frames
            &&& forall|i: int|
                0 < i < indices.len() ==> indices[i - 1] <= #[trigger] indices[i]
        },
        video_sampling::checked(indices, total_frames) matches Ok(kept) ==> kept == indices,
{
    if forall|i: int| 0 < i < indices.len() ==> indices[i - 1] <= #[trigger] indices[i] {
        assert forall|a: int, b: int| 0 <= a <= b < indices.len() implies indices[a]
            <= indices[b] by {
            lemma_steps_add_up(indices, a, b);
        }
    }
}

proof fn lemma_steps_add_up(indices: Seq<usize>, a: int, b: int)
    requires
        0 <= a <= b < indices.len(),
        forall|i: int| 0 < i < indices.len() ==> indices[i - 1] <= #[trigger] indices[i],
    ensures
        indices[a] <= indices[b],
    decreases b - a,
{
    if a < b {
        lemma_steps_add_up(indices, a, b - 1);
        assert(indices[b - 1] <= indices[b]);
    }
}

/// What is wrong with indices is said of the first that applies: that there are none, the first
/// one that is beyond the last frame, or that they step back.
pub proof fn law_unusable_indices_are_explained(
    indices: Seq<usize>,
    total_frames: nat,
    first: int,
)
    ensures
        indices.len() == 0 ==> video_sampling::checked(indices, total_frames) == Sampling::Err(
            MediaConnectorErrorView::VideoDecode("video sampling produced no frames"@),
        ),
        0 <= first < indices.len() && indices[first] >= total_frames && (forall|j: int|
            0 <= j < first ==> #[trigger] indices[j] < total_frames) ==> video_sampling::checked(
            indices,
            total_frames,
        ) == Sampling::Err(
            MediaConnectorErrorView::VideoDecode(
                "video sampler returned out-of-range frame index "@ + text::decimal_digits(
                    indices[first] as nat,
                ) + " for "@ + text::decimal_digits(total_frames) + " frames"@,
            ),
        ),
        0 < first < indices.len() && indices[first - 1] > indices[first] && (forall|j: int|
            0 <= j < indices.len() ==> #[trigger] indices[j] < total_frames)
            ==> video_sampling::checked(indices, total_frames) == Sampling::Err(
            MediaConnectorErrorView::VideoDecode(
                "video sampler must return non-decreasing frame indices"@,
            ),
        ),
{
    if 0 <= first < indices.len() && indices[first] >= total_frames && (forall|j: int|
        0 <= j < first ==> #[trigger] indices[j] < total_frames) {
        assert(video_sampling::first_out_of_range(indices, total_frames, first));
        let k = choose|k: int| video_sampling::first_out_of_range(indices, total_frames, k);
        assert(k == first);
        assert(!video_sampling::in_range(indices, total_frames));
    }
}

/// The whole frames of an estimate are how many uniform sampling takes, where the limits and the
/// source allow it; beyond a limit it takes that limit, and never more than the source or none.
pub proof fn law_uniform_count_is_the_estimate(
    source: VideoFrameMetadata,
    target: VideoFrameSamplingTarget,
)
    requires
        source.total_frames > 0,
        target.min_frames <= target.max_frames,
    ensures
        ({
            let estimate = video_sampling::frame_estimate(source, target).truncated(
                float::binary64(),
                usize::MAX as nat,
            );
            let count = video_sampling::uniform_count(source, target);
            let asked = if estimate < target.min_frames {
                target.min_frames as nat
            } else if estimate > target.max_frames {
                target.max_frames as nat
            } else {
                estimate
            };
            &&& 1 <= asked <= source.total_frames ==> count == asked
            &&& asked == 0 ==> count == 1
            &&& asked > source.total_frames ==> count == source.total_frames
        }),
{
}

/// A uniform sample holds as many indices as are counted, whichever of the uniform samplers takes
/// it; Qwen3-VL samples as the uniform sampler does, and Qwen2-VL in its own way.
pub proof fn law_samplers_are_dispatched(
    source: VideoFrameMetadata,
    target: VideoFrameSamplingTarget,
    qwen2: Qwen2VlFrameSampler,
)
    ensures
        ({
            let uniform = FrameSampler::UniformFps(UniformFpsFrameSampler);
            let qwen3 = FrameSampler::Qwen3Vl(Qwen3VlFrameSampler);
            let count = video_sampling::uniform_count(source, target);
            &&& qwen3.sampled(source, target) == uniform.sampled(source, target)
            &&& uniform.sampled(source, target) matches Ok(indices) && indices.len() == count
                && indices == video_sampling::uniform_indices(source.total_frames as nat, count)
            &&& FrameSampler::Qwen2Vl(qwen2).sampled(source, target) == qwen2_vl::qwen2_sampling(
                qwen2.temporal_patch_size as nat,
                source,
                target,
            )
        }),
{
}

/// Every request that is not refused can be handed to every sampler of the library; the uniform
/// samplers need no more than a frame and limits that do not cross, and Qwen2-VL needs nothing.
pub proof fn law_samplers_accept_requests(
    source: VideoFrameMetadata,
    target: VideoFrameSamplingTarget,
    sampler: FrameSampler,
    qwen2: Qwen2VlFrameSampler,
)
    ensures
        video_sampling::request_refusal(source, target) is None ==> sampler.accepts(source, target),
        qwen2.accepts(source, target),
        source.total_frames > 0 && target.min_frames <= target.max_frames ==> sampler.accepts(
            source,
            target,
        ) && UniformFpsFrameSampler.accepts(source, target) && Qwen3VlFrameSampler.accepts(
            source,
            target,
        ),
{
}

/// The contents of results and errors are what they hold, in their order.
pub proof fn law_results_are_read_as_they_are(
    indices: Vec<usize>,
    e: MediaConnectorError,
    message: String,
    field: String,
)
    ensures
        video_sampling::sampling(Ok(indices)) == Sampling::Ok(indices@),
        video_sampling::sampling(Err(e)) == Sampling::Err(e@),
        MediaConnectorError::VideoDecode(message)@ == MediaConnectorErrorView::VideoDecode(
            message@,
        ),
        (ModelRegistryError::MissingConfigField { field })@
            == (ModelRegistryErrorView::MissingConfigField { field: field@ }),
{
}

} // verus!
