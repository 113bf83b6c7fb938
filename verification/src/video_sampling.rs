//! Which frames of a video are shown to a model.
use crate::error::{MediaConnectorError, MediaConnectorErrorView};
use crate::float;
use crate::float::{Binary64, F64Bits, FloatValue};
use crate::text;
use vstd::prelude::*;
use vstd::string::*;

verus! {

/// Source metadata needed by frame samplers.
#[derive(Clone, Copy, Debug, PartialEq)]
pub struct VideoFrameMetadata {
    pub total_frames: usize,
    pub original_fps: F64Bits,
}

/// Model-requested frame sampling limits.
#[derive(Clone, Copy, Debug, PartialEq)]
pub struct VideoFrameSamplingTarget {
    pub min_frames: usize,
    pub max_frames: usize,
    pub fps: F64Bits,
}

/// What sampling came to: source-frame indices, or what went wrong.
pub type Sampling = Result<Seq<usize>, MediaConnectorErrorView>;

/// The content of a sampler's result.
pub open spec fn sampling(r: Result<Vec<usize>, MediaConnectorError>) -> Sampling {
    match r {
        Ok(indices) => Ok(indices@),
        Err(e) => Err(e@),
    }
}

/// A sampling that failed with a message.
pub open spec fn sampling_failure(message: Seq<char>) -> Sampling {
    Err(MediaConnectorErrorView::VideoDecode(message))
}

/// Whether the indices never step back.
pub open spec fn non_decreasing(indices: Seq<usize>) -> bool {
    forall|i: int, j: int| 0 <= i <= j < indices.len() ==> indices[i] <= indices[j]
}

/// Whether every index names a frame of the source.
pub open spec fn in_range(indices: Seq<usize>, total_frames: nat) -> bool {
    forall|i: int| 0 <= i < indices.len() ==> #[trigger] indices[i] < total_frames
}

/// Why a request is refused before any sampler sees it, if it is.
pub open spec fn request_refusal(
    source: VideoFrameMetadata,
    target: VideoFrameSamplingTarget,
) -> Option<Seq<char>> {
    if source.total_frames == 0 {
        Some("video contains no frames"@)
    } else if !source.original_fps@.is_positive_finite() {
        Some("video"@ + " sampling needs a known positive fps"@)
    } else if !target.fps@.is_positive_finite() {
        Some("target"@ + " sampling needs a known positive fps"@)
    } else if target.min_frames == 0 || target.max_frames == 0 {
        Some("video sampling frame limits must be greater than 0"@)
    } else if target.min_frames > target.max_frames {
        Some("min_frames must be less than or equal to max_frames"@)
    } else {
        None
    }
}

/// The message about an index beyond the last frame.
pub open spec fn out_of_range_message(index: nat, total_frames: nat) -> Seq<char> {
    "video sampler returned out-of-range frame index "@ + text::decimal_digits(index) + " for "@
        + text::decimal_digits(total_frames) + " frames"@
}

/// Whether `i` is the first position whose index is beyond the last frame.
pub open spec fn first_out_of_range(indices: Seq<usize>, total_frames: nat, i: int) -> bool {
    &&& 0 <= i < indices.len()
    &&& indices[i] >= total_frames
    &&& forall|j: int| 0 <= j < i ==> #[trigger] indices[j] < total_frames
}

/// What the decoder is handed for a sampler's indices: the same indices where they are usable,
/// and otherwise what is wrong with them.
pub open spec fn checked(indices: Seq<usize>, total_frames: nat) -> Sampling {
    if indices.len() == 0 {
        sampling_failure("video sampling produced no frames"@)
    } else if !in_range(indices, total_frames) {
        let i = choose|i: int| first_out_of_range(indices, total_frames, i);
        sampling_failure(out_of_range_message(indices[i] as nat, total_frames))
    } else if !non_decreasing(indices) {
        sampling_failure("video sampler must return non-decreasing frame indices"@)
    } else {
        Ok(indices)
    }
}

/// Extensible source-frame sampling interface.
pub trait VideoFrameSampler: std::fmt::Debug + Send + Sync {
    /// The requests that the sampler can be given: by default those that are not refused.
    open spec fn accepts(
        &self,
        source: VideoFrameMetadata,
        target: VideoFrameSamplingTarget,
    ) -> bool {
        request_refusal(source, target) is None
    }

    /// Return non-decreasing source-frame indices. Adjacent duplicates are
    /// allowed when a model requires frame padding.
    fn sample_frame_indices(
        &self,
        source: VideoFrameMetadata,
        target: VideoFrameSamplingTarget,
    ) -> Result<Vec<usize>, MediaConnectorError>
        requires
            self.accepts(source, target),
    ;
}

/// An error of video sampling.
pub fn sampling_error(message: String) -> (r: MediaConnectorError)
    ensures
        r@ == MediaConnectorErrorView::VideoDecode(message@),
{
    MediaConnectorError::VideoDecode(message)
}

fn require_positive_fps(fps: F64Bits, name: &str) -> (r: Result<(), MediaConnectorError>)
    ensures
        r is Ok <==> fps@.is_positive_finite(),
        r matches Err(e) ==> e@ == MediaConnectorErrorView::VideoDecode(
            name@ + " sampling needs a known positive fps"@,
        ),
{
    if fps.decode().is_positive_finite() {
        Ok(())
    } else {
        let mut message = String::from_str(name);
        message.append(" sampling needs a known positive fps");
        Err(sampling_error(message))
    }
}

/// Validate the decoder-facing index contract of a sampler's result.
pub fn check_frame_indices(
    indices: Vec<usize>,
    total_frames: usize,
) -> (r: Result<Vec<usize>, MediaConnectorError>)
    ensures
        sampling(r) == checked(indices@, total_frames as nat),
        r matches Ok(kept) ==> kept == indices,
{
    if indices.len() == 0 {
        return Err(sampling_error(String::from_str("video sampling produced no frames")));
    }
    let mut i: usize = 0;
    while i < indices.len()
        invariant
            i <= indices.len(),
            indices.len() > 0,
            forall|j: int| 0 <= j < i ==> #[trigger] indices[j] < total_frames,
        decreases indices.len() - i,
    {
        if indices[i] >= total_frames {
            let mut message = String::from_str("video sampler returned out-of-range frame index ");
            message.append(text::decimal(indices[i]).as_str());
            message.append(" for ");
            message.append(text::decimal(total_frames).as_str());
            message.append(" frames");
            proof {
                assert(first_out_of_range(indices@, total_frames as nat, i as int));
                let k = choose|k: int| first_out_of_range(indices@, total_frames as nat, k);
                assert(k == i);
                assert(!in_range(indices@, total_frames as nat));
            }
            return Err(sampling_error(message));
        }
        i = i + 1;
    }
    assert(in_range(indices@, total_frames as nat));
    let mut k: usize = 1;
    while k < indices.len()
        invariant
            1 <= k <= indices.len(),
            in_range(indices@, total_frames as nat),
            forall|a: int, b: int| 0 <= a <= b < k ==> indices[a] <= indices[b],
        decreases indices.len() - k,
    {
        if indices[k - 1] > indices[k] {
            assert(!non_decreasing(indices@));
            return Err(
                sampling_error(
                    String::from_str("video sampler must return non-decreasing frame indices"),
                ),
            );
        }
        k = k + 1;
    }
    Ok(indices)
}

/// Run a sampler and validate its decoder-facing index contract.
pub fn sample_video_frame_indices<S: VideoFrameSampler + ?Sized>(
    source: VideoFrameMetadata,
    target: VideoFrameSamplingTarget,
    sampler: &S,
) -> (r: Result<Vec<usize>, MediaConnectorError>)
    requires
        request_refusal(source, target) is None ==> sampler.accepts(source, target),
    ensures
        request_refusal(source, target) matches Some(message) ==> sampling(r) == sampling_failure(
            message,
        ),
        request_refusal(source, target) is None ==> exists|out:
            Result<Vec<usize>, MediaConnectorError>| #[trigger]
            call_ensures(S::sample_frame_indices, (sampler, source, target), out) && sampling(r)
                == (match sampling(out) {
                Ok(indices) => checked(indices, source.total_frames as nat),
                Err(e) => Err(e),
            }),
        r matches Ok(indices) ==> indices.len() > 0 && in_range(
            indices@,
            source.total_frames as nat,
        ) && non_decreasing(indices@),
{
    if source.total_frames == 0 {
        return Err(sampling_error(String::from_str("video contains no frames")));
    }
    if let Err(e) = require_positive_fps(source.original_fps, "video") {
        return Err(e);
    }
    if let Err(e) = require_positive_fps(target.fps, "target") {
        return Err(e);
    }
    if target.min_frames == 0 || target.max_frames == 0 {
        return Err(
            sampling_error(String::from_str("video sampling frame limits must be greater than 0")),
        );
    }
    if target.min_frames > target.max_frames {
        return Err(
            sampling_error(String::from_str("min_frames must be less than or equal to max_frames")),
        );
    }
    let out = sampler.sample_frame_indices(source, target);
    match out {
        Ok(indices) => check_frame_indices(indices, source.total_frames),
        Err(e) => Err(e),
    }
}

/// How many frames the target rate asks for, before any limit: the duration of the source in
/// seconds, times the rate.
pub open spec fn frame_estimate(
    source: VideoFrameMetadata,
    target: VideoFrameSamplingTarget,
) -> FloatValue {
    FloatValue::of_nat(float::binary64(), source.total_frames as nat).over(
        float::binary64(),
        source.original_fps@,
    ).times(float::binary64(), target.fps@)
}

/// How many frames the target rate asks for, before any limit.
pub fn estimate_frames(
    source: VideoFrameMetadata,
    target: VideoFrameSamplingTarget,
) -> (r: Binary64)
    ensures
        r.well_formed(),
        r@ == frame_estimate(source, target),
{
    Binary64::from_usize(source.total_frames).div(source.original_fps.decode()).mul(
        target.fps.decode(),
    )
}

/// The value at position `i` of `count` evenly spaced values from zero to `end`.
pub open spec fn linspace_value(end: FloatValue, count: nat, i: nat) -> FloatValue {
    if count == 1 {
        FloatValue::zero()
    } else {
        end.times(float::binary64(), FloatValue::of_nat(float::binary64(), i)).over(
            float::binary64(),
            FloatValue::of_nat(float::binary64(), (count - 1) as nat),
        )
    }
}

/// `count` evenly spaced values from zero to `end`.
fn linspace_values(end: Binary64, count: usize) -> (r: Vec<Binary64>)
    requires
        end.well_formed(),
    ensures
        r.len() == count,
        forall|i: int|
            0 <= i < count ==> #[trigger] r[i]@ == linspace_value(end@, count as nat, i as nat),
        forall|i: int| 0 <= i < count ==> #[trigger] r[i].well_formed(),
{
    let mut r: Vec<Binary64> = Vec::new();
    if count == 0 {
        return r;
    }
    if count == 1 {
        r.push(Binary64::from_usize(0));
        proof {
            float::lemma_zero(float::binary64());
        }
        return r;
    }
    let steps = Binary64::from_usize(count - 1);
    let mut i: usize = 0;
    while i < count
        invariant
            2 <= count,
            i <= count,
            r.len() == i,
            end.well_formed(),
            steps.well_formed(),
            steps@ == FloatValue::of_nat(float::binary64(), (count - 1) as nat),
            forall|j: int|
                0 <= j < i ==> #[trigger] r[j]@ == linspace_value(end@, count as nat, j as nat),
            forall|j: int| 0 <= j < i ==> #[trigger] r[j].well_formed(),
        decreases count - i,
    {
        r.push(end.mul(Binary64::from_usize(i)).div(steps));
        i = i + 1;
    }
    r
}

/// The index at position `i` of `count` evenly spaced indices into `total` frames.
pub open spec fn uniform_index(total: nat, count: nat, i: nat) -> nat {
    linspace_value(
        FloatValue::of_nat(float::binary64(), (total - 1) as nat),
        count,
        i,
    ).rounded(float::binary64(), usize::MAX as nat)
}

/// `count` evenly spaced indices into `total` frames.
pub open spec fn uniform_indices(total: nat, count: nat) -> Seq<usize> {
    Seq::new(count, |i: int| uniform_index(total, count, i as nat) as usize)
}

/// `count` evenly spaced indices, from the first of `total` frames to the last, each rounded to
/// the nearest frame.
pub fn uniform_indices_round(total: usize, count: usize) -> (r: Vec<usize>)
    requires
        total > 0,
    ensures
        r@ == uniform_indices(total as nat, count as nat),
{
    let end = Binary64::from_usize(total - 1);
    let values = linspace_values(end, count);
    let mut r: Vec<usize> = Vec::new();
    let mut i: usize = 0;
    while i < values.len()
        invariant
            values.len() == count,
            i <= count,
            r.len() == i,
            end@ == FloatValue::of_nat(float::binary64(), (total - 1) as nat),
            forall|j: int|
                0 <= j < count ==> #[trigger] values[j]@ == linspace_value(
                    end@,
                    count as nat,
                    j as nat,
                ),
            forall|j: int| 0 <= j < count ==> #[trigger] values[j].well_formed(),
            forall|j: int|
                0 <= j < i ==> #[trigger] r[j] == uniform_index(
                    total as nat,
                    count as nat,
                    j as nat,
                ),
        decreases count - i,
    {
        let value = values[i];
        r.push(value.round_ties_even());
        i = i + 1;
    }
    assert(r@ =~= uniform_indices(total as nat, count as nat));
    r
}

/// Reusable uniform FPS sampler used by Qwen3-VL and compatible models.
#[derive(Clone, Copy, Debug, PartialEq, Eq)]
pub struct UniformFpsFrameSampler;

impl Default for UniformFpsFrameSampler {
    fn default() -> (r: Self)
        ensures
            r == UniformFpsFrameSampler,
    {
        UniformFpsFrameSampler
    }
}

/// `x`, brought into `low..=high`.
pub open spec fn clamped(x: nat, low: nat, high: nat) -> nat {
    if x < low {
        low
    } else if x > high {
        high
    } else {
        x
    }
}

/// How many frames uniform sampling takes: the estimate, within the limits, but no more than the
/// source has and at least one.
pub open spec fn uniform_count(
    source: VideoFrameMetadata,
    target: VideoFrameSamplingTarget,
) -> nat {
    clamped(
        clamped(
            frame_estimate(source, target).truncated(float::binary64(), usize::MAX as nat),
            target.min_frames as nat,
            target.max_frames as nat,
        ),
        1,
        source.total_frames as nat,
    )
}

impl VideoFrameSampler for UniformFpsFrameSampler {
    open spec fn accepts(
        &self,
        source: VideoFrameMetadata,
        target: VideoFrameSamplingTarget,
    ) -> bool {
        source.total_frames > 0 && target.min_frames <= target.max_frames
    }

    fn sample_frame_indices(
        &self,
        source: VideoFrameMetadata,
        target: VideoFrameSamplingTarget,
    ) -> (r: Result<Vec<usize>, MediaConnectorError>)
        ensures
            sampling(r) == Sampling::Ok(
                uniform_indices(source.total_frames as nat, uniform_count(source, target)),
            ),
    {
        let estimate: usize = estimate_frames(source, target).truncate();
        let limited: usize = if estimate < target.min_frames {
            target.min_frames
        } else if estimate > target.max_frames {
            target.max_frames
        } else {
            estimate
        };
        let available: usize = if limited < source.total_frames {
            limited
        } else {
            source.total_frames
        };
        let count: usize = if available < 1 {
            1
        } else {
            available
        };
        Ok(uniform_indices_round(source.total_frames, count))
    }
}

} // verus!
