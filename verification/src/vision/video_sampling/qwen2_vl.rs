//! The frame sampler of Qwen2-VL and Qwen2.5-VL.
use crate::error::MediaConnectorError;
use crate::float;
use crate::float::{Binary32, Binary64, FloatValue};
use crate::sampling_laws;
use crate::video_sampling;
use crate::video_sampling::{
    Sampling, VideoFrameMetadata, VideoFrameSampler, VideoFrameSamplingTarget,
};
use vstd::prelude::*;
use vstd::string::*;

verus! {

/// Qwen2/2.5-VL FPS sampler.
#[derive(Clone, Copy, Debug, PartialEq, Eq)]
pub struct Qwen2VlFrameSampler {
    pub temporal_patch_size: usize,
}

/// The greatest multiple of `size` that is at most `x`.
pub open spec fn aligned_down(x: nat, size: nat) -> nat {
    x / size * size
}

/// The most frames that may be taken: what the target and the source allow, in whole patches.
pub open spec fn aligned_limit(
    size: nat,
    source: VideoFrameMetadata,
    target: VideoFrameSamplingTarget,
) -> nat {
    aligned_down(
        if target.max_frames < source.total_frames {
            target.max_frames as nat
        } else {
            source.total_frames as nat
        },
        size,
    )
}

/// The estimate, within the limits.
pub open spec fn wanted(
    size: nat,
    source: VideoFrameMetadata,
    target: VideoFrameSamplingTarget,
) -> FloatValue {
    let f = float::binary64();
    video_sampling::frame_estimate(source, target).greater_of(
        FloatValue::of_nat(f, target.min_frames as nat),
    ).lesser_of(FloatValue::of_nat(f, aligned_limit(size, source, target))).lesser_of(
        FloatValue::of_nat(f, source.total_frames as nat),
    )
}

/// How many frames are planned for: the estimate, within the limits, in whole patches.
pub open spec fn planned_count(
    size: nat,
    source: VideoFrameMetadata,
    target: VideoFrameSamplingTarget,
) -> nat {
    aligned_down(
        wanted(size, source, target).truncated(float::binary64(), usize::MAX as nat),
        size,
    )
}

/// The position in the source, in single precision, of the frame with number `i` out of `count`.
pub open spec fn arange_value(total: nat, count: nat, i: nat) -> FloatValue {
    let f = float::binary32();
    FloatValue::of_nat(f, i).times(
        f,
        FloatValue::of_nat(f, total).over(f, FloatValue::of_nat(f, count)),
    )
}

/// Whether the position with number `i` is past the source.
pub open spec fn arange_ends(total: nat, count: nat, i: nat) -> bool {
    arange_value(total, count, i).at_least(FloatValue::of_nat(float::binary32(), total))
}

/// The first number from `i` on that ends the positions; after `count` they end in any case.
pub open spec fn arange_end(total: nat, count: nat, i: nat) -> nat
    decreases count + 1 - i,
{
    if i > count || arange_ends(total, count, i) {
        i
    } else {
        arange_end(total, count, i + 1)
    }
}

/// The source frame at a position: the one that it lies in, but no later than the last.
pub open spec fn arange_index(total: nat, count: nat, i: nat) -> nat {
    let x = arange_value(total, count, i).truncated(float::binary32(), usize::MAX as nat);
    if x < total - 1 {
        x
    } else {
        (total - 1) as nat
    }
}

/// The source frames at all positions up to the end of the source.
pub open spec fn arange_indices(total: nat, count: nat) -> Seq<usize> {
    Seq::new(
        arange_end(total, count, 0),
        |i: int| arange_index(total, count, i as nat) as usize,
    )
}

/// The source frames at the first `count` of the positions for `count` frames.
pub open spec fn planned_indices(total: nat, count: nat) -> Seq<usize> {
    Seq::new(count, |i: int| arange_index(total, count, i as nat) as usize)
}

/// A planned count, as far as a limit allows it in whole patches.
pub open spec fn held_count(size: nat, count: nat, max_frames: nat) -> nat {
    if count <= max_frames {
        count
    } else {
        aligned_down(max_frames, size)
    }
}

/// The frames that are taken: those at all positions up to the end of the source, where they make
/// whole patches and keep the limit. Rounding can make them one more than planned, or fewer where
/// many are planned; where that breaks a patch or the limit, the planned ones are taken.
pub open spec fn taken_indices(size: nat, total: nat, count: nat, max_frames: nat) -> Seq<usize> {
    let all = arange_indices(total, count);
    if all.len() % size == 0 && all.len() <= max_frames {
        all
    } else {
        planned_indices(total, held_count(size, count, max_frames))
    }
}

/// What the sampler makes of a request.
pub open spec fn qwen2_sampling(
    size: nat,
    source: VideoFrameMetadata,
    target: VideoFrameSamplingTarget,
) -> Sampling {
    if size == 0 {
        video_sampling::sampling_failure("Qwen2-VL temporal_patch_size must be greater than 0"@)
    } else if aligned_limit(size, source, target) == 0 {
        video_sampling::sampling_failure("Qwen2-VL frame limit is smaller than temporal_patch_size"@)
    } else if planned_count(size, source, target) == 0 {
        video_sampling::sampling_failure("Qwen2-VL sampling produced zero frames"@)
    } else {
        Ok(
            taken_indices(
                size,
                source.total_frames as nat,
                planned_count(size, source, target),
                target.max_frames as nat,
            ),
        )
    }
}

fn align_down(x: usize, size: usize) -> (r: usize)
    requires
        size > 0,
    ensures
        r == aligned_down(x as nat, size as nat),
        r <= x,
{
    assert(x / size * size <= x) by (nonlinear_arith)
        requires
            size > 0,
    ;
    x / size * size
}

/// The source frames at evenly spaced positions up to the end of the source, in single precision
/// index arithmetic.
fn arange_frames(total: usize, count: usize) -> (r: Vec<usize>)
    requires
        total > 0,
    ensures
        r@ == arange_indices(total as nat, count as nat),
{
    let limit = Binary32::from_usize(total);
    let step = limit.div(Binary32::from_usize(count));
    let mut indices: Vec<usize> = Vec::new();
    let mut idx: usize = 0;
    let mut more: bool = true;
    while more
        invariant
            total > 0,
            limit.well_formed(),
            step.well_formed(),
            limit@ == FloatValue::of_nat(float::binary32(), total as nat),
            step@ == limit@.over(
                float::binary32(),
                FloatValue::of_nat(float::binary32(), count as nat),
            ),
            idx <= count,
            more ==> indices.len() == idx && arange_end(total as nat, count as nat, 0)
                == arange_end(total as nat, count as nat, idx as nat),
            !more ==> indices.len() == arange_end(total as nat, count as nat, 0),
            forall|j: int|
                0 <= j < indices.len() ==> #[trigger] indices[j] == arange_index(
                    total as nat,
                    count as nat,
                    j as nat,
                ),
        decreases
                count - idx,
                if more {
                    1int
                } else {
                    0int
                },
    {
        let value = Binary32::from_usize(idx).mul(step);
        if value.at_least(limit) {
            more = false;
        } else {
            let position: usize = value.truncate();
            indices.push(
                if position < total - 1 {
                    position
                } else {
                    total - 1
                },
            );
            if idx == count {
                assert(arange_end(total as nat, count as nat, (idx + 1) as nat) == idx + 1);
                more = false;
            } else {
                idx = idx + 1;
            }
        }
    }
    assert(indices@ =~= arange_indices(total as nat, count as nat));
    indices
}

/// The source frames at `count` evenly spaced positions, in single precision index arithmetic.
fn planned_frames(total: usize, count: usize) -> (r: Vec<usize>)
    requires
        total > 0,
    ensures
        r@ == planned_indices(total as nat, count as nat),
{
    let step = Binary32::from_usize(total).div(Binary32::from_usize(count));
    let mut indices: Vec<usize> = Vec::new();
    let mut idx: usize = 0;
    while idx < count
        invariant
            total > 0,
            step.well_formed(),
            step@ == FloatValue::of_nat(float::binary32(), total as nat).over(
                float::binary32(),
                FloatValue::of_nat(float::binary32(), count as nat),
            ),
            idx <= count,
            indices.len() == idx,
            forall|j: int|
                0 <= j < idx ==> #[trigger] indices[j] == arange_index(
                    total as nat,
                    count as nat,
                    j as nat,
                ),
        decreases count - idx,
    {
        let position: usize = Binary32::from_usize(idx).mul(step).truncate();
        indices.push(
            if position < total - 1 {
                position
            } else {
                total - 1
            },
        );
        idx = idx + 1;
    }
    assert(indices@ =~= planned_indices(total as nat, count as nat));
    indices
}

impl VideoFrameSampler for Qwen2VlFrameSampler {
    open spec fn accepts(
        &self,
        source: VideoFrameMetadata,
        target: VideoFrameSamplingTarget,
    ) -> bool {
        true
    }

    fn sample_frame_indices(
        &self,
        source: VideoFrameMetadata,
        target: VideoFrameSamplingTarget,
    ) -> (r: Result<Vec<usize>, MediaConnectorError>)
        ensures
            video_sampling::sampling(r) == qwen2_sampling(
                self.temporal_patch_size as nat,
                source,
                target,
            ),
            r matches Ok(indices) ==> {
                &&& indices.len() % self.temporal_patch_size == 0
                &&& self.temporal_patch_size <= indices.len() <= target.max_frames
            },
    {
        let size: usize = self.temporal_patch_size;
        if size == 0 {
            return Err(
                MediaConnectorError::VideoDecode(
                    String::from_str("Qwen2-VL temporal_patch_size must be greater than 0"),
                ),
            );
        }
        let total: usize = source.total_frames;
        let limit: usize = align_down(
            if target.max_frames < total {
                target.max_frames
            } else {
                total
            },
            size,
        );
        if limit == 0 {
            return Err(
                MediaConnectorError::VideoDecode(
                    String::from_str("Qwen2-VL frame limit is smaller than temporal_patch_size"),
                ),
            );
        }
        let wanted: usize = video_sampling::estimate_frames(source, target).max(
            Binary64::from_usize(target.min_frames),
        ).min(Binary64::from_usize(limit)).min(Binary64::from_usize(total)).truncate();
        let count: usize = align_down(wanted, size);
        if count == 0 {
            return Err(
                MediaConnectorError::VideoDecode(
                    String::from_str("Qwen2-VL sampling produced zero frames"),
                ),
            );
        }
        proof {
            sampling_laws::law_qwen2_sample_is_aligned(*self, source, target);
        }
        let all = arange_frames(total, count);
        if all.len() % size == 0 && all.len() <= target.max_frames {
            Ok(all)
        } else {
            let held: usize = if count <= target.max_frames {
                count
            } else {
                align_down(target.max_frames, size)
            };
            Ok(planned_frames(total, held))
        }
    }
}

} // verus!
