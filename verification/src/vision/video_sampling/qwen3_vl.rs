//! The frame sampler of Qwen3-VL.
use crate::error::MediaConnectorError;
use crate::video_sampling;
use crate::video_sampling::{
    Sampling, UniformFpsFrameSampler, VideoFrameMetadata, VideoFrameSampler,
    VideoFrameSamplingTarget,
};
use vstd::prelude::*;

verus! {

/// Qwen3-VL uses the reusable uniform FPS sampling algorithm.
#[derive(Clone, Copy, Debug, PartialEq, Eq)]
pub struct Qwen3VlFrameSampler;

impl Default for Qwen3VlFrameSampler {
    fn default() -> (r: Self)
        ensures
            r == Qwen3VlFrameSampler,
    {
        Qwen3VlFrameSampler
    }
}

impl VideoFrameSampler for Qwen3VlFrameSampler {
    open spec fn accepts(
        &self,
        source: VideoFrameMetadata,
        target: VideoFrameSamplingTarget,
    ) -> bool {
        UniformFpsFrameSampler.accepts(source, target)
    }

    fn sample_frame_indices(
        &self,
        source: VideoFrameMetadata,
        target: VideoFrameSamplingTarget,
    ) -> (r: Result<Vec<usize>, MediaConnectorError>)
        ensures
            video_sampling::sampling(r) == Sampling::Ok(
                video_sampling::uniform_indices(
                    source.total_frames as nat,
                    video_sampling::uniform_count(source, target),
                ),
            ),
    {
        UniformFpsFrameSampler.sample_frame_indices(source, target)
    }
}

} // verus!
