//! The frame samplers of particular models.
pub mod qwen2_vl;
pub mod qwen3_vl;

use crate::error::MediaConnectorError;
use crate::video_sampling;
use crate::video_sampling::{
    Sampling, UniformFpsFrameSampler, VideoFrameMetadata, VideoFrameSampler,
    VideoFrameSamplingTarget,
};
use crate::vision::video_sampling::qwen2_vl::Qwen2VlFrameSampler;
use crate::vision::video_sampling::qwen3_vl::Qwen3VlFrameSampler;
use vstd::prelude::*;

verus! {

/// The sampler of a model that the library knows.
#[derive(Clone, Copy, Debug, PartialEq, Eq)]
pub enum FrameSampler {
    UniformFps(UniformFpsFrameSampler),
    Qwen2Vl(Qwen2VlFrameSampler),
    Qwen3Vl(Qwen3VlFrameSampler),
}

impl FrameSampler {
    /// What the sampler makes of a request.
    pub open spec fn sampled(
        self,
        source: VideoFrameMetadata,
        target: VideoFrameSamplingTarget,
    ) -> Sampling {
        match self {
            FrameSampler::Qwen2Vl(sampler) => qwen2_vl::qwen2_sampling(
                sampler.temporal_patch_size as nat,
                source,
                target,
            ),
            _ => Ok(
                video_sampling::uniform_indices(
                    source.total_frames as nat,
                    video_sampling::uniform_count(source, target),
                ),
            ),
        }
    }
}

impl VideoFrameSampler for FrameSampler {
    open spec fn accepts(
        &self,
        source: VideoFrameMetadata,
        target: VideoFrameSamplingTarget,
    ) -> bool {
        match self {
            FrameSampler::UniformFps(sampler) => sampler.accepts(source, target),
            FrameSampler::Qwen2Vl(sampler) => sampler.accepts(source, target),
            FrameSampler::Qwen3Vl(sampler) => sampler.accepts(source, target),
        }
    }

    fn sample_frame_indices(
        &self,
        source: VideoFrameMetadata,
        target: VideoFrameSamplingTarget,
    ) -> (r: Result<Vec<usize>, MediaConnectorError>)
        ensures
            video_sampling::sampling(r) == self.sampled(source, target),
    {
        match self {
            FrameSampler::UniformFps(sampler) => sampler.sample_frame_indices(source, target),
            FrameSampler::Qwen2Vl(sampler) => sampler.sample_frame_indices(source, target),
            FrameSampler::Qwen3Vl(sampler) => sampler.sample_frame_indices(source, target),
        }
    }
}

} // verus!
