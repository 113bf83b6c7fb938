//! How media are fetched.
use crate::error::MediaConnectorError;
use crate::float::F64Bits;
use crate::video_sampling;
use crate::video_sampling::{
    UniformFpsFrameSampler, VideoFrameMetadata, VideoFrameSampler, VideoFrameSamplingTarget,
};
use crate::vision::video_sampling::FrameSampler;
use std::sync::Arc;
use vstd::prelude::*;

verus! {

/// Where media come from.
#[derive(Debug, PartialEq, Eq)]
pub enum MediaSource {
    Url(String),
    DataUrl(String),
    InlineBytes(Vec<u8>),
}

/// How a video is fetched: what is sampled of it, and by which sampler.
#[derive(Debug)]
pub struct VideoFetchConfig<S> {
    pub target: VideoFrameSamplingTarget,
    pub sampler: Arc<S>,
}

/// Between four and 768 frames, at two frames in a second.
pub open spec fn default_target() -> VideoFrameSamplingTarget {
    VideoFrameSamplingTarget {
        min_frames: 4,
        max_frames: 768,
        fps: F64Bits { bits: 0x4000_0000_0000_0000 },
    }
}

impl Default for VideoFetchConfig<FrameSampler> {
    /// The default target, sampled uniformly.
    fn default() -> (r: Self)
        ensures
            r.target == default_target(),
            r.target.min_frames == 4,
            r.target.max_frames == 768,
            r.target.fps.bits == 0x4000_0000_0000_0000,
            *r.sampler == FrameSampler::UniformFps(UniformFpsFrameSampler),
    {
        VideoFetchConfig {
            target: VideoFrameSamplingTarget {
                min_frames: 4,
                max_frames: 768,
                fps: F64Bits::from_bits(0x4000_0000_0000_0000),
            },
            sampler: Arc::new(FrameSampler::UniformFps(UniformFpsFrameSampler)),
        }
    }
}

impl<S> Clone for VideoFetchConfig<S> {
    fn clone(&self) -> (r: Self)
        ensures
            r == *self,
    {
        VideoFetchConfig { target: self.target, sampler: self.sampler.clone() }
    }
}

impl<S> VideoFetchConfig<S> {
    /// The same target, sampled by another sampler.
    pub fn with_frame_sampler<T: VideoFrameSampler>(self, sampler: T) -> (r: VideoFetchConfig<T>)
        ensures
            r.target == self.target,
            *r.sampler == sampler,
    {
        VideoFetchConfig { target: self.target, sampler: Arc::new(sampler) }
    }
}

/// Samples a video as a fetch configuration says.
pub fn sample_video_frame_indices<S: VideoFrameSampler>(
    source: VideoFrameMetadata,
    config: &VideoFetchConfig<S>,
) -> (r: Result<Vec<usize>, MediaConnectorError>)
    requires
        video_sampling::request_refusal(source, config.target) is None ==> config.sampler.accepts(
            source,
            config.target,
        ),
    ensures
        video_sampling::request_refusal(source, config.target) matches Some(message)
            ==> video_sampling::sampling(r) == video_sampling::sampling_failure(message),
        video_sampling::request_refusal(source, config.target) is None ==> exists|out:
            Result<Vec<usize>, MediaConnectorError>| #[trigger]
            call_ensures(S::sample_frame_indices, (&*config.sampler, source, config.target), out)
                && video_sampling::sampling(r) == (match video_sampling::sampling(out) {
                Ok(indices) => video_sampling::checked(indices, source.total_frames as nat),
                Err(e) => Err(e),
            }),
        r matches Ok(indices) ==> indices.len() > 0 && video_sampling::in_range(
            indices@,
            source.total_frames as nat,
        ) && video_sampling::non_decreasing(indices@),
{
    let sampler: &S = &config.sampler;
    video_sampling::sample_video_frame_indices(source, config.target, sampler)
}

} // verus!
