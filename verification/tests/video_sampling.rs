use llm_multimodal::float::Binary64;
use llm_multimodal::video_sampling::{
    check_frame_indices, estimate_frames, sample_video_frame_indices, sampling_error, uniform_indices_round,
};
use llm_multimodal::vision::video_sampling::FrameSampler;
use llm_multimodal::{
    F64Bits, MediaConnectorError, Qwen2VlFrameSampler, Qwen3VlFrameSampler, UniformFpsFrameSampler,
    VideoFetchConfig, VideoFrameMetadata, VideoFrameSampler, VideoFrameSamplingTarget,
};

fn fps(x: f64) -> F64Bits {
    F64Bits::from_bits(x.to_bits())
}

fn source(total_frames: usize, original_fps: f64) -> VideoFrameMetadata {
    VideoFrameMetadata { total_frames, original_fps: fps(original_fps) }
}

fn target(min_frames: usize, max_frames: usize, rate: f64) -> VideoFrameSamplingTarget {
    VideoFrameSamplingTarget { min_frames, max_frames, fps: fps(rate) }
}

fn failure(message: &str) -> Result<Vec<usize>, MediaConnectorError> {
    Err(MediaConnectorError::VideoDecode(message.to_string()))
}

#[derive(Debug)]
struct FirstLastFrameSampler;

impl VideoFrameSampler for FirstLastFrameSampler {
    fn sample_frame_indices(
        &self,
        source: VideoFrameMetadata,
        _target: VideoFrameSamplingTarget,
    ) -> Result<Vec<usize>, MediaConnectorError> {
        Ok(vec![0, source.total_frames - 1])
    }
}

#[derive(Debug)]
struct FixedSampler(Result<Vec<usize>, String>);

impl VideoFrameSampler for FixedSampler {
    fn sample_frame_indices(
        &self,
        _source: VideoFrameMetadata,
        _target: VideoFrameSamplingTarget,
    ) -> Result<Vec<usize>, MediaConnectorError> {
        match &self.0 {
            Ok(indices) => Ok(indices.clone()),
            Err(message) => Err(MediaConnectorError::VideoDecode(message.clone())),
        }
    }
}

#[test]
fn custom_sampler_plugs_in_without_core_changes() {
    let indices = sample_video_frame_indices(
        VideoFrameMetadata { total_frames: 10, original_fps: fps(25.0) },
        VideoFrameSamplingTarget { min_frames: 1, max_frames: 10, fps: fps(2.0) },
        &FirstLastFrameSampler,
    )
    .unwrap();
    assert_eq!(indices, vec![0, 9]);
}

#[test]
fn custom_sampler_is_used_behind_a_trait_object() {
    let sampler: Box<dyn VideoFrameSampler> = Box::new(FirstLastFrameSampler);
    let indices =
        sample_video_frame_indices(source(10, 25.0), target(1, 10, 2.0), &*sampler).unwrap();
    assert_eq!(indices, vec![0, 9]);
}

#[test]
fn uniform_fps_matches_qwen3_rounding() {
    let indices = sample_video_frame_indices(
        VideoFrameMetadata { total_frames: 100, original_fps: fps(25.0) },
        VideoFrameSamplingTarget { min_frames: 4, max_frames: 768, fps: fps(2.0) },
        &UniformFpsFrameSampler,
    )
    .unwrap();
    assert_eq!(indices, vec![0, 14, 28, 42, 57, 71, 85, 99]);
}

#[test]
fn qwen3_samples_uniformly() {
    let request = (source(100, 25.0), target(4, 768, 2.0));
    assert_eq!(
        Qwen3VlFrameSampler.sample_frame_indices(request.0, request.1),
        UniformFpsFrameSampler.sample_frame_indices(request.0, request.1),
    );
}

#[test]
fn aligns_to_temporal_patches() {
    let indices = sample_video_frame_indices(
        VideoFrameMetadata { total_frames: 100, original_fps: fps(25.0) },
        VideoFrameSamplingTarget { min_frames: 4, max_frames: 768, fps: fps(2.0) },
        &Qwen2VlFrameSampler { temporal_patch_size: 2 },
    )
    .unwrap();
    assert_eq!(indices, vec![0, 12, 25, 37, 50, 62, 75, 87]);
}

#[test]
fn requests_are_refused_in_order() {
    let sampler = UniformFpsFrameSampler;
    let run = |s: VideoFrameMetadata, t: VideoFrameSamplingTarget| {
        sample_video_frame_indices(s, t, &sampler)
    };
    assert_eq!(run(source(0, 0.0), target(0, 0, 0.0)), failure("video contains no frames"));
    let unknown = "video sampling needs a known positive fps";
    assert_eq!(run(source(5, 0.0), target(0, 0, 0.0)), failure(unknown));
    assert_eq!(run(source(5, -0.0), target(1, 2, 1.0)), failure(unknown));
    assert_eq!(run(source(5, -25.0), target(1, 2, 1.0)), failure(unknown));
    assert_eq!(run(source(5, f64::NAN), target(1, 2, 1.0)), failure(unknown));
    assert_eq!(run(source(5, f64::INFINITY), target(1, 2, 1.0)), failure(unknown));
    let rate = "target sampling needs a known positive fps";
    assert_eq!(run(source(5, 25.0), target(0, 0, 0.0)), failure(rate));
    assert_eq!(run(source(5, 25.0), target(1, 2, f64::NEG_INFINITY)), failure(rate));
    let limits = "video sampling frame limits must be greater than 0";
    assert_eq!(run(source(5, 25.0), target(0, 2, 1.0)), failure(limits));
    assert_eq!(run(source(5, 25.0), target(1, 0, 1.0)), failure(limits));
    assert_eq!(
        run(source(5, 25.0), target(3, 2, 1.0)),
        failure("min_frames must be less than or equal to max_frames"),
    );
    assert_eq!(run(source(5, f64::from_bits(1)), target(1, 2, 1.0)), Ok(vec![0, 4]));
}

#[test]
fn sampler_results_are_checked() {
    let run = |result: Result<Vec<usize>, String>| {
        sample_video_frame_indices(source(10, 25.0), target(1, 10, 2.0), &FixedSampler(result))
    };
    assert_eq!(run(Err("broken".to_string())), failure("broken"));
    assert_eq!(run(Ok(vec![])), failure("video sampling produced no frames"));
    assert_eq!(
        run(Ok(vec![3, 12, 2, 40])),
        failure("video sampler returned out-of-range frame index 12 for 10 frames"),
    );
    assert_eq!(
        run(Ok(vec![3, 2])),
        failure("video sampler must return non-decreasing frame indices"),
    );
    assert_eq!(run(Ok(vec![0, 4, 4, 9])), Ok(vec![0, 4, 4, 9]));
}

#[test]
fn check_keeps_usable_indices() {
    assert_eq!(check_frame_indices(vec![0, 0, 2], 3), Ok(vec![0, 0, 2]));
    assert_eq!(
        check_frame_indices(vec![1234567890], 100),
        failure("video sampler returned out-of-range frame index 1234567890 for 100 frames"),
    );
}

#[test]
fn sampling_errors_are_decode_errors() {
    assert_eq!(
        sampling_error("x".to_string()),
        MediaConnectorError::VideoDecode("x".to_string()),
    );
}

#[test]
fn uniform_indices_edge_counts() {
    assert_eq!(uniform_indices_round(5, 0), Vec::<usize>::new());
    assert_eq!(uniform_indices_round(5, 1), vec![0]);
    assert_eq!(uniform_indices_round(1, 3), vec![0, 0, 0]);
    // Ties go to the even frame: 0, 0.5, 1, 1.5, 2.
    assert_eq!(uniform_indices_round(3, 5), vec![0, 0, 1, 2, 2]);
}

fn reference_uniform(total: usize, count: usize) -> Vec<usize> {
    let end = (total - 1) as f64;
    match count {
        0 => Vec::new(),
        1 => vec![0],
        _ => (0..count)
            .map(|i| (end * i as f64 / (count - 1) as f64).round_ties_even().max(0.0) as usize)
            .collect(),
    }
}

#[test]
fn uniform_indices_follow_double_precision() {
    for total in 1..60 {
        for count in 0..40 {
            assert_eq!(uniform_indices_round(total, count), reference_uniform(total, count));
        }
    }
    for total in [1_000_003, (1 << 51) - 1, (1 << 53) + 3, usize::MAX - 1, usize::MAX] {
        for count in [2, 3, 7, 10, 49, 64] {
            assert_eq!(uniform_indices_round(total, count), reference_uniform(total, count));
        }
    }
}

#[test]
fn uniform_sampling_is_ordered_and_covers_the_source() {
    for (total, count) in [(7, 3), (100, 8), (1 << 40, 33), (1 << 51, 100)] {
        let indices = uniform_indices_round(total, count);
        assert_eq!(indices.len(), count);
        assert_eq!(indices[0], 0);
        assert_eq!(indices[count - 1], total - 1);
        assert!(indices.windows(2).all(|pair| pair[0] <= pair[1]));
    }
}

#[test]
fn uniform_indices_are_exact_for_small_sources() {
    let (total, count): (u128, u128) = (1001, 17);
    let indices = uniform_indices_round(total as usize, count as usize);
    for i in 0..count {
        let (n, d) = (i * (total - 1), count - 1);
        let (q, r) = (n / d, n % d);
        let up = 2 * r > d || (2 * r == d && q % 2 == 1);
        assert_eq!(indices[i as usize] as u128, if up { q + 1 } else { q });
    }
}

#[test]
fn uniform_sampling_can_leave_a_huge_source() {
    let total = (1usize << 53) + 4;
    let last = *uniform_indices_round(total, 2).last().unwrap();
    assert_eq!(last, total);
    assert!(sample_video_frame_indices(
        source(total, 1.0),
        target(2, 2, 1.0),
        &UniformFpsFrameSampler,
    )
    .is_err());
}

#[test]
fn uniform_sampling_can_round_past_the_last_frame() {
    let total = 4040810170675980;
    let indices = uniform_indices_round(total, 171);
    assert_eq!(indices, reference_uniform(total, 171));
    assert_eq!(indices[170], total);
}

#[test]
fn estimates_of_whole_seconds_are_exact() {
    for (seconds, original, rate) in [(4usize, 25usize, 2usize), (7, 60, 3), (1, 1, 9)] {
        let estimate = estimate_frames(
            source(seconds * original, original as f64),
            target(1, 1, rate as f64),
        );
        assert_eq!(estimate.truncate(), seconds * rate);
        assert_eq!(estimate, Binary64::from_usize(seconds * rate));
    }
}

#[test]
fn uniform_count_keeps_the_limits() {
    let count = |s, t| UniformFpsFrameSampler.sample_frame_indices(s, t).unwrap().len();
    assert_eq!(count(source(100, 25.0), target(4, 768, 2.0)), 8);
    assert_eq!(count(source(100, 25.0), target(20, 768, 2.0)), 20);
    assert_eq!(count(source(100, 25.0), target(4, 6, 2.0)), 6);
    assert_eq!(count(source(3, 25.0), target(4, 768, 2.0)), 3);
    assert_eq!(count(source(10, 25.0), target(0, 768, 0.001)), 1);
    assert_eq!(count(source(10, 0.0), target(1, 768, 1.0)), 10);
    assert_eq!(count(source(10, -0.0), target(2, 768, 1.0)), 2);
    assert_eq!(count(source(10, f64::NAN), target(2, 768, 1.0)), 2);
    assert_eq!(count(source(10, f64::from_bits(1)), target(1, 5, 1e300)), 5);
    assert_eq!(count(source(10, f64::INFINITY), target(2, 768, f64::INFINITY)), 2);
}

#[test]
fn uniform_default_is_the_sampler() {
    assert_eq!(UniformFpsFrameSampler::default(), UniformFpsFrameSampler);
    assert_eq!(Qwen3VlFrameSampler::default(), Qwen3VlFrameSampler);
}

fn reference_qwen2(
    size: usize,
    total: usize,
    original: f64,
    min: usize,
    max: usize,
    rate: f64,
) -> Result<Vec<usize>, MediaConnectorError> {
    if size == 0 {
        return failure("Qwen2-VL temporal_patch_size must be greater than 0");
    }
    let aligned_max = max.min(total) / size * size;
    if aligned_max == 0 {
        return failure("Qwen2-VL frame limit is smaller than temporal_patch_size");
    }
    let count = (total as f64 / original * rate)
        .max(min as f64)
        .min(aligned_max as f64)
        .min(total as f64) as usize;
    let count = count / size * size;
    if count == 0 {
        return failure("Qwen2-VL sampling produced zero frames");
    }
    let step = total as f32 / count as f32;
    let mut indices = Vec::new();
    for idx in 0..=count {
        let value = idx as f32 * step;
        if value >= total as f32 {
            break;
        }
        indices.push((value as usize).min(total - 1));
    }
    if indices.len() % size != 0 || indices.len() > max {
        indices.truncate(count);
    }
    Ok(indices)
}

#[test]
fn qwen2_indices_follow_single_precision() {
    for size in 0..4 {
        for total in [0, 1, 2, 5, 26, 31, 53, 100, 999, 20_000_001] {
            for (original, rate) in [
                (25.0, 2.0),
                (26.0, 22.0),
                (29.97, 1.0),
                (0.0, 1.0),
                (f64::NAN, 1.0),
                (-3.0, 2.0),
                (1.0, f64::INFINITY),
                (1e-310, 1e-3),
            ] {
                for (min, max) in [(1, 768), (4, 50), (0, 1), (9, 3)] {
                    let sampler = Qwen2VlFrameSampler { temporal_patch_size: size };
                    assert_eq!(
                        sampler.sample_frame_indices(
                            source(total, original),
                            target(min, max, rate),
                        ),
                        reference_qwen2(size, total, original, min, max, rate),
                    );
                }
            }
        }
    }
}

#[test]
fn qwen2_rejects_what_it_cannot_sample() {
    let run = |size, total, min, max, rate| {
        Qwen2VlFrameSampler { temporal_patch_size: size }
            .sample_frame_indices(source(total, 25.0), target(min, max, rate))
    };
    assert_eq!(
        run(0, 100, 4, 768, 2.0),
        failure("Qwen2-VL temporal_patch_size must be greater than 0"),
    );
    assert_eq!(
        run(4, 3, 4, 768, 2.0),
        failure("Qwen2-VL frame limit is smaller than temporal_patch_size"),
    );
    assert_eq!(
        run(4, 100, 4, 3, 2.0),
        failure("Qwen2-VL frame limit is smaller than temporal_patch_size"),
    );
    assert_eq!(run(4, 25, 1, 768, 2.0), failure("Qwen2-VL sampling produced zero frames"));
}

#[test]
fn qwen2_takes_the_planned_frames_where_the_step_is_rounded_down() {
    let sampler = Qwen2VlFrameSampler { temporal_patch_size: 2 };
    let indices =
        sample_video_frame_indices(source(26, 26.0), target(1, 768, 22.0), &sampler).unwrap();
    assert_eq!(
        indices,
        vec![0, 1, 2, 3, 4, 5, 7, 8, 9, 10, 11, 12, 14, 15, 16, 17, 18, 20, 21, 22, 23, 24],
    );
}

#[test]
fn qwen2_keeps_the_frame_limit_where_the_step_is_rounded_down() {
    let sample = |size, limit, rate| {
        Qwen2VlFrameSampler { temporal_patch_size: size }
            .sample_frame_indices(source(31, 31.0), target(limit, limit, rate))
            .unwrap()
    };
    assert_eq!(
        sample(2, 14, 14.0),
        vec![0, 2, 4, 6, 8, 11, 13, 15, 17, 19, 22, 24, 26, 28],
    );
    assert_eq!(sample(7, 7, 1.0), vec![0, 4, 8, 13, 17, 22, 26]);
}

#[test]
fn qwen2_takes_one_frame_more_where_the_step_is_rounded_down() {
    let sample = |limit| {
        Qwen2VlFrameSampler { temporal_patch_size: 1 }
            .sample_frame_indices(source(31, 31.0), target(4, limit, 14.0))
            .unwrap()
    };
    let one_more = vec![0, 2, 4, 6, 8, 11, 13, 15, 17, 19, 22, 24, 26, 28, 30];
    assert_eq!(sample(768), one_more);
    assert_eq!(sample(15), one_more);
    assert_eq!(sample(14), one_more[..14]);
}

#[test]
fn qwen2_stops_at_the_end_where_many_frames_are_planned() {
    let (total, count) = (16_777_737, 13_347_563);
    let len = |size| {
        Qwen2VlFrameSampler { temporal_patch_size: size }
            .sample_frame_indices(source(total, 1.0), target(count, count, 0.1))
            .unwrap()
            .len()
    };
    let step = total as f32 / count as f32;
    let all = (0..=count).find(|i| *i as f32 * step >= total as f32).unwrap();
    assert!(all < count);
    assert_eq!(len(1), all);
    assert_eq!(len(count), count);
}

#[test]
fn higher_rates_take_no_fewer_frames() {
    let mut last = (0, 0);
    for rate in 1..60 {
        let (s, t) = (source(120, 30.0), target(2, 100, rate as f64 / 2.0));
        let qwen2 = Qwen2VlFrameSampler { temporal_patch_size: 2 };
        let next = (
            UniformFpsFrameSampler.sample_frame_indices(s, t).unwrap().len(),
            qwen2.sample_frame_indices(s, t).unwrap().len(),
        );
        assert!(last.0 <= next.0 && last.1 <= next.1);
        last = next;
    }
    assert_eq!(last, (100, 100));
}

#[test]
fn uniform_sampling_takes_no_frame_twice() {
    for total in 1..60 {
        for count in 1..=total {
            let indices = UniformFpsFrameSampler
                .sample_frame_indices(source(total, 1.0), target(count, count, 1.0))
                .unwrap();
            assert_eq!(indices.len(), count);
            assert!(indices.windows(2).all(|pair| pair[0] < pair[1]));
        }
    }
}

#[test]
fn qwen2_samples_hold_whole_patches_within_the_limits() {
    for size in 1..8 {
        for total in 1..120 {
            for limit in [7, 14, 50, 768] {
                let sampled = Qwen2VlFrameSampler { temporal_patch_size: size }
                    .sample_frame_indices(source(total, 30.0), target(4, limit, 11.0));
                if let Ok(indices) = sampled {
                    assert_eq!(indices.len() % size, 0);
                    assert!(size <= indices.len());
                    assert!(indices.len() <= limit.min(total));
                }
            }
        }
    }
}

#[test]
fn qwen2_takes_the_planned_frames_where_the_step_is_exact() {
    let sampler = Qwen2VlFrameSampler { temporal_patch_size: 4 };
    let indices = sampler.sample_frame_indices(source(96, 24.0), target(4, 768, 4.0)).unwrap();
    assert_eq!(indices, vec![0, 6, 12, 18, 24, 30, 36, 42, 48, 54, 60, 66, 72, 78, 84, 90]);
}

#[test]
fn qwen2_plans_whole_patches_within_the_limits() {
    let len = |size, min, max| {
        Qwen2VlFrameSampler { temporal_patch_size: size }
            .sample_frame_indices(source(128, 128.0), target(min, max, 7.0))
            .unwrap()
            .len()
    };
    assert_eq!(len(2, 1, 768), 6);
    assert_eq!(len(2, 9, 768), 8);
    assert_eq!(len(2, 1, 5), 4);
    assert_eq!(len(4, 1, 768), 4);
}

#[test]
fn known_samplers_are_dispatched() {
    let (s, t) = (source(100, 25.0), target(4, 768, 2.0));
    let qwen2 = Qwen2VlFrameSampler { temporal_patch_size: 2 };
    assert_eq!(
        FrameSampler::Qwen2Vl(qwen2).sample_frame_indices(s, t),
        Ok(vec![0, 12, 25, 37, 50, 62, 75, 87]),
    );
    let uniform = Ok(vec![0, 14, 28, 42, 57, 71, 85, 99]);
    assert_eq!(FrameSampler::Qwen3Vl(Qwen3VlFrameSampler).sample_frame_indices(s, t), uniform);
    assert_eq!(FrameSampler::UniformFps(UniformFpsFrameSampler).sample_frame_indices(s, t), uniform);
}

#[test]
fn fetch_configuration_selects_the_sampler() {
    let config = VideoFetchConfig::default();
    assert_eq!(config.target, target(4, 768, 2.0));
    assert_eq!(*config.sampler, FrameSampler::UniformFps(UniformFpsFrameSampler));
    let custom = config.clone().with_frame_sampler(FirstLastFrameSampler);
    assert_eq!(custom.target, config.target);
    assert_eq!(
        llm_multimodal::sample_video_frame_indices(source(40, 25.0), &custom),
        Ok(vec![0, 39]),
    );
    assert_eq!(
        llm_multimodal::sample_video_frame_indices(source(0, 25.0), &custom),
        failure("video contains no frames"),
    );
}
