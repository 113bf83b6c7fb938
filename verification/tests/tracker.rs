use llm_multimodal::tracker::{media_source, FetchRequest, FinalizeStep};
use llm_multimodal::vision::video_sampling::FrameSampler;
use llm_multimodal::{
    sample_video_frame_indices, AsyncMultiModalTracker, ConfigEntry, ConfigValue, F64Bits,
    ImageDetail, MediaConnectorError, MediaContentPart, MediaSource, Modality, ModelMetadata,
    ModelRegistry, MultiModalError, MultiModalResult, Qwen2VlFrameSampler, Qwen3VlFrameSampler,
    Tokenizer, TrackerOutput, UniformFpsFrameSampler, VideoFetchConfig, VideoFrameMetadata,
};

struct EmptyTokenizer;

impl Tokenizer for EmptyTokenizer {
    fn token_to_id(&self, _token: &str) -> Option<u32> {
        None
    }

    fn id_to_token(&self, _id: u32) -> Option<String> {
        None
    }

    fn encode_text(&self, _text: &str) -> Option<Vec<u32>> {
        None
    }
}

fn object(members: Vec<(&str, ConfigValue)>) -> ConfigValue {
    ConfigValue::Object(
        members
            .into_iter()
            .map(|(name, value)| ConfigEntry { name: name.to_string(), value })
            .collect(),
    )
}

#[test]
fn new_for_model_injects_registry_video_sampler() {
    let tokenizer = EmptyTokenizer;
    let config = object(vec![
        ("model_type", ConfigValue::Text("qwen2_vl".to_string())),
        (
            "vision_config",
            object(vec![("temporal_patch_size", ConfigValue::Unsigned(4))]),
        ),
    ]);
    let metadata =
        ModelMetadata { model_id: "Qwen2-VL-7B", tokenizer: &tokenizer, config: &config };
    let tracker: AsyncMultiModalTracker<FrameSampler, ()> =
        AsyncMultiModalTracker::new_for_model(&ModelRegistry::new(), &metadata).unwrap();

    let indices = sample_video_frame_indices(
        VideoFrameMetadata {
            total_frames: 75,
            original_fps: F64Bits::from_bits(25.0f64.to_bits()),
        },
        tracker.video_fetch_config(),
    )
    .unwrap();
    assert_eq!(indices, vec![0, 18, 37, 56]);
}

type Request = FetchRequest<FrameSampler>;

fn image_url(url: &str, uuid: Option<&str>) -> MediaContentPart {
    MediaContentPart::ImageUrl {
        url: url.to_string(),
        detail: None,
        uuid: uuid.map(|s| s.to_string()),
    }
}

fn video_url(url: &str, uuid: Option<&str>) -> MediaContentPart {
    MediaContentPart::VideoUrl { url: url.to_string(), uuid: uuid.map(|s| s.to_string()) }
}

/// Collects what the tracker has queued, each fetch coming to what `outcome` says.
fn collect<H, M>(
    tracker: AsyncMultiModalTracker<FrameSampler, H>,
    mut outcome: impl FnMut(H) -> MultiModalResult<M>,
) -> MultiModalResult<TrackerOutput<M>> {
    let mut step = tracker.finalize();
    loop {
        match step {
            FinalizeStep::Done(output) => return Ok(output),
            FinalizeStep::Await { task, rest } => step = rest.resume(outcome(task))?,
        }
    }
}

fn only_request(part: MediaContentPart) -> (Modality, Option<String>, Request) {
    let mut tracker: AsyncMultiModalTracker<FrameSampler, Request> = AsyncMultiModalTracker::new();
    tracker.push_part(part, |request| request).unwrap();
    let mut output = collect(tracker, Ok).unwrap();
    let modality =
        if output.data.get(Modality::Image).is_some() { Modality::Image } else { Modality::Video };
    let mut requests = output.data.remove(modality).unwrap();
    let mut uuids = output.uuids.remove(modality).unwrap();
    assert_eq!((requests.len(), uuids.len()), (1, 1));
    (modality, uuids.remove(0), requests.remove(0))
}

#[test]
fn urls_are_told_apart_by_scheme() {
    let source = |url: &str| match only_request(image_url(url, None)).2 {
        FetchRequest::Image { source, .. } => source,
        FetchRequest::Video { source, .. } => source,
    };
    for url in ["data:image/png;base64,AAAA", "DATA:,x", " data:text/plain,x"] {
        assert_eq!(source(url), MediaSource::DataUrl(url.to_string()));
    }
    for url in [
        "https://example.com/data:",
        "file:///tmp/a.png",
        "data",
        "",
        "/data:image/png",
        "data://[bad",
    ] {
        assert_eq!(source(url), MediaSource::Url(url.to_string()));
    }
}

#[test]
fn media_source_by_scheme() {
    let url = || "x".to_string();
    assert_eq!(media_source(url(), Some("data".to_string())), MediaSource::DataUrl(url()));
    assert_eq!(media_source(url(), Some("Data".to_string())), MediaSource::Url(url()));
    assert_eq!(media_source(url(), Some("https".to_string())), MediaSource::Url(url()));
    assert_eq!(media_source(url(), None), MediaSource::Url(url()));
}

#[test]
fn image_parts_become_image_requests() {
    let (modality, uuid, request) = only_request(MediaContentPart::ImageUrl {
        url: "https://example.com/a.png".to_string(),
        detail: Some(ImageDetail::High),
        uuid: Some("a".to_string()),
    });
    assert_eq!((modality, uuid), (Modality::Image, Some("a".to_string())));
    assert!(matches!(
        request,
        FetchRequest::Image { source: MediaSource::Url(url), detail: ImageDetail::High }
            if url == "https://example.com/a.png"
    ));
    let (modality, uuid, request) = only_request(MediaContentPart::ImageData {
        data: vec![1, 2, 3],
        mime_type: Some("image/png".to_string()),
        uuid: None,
        detail: None,
    });
    assert_eq!((modality, uuid), (Modality::Image, None));
    assert!(matches!(
        request,
        FetchRequest::Image { source: MediaSource::InlineBytes(data), detail: ImageDetail::Auto }
            if data == vec![1, 2, 3]
    ));
}

#[test]
fn video_parts_become_video_requests() {
    let (modality, uuid, request) = only_request(MediaContentPart::VideoData {
        data: vec![9],
        mime_type: None,
        uuid: Some("v".to_string()),
    });
    assert_eq!((modality, uuid), (Modality::Video, Some("v".to_string())));
    match request {
        FetchRequest::Video { source, config } => {
            assert_eq!(source, MediaSource::InlineBytes(vec![9]));
            assert_eq!(*config.sampler, FrameSampler::UniformFps(UniformFpsFrameSampler));
        }
        FetchRequest::Image { .. } => panic!("expected a video request"),
    }
    let (modality, _, request) = only_request(video_url("data:video/mp4;base64,AA", None));
    assert_eq!(modality, Modality::Video);
    assert!(matches!(request, FetchRequest::Video { source: MediaSource::DataUrl(_), .. }));
}

#[test]
fn video_configuration_holds_for_later_parts() {
    let mut tracker: AsyncMultiModalTracker<FrameSampler, Request> = AsyncMultiModalTracker::new();
    tracker.push_part(video_url("https://a", None), |request| request).unwrap();
    let qwen3 = FrameSampler::Qwen3Vl(Qwen3VlFrameSampler);
    let config = VideoFetchConfig::default().with_frame_sampler(qwen3);
    let mut tracker = tracker.with_video_fetch_config(config);
    tracker.push_part(video_url("https://b", None), |request| request).unwrap();
    let output = collect(tracker, Ok).unwrap();
    let samplers: Vec<FrameSampler> = output
        .data
        .get(Modality::Video)
        .unwrap()
        .iter()
        .map(|request| match request {
            FetchRequest::Video { config, .. } => *config.sampler,
            FetchRequest::Image { .. } => panic!("expected a video request"),
        })
        .collect();
    assert_eq!(samplers, vec![FrameSampler::UniformFps(UniformFpsFrameSampler), qwen3]);
}

#[test]
fn text_asks_for_nothing() {
    let mut tracker: AsyncMultiModalTracker<FrameSampler, Request> = AsyncMultiModalTracker::new();
    let text = MediaContentPart::Text { text: "hello".to_string() };
    assert_eq!(tracker.push_part(text, |request| request), Ok(()));
    let output = collect(tracker, Ok).unwrap();
    assert!(output.data.get(Modality::Image).is_none());
    assert!(output.data.get(Modality::Video).is_none());
    assert!(output.uuids.get(Modality::Image).is_none());
    assert!(output.uuids.get(Modality::Video).is_none());
}

#[test]
fn image_embeds_are_refused() {
    let mut tracker: AsyncMultiModalTracker<FrameSampler, usize> = AsyncMultiModalTracker::new();
    tracker.push_part(image_url("https://a", Some("a")), |_| 1).unwrap();
    let embeds = MediaContentPart::ImageEmbeds { payload: ConfigValue::Null, uuid: None };
    let refused = tracker.push_part(embeds, |_| panic!("nothing is fetched"));
    assert_eq!(refused, Err(MultiModalError::UnsupportedContent("image_embeds")));
    let output = collect(tracker, Ok).unwrap();
    assert_eq!(output.data.get(Modality::Image), Some(&vec![1]));
    assert_eq!(output.uuids.get(Modality::Image), Some(&vec![Some("a".to_string())]));
}

fn mixed_tracker() -> AsyncMultiModalTracker<FrameSampler, usize> {
    let mut tracker = AsyncMultiModalTracker::new();
    tracker.push_part(video_url("https://v0", Some("v0")), |_| 10).unwrap();
    tracker.push_part(image_url("https://i0", None), |_| 0).unwrap();
    tracker.push_part(video_url("https://v1", None), |_| 11).unwrap();
    tracker.push_part(image_url("https://i1", Some("i1")), |_| 1).unwrap();
    tracker
}

#[test]
fn media_keep_their_order_and_ids() {
    let output = collect(mixed_tracker(), |task| Ok(task * 2)).unwrap();
    assert_eq!(output.data.get(Modality::Image), Some(&vec![0, 2]));
    assert_eq!(output.data.get(Modality::Video), Some(&vec![20, 22]));
    assert_eq!(output.uuids.get(Modality::Image), Some(&vec![None, Some("i1".to_string())]));
    assert_eq!(output.uuids.get(Modality::Video), Some(&vec![Some("v0".to_string()), None]));
}

#[test]
fn first_failure_ends_the_collection() {
    let mut waited = vec![];
    let result = collect(mixed_tracker(), |task| {
        waited.push(task);
        match task {
            1 => Err(MultiModalError::Join("cancelled".to_string())),
            10 => Err(MultiModalError::Media(MediaConnectorError::VideoDecode("x".to_string()))),
            _ => Ok(task),
        }
    });
    assert_eq!(result.err(), Some(MultiModalError::Join("cancelled".to_string())));
    assert_eq!(waited, vec![0, 1]);
}

#[test]
fn new_for_model_samples_qwen3_evenly() {
    let tokenizer = EmptyTokenizer;
    let config = object(vec![
        ("model_type", ConfigValue::Text("qwen3_vl".to_string())),
        (
            "vision_config",
            object(vec![("temporal_patch_size", ConfigValue::Unsigned(2))]),
        ),
    ]);
    let metadata = ModelMetadata { model_id: "qwen3_vl", tokenizer: &tokenizer, config: &config };
    let tracker: AsyncMultiModalTracker<FrameSampler, ()> =
        AsyncMultiModalTracker::new_for_model(&ModelRegistry::new(), &metadata).unwrap();
    assert_eq!(
        *tracker.video_fetch_config().sampler,
        FrameSampler::Qwen3Vl(Qwen3VlFrameSampler),
    );
}

#[test]
fn default_tracker_samples_uniformly() {
    let tracker: AsyncMultiModalTracker<FrameSampler, ()> = AsyncMultiModalTracker::new();
    assert_eq!(
        *tracker.video_fetch_config().sampler,
        FrameSampler::UniformFps(UniformFpsFrameSampler),
    );
    let tokenizer = EmptyTokenizer;
    let config = object(vec![]);
    let metadata = ModelMetadata { model_id: "qwen-vl", tokenizer: &tokenizer, config: &config };
    let tracker: AsyncMultiModalTracker<FrameSampler, ()> =
        AsyncMultiModalTracker::new_for_model(&ModelRegistry::new(), &metadata).unwrap();
    assert_eq!(
        *tracker.video_fetch_config().sampler,
        FrameSampler::Qwen2Vl(Qwen2VlFrameSampler { temporal_patch_size: 2 }),
    );
}
