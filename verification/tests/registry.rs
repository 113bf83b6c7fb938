use llm_multimodal::registry::qwen3_vl::Qwen3VLVisionSpec;
use llm_multimodal::registry::qwen_vl::QwenVLVisionSpec;
use llm_multimodal::vision::video_sampling::FrameSampler;
use llm_multimodal::{
    sample_video_frame_indices, ConfigEntry, ConfigValue, F64Bits, FieldLayout, Modality,
    ModelMetadata, ModelRegistry, ModelRegistryError, PreprocessedEncoderInputs,
    Qwen2VlFrameSampler, Qwen3VlFrameSampler, Tokenizer, UniformFpsFrameSampler, VideoFrameMetadata,
};

struct TestTokenizer {
    tokens: Vec<(String, u32)>,
}

impl TestTokenizer {
    fn new(tokens: &[(&str, u32)]) -> Self {
        TestTokenizer { tokens: tokens.iter().map(|(t, id)| (t.to_string(), *id)).collect() }
    }
}

impl Tokenizer for TestTokenizer {
    fn token_to_id(&self, token: &str) -> Option<u32> {
        self.tokens.iter().find(|(t, _)| t == token).map(|(_, id)| *id)
    }

    fn id_to_token(&self, id: u32) -> Option<String> {
        self.tokens.iter().find(|(_, i)| *i == id).map(|(t, _)| t.clone())
    }

    fn encode_text(&self, _text: &str) -> Option<Vec<u32>> {
        None
    }
}

fn object(members: Vec<(&str, ConfigValue)>) -> ConfigValue {
    ConfigValue::Object(
        members
            .into_iter()
            .map(|(name, value)| ConfigEntry { name: name.to_string(), value })
            .collect(),
    )
}

fn text(s: &str) -> ConfigValue {
    ConfigValue::Text(s.to_string())
}

fn number(n: u64) -> ConfigValue {
    ConfigValue::Unsigned(n)
}

#[test]
fn qwen_vision_uses_config_token_ids() {
    let tokenizer = TestTokenizer::new(&[("<|image_pad|>", 151655)]);
    let config = object(vec![
        ("model_type", text("qwen2_vl")),
        ("vision_start_token_id", number(151652)),
        ("vision_token_id", number(151654)),
        ("image_token_id", number(151655)),
        ("vision_config", object(vec![("patch_size", number(14))])),
    ]);
    let metadata =
        ModelMetadata { model_id: "Qwen2-VL-7B", tokenizer: &tokenizer, config: &config };
    let registry = ModelRegistry::new();
    let spec = registry.lookup(&metadata).expect("qwen spec");
    // One image of 448 by 448: 448/14 = 32 grid, merge_size=2 => (32*32)/4 = 256 tokens
    let replacements = spec
        .prompt_replacements(
            &metadata,
            &PreprocessedEncoderInputs { feature_token_counts: vec![256] },
        )
        .unwrap();
    // Only pad tokens: vision_start/vision_end are already in the chat template
    assert_eq!(replacements[0].tokens.len(), 256);
    assert_eq!(replacements[0].tokens[0], 151655); // pad (image_token_id)
    assert_eq!(*replacements[0].tokens.last().unwrap(), 151655);
}

#[test]
fn qwen_vl_matches_alias_via_model_type() {
    let tokenizer = TestTokenizer::new(&[("<|image_pad|>", 151655)]);
    let config = object(vec![
        ("model_type", text("qwen2_vl")),
        ("vision_start_token_id", number(151652)),
        ("vision_token_id", number(151654)),
        ("image_token_id", number(151655)),
    ]);
    let metadata =
        ModelMetadata { model_id: "custom-model", tokenizer: &tokenizer, config: &config };
    let registry = ModelRegistry::new();
    let spec = registry.lookup(&metadata).expect("should match qwen alias");
    assert_eq!(spec.name(), "qwen_vl");
}

#[test]
fn qwen2_registry_injects_temporal_patch_sampler() {
    let tokenizer = TestTokenizer::new(&[]);
    let config = object(vec![
        ("model_type", text("qwen2_vl")),
        ("vision_config", object(vec![("temporal_patch_size", number(4))])),
    ]);
    let metadata =
        ModelMetadata { model_id: "Qwen2-VL-7B", tokenizer: &tokenizer, config: &config };
    let video_config = ModelRegistry::new().video_fetch_config(&metadata).unwrap();
    let indices = sample_video_frame_indices(
        VideoFrameMetadata {
            total_frames: 75,
            original_fps: F64Bits::from_bits(25.0f64.to_bits()),
        },
        &video_config,
    )
    .unwrap();
    assert_eq!(indices, vec![0, 18, 37, 56]);
}

fn matches(model_id: &str, config: &ConfigValue) -> bool {
    let tokenizer = TestTokenizer::new(&[]);
    QwenVLVisionSpec.matches(&ModelMetadata { model_id, tokenizer: &tokenizer, config })
}

#[test]
fn models_are_matched_by_name_or_type() {
    let empty = object(vec![]);
    assert!(matches("Qwen/QWEN2.5-VL-7B", &empty));
    assert!(matches("vlqwen", &empty));
    assert!(!matches("Qwen2-7B", &empty));
    assert!(!matches("llava", &empty));
    assert!(!matches("", &empty));
    assert!(!matches("other", &object(vec![("model_type", text("qwen3_vl"))])));
    assert!(!matches("other", &object(vec![("model_type", number(2))])));
    assert!(!matches("other", &ConfigValue::Null));
    assert!(matches("other", &object(vec![("model_type", text("qwen2_vl"))])));
}

#[test]
fn missing_token_id_is_reported() {
    let tokenizer = TestTokenizer::new(&[]);
    let expected = ModelRegistryError::MissingConfigField { field: "image_token_id".to_string() };
    let configs = vec![
        object(vec![]),
        ConfigValue::Null,
        ConfigValue::Bool(true),
        ConfigValue::List(vec![object(vec![("image_token_id", number(1))])]),
        object(vec![("image_token_id", text("1"))]),
        object(vec![("image_token_id", ConfigValue::Negative(-1))]),
        object(vec![("image_token_id", ConfigValue::Fraction(1.0f64.to_bits()))]),
        object(vec![("image_token_id", number(1 << 32))]),
    ];
    for config in &configs {
        let metadata = ModelMetadata { model_id: "qwen-vl", tokenizer: &tokenizer, config };
        assert_eq!(QwenVLVisionSpec::pad_token_id(&metadata), Err(expected_copy(&expected)));
        assert_eq!(
            QwenVLVisionSpec.placeholder_token_id(&metadata),
            Err(expected_copy(&expected)),
        );
        let preprocessed = PreprocessedEncoderInputs { feature_token_counts: vec![1] };
        assert_eq!(
            QwenVLVisionSpec.prompt_replacements(&metadata, &preprocessed),
            Err(expected_copy(&expected)),
        );
    }
}

fn expected_copy(e: &ModelRegistryError) -> ModelRegistryError {
    match e {
        ModelRegistryError::MissingConfigField { field } => {
            ModelRegistryError::MissingConfigField { field: field.clone() }
        }
    }
}

#[test]
fn token_ids_are_read_from_the_configuration() {
    let tokenizer = TestTokenizer::new(&[]);
    let config = object(vec![("image_token_id", number(4294967295))]);
    let metadata = ModelMetadata { model_id: "qwen-vl", tokenizer: &tokenizer, config: &config };
    assert_eq!(QwenVLVisionSpec::pad_token_id(&metadata), Ok(4294967295));
    assert_eq!(QwenVLVisionSpec.placeholder_token_id(&metadata), Ok(4294967295));
    let preprocessed = PreprocessedEncoderInputs { feature_token_counts: vec![2, 0, 3] };
    let replacements = QwenVLVisionSpec.prompt_replacements(&metadata, &preprocessed).unwrap();
    let lengths: Vec<usize> = replacements.iter().map(|r| r.tokens.len()).collect();
    assert_eq!(lengths, vec![2, 0, 3]);
    assert!(replacements.iter().all(|r| r.modality == Modality::Image));
    assert!(replacements.iter().all(|r| r.placeholder_token == "<|image_pad|>"));
    assert!(replacements.iter().all(|r| r.tokens.iter().all(|t| *t == 4294967295)));
}

#[test]
fn qwen_vl_constants() {
    let tokenizer = TestTokenizer::new(&[]);
    let config = object(vec![]);
    let metadata = ModelMetadata { model_id: "qwen-vl", tokenizer: &tokenizer, config: &config };
    let spec = QwenVLVisionSpec;
    assert_eq!(spec.placeholder_token(&metadata), Ok("<|image_pad|>".to_string()));
    let limits = spec.modality_limits(&metadata).unwrap();
    assert_eq!(limits.get(Modality::Image), Some(&10));
    assert_eq!(limits.get(Modality::Video), None);
    assert!(matches!(
        spec.processor_kwargs(&metadata),
        Ok(ConfigValue::Object(entries)) if entries.is_empty()
    ));
    assert_eq!(spec.keep_on_cpu_keys(), vec!["image_grid_thw".to_string()]);
    let layouts = spec.field_layouts();
    assert_eq!(layouts.len(), 3);
    assert_eq!(layouts.get("pixel_values"), Some(&FieldLayout::flat("patches_per_image")));
    assert_eq!(layouts.get("image_grid_thw"), Some(&FieldLayout::Batched));
    assert_eq!(layouts.get("patches_per_image"), Some(&FieldLayout::Batched));
}

#[test]
fn samplers_are_chosen_by_model() {
    let tokenizer = TestTokenizer::new(&[]);
    let config = object(vec![]);
    let sampler = |model_id: &str| {
        let metadata = ModelMetadata { model_id, tokenizer: &tokenizer, config: &config };
        *ModelRegistry::new().video_fetch_config(&metadata).unwrap().sampler
    };
    assert_eq!(
        sampler("qwen-vl"),
        FrameSampler::Qwen2Vl(Qwen2VlFrameSampler { temporal_patch_size: 2 }),
    );
    assert_eq!(sampler("llava"), FrameSampler::UniformFps(UniformFpsFrameSampler));
}

#[test]
fn qwen3_models_are_sampled_evenly() {
    let tokenizer = TestTokenizer::new(&[]);
    let typed = |model_type: &str| {
        object(vec![
            ("model_type", text(model_type)),
            ("vision_config", object(vec![("temporal_patch_size", number(2))])),
        ])
    };
    let fetch = |model_id: &str, config: &ConfigValue| {
        let metadata = ModelMetadata { model_id, tokenizer: &tokenizer, config };
        ModelRegistry::new().video_fetch_config(&metadata).unwrap()
    };
    let (qwen2, qwen3, empty) = (typed("qwen2_vl"), typed("qwen3_vl"), object(vec![]));
    let expected = FrameSampler::Qwen3Vl(Qwen3VlFrameSampler);
    assert_eq!(*fetch("qwen3_vl", &qwen3).sampler, expected);
    assert_eq!(*fetch("qwen3_vl", &empty).sampler, expected);
    assert_eq!(*fetch("Qwen/Qwen3-VL-8B-Instruct", &empty).sampler, expected);
    assert_eq!(*fetch("custom-model", &qwen3).sampler, expected);
    assert_eq!(
        *fetch("qwen2_vl", &qwen2).sampler,
        FrameSampler::Qwen2Vl(Qwen2VlFrameSampler { temporal_patch_size: 2 }),
    );
    assert_eq!(
        *fetch("Qwen3-8B", &empty).sampler,
        FrameSampler::UniformFps(UniformFpsFrameSampler),
    );
    let video = VideoFrameMetadata {
        total_frames: 100,
        original_fps: F64Bits::from_bits(25.0f64.to_bits()),
    };
    assert_eq!(
        sample_video_frame_indices(video, &fetch("qwen3_vl", &qwen3)),
        Ok(vec![0, 14, 28, 42, 57, 71, 85, 99]),
    );
    assert_eq!(
        sample_video_frame_indices(video, &fetch("qwen2_vl", &qwen2)),
        Ok(vec![0, 12, 25, 37, 50, 62, 75, 87]),
    );
}

#[test]
fn qwen3_entry_comes_first() {
    let tokenizer = TestTokenizer::new(&[]);
    let config = object(vec![("model_type", text("qwen3_vl"))]);
    let registry = ModelRegistry::new();
    for model_id in ["qwen3_vl", "custom-model", "Qwen2-VL-7B"] {
        let metadata = ModelMetadata { model_id, tokenizer: &tokenizer, config: &config };
        assert!(Qwen3VLVisionSpec.matches(&metadata));
        assert!(registry.lookup(&metadata).is_none());
    }
    let other = object(vec![("model_type", text("qwen2_vl"))]);
    let metadata =
        ModelMetadata { model_id: "Qwen2-VL-7B", tokenizer: &tokenizer, config: &other };
    assert!(!Qwen3VLVisionSpec.matches(&metadata));
    assert!(registry.lookup(&metadata).is_some());
    assert_eq!(Qwen3VLVisionSpec.name(), "qwen3_vl");
}

#[test]
fn configuration_paths() {
    let config = object(vec![
        ("a", object(vec![("b", number(7)), ("b", number(8))])),
        ("c", ConfigValue::List(vec![])),
    ]);
    assert_eq!(config.find(&["a", "b"]).and_then(|v| v.as_u64()), Some(7));
    assert!(config.find(&["a", "x"]).is_none());
    assert!(config.find(&["c", "b"]).is_none());
    assert!(config.find(&[]).is_some());
    assert!(config.get("a").unwrap().as_str().is_none());
    assert_eq!(text("t").as_str(), Some("t"));
}
