//! Qwen3-VL.
use crate::config::ConfigValue;
use crate::error::RegistryResult;
use crate::media;
use crate::media::VideoFetchConfig;
use crate::registry;
use crate::registry::ModelMetadata;
use crate::text;
use crate::vision::video_sampling::qwen3_vl::Qwen3VlFrameSampler;
use crate::vision::video_sampling::FrameSampler;
use vstd::prelude::*;
use vstd::string::*;

verus! {

/// What the library knows of the Qwen3-VL models: how their videos are sampled.
#[derive(Clone, Copy, Debug, PartialEq, Eq)]
pub struct Qwen3VLVisionSpec;

/// Whether a model is a Qwen3-VL model: by its name, or by the type that its configuration states.
pub open spec fn is_qwen3_vl(model_id: Seq<char>, config: ConfigValue) -> bool {
    let id = text::ascii_lowercase(model_id);
    ||| text::contains_text(id, "qwen3"@) && text::contains_text(id, "vl"@)
    ||| registry::model_type(config) == Some("qwen3_vl"@)
}

impl Qwen3VLVisionSpec {
    /// The name of this entry of the registry.
    pub fn name(&self) -> (r: &'static str)
        ensures
            r@ == "qwen3_vl"@,
    {
        "qwen3_vl"
    }

    /// Whether a model is one of these.
    pub fn matches(&self, metadata: &ModelMetadata) -> (r: bool)
        ensures
            r == is_qwen3_vl(metadata.model_id@, *metadata.config),
    {
        let id = text::lowercase_chars(metadata.model_id);
        if text::contains(&id, "qwen3") && text::contains(&id, "vl") {
            return true;
        }
        match metadata.config_model_type() {
            Some(model_type) => String::from_str(model_type) == String::from_str("qwen3_vl"),
            None => false,
        }
    }

    /// How videos are fetched: by default limits, sampled evenly.
    pub fn video_fetch_config(&self, metadata: &ModelMetadata) -> (r: RegistryResult<
        Option<VideoFetchConfig<FrameSampler>>,
    >)
        ensures
            r matches Ok(Some(config)) && config.target == media::default_target()
                && *config.sampler == FrameSampler::Qwen3Vl(Qwen3VlFrameSampler),
    {
        Ok(
            Some(
                VideoFetchConfig::default().with_frame_sampler(
                    FrameSampler::Qwen3Vl(Qwen3VlFrameSampler),
                ),
            ),
        )
    }
}

} // verus!
