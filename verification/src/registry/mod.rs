//! What the library knows of particular models.
pub mod qwen3_vl;
pub mod qwen_vl;

use crate::config;
use crate::config::ConfigValue;
use crate::config_laws;
use crate::error::RegistryResult;
use crate::media;
use crate::media::VideoFetchConfig;
use crate::registry::qwen3_vl::Qwen3VLVisionSpec;
use crate::registry::qwen_vl::QwenVLVisionSpec;
use crate::registry_laws;
use crate::video_sampling::UniformFpsFrameSampler;
use crate::vision::video_sampling::qwen3_vl::Qwen3VlFrameSampler;
use crate::vision::video_sampling::FrameSampler;
use vstd::prelude::*;

verus! {

/// A model's tokenizer.
pub trait Tokenizer {
    fn token_to_id(&self, token: &str) -> Option<u32>;

    fn id_to_token(&self, id: u32) -> Option<String>;

    fn encode_text(&self, text: &str) -> Option<Vec<u32>>;
}

/// What is known of a model when its processor is chosen.
pub struct ModelMetadata<'a> {
    pub model_id: &'a str,
    pub tokenizer: &'a dyn Tokenizer,
    pub config: &'a ConfigValue,
}

impl<'a> ModelMetadata<'a> {
    /// The configuration field at a path, where it is an unsigned integer of thirty-two bits.
    pub fn config_u32(&self, path: &[&str]) -> (r: Option<u32>)
        ensures
            r == config_field(*self.config, config::path_texts(path@)),
    {
        match self.config.find(path) {
            Some(value) => match value.as_u64() {
                Some(n) => if n <= u32::MAX as u64 {
                    Some(n as u32)
                } else {
                    None
                },
                None => None,
            },
            None => None,
        }
    }

    /// The type of model that the configuration states.
    pub fn config_model_type(&self) -> (r: Option<&str>)
        ensures
            match r {
                Some(s) => model_type(*self.config) == Some(s@),
                None => model_type(*self.config) is None,
            },
    {
        match self.config.get("model_type") {
            Some(value) => value.as_str(),
            None => None,
        }
    }
}

/// The type of model that a configuration states, if it does.
pub open spec fn model_type(config: ConfigValue) -> Option<Seq<char>> {
    match config.member("model_type"@) {
        Some(value) => value.text(),
        None => None,
    }
}

/// The unsigned integer of thirty-two bits at a path of a configuration, if there is one.
pub open spec fn config_field(config: ConfigValue, path: Seq<Seq<char>>) -> Option<u32> {
    match config.descendant(path) {
        Some(ConfigValue::Unsigned(n)) => if n <= u32::MAX {
            Some(n as u32)
        } else {
            None
        },
        _ => None,
    }
}

/// The models that the library knows. The first entry that matches a model is the one for it, so
/// Qwen3-VL stands before Qwen-VL, whose names cover its own.
#[derive(Clone, Copy, Debug, PartialEq, Eq)]
pub struct ModelRegistry {
    pub qwen3_vl: Qwen3VLVisionSpec,
    pub qwen_vl: QwenVLVisionSpec,
}

/// The sampler for a model: that of its registry entry, and the uniform one for other models.
pub open spec fn model_sampler(model_id: Seq<char>, config: ConfigValue, sampler: FrameSampler) -> bool {
    if qwen3_vl::is_qwen3_vl(model_id, config) {
        sampler == FrameSampler::Qwen3Vl(Qwen3VlFrameSampler)
    } else if qwen_vl::is_qwen_vl(model_id, config) {
        sampler matches FrameSampler::Qwen2Vl(s) && s.temporal_patch_size
            == qwen_vl::temporal_patch(config)
    } else {
        sampler == FrameSampler::UniformFps(UniformFpsFrameSampler)
    }
}

impl ModelRegistry {
    pub fn new() -> (r: Self)
        ensures
            r == (ModelRegistry { qwen3_vl: Qwen3VLVisionSpec, qwen_vl: QwenVLVisionSpec }),
    {
        ModelRegistry { qwen3_vl: Qwen3VLVisionSpec, qwen_vl: QwenVLVisionSpec }
    }

    /// The Qwen-VL entry, where it is the one for a model.
    pub fn lookup(&self, metadata: &ModelMetadata) -> (r: Option<&QwenVLVisionSpec>)
        ensures
            r == (if !qwen3_vl::is_qwen3_vl(metadata.model_id@, *metadata.config)
                && qwen_vl::is_qwen_vl(metadata.model_id@, *metadata.config) {
                Some(&self.qwen_vl)
            } else {
                None
            }),
            forall|lower: Seq<char>| #[trigger]
                config_laws::is_lower_case_of(lower, metadata.model_id@) ==> (r is Some <==> {
                    let vl = config_laws::holds(lower, "vl"@);
                    &&& config_laws::holds(lower, "qwen"@) && vl || config_laws::states_type(
                        *metadata.config,
                        "qwen2_vl"@,
                    )
                    &&& !(config_laws::holds(lower, "qwen3"@) && vl)
                    &&& !config_laws::states_type(*metadata.config, "qwen3_vl"@)
                }),
    {
        proof {
            assert forall|lower: Seq<char>| #[trigger]
                config_laws::is_lower_case_of(lower, metadata.model_id@) implies (
            qwen3_vl::is_qwen3_vl(metadata.model_id@, *metadata.config) <==> {
                ||| config_laws::holds(lower, "qwen3"@) && config_laws::holds(lower, "vl"@)
                ||| config_laws::states_type(*metadata.config, "qwen3_vl"@)
            }) && (qwen_vl::is_qwen_vl(metadata.model_id@, *metadata.config) <==> {
                ||| config_laws::holds(lower, "qwen"@) && config_laws::holds(lower, "vl"@)
                ||| config_laws::states_type(*metadata.config, "qwen2_vl"@)
            }) by {
                registry_laws::law_models_are_told_apart(
                    metadata.model_id@,
                    lower,
                    *metadata.config,
                );
            }
        }
        if !self.qwen3_vl.matches(metadata) && self.qwen_vl.matches(metadata) {
            Some(&self.qwen_vl)
        } else {
            None
        }
    }

    /// How videos are fetched for a model: as its entry says, and by default for other models.
    pub fn video_fetch_config(&self, metadata: &ModelMetadata) -> (r: RegistryResult<
        VideoFetchConfig<FrameSampler>,
    >)
        ensures
            r matches Ok(config) && config.target == media::default_target() && model_sampler(
                metadata.model_id@,
                *metadata.config,
                *config.sampler,
            ),
    {
        let stated = if self.qwen3_vl.matches(metadata) {
            self.qwen3_vl.video_fetch_config(metadata)
        } else {
            match self.lookup(metadata) {
                Some(spec) => spec.video_fetch_config(metadata),
                None => Ok(None),
            }
        };
        match stated {
            Ok(Some(config)) => Ok(config),
            Ok(None) => Ok(VideoFetchConfig::default()),
            Err(e) => Err(e),
        }
    }
}

} // verus!
