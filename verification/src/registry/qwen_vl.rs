//! Qwen2-VL and Qwen2.5-VL.
use crate::config::ConfigValue;
use crate::error::{ModelRegistryError, ModelRegistryErrorView, RegistryResult};
use crate::media;
use crate::media::VideoFetchConfig;
use crate::registry;
use crate::registry::ModelMetadata;
use crate::text;
use crate::types::{
    FieldLayout, Modality, ModalityMap, PreprocessedEncoderInputs, PromptReplacement, TokenId,
};
use crate::vision::video_sampling::qwen2_vl::Qwen2VlFrameSampler;
use crate::vision::video_sampling::FrameSampler;
use vstd::hash_map::StringHashMap;
use vstd::prelude::*;
use vstd::string::*;

verus! {

/// What the library knows of the Qwen-VL models.
#[derive(Clone, Copy, Debug, PartialEq, Eq)]
pub struct QwenVLVisionSpec;

/// The token that fills the place of an image, where the configuration names it.
pub open spec fn pad_token(config: ConfigValue) -> Option<TokenId> {
    registry::config_field(config, seq!["image_token_id"@])
}

/// Whether a model is a Qwen-VL model: by its name, or by the type that its configuration states.
pub open spec fn is_qwen_vl(model_id: Seq<char>, config: ConfigValue) -> bool {
    let id = text::ascii_lowercase(model_id);
    ||| text::contains_text(id, "qwen"@) && text::contains_text(id, "vl"@)
    ||| registry::model_type(config) == Some("qwen2_vl"@)
}

/// How many frames make a temporal patch: what the configuration states, or two.
pub open spec fn temporal_patch(config: ConfigValue) -> nat {
    match registry::config_field(config, seq!["vision_config"@, "temporal_patch_size"@]) {
        Some(n) => n as nat,
        None => 2,
    }
}

/// Whether a replacement puts `n` copies of a token in the place of an image.
pub open spec fn pads_image(r: PromptReplacement, token: TokenId, n: nat) -> bool {
    &&& r.modality == Modality::Image
    &&& r.placeholder_token@ == "<|image_pad|>"@
    &&& r.tokens@ == Seq::new(n, |i: int| token)
}

/// The error about a field that the configuration lacks.
pub open spec fn missing(field: Seq<char>) -> ModelRegistryErrorView {
    ModelRegistryErrorView::MissingConfigField { field }
}

impl QwenVLVisionSpec {
    /// The token that fills the place of an image.
    pub fn pad_token_id(metadata: &ModelMetadata) -> (r: RegistryResult<TokenId>)
        ensures
            match r {
                Ok(id) => pad_token(*metadata.config) == Some(id),
                Err(e) => pad_token(*metadata.config) is None && e@ == missing("image_token_id"@),
            },
            r matches Err(e) ==> e@ == (ModelRegistryErrorView::MissingConfigField {
                field: "image_token_id"@,
            }),
    {
        let path: [&str; 1] = ["image_token_id"];
        proof {
            assert(crate::config::path_texts(path@) =~= seq!["image_token_id"@]);
        }
        match metadata.config_u32(&path) {
            Some(id) => Ok(id),
            None => Err(
                ModelRegistryError::MissingConfigField {
                    field: String::from_str("image_token_id"),
                },
            ),
        }
    }

    /// The name of this entry of the registry.
    pub fn name(&self) -> (r: &'static str)
        ensures
            r@ == "qwen_vl"@,
    {
        "qwen_vl"
    }

    /// Whether a model is one of these.
    pub fn matches(&self, metadata: &ModelMetadata) -> (r: bool)
        ensures
            r == is_qwen_vl(metadata.model_id@, *metadata.config),
    {
        let id = text::lowercase_chars(metadata.model_id);
        if text::contains(&id, "qwen") && text::contains(&id, "vl") {
            return true;
        }
        match metadata.config_model_type() {
            Some(model_type) => String::from_str(model_type) == String::from_str("qwen2_vl"),
            None => false,
        }
    }

    /// The text that stands for an image in a prompt.
    pub fn placeholder_token(&self, metadata: &ModelMetadata) -> (r: RegistryResult<String>)
        ensures
            r matches Ok(token) && token@ == "<|image_pad|>"@,
    {
        Ok(String::from_str("<|image_pad|>"))
    }

    /// The id of the token that is repeated in the place of an image.
    pub fn placeholder_token_id(&self, metadata: &ModelMetadata) -> (r: RegistryResult<TokenId>)
        ensures
            match r {
                Ok(id) => pad_token(*metadata.config) == Some(id),
                Err(e) => pad_token(*metadata.config) is None && e@ == missing("image_token_id"@),
            },
            r matches Err(e) ==> e@ == (ModelRegistryErrorView::MissingConfigField {
                field: "image_token_id"@,
            }),
    {
        Self::pad_token_id(metadata)
    }

    /// How many media of each kind a request may hold.
    pub fn modality_limits(&self, metadata: &ModelMetadata) -> (r: RegistryResult<
        ModalityMap<usize>,
    >)
        ensures
            r matches Ok(limits) && limits@ == Map::<Modality, usize>::empty().insert(
                Modality::Image,
                10,
            ),
    {
        let mut limits: ModalityMap<usize> = ModalityMap::new();
        limits.insert(Modality::Image, 10);
        Ok(limits)
    }

    /// What the processor is told besides the media: nothing.
    pub fn processor_kwargs(&self, metadata: &ModelMetadata) -> (r: RegistryResult<ConfigValue>)
        ensures
            r matches Ok(ConfigValue::Object(entries)) && entries@.len() == 0,
    {
        Ok(ConfigValue::Object(Vec::new()))
    }

    /// How videos are fetched: by default limits, sampled in whole temporal patches.
    pub fn video_fetch_config(&self, metadata: &ModelMetadata) -> (r: RegistryResult<
        Option<VideoFetchConfig<FrameSampler>>,
    >)
        ensures
            r matches Ok(Some(config)) && config.target == media::default_target() && (
            *config.sampler matches FrameSampler::Qwen2Vl(sampler) && sampler.temporal_patch_size
                == temporal_patch(*metadata.config)),
    {
        let path: [&str; 2] = ["vision_config", "temporal_patch_size"];
        proof {
            assert(crate::config::path_texts(path@) =~= seq![
                "vision_config"@,
                "temporal_patch_size"@,
            ]);
        }
        let temporal_patch_size: usize = match metadata.config_u32(&path) {
            Some(n) => n as usize,
            None => 2,
        };
        Ok(
            Some(
                VideoFetchConfig::default().with_frame_sampler(
                    FrameSampler::Qwen2Vl(Qwen2VlFrameSampler { temporal_patch_size }),
                ),
            ),
        )
    }

    /// What takes the place of each image in a prompt: as many pad tokens as it has features.
    ///
    /// The chat template already wraps each image in start and end tokens.
    pub fn prompt_replacements(
        &self,
        metadata: &ModelMetadata,
        preprocessed: &PreprocessedEncoderInputs,
    ) -> (r: RegistryResult<Vec<PromptReplacement>>)
        ensures
            match r {
                Ok(replacements) => {
                    &&& pad_token(*metadata.config) is Some
                    &&& replacements.len() == preprocessed.feature_token_counts.len()
                    &&& forall|i: int|
                        0 <= i < replacements.len() ==> pads_image(
                            #[trigger] replacements[i],
                            pad_token(*metadata.config)->0,
                            preprocessed.feature_token_counts[i] as nat,
                        )
                    &&& forall|i: int|
                        0 <= i < replacements.len() ==> {
                            &&& (#[trigger] replacements[i]).modality == Modality::Image
                            &&& replacements[i].placeholder_token@ == "<|image_pad|>"@
                            &&& replacements[i].tokens.len() == preprocessed.feature_token_counts[i]
                        }
                    &&& forall|i: int, j: int|
                        0 <= i < replacements.len() && 0 <= j < replacements[i].tokens.len()
                            ==> #[trigger] replacements[i].tokens[j] == pad_token(
                            *metadata.config,
                        )->0
                },
                Err(e) => pad_token(*metadata.config) is None && e@ == missing("image_token_id"@),
            },
            r matches Err(e) ==> e@ == (ModelRegistryErrorView::MissingConfigField {
                field: "image_token_id"@,
            }),
    {
        let pad_token_id: TokenId = match Self::pad_token_id(metadata) {
            Ok(id) => id,
            Err(e) => {
                return Err(e);
            },
        };
        let placeholder_token = match self.placeholder_token(metadata) {
            Ok(token) => token,
            Err(e) => {
                return Err(e);
            },
        };
        let counts = &preprocessed.feature_token_counts;
        let mut replacements: Vec<PromptReplacement> = Vec::new();
        let mut i: usize = 0;
        while i < counts.len()
            invariant
                i <= counts.len(),
                replacements.len() == i,
                placeholder_token@ == "<|image_pad|>"@,
                forall|j: int|
                    0 <= j < i ==> pads_image(
                        #[trigger] replacements[j],
                        pad_token_id,
                        counts[j] as nat,
                    ),
            decreases counts.len() - i,
        {
            let tokens = repeat_token(pad_token_id, counts[i]);
            replacements.push(
                PromptReplacement::sequence(Modality::Image, placeholder_token.as_str(), tokens),
            );
            i = i + 1;
        }
        Ok(replacements)
    }

    /// How the fields of the encoder input are laid out over the images of a request.
    ///
    /// The pixels are patches of all images in a row; another field tells how many belong to each.
    pub fn field_layouts(&self) -> (r: StringHashMap<FieldLayout>)
        ensures
            r@.dom() == set!["pixel_values"@, "image_grid_thw"@, "patches_per_image"@],
            r@["pixel_values"@].sizes() == Some("patches_per_image"@),
            r@["pixel_values"@] matches FieldLayout::Flat { sizes_key } && sizes_key@
                == "patches_per_image"@,
            r@["image_grid_thw"@] == FieldLayout::Batched,
            r@["patches_per_image"@] == FieldLayout::Batched,
    {
        proof {
            reveal_strlit("pixel_values");
            reveal_strlit("image_grid_thw");
            reveal_strlit("patches_per_image");
            assert("pixel_values"@.len() == 12);
            assert("image_grid_thw"@.len() == 14);
            assert("patches_per_image"@.len() == 17);
        }
        let mut r: StringHashMap<FieldLayout> = StringHashMap::new();
        r.insert(String::from_str("pixel_values"), FieldLayout::flat("patches_per_image"));
        r.insert(String::from_str("image_grid_thw"), FieldLayout::Batched);
        r.insert(String::from_str("patches_per_image"), FieldLayout::Batched);
        assert(r@.dom() =~= set!["pixel_values"@, "image_grid_thw"@, "patches_per_image"@]);
        r
    }

    /// The fields that stay in main memory.
    pub fn keep_on_cpu_keys(&self) -> (r: Vec<String>)
        ensures
            r.len() == 1,
            r[0]@ == "image_grid_thw"@,
    {
        let mut r: Vec<String> = Vec::new();
        r.push(String::from_str("image_grid_thw"));
        r
    }
}

fn repeat_token(token: TokenId, n: usize) -> (r: Vec<TokenId>)
    ensures
        r@ == Seq::new(n as nat, |i: int| token),
{
    let mut r: Vec<TokenId> = Vec::new();
    let mut i: usize = 0;
    while i < n
        invariant
            i <= n,
            r@ == Seq::new(i as nat, |j: int| token),
        decreases n - i,
    {
        r.push(token);
        i = i + 1;
        assert(r@ =~= Seq::new(i as nat, |j: int| token));
    }
    r
}

/// The token that is repeated in the place of an image is the one that stands for it: a
/// replacement holds the pad token and nothing else, once for each feature.
pub proof fn law_replacement_repeats_pad_token(r: PromptReplacement, token: TokenId, n: nat)
    requires
        pads_image(r, token, n),
    ensures
        r.tokens@.len() == n,
        forall|i: int| 0 <= i < n ==> #[trigger] r.tokens@[i] == token,
{
}

} // verus!
