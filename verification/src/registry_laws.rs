//! What the registry knows of a model, by the model's id and configuration.
use crate::config::ConfigValue;
use crate::config_laws;
use crate::registry;
use crate::registry::qwen3_vl;
use crate::registry::qwen_vl;
use crate::types::{Modality, PromptReplacement, TokenId};
use crate::video_sampling::UniformFpsFrameSampler;
use crate::vision::video_sampling::qwen3_vl::Qwen3VlFrameSampler;
use crate::vision::video_sampling::FrameSampler;
use vstd::prelude::*;
use vstd::string::*;

verus! {

/// A model is a Qwen3-VL model exactly where its id, in lower case, holds `qwen3` in one piece and
/// `vl`, or its type is `qwen3_vl`; and a Qwen-VL model exactly where its id holds `qwen` and `vl`,
/// or its type is `qwen2_vl`.
pub proof fn law_models_are_told_apart(id: Seq<char>, lower: Seq<char>, config: ConfigValue)
    requires
        config_laws::is_lower_case_of(lower, id),
    ensures
        qwen3_vl::is_qwen3_vl(id, config) <==> {
            ||| config_laws::holds(lower, "qwen3"@) && config_laws::holds(lower, "vl"@)
            ||| config_laws::states_type(config, "qwen3_vl"@)
        },
        qwen_vl::is_qwen_vl(id, config) <==> {
            ||| config_laws::holds(lower, "qwen"@) && config_laws::holds(lower, "vl"@)
            ||| config_laws::states_type(config, "qwen2_vl"@)
        },
{
    assert(crate::text::ascii_lowercase(id) =~= lower) by {
        assert forall|i: int| 0 <= i < id.len() implies crate::text::ascii_lowercase(id)[i]
            == #[trigger] lower[i] by {
            config_laws::law_lower_case_of_each_character(id, i);
        }
    }
    config_laws::law_occurrences_split_a_text(lower, "qwen3"@);
    config_laws::law_occurrences_split_a_text(lower, "qwen"@);
    config_laws::law_occurrences_split_a_text(lower, "vl"@);
    config_laws::law_model_type_is_stated(config, "qwen3_vl"@);
    config_laws::law_model_type_is_stated(config, "qwen2_vl"@);
}

/// The frames of a temporal patch are what the member `temporal_patch_size` of the member
/// `vision_config` says, where that is an unsigned integer of thirty-two bits, and two otherwise.
pub proof fn law_temporal_patch_is_configured(config: ConfigValue, n: u32)
    ensures
        config_laws::first_nested(
            config,
            "vision_config"@,
            "temporal_patch_size"@,
            ConfigValue::Unsigned(n as u64),
        ) ==> qwen_vl::temporal_patch(config) == n,
        (forall|m: u32|
            !#[trigger] config_laws::first_nested(
                config,
                "vision_config"@,
                "temporal_patch_size"@,
                ConfigValue::Unsigned(m as u64),
            )) ==> qwen_vl::temporal_patch(config) == 2,
{
    config_laws::law_nested_fields_are_read(
        config,
        "vision_config"@,
        "temporal_patch_size"@,
        n,
    );
    match registry::config_field(config, seq!["vision_config"@, "temporal_patch_size"@]) {
        Some(m) => {
            config_laws::law_nested_fields_are_read(
                config,
                "vision_config"@,
                "temporal_patch_size"@,
                m,
            );
        },
        None => {},
    }
}

/// The sampler for a model: the uniform one of Qwen3-VL for a Qwen3-VL model, that of Qwen2-VL with
/// the model's temporal patch for any other Qwen-VL model, and the plain uniform one for the rest.
pub proof fn law_sampler_follows_the_model(
    id: Seq<char>,
    lower: Seq<char>,
    config: ConfigValue,
    sampler: FrameSampler,
)
    requires
        config_laws::is_lower_case_of(lower, id),
    ensures
        ({
            let vl = config_laws::holds(lower, "vl"@);
            let qwen3 = config_laws::holds(lower, "qwen3"@) && vl || config_laws::states_type(
                config,
                "qwen3_vl"@,
            );
            let qwen = config_laws::holds(lower, "qwen"@) && vl || config_laws::states_type(
                config,
                "qwen2_vl"@,
            );
            &&& qwen3 ==> (registry::model_sampler(id, config, sampler) <==> sampler
                == FrameSampler::Qwen3Vl(Qwen3VlFrameSampler))
            &&& qwen && !qwen3 ==> (registry::model_sampler(id, config, sampler) <==> (
            sampler matches FrameSampler::Qwen2Vl(s) && s.temporal_patch_size
                == qwen_vl::temporal_patch(config)))
            &&& !qwen && !qwen3 ==> (registry::model_sampler(id, config, sampler) <==> sampler
                == FrameSampler::UniformFps(UniformFpsFrameSampler))
        }),
{
    law_models_are_told_apart(id, lower, config);
}

/// The pad token is the first member `image_token_id` of the configuration, where that is an
/// unsigned integer of thirty-two bits, whatever the other members are; otherwise there is none.
pub proof fn law_pad_token_is_configured(config: ConfigValue, n: TokenId)
    ensures
        qwen_vl::pad_token(config) == Some(n) <==> config_laws::first_member(
            config,
            "image_token_id"@,
            ConfigValue::Unsigned(n as u64),
        ),
{
    config_laws::law_fields_are_read(config, "image_token_id"@, n);
}

/// An image of `k` features becomes `k` tokens, each of them the first member `image_token_id` of
/// the configuration.
pub proof fn law_images_become_image_tokens(
    config: ConfigValue,
    n: TokenId,
    r: PromptReplacement,
    k: nat,
)
    requires
        config_laws::first_member(config, "image_token_id"@, ConfigValue::Unsigned(n as u64)),
        qwen_vl::pad_token(config) matches Some(token) && qwen_vl::pads_image(r, token, k),
    ensures
        r.modality == Modality::Image,
        r.placeholder_token@ == "<|image_pad|>"@,
        r.tokens@.len() == k,
        forall|i: int| 0 <= i < k ==> #[trigger] r.tokens@[i] == n,
{
    law_pad_token_is_configured(config, n);
}

} // verus!
