//! Media of multimodal requests: which frames of a video a model is shown, what is fetched for a
//! request, and what particular models need to know of it.
pub mod accuracy_laws;
pub mod config;
pub mod config_laws;
pub mod error;
pub mod float;
pub mod float_laws;
pub mod media;
pub mod registry;
pub mod registry_laws;
pub mod request_laws;
pub mod rounding;
pub mod sampling_laws;
pub mod text;
pub mod tracker;
pub mod tracker_laws;
pub mod types;
pub mod video_sampling;
pub mod vision;

pub use config::{ConfigEntry, ConfigValue};
pub use error::{MediaConnectorError, ModelRegistryError, MultiModalError, MultiModalResult};
pub use float::F64Bits;
pub use media::{sample_video_frame_indices, MediaSource, VideoFetchConfig};
pub use registry::{ModelMetadata, ModelRegistry, Tokenizer};
pub use tracker::{AsyncMultiModalTracker, TrackerOutput};
pub use types::{
    FieldLayout, ImageDetail, MediaContentPart, Modality, ModalityMap, MultiModalData,
    MultiModalUUIDs, PreprocessedEncoderInputs, PromptReplacement, TokenId,
};
pub use video_sampling::{
    UniformFpsFrameSampler, VideoFrameMetadata, VideoFrameSampler, VideoFrameSamplingTarget,
};
pub use vision::video_sampling::qwen2_vl::Qwen2VlFrameSampler;
pub use vision::video_sampling::qwen3_vl::Qwen3VlFrameSampler;
