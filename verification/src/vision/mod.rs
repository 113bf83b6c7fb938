//! Vision models.
pub mod video_sampling;
