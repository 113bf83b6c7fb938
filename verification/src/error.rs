//! The errors of media fetching and of multimodal requests.
use vstd::prelude::*;

verus! {

/// A failure of the media connector.
#[derive(Debug, PartialEq, Eq)]
pub enum MediaConnectorError {
    /// A video could not be sampled or decoded.
    VideoDecode(String),
}

/// The content of a [`MediaConnectorError`].
pub enum MediaConnectorErrorView {
    VideoDecode(Seq<char>),
}

impl View for MediaConnectorError {
    type V = MediaConnectorErrorView;

    open spec fn view(&self) -> MediaConnectorErrorView {
        match *self {
            MediaConnectorError::VideoDecode(message) => MediaConnectorErrorView::VideoDecode(
                message@,
            ),
        }
    }
}

/// A failure of a multimodal request.
#[derive(Debug, PartialEq, Eq)]
pub enum MultiModalError {
    /// The request holds a kind of content that is not supported.
    UnsupportedContent(&'static str),
    /// Media could not be fetched.
    Media(MediaConnectorError),
    /// A fetching task was cancelled or panicked.
    Join(String),
}

pub type MultiModalResult<T> = Result<T, MultiModalError>;

/// A model that the registry cannot serve.
#[derive(Debug, PartialEq, Eq)]
pub enum ModelRegistryError {
    /// The model configuration lacks a field.
    MissingConfigField { field: String },
}

/// The content of a [`ModelRegistryError`].
pub enum ModelRegistryErrorView {
    MissingConfigField { field: Seq<char> },
}

impl View for ModelRegistryError {
    type V = ModelRegistryErrorView;

    open spec fn view(&self) -> ModelRegistryErrorView {
        match *self {
            ModelRegistryError::MissingConfigField {
                field,
            } => ModelRegistryErrorView::MissingConfigField { field: field@ },
        }
    }
}

pub type RegistryResult<T> = Result<T, ModelRegistryError>;

} // verus!
