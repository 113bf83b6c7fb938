//! The plain data of multimodal requests.
use crate::config::ConfigValue;
use vstd::prelude::*;
use vstd::string::*;

verus! {

/// The id of a token.
pub type TokenId = u32;

/// A kind of media.
#[derive(Clone, Copy, Debug, PartialEq, Eq, Hash, Structural)]
pub enum Modality {
    Image,
    Video,
}

/// How closely a model should look at an image.
#[derive(Clone, Copy, Debug, PartialEq, Eq, Structural)]
pub enum ImageDetail {
    Auto,
    Low,
    High,
}

impl Default for ImageDetail {
    fn default() -> (r: Self)
        ensures
            r == ImageDetail::Auto,
    {
        ImageDetail::Auto
    }
}

/// A part of a chat message.
pub enum MediaContentPart {
    Text { text: String },
    ImageUrl { url: String, detail: Option<ImageDetail>, uuid: Option<String> },
    ImageData {
        data: Vec<u8>,
        mime_type: Option<String>,
        uuid: Option<String>,
        detail: Option<ImageDetail>,
    },
    ImageEmbeds { payload: ConfigValue, uuid: Option<String> },
    VideoUrl { url: String, uuid: Option<String> },
    VideoData { data: Vec<u8>, mime_type: Option<String>, uuid: Option<String> },
}

/// At most one value for each modality.
#[derive(Debug, PartialEq, Eq)]
pub struct ModalityMap<V> {
    image: Option<V>,
    video: Option<V>,
}

/// Lists of fetched media, in the order in which they were asked for.
pub type MultiModalData<M> = ModalityMap<Vec<M>>;

/// Lists of media ids, in the order in which the media were asked for.
pub type MultiModalUUIDs = ModalityMap<Vec<Option<String>>>;

impl<V> View for ModalityMap<V> {
    type V = Map<Modality, V>;

    closed spec fn view(&self) -> Map<Modality, V> {
        let slots = *self;
        Map::new(|m: Modality| slots.slot(m) is Some, |m: Modality| slots.slot(m)->0)
    }
}

impl<V> ModalityMap<V> {
    closed spec fn slot(self, modality: Modality) -> Option<V> {
        match modality {
            Modality::Image => self.image,
            Modality::Video => self.video,
        }
    }

    pub fn new() -> (r: Self)
        ensures
            r@ == Map::<Modality, V>::empty(),
    {
        let r = ModalityMap { image: None, video: None };
        assert(r@ =~= Map::<Modality, V>::empty());
        r
    }

    /// The value for a modality.
    pub fn get(&self, modality: Modality) -> (r: Option<&V>)
        ensures
            match r {
                Some(value) => self@.dom().contains(modality) && self@[modality] == *value,
                None => !self@.dom().contains(modality),
            },
    {
        match modality {
            Modality::Image => self.image.as_ref(),
            Modality::Video => self.video.as_ref(),
        }
    }

    /// Sets the value for a modality.
    pub fn insert(&mut self, modality: Modality, value: V)
        ensures
            final(self)@ == old(self)@.insert(modality, value),
    {
        match modality {
            Modality::Image => {
                self.image = Some(value);
            },
            Modality::Video => {
                self.video = Some(value);
            },
        }
        assert(self@ =~= old(self)@.insert(modality, value));
    }

    /// Takes the value for a modality out.
    pub fn remove(&mut self, modality: Modality) -> (r: Option<V>)
        ensures
            final(self)@ == old(self)@.remove(modality),
            match r {
                Some(value) => old(self)@.dom().contains(modality) && old(self)@[modality] == value,
                None => !old(self)@.dom().contains(modality),
            },
    {
        let r = match modality {
            Modality::Image => self.image.take(),
            Modality::Video => self.video.take(),
        };
        assert(self@ =~= old(self)@.remove(modality));
        r
    }
}

/// The contents of lists that are kept by modality.
pub open spec fn lists<T>(m: Map<Modality, Vec<T>>) -> Map<Modality, Seq<T>> {
    m.map_values(|v: Vec<T>| v@)
}

/// The list for a modality, which is empty where there is none.
pub open spec fn list_of<T>(m: Map<Modality, Seq<T>>, modality: Modality) -> Seq<T> {
    if m.dom().contains(modality) {
        m[modality]
    } else {
        Seq::empty()
    }
}

/// The lists with one more item at the end of that for a modality, which is started for it.
pub open spec fn with_item<T>(m: Map<Modality, Seq<T>>, modality: Modality, item: T) -> Map<
    Modality,
    Seq<T>,
> {
    m.insert(modality, list_of(m, modality).push(item))
}

/// Adds an item at the end of the list for a modality, starting the list for it.
pub fn push_item<T>(map: &mut ModalityMap<Vec<T>>, modality: Modality, item: T)
    ensures
        lists(final(map)@) == with_item(lists(old(map)@), modality, item),
{
    let mut list: Vec<T> = match map.remove(modality) {
        Some(list) => list,
        None => Vec::new(),
    };
    list.push(item);
    map.insert(modality, list);
    assert(lists(map@) =~= with_item(lists(old(map)@), modality, item));
}

/// Tokens that take the place of a placeholder in a prompt.
#[derive(Debug, PartialEq, Eq)]
pub struct PromptReplacement {
    pub modality: Modality,
    pub placeholder_token: String,
    pub tokens: Vec<TokenId>,
}

impl PromptReplacement {
    /// Replaces a placeholder by a sequence of tokens.
    pub fn sequence(modality: Modality, placeholder_token: &str, tokens: Vec<TokenId>) -> (r: Self)
        ensures
            r.modality == modality,
            r.placeholder_token@ == placeholder_token@,
            r.tokens == tokens,
    {
        PromptReplacement { modality, placeholder_token: String::from_str(placeholder_token), tokens }
    }
}

/// How a field of the encoder input is laid out over the images of a request.
#[derive(Debug, PartialEq, Eq)]
pub enum FieldLayout {
    /// One entry for each image.
    Batched,
    /// As many entries for each image as another field says.
    Flat { sizes_key: String },
}

impl FieldLayout {
    /// The name of the field that gives the sizes of a flat one.
    pub open spec fn sizes(self) -> Option<Seq<char>> {
        match self {
            FieldLayout::Batched => None,
            FieldLayout::Flat { sizes_key } => Some(sizes_key@),
        }
    }

    /// A flat layout whose sizes are in another field.
    pub fn flat(sizes_key: &str) -> (r: Self)
        ensures
            r.sizes() == Some(sizes_key@),
            r matches FieldLayout::Flat { sizes_key: key } && key@ == sizes_key@,
    {
        FieldLayout::Flat { sizes_key: String::from_str(sizes_key) }
    }
}

/// What a model's processor makes of the images of a request, as far as prompts depend on it: how
/// many feature tokens each image takes.
#[derive(Debug, PartialEq, Eq)]
pub struct PreprocessedEncoderInputs {
    pub feature_token_counts: Vec<usize>,
}

} // verus!
