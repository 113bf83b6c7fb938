//! The media of a request: what is to be fetched, and what was fetched.
use crate::error::{MultiModalError, MultiModalResult, RegistryResult};
use crate::media;
use crate::media::{MediaSource, VideoFetchConfig};
use crate::registry;
use crate::registry::{ModelMetadata, ModelRegistry};
use crate::types;
use crate::types::{
    ImageDetail, MediaContentPart, Modality, ModalityMap, MultiModalData, MultiModalUUIDs,
};
use crate::video_sampling::UniformFpsFrameSampler;
use crate::vision::video_sampling::FrameSampler;
use vstd::prelude::*;
use vstd::string::*;

verus! {

/// The media of a request, and their ids.
#[derive(Debug)]
pub struct TrackerOutput<M> {
    pub data: MultiModalData<M>,
    pub uuids: MultiModalUUIDs,
}

/// What is to be fetched, and how.
#[derive(Debug)]
pub enum FetchRequest<S> {
    Image { source: MediaSource, detail: ImageDetail },
    Video { source: MediaSource, config: VideoFetchConfig<S> },
}

/// The scheme of the URL that a text is, as the `url` crate parses it; none where the text is no
/// absolute URL.
pub uninterp spec fn url_scheme(text: Seq<char>) -> Option<Seq<char>>;

/// Calls `url::Url::parse`, and `scheme` on the URL that it gives.
///
/// Trusted: whether the text is an absolute URL and, if so, what its scheme is, depend on the text
/// alone. Which texts those are is not stated.
#[verifier::external_body]
fn parse_url_scheme(text: &str) -> (r: Option<String>)
    ensures
        match r {
            Some(scheme) => url_scheme(text@) == Some(scheme@),
            None => url_scheme(text@) is None,
        },
{
    match url::Url::parse(text) {
        Ok(parsed) => Some(parsed.scheme().to_string()),
        Err(_) => None,
    }
}

/// Where the media behind a URL come from: out of the URL itself for the scheme `data`.
pub open spec fn source_of(url: String, scheme: Option<Seq<char>>) -> MediaSource {
    if scheme == Some("data"@) {
        MediaSource::DataUrl(url)
    } else {
        MediaSource::Url(url)
    }
}

/// Where the media behind a URL with that scheme come from.
pub fn media_source(url: String, scheme: Option<String>) -> (r: MediaSource)
    ensures
        r == source_of(
            url,
            match scheme {
                Some(s) => Some(s@),
                None => None,
            },
        ),
{
    match scheme {
        Some(s) => if s == String::from_str("data") {
            MediaSource::DataUrl(url)
        } else {
            MediaSource::Url(url)
        },
        None => MediaSource::Url(url),
    }
}

/// What a part of a message asks for.
pub enum PartPlan<S> {
    /// Nothing.
    Nothing,
    /// What is not supported.
    Unsupported(&'static str),
    /// Media of some kind, under an id.
    Fetch { modality: Modality, uuid: Option<String>, request: FetchRequest<S> },
}

/// The detail that is asked for, or the default one.
pub open spec fn detail_or_default(detail: Option<ImageDetail>) -> ImageDetail {
    match detail {
        Some(detail) => detail,
        None => ImageDetail::Auto,
    }
}

/// What a part asks for, given the scheme of its URL, if it has one.
pub open spec fn plan<S>(
    part: MediaContentPart,
    scheme: Option<Seq<char>>,
    config: VideoFetchConfig<S>,
) -> PartPlan<S> {
    match part {
        MediaContentPart::Text { .. } => PartPlan::Nothing,
        MediaContentPart::ImageUrl { url, detail, uuid } => PartPlan::Fetch {
            modality: Modality::Image,
            uuid,
            request: FetchRequest::Image {
                source: source_of(url, scheme),
                detail: detail_or_default(detail),
            },
        },
        MediaContentPart::ImageData { data, uuid, detail, .. } => PartPlan::Fetch {
            modality: Modality::Image,
            uuid,
            request: FetchRequest::Image {
                source: MediaSource::InlineBytes(data),
                detail: detail_or_default(detail),
            },
        },
        MediaContentPart::ImageEmbeds { .. } => PartPlan::Unsupported("image_embeds"),
        MediaContentPart::VideoUrl { url, uuid } => PartPlan::Fetch {
            modality: Modality::Video,
            uuid,
            request: FetchRequest::Video { source: source_of(url, scheme), config },
        },
        MediaContentPart::VideoData { data, uuid, .. } => PartPlan::Fetch {
            modality: Modality::Video,
            uuid,
            request: FetchRequest::Video { source: MediaSource::InlineBytes(data), config },
        },
    }
}

/// The scheme of the URL of a part.
pub open spec fn part_scheme(part: MediaContentPart) -> Option<Seq<char>> {
    match part {
        MediaContentPart::ImageUrl { url, .. } => url_scheme(url@),
        MediaContentPart::VideoUrl { url, .. } => url_scheme(url@),
        _ => None,
    }
}

/// Decides what a part asks for, given the scheme of its URL, if it has one.
pub fn plan_part<S>(
    part: MediaContentPart,
    scheme: Option<String>,
    config: &VideoFetchConfig<S>,
) -> (r: PartPlan<S>)
    ensures
        r == plan(
            part,
            match scheme {
                Some(s) => Some(s@),
                None => None,
            },
            *config,
        ),
{
    match part {
        MediaContentPart::Text { .. } => PartPlan::Nothing,
        MediaContentPart::ImageUrl { url, detail, uuid } => PartPlan::Fetch {
            modality: Modality::Image,
            uuid,
            request: FetchRequest::Image {
                source: media_source(url, scheme),
                detail: unwrap_detail(detail),
            },
        },
        MediaContentPart::ImageData { data, mime_type: _, uuid, detail } => PartPlan::Fetch {
            modality: Modality::Image,
            uuid,
            request: FetchRequest::Image {
                source: MediaSource::InlineBytes(data),
                detail: unwrap_detail(detail),
            },
        },
        MediaContentPart::ImageEmbeds { .. } => PartPlan::Unsupported("image_embeds"),
        MediaContentPart::VideoUrl { url, uuid } => PartPlan::Fetch {
            modality: Modality::Video,
            uuid,
            request: FetchRequest::Video {
                source: media_source(url, scheme),
                config: config.clone(),
            },
        },
        MediaContentPart::VideoData { data, mime_type: _, uuid } => PartPlan::Fetch {
            modality: Modality::Video,
            uuid,
            request: FetchRequest::Video {
                source: MediaSource::InlineBytes(data),
                config: config.clone(),
            },
        },
    }
}

fn unwrap_detail(detail: Option<ImageDetail>) -> (r: ImageDetail)
    ensures
        r == detail_or_default(detail),
{
    match detail {
        Some(detail) => detail,
        None => ImageDetail::default(),
    }
}

/// Collects the media of a request. Each fetch is started as soon as its part is queued; `H` is
/// what stands for a fetch under way.
pub struct AsyncMultiModalTracker<S, H> {
    video_fetch_config: VideoFetchConfig<S>,
    pending: ModalityMap<Vec<H>>,
    uuids: MultiModalUUIDs,
}

impl<S, H> AsyncMultiModalTracker<S, H> {
    /// How videos are fetched.
    pub closed spec fn config(self) -> VideoFetchConfig<S> {
        self.video_fetch_config
    }

    /// The fetches under way, by modality, in the order in which they were queued.
    pub closed spec fn tasks(self) -> Map<Modality, Seq<H>> {
        types::lists(self.pending@)
    }

    /// The ids of the media, by modality, in the order in which they were queued.
    pub closed spec fn media_ids(self) -> Map<Modality, Seq<Option<String>>> {
        types::lists(self.uuids@)
    }

    /// Every fetch has its id, and no list is kept that is empty.
    pub open spec fn well_formed(self) -> bool {
        &&& self.tasks().dom() == self.media_ids().dom()
        &&& forall|m: Modality| #[trigger]
            self.tasks().dom().contains(m) ==> self.tasks()[m].len() > 0 && self.tasks()[m].len()
                == self.media_ids()[m].len()
    }

    /// How videos are fetched.
    pub fn video_fetch_config(&self) -> (r: &VideoFetchConfig<S>)
        ensures
            *r == self.config(),
    {
        &self.video_fetch_config
    }

    /// Configure model-specific video frame sampling for subsequently queued
    /// video parts.
    pub fn with_video_fetch_config<T>(
        self,
        config: VideoFetchConfig<T>,
    ) -> (r: AsyncMultiModalTracker<T, H>)
        ensures
            r.config() == config,
            r.tasks() == self.tasks(),
            r.media_ids() == self.media_ids(),
    {
        AsyncMultiModalTracker {
            video_fetch_config: config,
            pending: self.pending,
            uuids: self.uuids,
        }
    }

    /// Queues a part of a message: starts the fetch that it asks for, if any.
    pub fn push_part<F: FnOnce(FetchRequest<S>) -> H>(
        &mut self,
        part: MediaContentPart,
        spawn: F,
    ) -> (r: MultiModalResult<()>)
        requires
            forall|request: FetchRequest<S>| call_requires(spawn, (request,)),
        ensures
            old(self).well_formed() ==> final(self).well_formed(),
            match plan(part, part_scheme(part), old(self).config()) {
                PartPlan::Nothing => r is Ok && *final(self) == *old(self),
                PartPlan::Unsupported(what) => r == Err::<(), MultiModalError>(
                    MultiModalError::UnsupportedContent(what),
                ) && *final(self) == *old(self),
                PartPlan::Fetch { modality, uuid, request } => {
                    &&& r is Ok
                    &&& queued(*old(self), *final(self), modality, uuid, request, spawn)
                },
            },
            match part {
                MediaContentPart::Text { .. } => r is Ok && *final(self) == *old(self),
                MediaContentPart::ImageEmbeds { .. } => r == Err::<(), MultiModalError>(
                    MultiModalError::UnsupportedContent("image_embeds"),
                ) && *final(self) == *old(self),
                MediaContentPart::ImageUrl { url, detail, uuid } => r is Ok && queued(
                    *old(self),
                    *final(self),
                    Modality::Image,
                    uuid,
                    FetchRequest::Image {
                        source: if url_scheme(url@) == Some("data"@) {
                            MediaSource::DataUrl(url)
                        } else {
                            MediaSource::Url(url)
                        },
                        detail: match detail {
                            Some(d) => d,
                            None => ImageDetail::Auto,
                        },
                    },
                    spawn,
                ),
                MediaContentPart::ImageData { data, mime_type, uuid, detail } => r is Ok && queued(
                    *old(self),
                    *final(self),
                    Modality::Image,
                    uuid,
                    FetchRequest::Image {
                        source: MediaSource::InlineBytes(data),
                        detail: match detail {
                            Some(d) => d,
                            None => ImageDetail::Auto,
                        },
                    },
                    spawn,
                ),
                MediaContentPart::VideoUrl { url, uuid } => r is Ok && queued(
                    *old(self),
                    *final(self),
                    Modality::Video,
                    uuid,
                    FetchRequest::Video {
                        source: if url_scheme(url@) == Some("data"@) {
                            MediaSource::DataUrl(url)
                        } else {
                            MediaSource::Url(url)
                        },
                        config: old(self).config(),
                    },
                    spawn,
                ),
                MediaContentPart::VideoData { data, mime_type, uuid } => r is Ok && queued(
                    *old(self),
                    *final(self),
                    Modality::Video,
                    uuid,
                    FetchRequest::Video {
                        source: MediaSource::InlineBytes(data),
                        config: old(self).config(),
                    },
                    spawn,
                ),
            },
    {
        let scheme = match &part {
            MediaContentPart::ImageUrl { url, .. } => parse_url_scheme(url.as_str()),
            MediaContentPart::VideoUrl { url, .. } => parse_url_scheme(url.as_str()),
            _ => None,
        };
        match plan_part(part, scheme, &self.video_fetch_config) {
            PartPlan::Nothing => Ok(()),
            PartPlan::Unsupported(what) => Err(MultiModalError::UnsupportedContent(what)),
            PartPlan::Fetch { modality, uuid, request } => {
                self.enqueue(modality, uuid, request, spawn);
                Ok(())
            },
        }
    }

    /// Starts a fetch, and queues it with its id.
    fn enqueue<F: FnOnce(FetchRequest<S>) -> H>(
        &mut self,
        modality: Modality,
        uuid: Option<String>,
        request: FetchRequest<S>,
        spawn: F,
    )
        requires
            call_requires(spawn, (request,)),
        ensures
            old(self).well_formed() ==> final(self).well_formed(),
            queued(*old(self), *final(self), modality, uuid, request, spawn),
    {
        types::push_item(&mut self.uuids, modality, uuid);
        let task = spawn(request);
        types::push_item(&mut self.pending, modality, task);
        proof {
            assert(queued_as(*old(self), *self, modality, uuid, task));
            if old(self).well_formed() {
                assert(self.tasks().dom() =~= self.media_ids().dom());
            }
        }
    }
}

/// Whether a tracker is another one with one more fetch and its id at the end of the lists for a
/// modality.
pub open spec fn queued_as<S, H>(
    before: AsyncMultiModalTracker<S, H>,
    after: AsyncMultiModalTracker<S, H>,
    modality: Modality,
    uuid: Option<String>,
    task: H,
) -> bool {
    &&& after.config() == before.config()
    &&& after.media_ids() == types::with_item(before.media_ids(), modality, uuid)
    &&& after.tasks() == types::with_item(before.tasks(), modality, task)
}

/// Whether a tracker is another one with one more fetch: what `spawn` gave for the request.
pub open spec fn queued<S, H, F: FnOnce(FetchRequest<S>) -> H>(
    before: AsyncMultiModalTracker<S, H>,
    after: AsyncMultiModalTracker<S, H>,
    modality: Modality,
    uuid: Option<String>,
    request: FetchRequest<S>,
    spawn: F,
) -> bool {
    exists|task: H| #[trigger]
        queued_as(before, after, modality, uuid, task) && call_ensures(spawn, (request,), task)
}

impl<H> AsyncMultiModalTracker<FrameSampler, H> {
    /// A tracker without media, which samples videos by default.
    pub fn new() -> (r: Self)
        ensures
            r.well_formed(),
            r.tasks() == Map::<Modality, Seq<H>>::empty(),
            r.media_ids() == Map::<Modality, Seq<Option<String>>>::empty(),
            r.config().target == media::default_target(),
            *r.config().sampler == FrameSampler::UniformFps(UniformFpsFrameSampler),
    {
        let r = AsyncMultiModalTracker {
            video_fetch_config: VideoFetchConfig::default(),
            pending: ModalityMap::new(),
            uuids: ModalityMap::new(),
        };
        proof {
            assert(r.tasks() =~= Map::<Modality, Seq<H>>::empty());
            assert(r.media_ids() =~= Map::<Modality, Seq<Option<String>>>::empty());
            assert(r.tasks().dom() =~= r.media_ids().dom());
        }
        r
    }

    /// Create a tracker with video sampling selected from model metadata.
    pub fn new_for_model(registry: &ModelRegistry, metadata: &ModelMetadata) -> (r: RegistryResult<
        Self,
    >)
        ensures
            r matches Ok(tracker) && {
                &&& tracker.well_formed()
                &&& tracker.tasks() == Map::<Modality, Seq<H>>::empty()
                &&& tracker.media_ids() == Map::<Modality, Seq<Option<String>>>::empty()
                &&& tracker.config().target == media::default_target()
                &&& registry::model_sampler(
                    metadata.model_id@,
                    *metadata.config,
                    *tracker.config().sampler,
                )
            },
    {
        match registry.video_fetch_config(metadata) {
            Ok(config) => {
                let tracker = Self::new().with_video_fetch_config(config);
                Ok(tracker)
            },
            Err(e) => Err(e),
        }
    }
}

/// The content of a [`TrackerOutput`].
pub struct OutputView<M> {
    pub data: Map<Modality, Seq<M>>,
    pub uuids: Map<Modality, Seq<Option<String>>>,
}

impl<M> View for TrackerOutput<M> {
    type V = OutputView<M>;

    open spec fn view(&self) -> OutputView<M> {
        OutputView { data: types::lists(self.data@), uuids: types::lists(self.uuids@) }
    }
}

/// A request whose media are being collected: one fetch is waited for, and others come after it.
pub struct Finalization<H, M> {
    awaited: Modality,
    /// The fetches that come after the one that is waited for, the last one first.
    reversed: Vec<(Modality, H)>,
    data: MultiModalData<M>,
    uuids: MultiModalUUIDs,
}

/// The content of a [`Finalization`].
pub struct FinalizationView<H, M> {
    pub awaited: Modality,
    pub remaining: Seq<(Modality, H)>,
    pub data: Map<Modality, Seq<M>>,
    pub uuids: Map<Modality, Seq<Option<String>>>,
}

impl<H, M> View for Finalization<H, M> {
    type V = FinalizationView<H, M>;

    closed spec fn view(&self) -> FinalizationView<H, M> {
        FinalizationView {
            awaited: self.awaited,
            remaining: self.reversed@.reverse(),
            data: types::lists(self.data@),
            uuids: types::lists(self.uuids@),
        }
    }
}

/// What comes next in collecting the media of a request.
pub enum FinalizeStep<H, M> {
    /// Wait for a fetch, and go on with what it came to.
    Await { task: H, rest: Finalization<H, M> },
    /// All media are there.
    Done(TrackerOutput<M>),
}

/// The content of a [`FinalizeStep`].
pub enum FinalizeStepView<H, M> {
    Await { task: H, rest: FinalizationView<H, M> },
    Done(OutputView<M>),
}

impl<H, M> View for FinalizeStep<H, M> {
    type V = FinalizeStepView<H, M>;

    open spec fn view(&self) -> FinalizeStepView<H, M> {
        match *self {
            FinalizeStep::Await { task, rest } => FinalizeStepView::Await { task, rest: rest@ },
            FinalizeStep::Done(output) => FinalizeStepView::Done(output@),
        }
    }
}

/// Fetches of one modality.
pub open spec fn tagged<H>(modality: Modality, tasks: Seq<H>) -> Seq<(Modality, H)> {
    tasks.map_values(|task: H| (modality, task))
}

/// All fetches in the order in which they are waited for: modality by modality, and within one in
/// the order in which they were queued.
pub open spec fn queue<H>(tasks: Map<Modality, Seq<H>>) -> Seq<(Modality, H)> {
    tagged(Modality::Image, types::list_of(tasks, Modality::Image)) + tagged(
        Modality::Video,
        types::list_of(tasks, Modality::Video),
    )
}

/// What comes next when these fetches are left and these media are there.
pub open spec fn next_step<H, M>(
    remaining: Seq<(Modality, H)>,
    data: Map<Modality, Seq<M>>,
    uuids: Map<Modality, Seq<Option<String>>>,
) -> FinalizeStepView<H, M> {
    if remaining.len() == 0 {
        FinalizeStepView::Done(OutputView { data, uuids })
    } else {
        FinalizeStepView::Await {
            task: remaining[0].1,
            rest: FinalizationView {
                awaited: remaining[0].0,
                remaining: remaining.drop_first(),
                data,
                uuids,
            },
        }
    }
}

/// What comes next when the fetch that was waited for came to this.
pub open spec fn resumed<H, M>(
    state: FinalizationView<H, M>,
    outcome: MultiModalResult<M>,
) -> MultiModalResult<FinalizeStepView<H, M>> {
    match outcome {
        Ok(media) => Ok(
            next_step(
                state.remaining,
                types::with_item(state.data, state.awaited, media),
                state.uuids,
            ),
        ),
        Err(e) => Err(e),
    }
}

/// The content of a step that may have failed.
pub open spec fn stepped<H, M>(r: MultiModalResult<FinalizeStep<H, M>>) -> MultiModalResult<
    FinalizeStepView<H, M>,
> {
    match r {
        Ok(step) => Ok(step@),
        Err(e) => Err(e),
    }
}

/// Goes on with the fetches that are left, the last one first.
fn advance<H, M>(
    reversed: Vec<(Modality, H)>,
    data: MultiModalData<M>,
    uuids: MultiModalUUIDs,
) -> (r: FinalizeStep<H, M>)
    ensures
        r@ == next_step(
            reversed@.reverse(),
            types::lists(data@),
            types::lists(uuids@),
        ),
{
    let mut reversed = reversed;
    let ghost before = reversed@;
    match reversed.pop() {
        Some((awaited, task)) => {
            proof {
                assert(before.reverse().drop_first() =~= reversed@.reverse());
            }
            FinalizeStep::Await { task, rest: Finalization { awaited, reversed, data, uuids } }
        },
        None => FinalizeStep::Done(TrackerOutput { data, uuids }),
    }
}

/// Puts fetches of one modality before those that are left, the last one first.
fn put_before<H>(reversed: &mut Vec<(Modality, H)>, modality: Modality, tasks: Option<Vec<H>>)
    ensures
        final(reversed)@.reverse() == tagged(
            modality,
            match tasks {
                Some(list) => list@,
                None => Seq::empty(),
            },
        ) + old(reversed)@.reverse(),
{
    let ghost before = reversed@.reverse();
    match tasks {
        Some(list) => {
            let mut list = list;
            let ghost all = list@;
            while list.len() > 0
                invariant
                    list@.len() <= all.len(),
                    list@ == all.take(list@.len() as int),
                    reversed@.reverse() == tagged(modality, all.skip(list@.len() as int)) + before,
                decreases list.len(),
            {
                let ghost n = list@.len() as int;
                let ghost had = reversed@.reverse();
                match list.pop() {
                    Some(task) => {
                        reversed.push((modality, task));
                        proof {
                            assert(task == all[n - 1]);
                            assert(reversed@.reverse() =~= seq![(modality, task)] + had);
                            assert(tagged(modality, all.skip(n - 1)) =~= seq![(modality, task)]
                                + tagged(modality, all.skip(n)));
                            assert(list@ =~= all.take(n - 1));
                            assert(reversed@.reverse() =~= tagged(modality, all.skip(n - 1))
                                + before);
                        }
                    },
                    None => {},
                }
            }
            proof {
                assert(all.skip(0) =~= all);
            }
        },
        None => {
            proof {
                assert(reversed@.reverse() =~= tagged(modality, Seq::<H>::empty()) + before);
            }
        },
    }
}

impl<S, H> AsyncMultiModalTracker<S, H> {
    /// Collects the media of the request: gives the first fetch to wait for, if there is one.
    pub fn finalize<M>(self) -> (r: FinalizeStep<H, M>)
        ensures
            r@ == next_step(
                queue(self.tasks()),
                Map::<Modality, Seq<M>>::empty(),
                self.media_ids(),
            ),
    {
        let mut pending = self.pending;
        let data: MultiModalData<M> = ModalityMap::new();
        let mut reversed: Vec<(Modality, H)> = Vec::new();
        let videos = pending.remove(Modality::Video);
        let images = pending.remove(Modality::Image);
        put_before(&mut reversed, Modality::Video, videos);
        put_before(&mut reversed, Modality::Image, images);
        proof {
            assert(Seq::<(Modality, H)>::empty().reverse() =~= Seq::empty());
            assert(reversed@.reverse() =~= queue(self.tasks()));
            assert(types::lists(data@) =~= Map::<Modality, Seq<M>>::empty());
        }
        advance(reversed, data, self.uuids)
    }
}

impl<H, M> Finalization<H, M> {
    /// Goes on with what the fetch that was waited for came to: a failure ends the collection, and
    /// media are kept in their place.
    pub fn resume(self, outcome: MultiModalResult<M>) -> (r: MultiModalResult<FinalizeStep<H, M>>)
        ensures
            stepped(r) == resumed(self@, outcome),
    {
        match outcome {
            Ok(media) => {
                let mut data = self.data;
                types::push_item(&mut data, self.awaited, media);
                Ok(advance(self.reversed, data, self.uuids))
            },
            Err(e) => Err(e),
        }
    }
}

} // verus!
