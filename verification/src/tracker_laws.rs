//! What collecting the media of a request comes to.
use crate::config::ConfigValue;
use crate::error::{MultiModalError, MultiModalResult};
use crate::media::{MediaSource, VideoFetchConfig};
use crate::tracker;
use crate::tracker::{
    AsyncMultiModalTracker, FetchRequest, Finalization, FinalizeStep, FinalizeStepView, OutputView,
    PartPlan, TrackerOutput,
};
use crate::types;
use crate::types::{ImageDetail, MediaContentPart, Modality};
use vstd::prelude::*;
use vstd::string::*;

verus! {

/// What a collection comes to from some step on, when each fetch comes to what `outcome` says.
pub open spec fn collected<H, M>(
    step: FinalizeStepView<H, M>,
    outcome: spec_fn(H) -> MultiModalResult<M>,
) -> MultiModalResult<OutputView<M>>
    decreases
            (match step {
                FinalizeStepView::Done(_) => 0nat,
                FinalizeStepView::Await { rest, .. } => rest.remaining.len() + 1,
            }),
{
    match step {
        FinalizeStepView::Done(output) => Ok(output),
        FinalizeStepView::Await { task, rest } => match tracker::resumed(rest, outcome(task)) {
            Ok(next) => collected(next, outcome),
            Err(e) => Err(e),
        },
    }
}

/// The media that fetches came to.
pub open spec fn fetched<H, M>(
    tasks: Seq<H>,
    outcome: spec_fn(H) -> MultiModalResult<M>,
) -> Seq<M> {
    tasks.map_values(|task: H| outcome(task)->Ok_0)
}

/// The lists with more items at the end of that for a modality.
pub open spec fn with_items<T>(
    m: Map<Modality, Seq<T>>,
    modality: Modality,
    items: Seq<T>,
) -> Map<Modality, Seq<T>> {
    if items.len() == 0 {
        m
    } else {
        m.insert(modality, types::list_of(m, modality) + items)
    }
}

/// Fetches of one modality that all succeed extend its list by what they came to.
proof fn lemma_run_of_one_modality<H, M>(
    modality: Modality,
    tasks: Seq<H>,
    after: Seq<(Modality, H)>,
    data: Map<Modality, Seq<M>>,
    uuids: Map<Modality, Seq<Option<String>>>,
    outcome: spec_fn(H) -> MultiModalResult<M>,
)
    requires
        forall|i: int| 0 <= i < tasks.len() ==> outcome(#[trigger] tasks[i]) is Ok,
    ensures
        collected(
            tracker::next_step(tracker::tagged(modality, tasks) + after, data, uuids),
            outcome,
        ) == collected(
            tracker::next_step(
                after,
                with_items(data, modality, fetched(tasks, outcome)),
                uuids,
            ),
            outcome,
        ),
    decreases tasks.len(),
{
    let whole = tracker::tagged(modality, tasks) + after;
    if tasks.len() == 0 {
        assert(whole =~= after);
    } else {
        let rest = tasks.drop_first();
        let media = outcome(tasks[0])->Ok_0;
        let grown = types::with_item(data, modality, media);
        assert(whole.drop_first() =~= tracker::tagged(modality, rest) + after);
        assert(whole[0] == (modality, tasks[0]));
        assert forall|i: int| 0 <= i < rest.len() implies outcome(#[trigger] rest[i]) is Ok by {
            assert(rest[i] == tasks[i + 1]);
        }
        lemma_run_of_one_modality(modality, rest, after, grown, uuids, outcome);
        assert(fetched(tasks, outcome) =~= seq![media] + fetched(rest, outcome));
        assert(with_items(data, modality, fetched(tasks, outcome)) =~= with_items(
            grown,
            modality,
            fetched(rest, outcome),
        )) by {
            assert(types::list_of(data, modality) + fetched(tasks, outcome) =~= types::list_of(
                data,
                modality,
            ).push(media) + fetched(rest, outcome));
        }
    }
}

/// Where all fetches succeed, the output holds what they came to, by modality and in the order in
/// which they were queued, beside their ids: as many media as ids, in the same order.
pub proof fn law_finalize_keeps_order<S, H, M>(
    t: AsyncMultiModalTracker<S, H>,
    outcome: spec_fn(H) -> MultiModalResult<M>,
)
    requires
        t.well_formed(),
        forall|m: Modality, i: int|
            t.tasks().dom().contains(m) && 0 <= i < t.tasks()[m].len() ==> outcome(
                #[trigger] t.tasks()[m][i],
            ) is Ok,
    ensures
        ({
            let data = t.tasks().map_values(|tasks: Seq<H>| fetched(tasks, outcome));
            &&& collected(
                tracker::next_step(
                    tracker::queue(t.tasks()),
                    Map::<Modality, Seq<M>>::empty(),
                    t.media_ids(),
                ),
                outcome,
            ) == MultiModalResult::Ok(OutputView { data, uuids: t.media_ids() })
            &&& data.dom() == t.media_ids().dom()
            &&& forall|m: Modality| #[trigger]
                data.dom().contains(m) ==> data[m].len() == t.media_ids()[m].len()
        }),
{
    let tasks = t.tasks();
    let ids = t.media_ids();
    let images = types::list_of(tasks, Modality::Image);
    let videos = types::list_of(tasks, Modality::Video);
    let none = Map::<Modality, Seq<M>>::empty();
    let first = with_items(none, Modality::Image, fetched(images, outcome));
    let both = with_items(first, Modality::Video, fetched(videos, outcome));
    assert forall|i: int| 0 <= i < images.len() implies outcome(#[trigger] images[i]) is Ok by {
        assert(images[i] == tasks[Modality::Image][i]);
    }
    assert forall|i: int| 0 <= i < videos.len() implies outcome(#[trigger] videos[i]) is Ok by {
        assert(videos[i] == tasks[Modality::Video][i]);
    }
    lemma_run_of_one_modality(
        Modality::Image,
        images,
        tracker::tagged(Modality::Video, videos),
        none,
        ids,
        outcome,
    );
    let last = Seq::<(Modality, H)>::empty();
    assert(tracker::tagged(Modality::Video, videos) + last =~= tracker::tagged(
        Modality::Video,
        videos,
    ));
    lemma_run_of_one_modality(Modality::Video, videos, last, first, ids, outcome);
    let data = tasks.map_values(|ts: Seq<H>| fetched(ts, outcome));
    assert(both =~= data) by {
        assert forall|m: Modality| both.dom().contains(m) == #[trigger] data.dom().contains(m) by {}
        assert forall|m: Modality| #[trigger] data.dom().contains(m) implies both[m] =~= data[m] by {
            assert(Seq::<M>::empty() + data[m] =~= data[m]);
        }
    }
    assert(data.dom() =~= ids.dom());
}

/// The first fetch to fail, in the order in which they are waited for, decides the error.
pub proof fn law_finalize_reports_first_failure<H, M>(
    remaining: Seq<(Modality, H)>,
    data: Map<Modality, Seq<M>>,
    uuids: Map<Modality, Seq<Option<String>>>,
    outcome: spec_fn(H) -> MultiModalResult<M>,
    k: nat,
)
    requires
        k < remaining.len(),
        outcome(remaining[k as int].1) is Err,
        forall|j: int| 0 <= j < k ==> outcome((#[trigger] remaining[j]).1) is Ok,
    ensures
        collected(tracker::next_step(remaining, data, uuids), outcome) == MultiModalResult::<
            OutputView<M>,
        >::Err(outcome(remaining[k as int].1)->Err_0),
    decreases k,
{
    if k > 0 {
        let rest = remaining.drop_first();
        let media = outcome(remaining[0].1)->Ok_0;
        assert(rest[k - 1] == remaining[k as int]);
        assert forall|j: int| 0 <= j < k - 1 implies outcome((#[trigger] rest[j]).1) is Ok by {
            assert(rest[j] == remaining[j + 1]);
        }
        law_finalize_reports_first_failure(
            rest,
            types::with_item(data, remaining[0].0, media),
            uuids,
            outcome,
            (k - 1) as nat,
        );
    }
}

/// Queueing one more fetch appends it to its modality and leaves every other modality as it was;
/// fetches of different modalities can be queued in either order.
pub proof fn law_modalities_are_independent<T>(
    m: Map<Modality, Seq<T>>,
    a: Modality,
    x: T,
    b: Modality,
    y: T,
)
    ensures
        types::list_of(types::with_item(m, a, x), a) == types::list_of(m, a).push(x),
        a != b ==> types::list_of(types::with_item(m, a, x), b) == types::list_of(m, b),
        a != b ==> types::with_item(types::with_item(m, a, x), b, y) == types::with_item(
            types::with_item(m, b, y),
            a,
            x,
        ),
{
    if a != b {
        assert(types::with_item(types::with_item(m, a, x), b, y) =~= types::with_item(
            types::with_item(m, b, y),
            a,
            x,
        ));
    }
}

/// Media behind a URL come out of the URL itself where its scheme is `data`, and from where it
/// points otherwise; an image and a video with the same URL come from the same source.
pub proof fn law_urls_are_fetched_by_their_scheme<S>(
    url: String,
    scheme: Option<Seq<char>>,
    detail: Option<ImageDetail>,
    uuid: Option<String>,
    config: VideoFetchConfig<S>,
)
    ensures
        ({
            let source = if scheme == Some("data"@) {
                MediaSource::DataUrl(url)
            } else {
                MediaSource::Url(url)
            };
            let looked_at = if detail is Some {
                detail->0
            } else {
                ImageDetail::Auto
            };
            let image = MediaContentPart::ImageUrl { url, detail, uuid };
            let video = MediaContentPart::VideoUrl { url, uuid };
            &&& tracker::part_scheme(image) == tracker::url_scheme(url@)
            &&& tracker::part_scheme(video) == tracker::url_scheme(url@)
            &&& tracker::plan(image, scheme, config) == (PartPlan::<S>::Fetch {
                modality: Modality::Image,
                uuid,
                request: FetchRequest::Image { source, detail: looked_at },
            })
            &&& tracker::plan(video, scheme, config) == (PartPlan::Fetch {
                modality: Modality::Video,
                uuid,
                request: FetchRequest::Video { source, config },
            })
        }),
{
}

/// Media that a part holds itself are taken from it byte for byte, whatever their declared type.
pub proof fn law_inline_media_are_taken_as_they_are<S>(
    data: Vec<u8>,
    mime_type: Option<String>,
    scheme: Option<Seq<char>>,
    detail: Option<ImageDetail>,
    uuid: Option<String>,
    config: VideoFetchConfig<S>,
)
    ensures
        ({
            let source = MediaSource::InlineBytes(data);
            let looked_at = if detail is Some {
                detail->0
            } else {
                ImageDetail::Auto
            };
            &&& tracker::plan(
                MediaContentPart::ImageData { data, mime_type, uuid, detail },
                scheme,
                config,
            ) == (PartPlan::<S>::Fetch {
                modality: Modality::Image,
                uuid,
                request: FetchRequest::Image { source, detail: looked_at },
            })
            &&& tracker::plan(
                MediaContentPart::VideoData { data, mime_type, uuid },
                scheme,
                config,
            ) == (PartPlan::Fetch {
                modality: Modality::Video,
                uuid,
                request: FetchRequest::Video { source, config },
            })
        }),
{
}

/// Text asks for nothing, and embeddings of images are refused as `image_embeds`.
pub proof fn law_other_parts_fetch_nothing<S>(
    text: String,
    payload: ConfigValue,
    uuid: Option<String>,
    scheme: Option<Seq<char>>,
    config: VideoFetchConfig<S>,
)
    ensures
        tracker::plan(MediaContentPart::Text { text }, scheme, config) is Nothing,
        tracker::plan(MediaContentPart::ImageEmbeds { payload, uuid }, scheme, config)
            == PartPlan::<S>::Unsupported("image_embeds"),
{
}

/// A queued fetch stands, with its id, behind those of its modality that were queued before it;
/// the fetches and ids of the other modality, and how videos are fetched, stay as they were. The
/// fetch is what was started for the request.
pub proof fn law_queued_fetch_comes_last<S, H, F: FnOnce(FetchRequest<S>) -> H>(
    before: AsyncMultiModalTracker<S, H>,
    after: AsyncMultiModalTracker<S, H>,
    modality: Modality,
    other: Modality,
    uuid: Option<String>,
    request: FetchRequest<S>,
    spawn: F,
)
    requires
        before.well_formed(),
        tracker::queued(before, after, modality, uuid, request, spawn),
        other != modality,
    ensures
        ({
            let had = before.tasks().dom().contains(modality);
            let tasks = after.tasks()[modality];
            let ids = after.media_ids()[modality];
            &&& after.tasks().dom().contains(modality)
            &&& after.media_ids().dom().contains(modality)
            &&& had ==> tasks.drop_last() == before.tasks()[modality] && ids.drop_last()
                == before.media_ids()[modality]
            &&& !had ==> tasks.len() == 1 && ids.len() == 1
            &&& tasks.len() == ids.len() && tasks.len() > 0
            &&& call_ensures(spawn, (request,), tasks.last())
            &&& ids.last() == uuid
            &&& after.tasks().dom().contains(other) == before.tasks().dom().contains(other)
            &&& after.media_ids().dom().contains(other) == before.media_ids().dom().contains(other)
            &&& after.tasks().dom().contains(other) ==> after.tasks()[other] == before.tasks()[other]
                && after.media_ids()[other] == before.media_ids()[other]
            &&& after.config() == before.config()
        }),
{
    let task = choose|task: H| #[trigger]
        tracker::queued_as(before, after, modality, uuid, task) && call_ensures(
            spawn,
            (request,),
            task,
        );
    let tasks = after.tasks()[modality];
    let ids = after.media_ids()[modality];
    assert(tracker::queued_as(before, after, modality, uuid, task));
    assert(tasks.drop_last() =~= types::list_of(before.tasks(), modality));
    assert(ids.drop_last() =~= types::list_of(before.media_ids(), modality));
    if before.tasks().dom().contains(modality) {
        assert(before.media_ids().dom().contains(modality));
    }
}

/// Every modality is waited for in the order in which its fetches were queued, and each fetch
/// exactly once.
pub proof fn law_queue_keeps_each_modality_in_order<H>(tasks: Map<Modality, Seq<H>>, m: Modality)
    ensures
        tracker::queue(tasks).filter(|task: (Modality, H)| task.0 == m).map_values(
            |task: (Modality, H)| task.1,
        ) == (if tasks.dom().contains(m) {
            tasks[m]
        } else {
            Seq::empty()
        }),
{
    let images = tracker::tagged(Modality::Image, types::list_of(tasks, Modality::Image));
    let videos = tracker::tagged(Modality::Video, types::list_of(tasks, Modality::Video));
    let of_m = |task: (Modality, H)| task.0 == m;
    let inner = |task: (Modality, H)| task.1;
    Seq::filter_distributes_over_add(images, videos, of_m);
    lemma_filter_of_tagged(Modality::Image, types::list_of(tasks, Modality::Image), m);
    lemma_filter_of_tagged(Modality::Video, types::list_of(tasks, Modality::Video), m);
    let found = tracker::queue(tasks).filter(of_m);
    assert(found == images.filter(of_m) + videos.filter(of_m));
    match m {
        Modality::Image => {
            assert(found =~= images);
            assert(found.map_values(inner) =~= types::list_of(tasks, m));
        },
        Modality::Video => {
            assert(found =~= videos);
            assert(found.map_values(inner) =~= types::list_of(tasks, m));
        },
    }
}

/// Fetches of one modality are all or none of those of a modality.
proof fn lemma_filter_of_tagged<H>(modality: Modality, tasks: Seq<H>, m: Modality)
    ensures
        tracker::tagged(modality, tasks).filter(|task: (Modality, H)| task.0 == m) == (if modality
            == m {
            tracker::tagged(modality, tasks)
        } else {
            Seq::empty()
        }),
    decreases tasks.len(),
{
    reveal(Seq::filter);
    let all = tracker::tagged(modality, tasks);
    let of_m = |task: (Modality, H)| task.0 == m;
    if tasks.len() > 0 {
        lemma_filter_of_tagged(modality, tasks.drop_last(), m);
        assert(all.drop_last() =~= tracker::tagged(modality, tasks.drop_last()));
        if modality == m {
            assert(all =~= all.drop_last().push(all.last()));
        }
    } else {
        assert(all =~= Seq::empty());
    }
}

/// A failure is that of some fetch which fails while all fetches of its modality that were queued
/// before it succeed; and there is a failure wherever some fetch fails.
pub proof fn law_finalize_reports_a_failure<S, H, M>(
    t: AsyncMultiModalTracker<S, H>,
    outcome: spec_fn(H) -> MultiModalResult<M>,
    m: Modality,
    i: int,
) -> (first: (Modality, int))
    requires
        t.tasks().dom().contains(m),
        0 <= i < t.tasks()[m].len(),
        outcome(t.tasks()[m][i]) is Err,
    ensures
        t.tasks().dom().contains(first.0),
        0 <= first.1 < t.tasks()[first.0].len(),
        outcome(t.tasks()[first.0][first.1]) is Err,
        forall|j: int|
            0 <= j < first.1 ==> outcome(#[trigger] t.tasks()[first.0][j]) is Ok,
        collected(
            tracker::next_step(
                tracker::queue(t.tasks()),
                Map::<Modality, Seq<M>>::empty(),
                t.media_ids(),
            ),
            outcome,
        ) == MultiModalResult::<OutputView<M>>::Err(
            outcome(t.tasks()[first.0][first.1])->Err_0,
        ),
{
    let images = types::list_of(t.tasks(), Modality::Image);
    let videos = types::list_of(t.tasks(), Modality::Video);
    let queue = tracker::queue(t.tasks());
    let at = match m {
        Modality::Image => i,
        Modality::Video => images.len() + i,
    };
    assert(queue[at].1 == t.tasks()[m][i]);
    let k = lemma_first_failure(queue, outcome, at, 0);
    law_finalize_reports_first_failure(
        queue,
        Map::<Modality, Seq<M>>::empty(),
        t.media_ids(),
        outcome,
        k as nat,
    );
    if k < images.len() {
        assert forall|j: int| 0 <= j < k implies outcome(
            #[trigger] t.tasks()[Modality::Image][j],
        ) is Ok by {
            assert(queue[j].1 == t.tasks()[Modality::Image][j]);
        }
        (Modality::Image, k)
    } else {
        assert forall|j: int| 0 <= j < k - images.len() implies outcome(
            #[trigger] t.tasks()[Modality::Video][j],
        ) is Ok by {
            assert(queue[images.len() + j].1 == t.tasks()[Modality::Video][j]);
        }
        (Modality::Video, k - images.len())
    }
}

/// Up to a fetch that fails, there is a first one.
proof fn lemma_first_failure<H, M>(
    queue: Seq<(Modality, H)>,
    outcome: spec_fn(H) -> MultiModalResult<M>,
    at: int,
    from: int,
) -> (k: int)
    requires
        0 <= from <= at < queue.len(),
        outcome(queue[at].1) is Err,
        forall|j: int| 0 <= j < from ==> outcome((#[trigger] queue[j]).1) is Ok,
    ensures
        0 <= k <= at,
        outcome(queue[k].1) is Err,
        forall|j: int| 0 <= j < k ==> outcome((#[trigger] queue[j]).1) is Ok,
    decreases at - from,
{
    if outcome(queue[from].1) is Err {
        from
    } else {
        lemma_first_failure(queue, outcome, at, from + 1)
    }
}

/// Lists by modality are read item by item, in their order; so are the media and ids of an output.
pub proof fn law_outputs_are_read_as_they_are<T, M>(
    m: Map<Modality, Vec<T>>,
    output: TrackerOutput<M>,
    k: Modality,
)
    ensures
        types::lists(m).dom() == m.dom(),
        m.dom().contains(k) ==> types::lists(m)[k] == m[k]@,
        output@.data.dom() == output.data@.dom(),
        output.data@.dom().contains(k) ==> output@.data[k] == output.data@[k]@,
        output@.uuids.dom() == output.uuids@.dom(),
        output.uuids@.dom().contains(k) ==> output@.uuids[k] == output.uuids@[k]@,
{
    assert(types::lists(m).dom() =~= m.dom());
    assert(output@.data.dom() =~= output.data@.dom());
    assert(output@.uuids.dom() =~= output.uuids@.dom());
}

/// A step of a collection is read as it is: the fetch to wait for and what is left, the output, or
/// the failure.
pub proof fn law_steps_are_read_as_they_are<H, M>(
    task: H,
    rest: Finalization<H, M>,
    output: TrackerOutput<M>,
    e: MultiModalError,
)
    ensures
        tracker::stepped(Ok(FinalizeStep::Await { task, rest })) == MultiModalResult::Ok(
            FinalizeStepView::Await { task, rest: rest@ },
        ),
        tracker::stepped(Ok(FinalizeStep::<H, M>::Done(output))) == MultiModalResult::Ok(
            FinalizeStepView::<H, M>::Done(output@),
        ),
        tracker::stepped::<H, M>(Err(e)) == MultiModalResult::<FinalizeStepView<H, M>>::Err(e),
{
}

} // verus!
