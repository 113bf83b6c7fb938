# llm_multimodal

Media of multimodal requests, verified with Verus.

- `src/rounding.rs`, `src/float.rs`: correctly rounded binary floating point in integer arithmetic,
  with `src/float_laws.rs` on order and exactness. Frame rates enter as the bits of a double.
- `src/video_sampling.rs`, `src/vision/`: which frames of a video a model is shown, with
  `src/sampling_laws.rs` on what the samplers promise.
- `src/tracker.rs`: what is fetched for a request and how the results are collected, with
  `src/tracker_laws.rs`. The only call that is trusted is the parsing of a URL.
- `src/registry/`, `src/config.rs`: what particular models need to know of a request.
- `src/media.rs`, `src/types.rs`, `src/error.rs`, `src/text.rs`: plain data and text.
- `app/`: Tokio tasks and JSON around the library.
