# NexView core

Verified building blocks of the NexView NEXRAD weather radar viewer, written in
Verus. The functions in `src/` carry contracts that Verus proves. The calls into
std and outside crates (the GIF encoder, gzip and image decoding, case mapping,
the clock) go through small wrappers marked `external_body`, whose contracts are
taken on trust and say in their doc comments what they claim of the call.

## Layout

- `src/text.rs` — character-level helpers: searching, splitting, tags, decimal
  formatting and parsing, code-point ordering and sorting of strings.
- `src/data/` — the S3 bucket of Level 2 volume scans (prefixes, URLs, listing
  parsing, stable sorting by key), data packs, alert severities, radiosonde
  launch times.
- `src/preload/` — the case-insensitive site cache and the preloader's listing and
  gzip handling.
- `src/nexrad/detection.rs` — clustering of flagged velocity gates into connected
  components and the vertical continuity check across tilts.
- `src/render/` — map tile providers and the tile cache, alert polygon styles, and
  the pixel canvas of the Skew-T diagram (Bresenham lines, spans, a 5x7 font).
- `src/export.rs` — palette quantisation and animated GIF encoding, with the
  bytes of the file stated block by block.
- `src/predict/` — the scanner's choice of volume scans and `.npy` headers.
- `src/timeline.rs`, `src/viewer.rs` — synchronising radar animations, choosing
  the frames of an animation and which to download, the radar wall loader, model
  frames, the sweep shown for a product, and which secondary radars may be added.
- `src/controls.rs` — the keyboard shortcuts: tilt, product, quad view, animation
  stepping and the view toggles.
- `tests/` — tests on concrete values.
- `app/` — the command-line program: network and file I/O, asynchronous tasks, and
  the floating-point meteorology and drawing that the library cannot hold.
