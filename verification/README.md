# neuroscreencaster

The core of a screen recorder with automatic zoom: what a recording session
keeps while it is paused and resumed, when the camera zooms in on clicks, how
a project's timeline becomes an ffmpeg filter graph, and how ffmpeg's output is
read back. The library under `src/` is written in Verus, and the verifier
proves the contract of each of its functions but five small wrappers around
calls it cannot read: `string_from_chars` and `to_lowercase` (std's string
building and Unicode lowercasing), `path_extension` (std's
`Path::extension`), `base64_encode` (the `base64` crate) and
`utc_timestamp_text_of` (chrono's date formatting). Their contracts are
trusted, not proved; each states only what the called code documents, and
names a result that takes pages to write down (Unicode case tables, base64
text, chrono's formatting) instead of spelling it out.

## Layout

- `src/` — the verified library.
  - `session`, `pauses`, `ranges`: pause bookkeeping, the spans of a session
    that were recorded, and moving input events onto the video's timeline.
  - `camera`, `timeline`: which clicks trigger a zoom, how they cluster, and
    the structure of zoom segments and their target points.
  - `export_filters`, `export_job`, `ffmpeg`: the export's filter graph and
    subtitle cursor, its ffmpeg command line and status, and the parsers of
    ffmpeg's progress and probe output.
  - `recording`, `audio_devices`, `wav`: recording options, audio devices and
    the audio finishing steps.
  - `cursor_asset`, `frames`, `preview`, `muxer`, `telemetry`, `project`,
    `models`: cursor images, frame buffers, the live preview, the constant
    frame-rate muxer's bookkeeping, input telemetry decisions and projects.
  - `text`, `order`: verified string handling and stable ordering.
- `tests/` — tests of the library on concrete values.
- `app/` — a command-line front end: file and process I/O, the serde forms of
  the project files, and the floating-point parts (spring motion, cursor
  smoothing, camera geometry) that the verified library leaves to its caller.

Public proof functions named `law_*` state properties that hold across calls,
for example that a session's pauses stay in sequence under a clock that never
runs back, and that the spans kept of such a session last exactly as long as
the recorded video.
