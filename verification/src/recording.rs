//! What a recording is started with, and how its audio is put together when
//! it stops.

use vstd::prelude::*;
use crate::camera::{ClickActivationConfig, ClickActivationMode, default_activation_config};
use crate::export_job::{push_args, views};
use crate::ranges::is_canonical;
use crate::text::{decimal, decimal_padded, push_decimal, push_decimal_padded, push_str, string_from_chars, trim, trim_string};

verus! {

broadcast use vstd::string::group_string_axioms;

/// Frame rate a recording uses when none is asked for.
pub const DEFAULT_TARGET_FPS: u32 = 60;

/// What clicks trigger the automatic zoom of a recording.
#[derive(Clone, Copy, Debug, PartialEq, Eq, Structural)]
pub enum AutoZoomTriggerMode {
    SingleClick,
    MultiClickWindow,
    CtrlClick,
}

impl Default for AutoZoomTriggerMode {
    fn default() -> (m: Self)
        ensures
            m == AutoZoomTriggerMode::SingleClick,
    {
        AutoZoomTriggerMode::SingleClick
    }
}

/// Which audio a recording captures.
#[derive(Clone, Copy, Debug, PartialEq, Eq, Structural)]
pub enum RecordingAudioMode {
    NoAudio,
    SystemOnly,
    MicrophoneOnly,
    MicrophoneAndSystem,
}

impl Default for RecordingAudioMode {
    fn default() -> (m: Self)
        ensures
            m == RecordingAudioMode::NoAudio,
    {
        RecordingAudioMode::NoAudio
    }
}

/// Encoder quality of the screen capture.
#[derive(Clone, Copy, Debug, PartialEq, Eq, Structural)]
pub enum RecordingQuality {
    Low,
    Balanced,
    High,
}

/// Quality as the user picks it.
#[derive(Clone, Copy, Debug, PartialEq, Eq, Structural)]
pub enum RecordingQualityOption {
    Low,
    Balanced,
    High,
}

impl Default for RecordingQualityOption {
    fn default() -> (q: Self)
        ensures
            q == RecordingQualityOption::Balanced,
    {
        RecordingQualityOption::Balanced
    }
}

/// The encoder quality of the same name.
pub open spec fn recorder_quality_of(q: RecordingQualityOption) -> RecordingQuality {
    match q {
        RecordingQualityOption::Low => RecordingQuality::Low,
        RecordingQualityOption::Balanced => RecordingQuality::Balanced,
        RecordingQualityOption::High => RecordingQuality::High,
    }
}

impl RecordingQualityOption {
    /// The encoder quality of the same name.
    pub fn as_recorder_quality(self) -> (q: RecordingQuality)
        ensures
            q == recorder_quality_of(self),
    {
        match self {
            RecordingQualityOption::Low => RecordingQuality::Low,
            RecordingQualityOption::Balanced => RecordingQuality::Balanced,
            RecordingQualityOption::High => RecordingQuality::High,
        }
    }
}

/// Options of a recording request; every one may be left out.
#[derive(Clone, Debug)]
pub struct StartRecordingOptions {
    pub auto_zoom_trigger_mode: Option<AutoZoomTriggerMode>,
    pub quality: Option<RecordingQualityOption>,
    pub target_fps: Option<u32>,
    pub audio_capture_mode: Option<RecordingAudioMode>,
    pub microphone_device: Option<String>,
}

impl Default for StartRecordingOptions {
    fn default() -> (o: Self)
        ensures
            o.auto_zoom_trigger_mode is None,
            o.quality is None,
            o.target_fps is None,
            o.audio_capture_mode is None,
            o.microphone_device is None,
    {
        StartRecordingOptions {
            auto_zoom_trigger_mode: None,
            quality: None,
            target_fps: None,
            audio_capture_mode: None,
            microphone_device: None,
        }
    }
}

/// The settings a recording runs with.
#[derive(Clone, Debug)]
pub struct RecordingSettings {
    pub auto_zoom_trigger_mode: AutoZoomTriggerMode,
    pub quality: RecordingQuality,
    pub target_fps: u32,
    pub audio_mode: RecordingAudioMode,
    pub microphone_device: Option<String>,
}

/// The capture runs at 60 fps when at least 45 are asked for, else at 30.
pub fn sanitize_recording_fps(raw_fps: u32) -> (fps: u32)
    ensures
        fps == if raw_fps >= 45 { 60u32 } else { 30u32 },
{
    if raw_fps >= 45 {
        60
    } else {
        30
    }
}

/// A requested microphone name: trimmed, and left out when blank.
pub open spec fn microphone_choice(requested: Option<String>) -> Option<Seq<char>> {
    match requested {
        None => None,
        Some(name) => if trim(name@).len() == 0 { None } else { Some(trim(name@)) },
    }
}

/// The settings of a recording from its request: each missing option takes
/// its default (single-click zoom, balanced quality, 60 fps, no audio), the
/// frame rate is brought to 30 or 60, and a blank microphone name counts as
/// none.
pub fn resolve_recording_options(options: Option<StartRecordingOptions>) -> (s: RecordingSettings)
    ensures
        s.auto_zoom_trigger_mode == match options {
            Some(o) => match o.auto_zoom_trigger_mode { Some(m) => m, None => AutoZoomTriggerMode::SingleClick },
            None => AutoZoomTriggerMode::SingleClick,
        },
        s.quality == match options {
            Some(o) => match o.quality {
                Some(q) => recorder_quality_of(q),
                None => RecordingQuality::Balanced,
            },
            None => RecordingQuality::Balanced,
        },
        s.target_fps == match options {
            Some(o) => match o.target_fps {
                Some(f) => if f >= 45 { 60u32 } else { 30u32 },
                None => 60u32,
            },
            None => 60u32,
        },
        s.audio_mode == match options {
            Some(o) => match o.audio_capture_mode { Some(m) => m, None => RecordingAudioMode::NoAudio },
            None => RecordingAudioMode::NoAudio,
        },
        match s.microphone_device {
            Some(d) => options is Some && microphone_choice(options->0.microphone_device) == Some(d@),
            None => options is None || microphone_choice(options->0.microphone_device) is None,
        },
{
    let options = match options {
        Some(o) => o,
        None => StartRecordingOptions::default(),
    };
    let auto_zoom_trigger_mode = match options.auto_zoom_trigger_mode {
        Some(m) => m,
        None => AutoZoomTriggerMode::SingleClick,
    };
    let quality = match options.quality {
        Some(q) => q.as_recorder_quality(),
        None => RecordingQuality::Balanced,
    };
    let target_fps = sanitize_recording_fps(
        match options.target_fps {
            Some(f) => f,
            None => DEFAULT_TARGET_FPS,
        },
    );
    let audio_mode = match options.audio_capture_mode {
        Some(m) => m,
        None => RecordingAudioMode::NoAudio,
    };
    let microphone_device = match &options.microphone_device {
        Some(name) => {
            let trimmed = trim_string(name.as_str());
            if trimmed.as_str().is_empty() {
                None
            } else {
                Some(trimmed)
            }
        },
        None => None,
    };
    RecordingSettings { auto_zoom_trigger_mode, quality, target_fps, audio_mode, microphone_device }
}

// ---------------------------------------------------------------------------
// Camera settings per trigger mode
// ---------------------------------------------------------------------------

/// The camera's activation settings for a trigger mode. Single clicks and
/// Ctrl-clicks react to every valid click (one click, no coalescing); the
/// multi-click mode asks for two clicks within three seconds.
pub fn camera_config_for_trigger_mode(mode: AutoZoomTriggerMode) -> (c: ClickActivationConfig)
    ensures
        c == match mode {
            AutoZoomTriggerMode::SingleClick => ClickActivationConfig {
                click_activation_mode: ClickActivationMode::SingleClick,
                min_clicks_to_activate: 1,
                click_cluster_gap_ms: 1,
                min_zoom_interval_ms: 1,
                ..default_activation_config()
            },
            AutoZoomTriggerMode::CtrlClick => ClickActivationConfig {
                click_activation_mode: ClickActivationMode::CtrlClick,
                min_clicks_to_activate: 1,
                click_cluster_gap_ms: 1,
                min_zoom_interval_ms: 1,
                ..default_activation_config()
            },
            AutoZoomTriggerMode::MultiClickWindow => ClickActivationConfig {
                click_activation_mode: ClickActivationMode::MultiClickWindow,
                min_clicks_to_activate: 2,
                activation_window_ms: 3_000,
                click_cluster_gap_ms: 300,
                min_zoom_interval_ms: 2_000,
                ..default_activation_config()
            },
        },
{
    let mut config = ClickActivationConfig::default();
    config.click_activation_mode = match mode {
        AutoZoomTriggerMode::SingleClick => ClickActivationMode::SingleClick,
        AutoZoomTriggerMode::MultiClickWindow => ClickActivationMode::MultiClickWindow,
        AutoZoomTriggerMode::CtrlClick => ClickActivationMode::CtrlClick,
    };
    match mode {
        AutoZoomTriggerMode::SingleClick | AutoZoomTriggerMode::CtrlClick => {
            config.min_clicks_to_activate = 1;
            config.click_cluster_gap_ms = 1;
            config.min_zoom_interval_ms = 1;
        },
        AutoZoomTriggerMode::MultiClickWindow => {
            config.min_clicks_to_activate = 2;
            config.activation_window_ms = 3_000;
            config.click_cluster_gap_ms = 300;
            config.min_zoom_interval_ms = 2_000;
        },
    }
    config
}

// ---------------------------------------------------------------------------
// Audio
// ---------------------------------------------------------------------------

/// The mode captures the system's output.
pub fn wants_system_audio(mode: RecordingAudioMode) -> (b: bool)
    ensures
        b == (mode == RecordingAudioMode::SystemOnly || mode == RecordingAudioMode::MicrophoneAndSystem),
{
    match mode {
        RecordingAudioMode::SystemOnly | RecordingAudioMode::MicrophoneAndSystem => true,
        _ => false,
    }
}

/// The mode captures a microphone.
pub fn wants_microphone_audio(mode: RecordingAudioMode) -> (b: bool)
    ensures
        b == (mode == RecordingAudioMode::MicrophoneOnly || mode == RecordingAudioMode::MicrophoneAndSystem),
{
    match mode {
        RecordingAudioMode::MicrophoneOnly | RecordingAudioMode::MicrophoneAndSystem => true,
        _ => false,
    }
}

/// The audio track that goes into the video.
#[derive(Clone, Copy, Debug, PartialEq, Eq, Structural)]
pub enum FinalAudio {
    Silent,
    System,
    Microphone,
    /// The microphone and system tracks mixed together.
    Mixed,
}

/// Which track the video gets, from the mode and the tracks that were
/// actually captured.
pub fn final_audio_choice(mode: RecordingAudioMode, has_microphone: bool, has_system: bool) -> (f: FinalAudio)
    ensures
        f == match mode {
            RecordingAudioMode::NoAudio => FinalAudio::Silent,
            RecordingAudioMode::SystemOnly => if has_system { FinalAudio::System } else { FinalAudio::Silent },
            RecordingAudioMode::MicrophoneOnly => if has_microphone { FinalAudio::Microphone } else { FinalAudio::Silent },
            RecordingAudioMode::MicrophoneAndSystem => if has_microphone && has_system {
                FinalAudio::Mixed
            } else if has_microphone {
                FinalAudio::Microphone
            } else if has_system {
                FinalAudio::System
            } else {
                FinalAudio::Silent
            },
        },
{
    match mode {
        RecordingAudioMode::NoAudio => FinalAudio::Silent,
        RecordingAudioMode::SystemOnly => if has_system { FinalAudio::System } else { FinalAudio::Silent },
        RecordingAudioMode::MicrophoneOnly => if has_microphone { FinalAudio::Microphone } else { FinalAudio::Silent },
        RecordingAudioMode::MicrophoneAndSystem => {
            if has_microphone && has_system {
                FinalAudio::Mixed
            } else if has_microphone {
                FinalAudio::Microphone
            } else if has_system {
                FinalAudio::System
            } else {
                FinalAudio::Silent
            }
        },
    }
}

/// A captured track must be cut to the recorded spans unless a single span
/// covers the whole session.
pub fn audio_needs_trim(keep_ranges_ms: &Vec<(u64, u64)>, total_ms: u64) -> (b: bool)
    ensures
        b == !(keep_ranges_ms@.len() == 1 && keep_ranges_ms@[0].0 == 0 && keep_ranges_ms@[0].1 >= total_ms),
{
    !(keep_ranges_ms.len() == 1 && keep_ranges_ms[0].0 == 0 && keep_ranges_ms[0].1 >= total_ms)
}

/// Milliseconds as seconds with three decimals (`1234` gives `1.234`).
pub open spec fn seconds_text(ms: u64) -> Seq<char> {
    decimal((ms / 1000) as nat) + seq!['.'] + decimal_padded((ms % 1000) as nat, 3)
}

/// Milliseconds as seconds with three decimals, as the audio filters take
/// them.
pub fn format_seconds(ms: u64) -> (s: String)
    ensures
        s@ == seconds_text(ms),
{
    let mut out: Vec<char> = Vec::new();
    push_decimal(&mut out, ms / 1000);
    out.push('.');
    push_decimal_padded(&mut out, ms % 1000, 3);
    string_from_chars(out.as_slice())
}

pub open spec fn trim_chain_entry(k: nat, r: (u64, u64)) -> Seq<char> {
    "[0:a]atrim=start="@ + seconds_text(r.0) + ":end="@ + seconds_text(r.1) + ",asetpts=PTS-STARTPTS[a"@
        + decimal(k) + "]"@
}

/// The trim entries of the first `n` spans, each followed by `;`.
pub open spec fn trim_chain(ranges: Seq<(u64, u64)>, n: nat) -> Seq<char>
    decreases n,
{
    if n == 0 {
        seq![]
    } else {
        trim_chain(ranges, (n - 1) as nat) + trim_chain_entry((n - 1) as nat, ranges[n - 1]) + ";"@
    }
}

/// The labels `[a0][a1]...` of the first `n` trimmed pieces.
pub open spec fn piece_labels(n: nat) -> Seq<char>
    decreases n,
{
    if n == 0 {
        seq![]
    } else {
        piece_labels((n - 1) as nat) + "[a"@ + decimal((n - 1) as nat) + "]"@
    }
}

/// The filter that cuts an audio track to the recorded spans and joins the
/// pieces: one `atrim` per span, then `anull` for a single span or `concat`
/// for several.
pub open spec fn audio_trim_filter_text(ranges: Seq<(u64, u64)>) -> Seq<char> {
    let n = ranges.len();
    trim_chain(ranges, n) + if n == 1 {
        "[a0]anull[aout]"@
    } else {
        piece_labels(n) + "concat=n="@ + decimal(n) + ":v=0:a=1[aout]"@
    }
}

/// Why an audio track could not be cut.
#[derive(Clone, Copy, Debug, PartialEq, Eq, Structural)]
pub enum AudioTrimError {
    /// No span of the session was recorded.
    NoActiveRanges,
}

impl AudioTrimError {
    pub fn message(&self) -> (m: String)
        ensures
            m@ == "No active (non-paused) ranges available for audio trimming"@,
    {
        "No active (non-paused) ranges available for audio trimming".to_string()
    }
}

/// The ffmpeg filter that cuts a track to the spans `keep_ranges_ms`; refused
/// when there is no span.
pub fn audio_trim_filter(keep_ranges_ms: &Vec<(u64, u64)>) -> (r: Result<String, AudioTrimError>)
    requires
        keep_ranges_ms@.len() < u64::MAX,
    ensures
        keep_ranges_ms@.len() == 0 ==> r == Err::<String, AudioTrimError>(AudioTrimError::NoActiveRanges),
        keep_ranges_ms@.len() > 0 ==> r is Ok && r->Ok_0@ == audio_trim_filter_text(keep_ranges_ms@),
{
    let n = keep_ranges_ms.len();
    if n == 0 {
        return Err(AudioTrimError::NoActiveRanges);
    }
    let mut out: Vec<char> = Vec::new();
    let mut k: usize = 0;
    while k < n
        invariant
            n == keep_ranges_ms@.len() < u64::MAX,
            k <= n,
            out@ == trim_chain(keep_ranges_ms@, k as nat),
        decreases n - k,
    {
        let (s, e) = keep_ranges_ms[k];
        push_str(&mut out, "[0:a]atrim=start=");
        let st = format_seconds(s);
        push_str(&mut out, st.as_str());
        push_str(&mut out, ":end=");
        let et = format_seconds(e);
        push_str(&mut out, et.as_str());
        push_str(&mut out, ",asetpts=PTS-STARTPTS[a");
        push_decimal(&mut out, k as u64);
        push_str(&mut out, "]");
        push_str(&mut out, ";");
        k += 1;
        proof {
            assert(out@ =~= trim_chain(keep_ranges_ms@, k as nat));
        }
    }
    if n == 1 {
        push_str(&mut out, "[a0]anull[aout]");
    } else {
        let ghost base = out@;
        let mut j: usize = 0;
        while j < n
            invariant
                n == keep_ranges_ms@.len() < u64::MAX,
                j <= n,
                out@ == base + piece_labels(j as nat),
            decreases n - j,
        {
            push_str(&mut out, "[a");
            push_decimal(&mut out, j as u64);
            push_str(&mut out, "]");
            j += 1;
            proof {
                assert(out@ =~= base + piece_labels(j as nat));
            }
        }
        push_str(&mut out, "concat=n=");
        push_decimal(&mut out, n as u64);
        push_str(&mut out, ":v=0:a=1[aout]");
    }
    proof {
        assert(out@ =~= audio_trim_filter_text(keep_ranges_ms@));
    }
    Ok(string_from_chars(out.as_slice()))
}

/// The ffmpeg arguments that cut the track `input` with the trim filter
/// `filter` and write the result to `output` as 16-bit PCM.
pub fn audio_trim_args(input: &str, filter: &str, output: &str) -> (args: Vec<String>)
    ensures
        views(args@) == seq![
            "-y"@, "-hide_banner"@, "-loglevel"@, "error"@, "-i"@, input@, "-filter_complex"@, filter@,
            "-map"@, "[aout]"@, "-c:a"@, "pcm_s16le"@, output@,
        ],
{
    let mut args: Vec<String> = Vec::new();
    push_args(
        &mut args,
        &["-y", "-hide_banner", "-loglevel", "error", "-i", input, "-filter_complex", filter, "-map", "[aout]", "-c:a", "pcm_s16le", output],
    );
    proof {
        assert(views(args@) =~= seq![
            "-y"@, "-hide_banner"@, "-loglevel"@, "error"@, "-i"@, input@, "-filter_complex"@, filter@,
            "-map"@, "[aout]"@, "-c:a"@, "pcm_s16le"@, output@,
        ]);
    }
    args
}

/// The ffmpeg arguments that mix the microphone and system tracks, at full
/// volume each, into `output` as 16-bit PCM.
pub fn audio_mix_args(microphone: &str, system: &str, output: &str) -> (args: Vec<String>)
    ensures
        views(args@) == seq![
            "-y"@, "-hide_banner"@, "-loglevel"@, "error"@, "-i"@, microphone@, "-i"@, system@,
            "-filter_complex"@, "[0:a][1:a]amix=inputs=2:normalize=0:dropout_transition=0[aout]"@,
            "-map"@, "[aout]"@, "-c:a"@, "pcm_s16le"@, output@,
        ],
{
    let mut args: Vec<String> = Vec::new();
    push_args(
        &mut args,
        &[
            "-y", "-hide_banner", "-loglevel", "error", "-i", microphone, "-i", system, "-filter_complex",
            "[0:a][1:a]amix=inputs=2:normalize=0:dropout_transition=0[aout]", "-map", "[aout]", "-c:a", "pcm_s16le", output,
        ],
    );
    proof {
        assert(views(args@) =~= seq![
            "-y"@, "-hide_banner"@, "-loglevel"@, "error"@, "-i"@, microphone@, "-i"@, system@,
            "-filter_complex"@, "[0:a][1:a]amix=inputs=2:normalize=0:dropout_transition=0[aout]"@,
            "-map"@, "[aout]"@, "-c:a"@, "pcm_s16le"@, output@,
        ]);
    }
    args
}

/// The ffmpeg arguments that put the audio track `audio` beside the picture
/// of `video` (copied as it is) in `output`, the audio as 192 kbit/s AAC.
pub fn audio_mux_args(video: &str, audio: &str, output: &str) -> (args: Vec<String>)
    ensures
        views(args@) == seq![
            "-y"@, "-hide_banner"@, "-loglevel"@, "error"@, "-i"@, video@, "-i"@, audio@, "-map"@, "0:v:0"@,
            "-map"@, "1:a:0"@, "-c:v"@, "copy"@, "-c:a"@, "aac"@, "-b:a"@, "192k"@, "-movflags"@, "+faststart"@,
            output@,
        ],
{
    let mut args: Vec<String> = Vec::new();
    push_args(
        &mut args,
        &[
            "-y", "-hide_banner", "-loglevel", "error", "-i", video, "-i", audio, "-map", "0:v:0", "-map", "1:a:0",
            "-c:v", "copy", "-c:a", "aac", "-b:a", "192k", "-movflags", "+faststart", output,
        ],
    );
    proof {
        assert(views(args@) =~= seq![
            "-y"@, "-hide_banner"@, "-loglevel"@, "error"@, "-i"@, video@, "-i"@, audio@, "-map"@, "0:v:0"@,
            "-map"@, "1:a:0"@, "-c:v"@, "copy"@, "-c:a"@, "aac"@, "-b:a"@, "192k"@, "-movflags"@, "+faststart"@,
            output@,
        ]);
    }
    args
}

/// The ffmpeg arguments of the editor's proxy of `source`: H.264 with a
/// keyframe every 15 frames, so that the editor can seek quickly.
pub fn editor_proxy_args(source: &str, proxy: &str) -> (args: Vec<String>)
    ensures
        views(args@) == seq![
            "-y"@, "-hide_banner"@, "-loglevel"@, "error"@, "-i"@, source@, "-map"@, "0:v:0"@, "-map"@, "0:a?"@,
            "-c:v"@, "libx264"@, "-preset"@, "veryfast"@, "-crf"@, "17"@, "-g"@, "15"@, "-keyint_min"@, "15"@,
            "-sc_threshold"@, "0"@, "-c:a"@, "aac"@, "-b:a"@, "160k"@, "-pix_fmt"@, "yuv420p"@, "-movflags"@,
            "+faststart"@, proxy@,
        ],
{
    let mut args: Vec<String> = Vec::new();
    push_args(
        &mut args,
        &[
            "-y", "-hide_banner", "-loglevel", "error", "-i", source, "-map", "0:v:0", "-map", "0:a?", "-c:v",
            "libx264", "-preset", "veryfast", "-crf", "17", "-g", "15", "-keyint_min", "15", "-sc_threshold", "0",
            "-c:a", "aac", "-b:a", "160k", "-pix_fmt", "yuv420p", "-movflags", "+faststart", proxy,
        ],
    );
    proof {
        assert(views(args@) =~= seq![
            "-y"@, "-hide_banner"@, "-loglevel"@, "error"@, "-i"@, source@, "-map"@, "0:v:0"@, "-map"@, "0:a?"@,
            "-c:v"@, "libx264"@, "-preset"@, "veryfast"@, "-crf"@, "17"@, "-g"@, "15"@, "-keyint_min"@, "15"@,
            "-sc_threshold"@, "0"@, "-c:a"@, "aac"@, "-b:a"@, "160k"@, "-pix_fmt"@, "yuv420p"@, "-movflags"@,
            "+faststart"@, proxy@,
        ]);
    }
    args
}

// ---------------------------------------------------------------------------
// Names
// ---------------------------------------------------------------------------

/// The UTC date and time `ms` milliseconds after the Unix epoch in the form
/// `%Y-%m-%d %H:%M:%S`, as chrono writes it, or `None` where chrono cannot
/// represent the instant.
pub uninterp spec fn utc_timestamp_text(ms: i64) -> Option<Seq<char>>;

/// Calls chrono's `Utc.timestamp_millis_opt(ms)`, keeps its single result,
/// and writes it with `format("%Y-%m-%d %H:%M:%S")`; the contract names the
/// text and says that it is missing exactly when chrono gives no time.
#[verifier::external_body]
fn utc_timestamp_text_of(ms: i64) -> (r: Option<String>)
    ensures
        match r {
            Some(s) => utc_timestamp_text(ms) == Some(s@),
            None => utc_timestamp_text(ms) is None,
        },
{
    match chrono::TimeZone::timestamp_millis_opt(&chrono::Utc, ms).single() {
        Some(dt) => Some(dt.format("%Y-%m-%d %H:%M:%S").to_string()),
        None => None,
    }
}

/// The name of a recording from the text of its start time.
pub fn recording_name_from_timestamp(timestamp: &str) -> (name: String)
    ensures
        name@ == "Recording "@ + timestamp@,
{
    let mut out: Vec<char> = Vec::new();
    push_str(&mut out, "Recording ");
    push_str(&mut out, timestamp);
    string_from_chars(out.as_slice())
}

/// The name of a recording that started `start_ms` milliseconds after the
/// Unix epoch: `Recording ` and its UTC start time; `None` when the time
/// cannot be represented (the caller then names it by the current time).
pub fn format_recording_name(start_ms: u64) -> (name: Option<String>)
    ensures
        name is Some <==> utc_timestamp_text(start_ms as i64) is Some,
        name is Some ==> name->0@ == "Recording "@ + utc_timestamp_text(start_ms as i64)->0,
{
    let ms = start_ms as i64;
    match utc_timestamp_text_of(ms) {
        Some(text) => Some(recording_name_from_timestamp(text.as_str())),
        None => None,
    }
}

/// The name of a recording that started `start_ms` milliseconds after the
/// Unix epoch, given `now_text`, the current UTC time written as
/// `%Y-%m-%d %H:%M:%S`: `Recording ` and the start time, or `Recording ` and
/// `now_text` when chrono cannot represent the start time.
pub fn recording_name(start_ms: u64, now_text: &str) -> (name: String)
    ensures
        name@ == "Recording "@ + match utc_timestamp_text(start_ms as i64) {
            Some(t) => t,
            None => now_text@,
        },
{
    match format_recording_name(start_ms) {
        Some(n) => n,
        None => recording_name_from_timestamp(now_text),
    }
}

} // verus!
