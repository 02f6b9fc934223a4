use neuroscreencaster::camera::ClickActivationMode;
use neuroscreencaster::recording::{
    audio_mix_args, audio_mux_args, audio_needs_trim, audio_trim_args, audio_trim_filter, editor_proxy_args, camera_config_for_trigger_mode, final_audio_choice, format_recording_name,
    format_seconds, recording_name, recording_name_from_timestamp, resolve_recording_options, sanitize_recording_fps,
    wants_microphone_audio, wants_system_audio, AutoZoomTriggerMode, FinalAudio, RecordingAudioMode, RecordingQuality,
    RecordingQualityOption, StartRecordingOptions,
};

#[test]
fn frame_rate_is_thirty_or_sixty() {
    assert_eq!(sanitize_recording_fps(45), 60);
    assert_eq!(sanitize_recording_fps(44), 30);
    assert_eq!(sanitize_recording_fps(60), 60);
    assert_eq!(sanitize_recording_fps(0), 30);
    assert_eq!(sanitize_recording_fps(240), 60);
}

#[test]
fn missing_options_take_their_defaults() {
    let s = resolve_recording_options(None);
    assert_eq!(s.auto_zoom_trigger_mode, AutoZoomTriggerMode::SingleClick);
    assert_eq!(s.quality, RecordingQuality::Balanced);
    assert_eq!(s.target_fps, 60);
    assert_eq!(s.audio_mode, RecordingAudioMode::NoAudio);
    assert_eq!(s.microphone_device, None);
    let s = resolve_recording_options(Some(StartRecordingOptions::default()));
    assert_eq!(s.target_fps, 60);
    assert_eq!(s.quality, RecordingQuality::Balanced);
}

#[test]
fn given_options_are_applied() {
    let options = StartRecordingOptions {
        auto_zoom_trigger_mode: Some(AutoZoomTriggerMode::CtrlClick),
        quality: Some(RecordingQualityOption::Low),
        target_fps: Some(30),
        audio_capture_mode: Some(RecordingAudioMode::MicrophoneOnly),
        microphone_device: Some("  Mic 1  ".to_string()),
    };
    let s = resolve_recording_options(Some(options));
    assert_eq!(s.auto_zoom_trigger_mode, AutoZoomTriggerMode::CtrlClick);
    assert_eq!(s.quality, RecordingQuality::Low);
    assert_eq!(s.target_fps, 30);
    assert_eq!(s.audio_mode, RecordingAudioMode::MicrophoneOnly);
    assert_eq!(s.microphone_device.as_deref(), Some("Mic 1"));
    let blank = StartRecordingOptions { microphone_device: Some("   ".to_string()), ..StartRecordingOptions::default() };
    assert_eq!(resolve_recording_options(Some(blank)).microphone_device, None);
}

#[test]
fn quality_options_map_to_encoder_qualities() {
    assert_eq!(RecordingQualityOption::Low.as_recorder_quality(), RecordingQuality::Low);
    assert_eq!(RecordingQualityOption::Balanced.as_recorder_quality(), RecordingQuality::Balanced);
    assert_eq!(RecordingQualityOption::High.as_recorder_quality(), RecordingQuality::High);
    assert_eq!(RecordingQualityOption::default(), RecordingQualityOption::Balanced);
}

#[test]
fn camera_settings_follow_the_trigger_mode() {
    let multi = camera_config_for_trigger_mode(AutoZoomTriggerMode::MultiClickWindow);
    assert_eq!(multi.click_activation_mode, ClickActivationMode::MultiClickWindow);
    assert_eq!(multi.min_clicks_to_activate, 2);
    assert_eq!(multi.activation_window_ms, 3_000);
    assert_eq!(multi.click_cluster_gap_ms, 300);
    assert_eq!(multi.min_zoom_interval_ms, 2_000);
    let single = camera_config_for_trigger_mode(AutoZoomTriggerMode::SingleClick);
    assert_eq!(single.click_activation_mode, ClickActivationMode::SingleClick);
    assert_eq!(single.min_clicks_to_activate, 1);
    assert_eq!(single.click_cluster_gap_ms, 1);
    assert_eq!(single.min_zoom_interval_ms, 1);
    assert_eq!(single.activation_window_ms, 3_000);
    assert_eq!(single.lock_recent_window_ms, 2_000);
    let ctrl = camera_config_for_trigger_mode(AutoZoomTriggerMode::CtrlClick);
    assert_eq!(ctrl.click_activation_mode, ClickActivationMode::CtrlClick);
    assert_eq!(ctrl.min_clicks_to_activate, 1);
}

#[test]
fn audio_modes_and_the_final_track() {
    assert!(wants_system_audio(RecordingAudioMode::MicrophoneAndSystem));
    assert!(!wants_system_audio(RecordingAudioMode::MicrophoneOnly));
    assert!(wants_microphone_audio(RecordingAudioMode::MicrophoneOnly));
    assert!(!wants_microphone_audio(RecordingAudioMode::NoAudio));
    assert_eq!(final_audio_choice(RecordingAudioMode::MicrophoneAndSystem, true, true), FinalAudio::Mixed);
    assert_eq!(final_audio_choice(RecordingAudioMode::MicrophoneAndSystem, false, true), FinalAudio::System);
    assert_eq!(final_audio_choice(RecordingAudioMode::MicrophoneAndSystem, true, false), FinalAudio::Microphone);
    assert_eq!(final_audio_choice(RecordingAudioMode::SystemOnly, true, false), FinalAudio::Silent);
    assert_eq!(final_audio_choice(RecordingAudioMode::NoAudio, true, true), FinalAudio::Silent);
}

#[test]
fn seconds_are_written_with_three_decimals() {
    assert_eq!(format_seconds(1_234), "1.234");
    assert_eq!(format_seconds(5), "0.005");
    assert_eq!(format_seconds(60_000), "60.000");
}

#[test]
fn trim_filter_cuts_and_joins_the_recorded_spans() {
    assert_eq!(
        audio_trim_filter(&vec![(0, 1_500)]).unwrap(),
        "[0:a]atrim=start=0.000:end=1.500,asetpts=PTS-STARTPTS[a0];[a0]anull[aout]"
    );
    assert_eq!(
        audio_trim_filter(&vec![(0, 1_000), (2_000, 3_500)]).unwrap(),
        "[0:a]atrim=start=0.000:end=1.000,asetpts=PTS-STARTPTS[a0];[0:a]atrim=start=2.000:end=3.500,asetpts=PTS-STARTPTS[a1];[a0][a1]concat=n=2:v=0:a=1[aout]"
    );
    let err = audio_trim_filter(&vec![]).unwrap_err();
    assert_eq!(err.message(), "No active (non-paused) ranges available for audio trimming");
}

#[test]
fn tracks_are_trimmed_unless_one_span_covers_everything() {
    assert!(!audio_needs_trim(&vec![(0, 5_000)], 5_000));
    assert!(audio_needs_trim(&vec![(0, 4_000)], 5_000));
    assert!(audio_needs_trim(&vec![(0, 1_000), (2_000, 5_000)], 5_000));
}

#[test]
fn recordings_are_named_by_their_utc_start() {
    assert_eq!(format_recording_name(0).as_deref(), Some("Recording 1970-01-01 00:00:00"));
    assert_eq!(format_recording_name(1_700_000_000_000).as_deref(), Some("Recording 2023-11-14 22:13:20"));
    assert_eq!(recording_name_from_timestamp("2024-01-02 03:04:05"), "Recording 2024-01-02 03:04:05");
    // Far beyond what chrono represents.
    assert_eq!(format_recording_name(9_000_000_000_000_000_000), None);
    assert_eq!(recording_name(0, "2030-01-01 00:00:00"), "Recording 1970-01-01 00:00:00");
    assert_eq!(recording_name(9_000_000_000_000_000_000, "2024-05-06 07:08:09"), "Recording 2024-05-06 07:08:09");
}

#[test]
fn audio_finishing_command_lines() {
    assert_eq!(
        audio_trim_args("in.wav", "[0:a]anull[aout]", "out.wav"),
        vec!["-y", "-hide_banner", "-loglevel", "error", "-i", "in.wav", "-filter_complex", "[0:a]anull[aout]", "-map", "[aout]", "-c:a", "pcm_s16le", "out.wav"]
    );
    assert_eq!(
        audio_mix_args("mic.wav", "sys.wav", "mixed.wav"),
        vec![
            "-y", "-hide_banner", "-loglevel", "error", "-i", "mic.wav", "-i", "sys.wav", "-filter_complex",
            "[0:a][1:a]amix=inputs=2:normalize=0:dropout_transition=0[aout]", "-map", "[aout]", "-c:a", "pcm_s16le", "mixed.wav",
        ]
    );
    assert_eq!(
        audio_mux_args("raw.mp4", "a.wav", "muxed.mp4"),
        vec![
            "-y", "-hide_banner", "-loglevel", "error", "-i", "raw.mp4", "-i", "a.wav", "-map", "0:v:0", "-map", "1:a:0",
            "-c:v", "copy", "-c:a", "aac", "-b:a", "192k", "-movflags", "+faststart", "muxed.mp4",
        ]
    );
    let proxy = editor_proxy_args("raw.mp4", "proxy-edit.mp4");
    assert_eq!(proxy.len(), 31);
    assert_eq!(&proxy[..6], &["-y", "-hide_banner", "-loglevel", "error", "-i", "raw.mp4"]);
    assert_eq!(&proxy[16..20], &["-g", "15", "-keyint_min", "15"]);
    assert_eq!(proxy.last().unwrap(), "proxy-edit.mp4");
}
