use neuroscreencaster::ffmpeg::{
    extract_ffmpeg_duration_ms, extract_ffmpeg_progress_frame, extract_ffmpeg_progress_time_ms,
    extract_ffmpeg_status_frame, extract_ffmpeg_time_ms, extract_ffmpeg_video_size, parse_ffmpeg_progress_snapshot,
    parse_hhmmss_ms,
};

#[test]
fn ffmpeg_video_size_parser_handles_common_line() {
    let line = "  Stream #0:0: Video: h264, yuv420p(progressive), 1920x1080, 30 fps";
    assert_eq!(extract_ffmpeg_video_size(line), Some((1920, 1080)));
}

#[test]
fn video_size_needs_a_video_stream_and_a_large_enough_size() {
    assert_eq!(extract_ffmpeg_video_size("  Stream #0:1: Audio: aac, 48000 Hz, stereo"), None);
    assert_eq!(
        extract_ffmpeg_video_size("  Stream #0:0[0x1](und): Video: h264 (High), yuv420p, 32x32 [SAR 1:1], 1280x720, 60 fps"),
        Some((1280, 720))
    );
}

#[test]
fn clock_values_parse_to_milliseconds() {
    assert_eq!(parse_hhmmss_ms("00:01:02.5"), Some(62_500));
    assert_eq!(parse_hhmmss_ms("01:00:00"), Some(3_600_000));
    assert_eq!(parse_hhmmss_ms("00:00:01.2345"), Some(1_234));
    assert_eq!(parse_hhmmss_ms("1:2"), None);
    assert_eq!(parse_hhmmss_ms("00:00:01:00"), None);
    assert_eq!(parse_hhmmss_ms("aa:00:01"), None);
}

#[test]
fn duration_and_status_lines_give_times_and_frames() {
    assert_eq!(extract_ffmpeg_duration_ms("  Duration: 00:00:10.50, start: 0.000000, bitrate: 100 kb/s"), Some(10_500));
    assert_eq!(extract_ffmpeg_duration_ms("no duration here"), None);
    let status = "frame=  100 fps=30 q=28.0 size=     256kB time=00:00:03.33 bitrate= 629.1kbits/s speed=1.1x";
    assert_eq!(extract_ffmpeg_time_ms(status), Some(3_330));
    assert_eq!(extract_ffmpeg_status_frame(status), Some(100));
    assert_eq!(extract_ffmpeg_status_frame("frame=abc"), None);
}

#[test]
fn progress_lines_give_times_and_frames() {
    assert_eq!(extract_ffmpeg_progress_time_ms("out_time_us=1500000"), Some(1_500));
    assert_eq!(extract_ffmpeg_progress_time_ms("out_time_ms=2500000"), Some(2_500));
    assert_eq!(extract_ffmpeg_progress_time_ms("out_time=00:00:02.000000"), Some(2_000));
    assert_eq!(extract_ffmpeg_progress_frame("frame=42"), Some(42));
    assert_eq!(extract_ffmpeg_progress_frame("fps=42"), None);
}

#[test]
fn progress_snapshot_keeps_the_last_values() {
    let snapshot = "frame=10\nout_time_ms=2000000\nprogress=continue\nframe=20\nout_time=00:00:03.000000\nprogress=end\n";
    assert_eq!(parse_ffmpeg_progress_snapshot(snapshot), (Some(3_000), Some(20), true));
    assert_eq!(parse_ffmpeg_progress_snapshot("frame=5\n"), (None, Some(5), false));
}
