use neuroscreencaster::export_filters::{
    apply_cursor_timing_offset_ms, ass_dialogue_line, ass_header, build_click_pulse_factor_expr, compact_click_times,
    decimate_u64_points, escape_filter_path, export_filter_graph, format_ass_time, map_time_ms,
    select_uniform_internal_indices, subtitles_overlay_filter,
};
use neuroscreencaster::export_job::{
    check_export_can_cancel, check_export_can_reset, check_export_can_start, default_export_file_name,
    explicit_output_path, export_failure_message, export_job_end, ffmpeg_export_args, media_path_text,
    resolve_export_target, resolve_project_file, source_or_recorded, split_stderr_lines, StderrTail,
};
use neuroscreencaster::models::ExportSettings;

#[test]
fn times_map_proportionally_with_rounding() {
    assert_eq!(map_time_ms(500, 1_000, 2_000), 1_000);
    assert_eq!(map_time_ms(1, 3, 2), 1);
    assert_eq!(map_time_ms(1, 4, 2), 1);
    assert_eq!(map_time_ms(1, 5, 2), 0);
    assert_eq!(map_time_ms(5_000, 1_000, 2_000), 2_000);
    assert_eq!(map_time_ms(10, 0, 2_000), 0);
    assert_eq!(map_time_ms(10, 100, 0), 0);
}

#[test]
fn cursor_timing_offset_stops_at_the_end() {
    assert_eq!(apply_cursor_timing_offset_ms(100, 1_000), 145);
    assert_eq!(apply_cursor_timing_offset_ms(990, 1_000), 1_000);
    assert_eq!(apply_cursor_timing_offset_ms(u64::MAX, u64::MAX), u64::MAX);
}

#[test]
fn subtitle_times_and_paths() {
    assert_eq!(format_ass_time(3_723_456), "1:02:03.45");
    assert_eq!(format_ass_time(0), "0:00:00.00");
    assert_eq!(escape_filter_path("C:\\tmp\\it's.ass"), "C\\:/tmp/it\\'s.ass");
    assert_eq!(subtitles_overlay_filter("C:\\a.ass"), "[framed]subtitles=filename='C\\:/a.ass'[vout]");
}

#[test]
fn filter_graph_uses_dynamic_zoom_pipeline_structure() {
    let graph = export_filter_graph(30, 1920, 1080, "1", "0", "0", None);
    assert_eq!(
        graph,
        "fps=30,split=2[base][zoom];[zoom]scale=w='iw*(1)':h='ih*(1)':eval=frame[scaled];[base][scaled]overlay=x='-max(0,min(0,overlay_w-main_w))':y='-max(0,min(0,overlay_h-main_h))':eval=frame[cam];[cam]scale=1920:1080:force_original_aspect_ratio=decrease,pad=1920:1080:(ow-iw)/2:(oh-ih)/2:black[vout]"
    );
    let with_cursor = export_filter_graph(60, 1280, 720, "z", "x", "y", Some("[framed]subtitles=filename='c.ass'[vout]"));
    assert!(with_cursor.starts_with("fps=60,split=2[base][zoom];"));
    assert!(with_cursor.contains("scale=w='iw*(z)':h='ih*(z)'"));
    assert!(with_cursor.ends_with("black[framed];[framed]subtitles=filename='c.ass'[vout]"));
}

#[test]
fn subtitle_file_pieces() {
    let header = ass_header(1920, 1080);
    assert!(header.starts_with("[Script Info]\nScriptType: v4.00+\nPlayResX: 1920\nPlayResY: 1080\n\n[V4+ Styles]\n"));
    assert!(header.ends_with("[Events]\nFormat: Layer, Start, End, Style, Name, MarginL, MarginR, MarginV, Effect, Text\n"));
    assert_eq!(
        ass_dialogue_line(0, 1_234, "50.00", "2.00", 10, -5, 20, 30),
        "Dialogue: 0,0:00:00.00,0:00:01.23,Cursor,,0,0,0,,{\\an7\\p1\\fscx50.00\\fscy50.00\\bord2.00\\shad0\\move(10,-5,20,30)}m 0 0 l 0 90 l 22 70 l 35 110 l 50 102 l 38 63 l 72 63 l 0 0\n"
    );
}

#[test]
fn click_pulse_expression() {
    assert_eq!(build_click_pulse_factor_expr(&vec![]), "1");
    assert_eq!(
        build_click_pulse_factor_expr(&vec![1_000]),
        "1+if(gte(t,1.0000)*lt(t,1.0650),(1-(0.1800)*((t-1.0000)/0.0650))-1,0)+if(gte(t,1.0650)*lt(t,1.1500),(0.8200+(0.1800)*((t-1.0650)/0.0850))-1,0)"
    );
}

#[test]
fn point_lists_are_thinned() {
    let points: Vec<u64> = (0..10).map(|i| i * 10).collect();
    assert_eq!(decimate_u64_points(&points, 4), vec![0, 30, 60, 90]);
    assert_eq!(decimate_u64_points(&points, 10), points);
    assert_eq!(decimate_u64_points(&points, 1), points);
    assert_eq!(compact_click_times(&vec![500, 100, 150, 300], 120), vec![100, 300, 500]);
    assert!(compact_click_times(&vec![], 120).is_empty());
    assert_eq!(select_uniform_internal_indices(10, 3), vec![3, 5, 7]);
    assert_eq!(select_uniform_internal_indices(5, 10), vec![1, 2, 3]);
    assert!(select_uniform_internal_indices(2, 5).is_empty());
    assert!(select_uniform_internal_indices(8, 0).is_empty());
}

#[test]
fn export_target_is_clamped_and_the_codec_checked() {
    let project = ExportSettings::default();
    let t = resolve_export_target(None, None, None, None, &project).unwrap();
    assert_eq!((t.width, t.height, t.fps, t.codec.as_str()), (1920, 1080, 30, "h264"));
    let t = resolve_export_target(Some(100), Some(10_000), Some(500), Some(" H265 ".to_string()), &project).unwrap();
    assert_eq!((t.width, t.height, t.fps, t.codec.as_str()), (320, 4320, 120, "h265"));
    let err = resolve_export_target(None, None, None, Some("AV1".to_string()), &project).unwrap_err();
    assert_eq!(err.message(), "Unsupported codec: av1");
    assert_eq!(source_or_recorded(None, 0), 1);
    assert_eq!(source_or_recorded(Some(5_000), 10), 5_000);
    assert_eq!(source_or_recorded(None, 10), 10);
}

#[test]
fn ffmpeg_command_line_of_an_export() {
    let args = ffmpeg_export_args("p.txt", "in.mp4", None, "f.txt", "h264", "out.mp4").unwrap();
    assert_eq!(
        args,
        vec![
            "-y", "-hide_banner", "-stats_period", "0.5", "-progress", "p.txt", "-i", "in.mp4", "-filter_complex_script",
            "f.txt", "-map", "[vout]", "-map", "0:a?", "-c:v", "libx264", "-preset", "ultrafast", "-crf", "18",
            "-pix_fmt", "yuv420p", "-c:a", "aac", "-b:a", "192k", "out.mp4"
        ]
    );
    let args = ffmpeg_export_args("p", "i", Some("c.png"), "f", "vp9", "o").unwrap();
    assert_eq!(&args[8..12], &["-loop", "1", "-i", "c.png"]);
    assert!(args.contains(&"libvpx-vp9".to_string()));
    let args = ffmpeg_export_args("p", "i", None, "f", "h265", "o").unwrap();
    assert!(args.contains(&"libx265".to_string()) && args.contains(&"24".to_string()));
    assert_eq!(ffmpeg_export_args("p", "i", None, "f", "prores", "o").unwrap_err().message(), "Unsupported codec: prores");
}

#[test]
fn error_output_is_split_and_tailed() {
    let (lines, rest) = split_stderr_lines("a\rb\n\nc");
    assert_eq!(lines, vec!["a", "b", ""]);
    assert_eq!(rest, "c");
    let mut tail = StderrTail::new();
    for i in 0..130 {
        tail.push_line(&format!("  line {i} "));
    }
    tail.push_line("   ");
    assert_eq!(tail.lines.len(), 120);
    assert_eq!(tail.lines[0], "line 10");
    assert_eq!(tail.lines[119], "line 129");
}

#[test]
fn failure_message_quotes_the_error_lines() {
    let mut tail = StderrTail::new();
    tail.push_line("frame=1");
    tail.push_line("Error opening file");
    tail.push_line("Invalid argument");
    assert_eq!(
        export_failure_message("exit code: 1", &tail),
        "FFmpeg export failed with status: exit code: 1\nError opening file\nInvalid argument"
    );
    let mut quiet = StderrTail::new();
    quiet.push_line("frame=1");
    assert_eq!(export_failure_message("exit code: 2", &quiet), "FFmpeg export failed with status: exit code: 2");
}

#[test]
fn job_end_status() {
    let end = export_job_end(Ok(()));
    assert_eq!((end.message.as_str(), end.error.is_none(), end.succeeded), ("export.finished", true, true));
    let end = export_job_end(Err("__NSC_EXPORT_CANCELLED__".to_string()));
    assert_eq!((end.message.as_str(), end.error.is_none(), end.succeeded), ("export.cancelled", true, false));
    let end = export_job_end(Err("boom".to_string()));
    assert_eq!((end.message.as_str(), end.error.as_deref(), end.succeeded), ("export.failed", Some("boom"), false));
    assert_eq!(check_export_can_start(true).unwrap_err().message(), "Another export is already running");
    assert_eq!(check_export_can_cancel(false).unwrap_err().message(), "No active export to cancel");
    assert_eq!(check_export_can_reset(true).unwrap_err().message(), "Cannot reset status while export is running");
    assert!(check_export_can_start(false).is_ok() && check_export_can_cancel(true).is_ok() && check_export_can_reset(false).is_ok());
}

#[test]
fn paths_of_an_export() {
    let f = resolve_project_file("  /tmp/p/project.JSON ").unwrap();
    assert_eq!(f.path, "/tmp/p/project.JSON");
    assert!(!f.in_directory);
    let f = resolve_project_file("/tmp/p").unwrap();
    assert!(f.in_directory);
    assert_eq!(resolve_project_file("   ").unwrap_err().message(), "Project path is empty");
    assert_eq!(media_path_text(" raw.mp4 ").unwrap(), "raw.mp4");
    assert_eq!(media_path_text("").unwrap_err().message(), "Project videoPath is empty");
    assert_eq!(explicit_output_path(Some("  out.mp4 ".to_string())).as_deref(), Some("out.mp4"));
    assert_eq!(explicit_output_path(Some("   ".to_string())), None);
    assert_eq!(explicit_output_path(None), None);
    assert_eq!(default_export_file_name("abc", "20240101-120000"), "export-abc-20240101-120000.mp4");
}

#[test]
fn mapping_between_equal_durations_moves_nothing() {
    for ts in [0u64, 1, 499, 500, 12_345, 60_000] {
        assert_eq!(map_time_ms(ts, 60_000, 60_000), ts);
    }
    assert_eq!(map_time_ms(7, 0, 0), 0);
}

#[test]
fn mapping_keeps_the_order_of_times() {
    let mapped: Vec<u64> = (0u64..=40).map(|ts| map_time_ms(ts * 37, 1_480, 999)).collect();
    assert!(mapped.windows(2).all(|w| w[0] <= w[1]));
    assert_eq!(mapped[0], 0);
    assert_eq!(mapped[40], 999);
}

#[test]
fn thinning_keeps_both_ends_and_the_limit() {
    let points: Vec<u64> = (0u64..97).map(|i| i * 3 + 1).collect();
    for max in 2usize..20 {
        let thinned = decimate_u64_points(&points, max);
        assert_eq!(thinned.first(), points.first());
        assert_eq!(thinned.last(), points.last());
        assert!(thinned.len() <= max);
    }
}

#[test]
fn project_files_are_told_from_project_folders() {
    assert!(!resolve_project_file("Project.JSON").unwrap().in_directory);
    assert!(!resolve_project_file(" saved.json ").unwrap().in_directory);
    assert!(resolve_project_file("recording-1").unwrap().in_directory);
    assert!(resolve_project_file(".json").unwrap().in_directory);
    assert!(resolve_project_file("notes.txt").unwrap().in_directory);
    assert!(resolve_project_file("archive.json.bak").unwrap().in_directory);
    let f = resolve_project_file("/v/p1/Project.JSON").unwrap();
    assert_eq!(f.path, "/v/p1/Project.JSON");
    assert!(!f.in_directory);
    let f = resolve_project_file(" /v/p1 ").unwrap();
    assert_eq!(f.path, "/v/p1");
    assert!(f.in_directory);
    assert!(resolve_project_file("/v/json.d/p1").unwrap().in_directory);
    assert!(resolve_project_file("/v/p1/.json").unwrap().in_directory);
}

#[test]
fn error_output_keeps_its_last_lines_without_blanks() {
    let mut tail = StderrTail::new();
    for i in 0..300 {
        tail.push_line(&format!("line {i}"));
        tail.push_line(" \t ");
    }
    assert_eq!(tail.lines.len(), 120);
    assert_eq!(tail.lines[0], "line 180");
    assert_eq!(tail.lines[119], "line 299");
    let mut grown = StderrTail { lines: (0..200).map(|i| format!("old {i}")).collect() };
    grown.push_line("  new  ");
    assert_eq!(grown.lines.len(), 120);
    assert_eq!(grown.lines[0], "old 81");
    assert_eq!(grown.lines[119], "new");
    let mut kept = StderrTail { lines: (0..200).map(|i| format!("old {i}")).collect() };
    kept.push_line("   ");
    assert_eq!(kept.lines.len(), 200);
}

#[test]
fn uniform_indices_increase_inside_the_list() {
    assert_eq!(select_uniform_internal_indices(10, 3), vec![3, 5, 7]);
    assert_eq!(select_uniform_internal_indices(4, 5), vec![1, 2]);
    for len in 0usize..30 {
        for count in 0usize..30 {
            let r = select_uniform_internal_indices(len, count);
            let expected = if len <= 2 || count == 0 { 0 } else { count.min(len - 2) };
            assert_eq!(r.len(), expected);
            assert!(r.iter().all(|&i| 1 <= i && i + 2 <= len));
            assert!(r.windows(2).all(|w| w[0] < w[1]));
        }
    }
}

#[test]
fn thinning_samples_evenly() {
    assert_eq!(decimate_u64_points(&vec![10, 20, 30, 40, 50], 3), vec![10, 30, 50]);
    let points: Vec<u64> = (0u64..50).map(|i| i * 7).collect();
    for max in 2usize..50 {
        let thinned = decimate_u64_points(&points, max);
        assert_eq!(thinned.len(), max);
        for (i, v) in thinned.iter().enumerate() {
            assert_eq!(*v, points[i * 49 / (max - 1)]);
        }
    }
}

#[test]
fn compacted_clicks_keep_the_earliest_and_cover_the_dropped() {
    let clicks = vec![500, 100, 150, 260, 300];
    let kept = compact_click_times(&clicks, 120);
    assert_eq!(kept, vec![100, 260, 500]);
    for t in &clicks {
        assert!(kept.iter().any(|k| k <= t && (k == t || t - k < 120)));
    }
}
