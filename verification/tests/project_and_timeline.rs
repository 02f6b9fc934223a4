use neuroscreencaster::models::{bounding_rect_from_edges, Background, BoundingRect, ExportSettings, ZoomMode, ZoomTrigger};
use neuroscreencaster::muxer::{
    capture_encoder_settings, frame_interval_hns, frame_interval_ns, next_tick_after, MuxerAction, MuxerState,
};
use neuroscreencaster::project::{
    check_events_schema, check_project_schema, check_project_schema_for_save, modified_or_created, save_target,
    sort_project_list, ProjectListItem, SaveTarget,
};
use neuroscreencaster::recording::RecordingQuality;
use neuroscreencaster::telemetry::{ctrl_pressed_state, event_offset_ms, next_ctrl_state, should_record_event, CtrlTransition};
use neuroscreencaster::timeline::{
    camera_anchor_times, dedupe_point_indices, normalize_target_point_plan, resolve_runtime_segment,
    runtime_segment_spans, target_point_index_at,
};

fn item(id: &str, created_at: u64, modified_time_ms: u64) -> ProjectListItem {
    ProjectListItem {
        id: id.to_string(),
        name: format!("Recording {id}"),
        created_at,
        duration_ms: 1_000,
        video_width: 1920,
        video_height: 1080,
        project_path: format!("/p/{id}/project.json"),
        folder_path: format!("/p/{id}"),
        modified_time_ms,
    }
}

#[test]
fn project_list_is_newest_first() {
    let items = vec![item("a", 100, 5), item("b", 200, 1), item("c", 100, 9), item("d", 200, 1)];
    let sorted = sort_project_list(&items);
    let ids: Vec<&str> = sorted.iter().map(|i| i.id.as_str()).collect();
    assert_eq!(ids, vec!["b", "d", "c", "a"]);
    assert_eq!(sorted[2].name, "Recording c");
    assert_eq!(modified_or_created(None, 7), 7);
    assert_eq!(modified_or_created(Some(9), 7), 9);
}

#[test]
fn schema_versions_are_checked() {
    assert!(check_project_schema(1).is_ok());
    assert_eq!(check_project_schema(2).unwrap_err().message(), "Unsupported project schemaVersion: expected 1, got 2");
    assert_eq!(check_events_schema(0).unwrap_err().message(), "Unsupported events schemaVersion: expected 1, got 0");
    assert_eq!(check_project_schema_for_save(3).unwrap_err().message(), "Refusing to save unsupported schemaVersion: 3");
    assert!(matches!(save_target(Some("   ".to_string())), SaveTarget::Default));
    assert!(matches!(save_target(None), SaveTarget::Default));
    match save_target(Some(" /x/y.json ".to_string())) {
        SaveTarget::Given(f) => {
            assert_eq!(f.path, "/x/y.json");
            assert!(!f.in_directory);
        },
        SaveTarget::Default => panic!("expected the given path"),
    }
}

#[test]
fn model_defaults_and_bounds() {
    let e = ExportSettings::default();
    assert_eq!((e.width, e.height, e.fps, e.codec.as_str()), (1920, 1080, 30, "h264"));
    assert_eq!(ZoomMode::default(), ZoomMode::Fixed);
    assert_eq!(ZoomTrigger::default(), ZoomTrigger::Manual);
    match Background::default() {
        Background::Solid { color } => assert_eq!(color, "#1a1a2e"),
        _ => panic!("expected a solid background"),
    }
    assert_eq!(bounding_rect_from_edges(10, 20, 5, 60), BoundingRect { x: 10, y: 20, width: 0, height: 40 });
    assert_eq!(bounding_rect_from_edges(i32::MIN, 0, i32::MAX, 1).width, u32::MAX);
}

#[test]
fn muxer_ticks_and_counters() {
    assert_eq!(frame_interval_hns(30), 333_333);
    assert_eq!(frame_interval_hns(0), 10_000_000);
    assert_eq!(frame_interval_ns(60), 16_666_666);
    assert_eq!(next_tick_after(1_000, 100, 1_050), 1_100);
    assert_eq!(next_tick_after(1_000, 100, 1_250), 1_300);
    assert_eq!(next_tick_after(1_000, 100, 1_300), 1_400);
    assert_eq!(capture_encoder_settings("raw.mp4".to_string(), 10, 20, 0, RecordingQuality::High).target_fps, 1);

    let mut m = MuxerState::new();
    assert_eq!(m.poll(false, false), (MuxerAction::AwaitFirstFrame, false));
    assert!(!m.adopt_first_frame(None));
    assert!(m.adopt_first_frame(Some(3)));
    assert_eq!(m.poll(false, true), (MuxerAction::SleepPaused, false));
    assert_eq!(m.poll(false, false), (MuxerAction::AwaitTick, true));
    m.refresh_on_tick(Some(3));
    assert_eq!(m.duplicated_frames, 0);
    assert_eq!(m.record_encoded(333_333), 0);
    m.refresh_on_tick(Some(3));
    assert_eq!(m.duplicated_frames, 1);
    m.refresh_on_tick(Some(4));
    assert_eq!(m.active_sequence, Some(4));
    assert_eq!(m.record_encoded(333_333), 333_333);
    assert_eq!(m.encoded_frames, 2);
    assert_eq!(m.poll(true, false), (MuxerAction::Finish, false));
}

#[test]
fn telemetry_decisions() {
    assert!(next_ctrl_state(false, CtrlTransition::Pressed));
    assert!(!next_ctrl_state(true, CtrlTransition::Released));
    assert!(next_ctrl_state(true, CtrlTransition::Unchanged));
    assert!(should_record_event(false, true));
    assert!(!should_record_event(true, true));
    assert!(!should_record_event(false, false));
    assert_eq!(event_offset_ms(500, 1_000), 0);
    assert_eq!(event_offset_ms(1_500, 1_000), 500);
    assert!(ctrl_pressed_state(None, true));
    assert!(!ctrl_pressed_state(Some(false), true));
}

#[test]
fn points_on_the_same_millisecond_prefer_clicks() {
    assert_eq!(dedupe_point_indices(&vec![10, 10, 20, 10], &vec![false, true, false, false]), vec![1, 2]);
    assert_eq!(dedupe_point_indices(&vec![10, 10], &vec![false, false]), vec![1]);
    assert!(dedupe_point_indices(&vec![], &vec![]).is_empty());
}

#[test]
fn camera_anchors_and_segments() {
    assert_eq!(camera_anchor_times(100, &vec![50, 20, 50, 100, 0]), vec![0, 20, 50, 100]);
    assert_eq!(camera_anchor_times(0, &vec![]), vec![0]);
    let spans = runtime_segment_spans(&vec![500, 100, 900, 1_000], &vec![800, 300, 950, 1_200], 920);
    assert_eq!(spans, vec![(1, 100, 300), (0, 500, 800), (2, 900, 920)]);
    let plain: Vec<(u64, u64)> = vec![(0, 100), (50, 150)];
    assert_eq!(resolve_runtime_segment(&plain, 60), Some(1));
    assert_eq!(resolve_runtime_segment(&plain, 10), Some(0));
    assert_eq!(resolve_runtime_segment(&plain, 160), None);
    assert_eq!(target_point_index_at(&vec![100, 200, 300], 50), Some(0));
    assert_eq!(target_point_index_at(&vec![100, 200, 300], 250), Some(1));
    assert_eq!(target_point_index_at(&vec![100, 200, 300], 300), Some(2));
    assert_eq!(target_point_index_at(&vec![], 300), None);
}

#[test]
fn target_points_are_clamped_sorted_and_extended() {
    assert_eq!(
        normalize_target_point_plan(&vec![150, 120, 150], 100, 200),
        vec![(Some(1), 100), (Some(1), 120), (Some(2), 150), (Some(2), 200)]
    );
    assert_eq!(normalize_target_point_plan(&vec![], 100, 200), vec![(None, 100), (None, 200)]);
    assert_eq!(normalize_target_point_plan(&vec![50], 100, 200), vec![(Some(0), 100), (Some(0), 200)]);
    assert_eq!(normalize_target_point_plan(&vec![100, 300], 100, 200), vec![(Some(0), 100), (Some(1), 200)]);
}

#[test]
fn kept_points_strictly_increase_in_time() {
    let ts = vec![30, 10, 10, 20, 30, 5, 20];
    let clicks = vec![false, true, false, false, true, false, false];
    let kept = dedupe_point_indices(&ts, &clicks);
    assert_eq!(kept, vec![5, 1, 6, 4]);
    assert!(kept.windows(2).all(|w| ts[w[0]] < ts[w[1]]));
}
