use neuroscreencaster::camera::{
    auto_segment_id, camera_tick_times, choose_preroll_start, cluster_click_times, collect_focus_clicks,
    filter_clicks_by_activation_mode, filter_clicks_by_activation_window, is_ctrl_key_code, lock_timed_out,
    locked_runs, locked_segment_plan, scroll_session_restarts, segment_sample_step, zoom_transition_timing,
    ClickActivationConfig, ClickActivationMode, FocusClick, FocusInput, FocusInputKind,
};

#[test]
fn ctrl_key_codes() {
    assert!(is_ctrl_key_code("ControlLeft"));
    assert!(is_ctrl_key_code(" ctrl "));
    assert!(is_ctrl_key_code("RIGHTCONTROL"));
    assert!(!is_ctrl_key_code("KeyA"));
    assert!(!is_ctrl_key_code("MetaLeft"));
}

fn click(ts: u64) -> FocusInput {
    FocusInput { ts, kind: FocusInputKind::Click }
}

#[test]
fn clicks_carry_the_ctrl_state_in_time_order() {
    let events = vec![
        FocusInput { ts: 1_650, kind: FocusInputKind::KeyUp("ControlLeft".to_string()) },
        click(1_000),
        FocusInput { ts: 1_400, kind: FocusInputKind::KeyDown("ControlLeft".to_string()) },
        click(1_500),
        FocusInput { ts: 1_450, kind: FocusInputKind::KeyDown("KeyA".to_string()) },
        FocusInput { ts: 1_700, kind: FocusInputKind::Other },
        click(1_800),
    ];
    let clicks = collect_focus_clicks(&events);
    assert_eq!(
        clicks,
        vec![
            FocusClick { event_index: 1, ts: 1_000, ctrl_pressed: false },
            FocusClick { event_index: 3, ts: 1_500, ctrl_pressed: true },
            FocusClick { event_index: 6, ts: 1_800, ctrl_pressed: false },
        ]
    );
}

fn clicks(ts: &[(u64, bool)]) -> Vec<FocusClick> {
    ts.iter().enumerate().map(|(i, &(t, c))| FocusClick { event_index: i, ts: t, ctrl_pressed: c }).collect()
}

#[test]
fn activation_modes_select_clicks() {
    let cs = clicks(&[(1_000, false), (2_100, true)]);
    let mut cfg = ClickActivationConfig::default();
    assert_eq!(filter_clicks_by_activation_mode(&cs, &cfg), vec![1]);
    cfg.click_activation_mode = ClickActivationMode::SingleClick;
    assert_eq!(filter_clicks_by_activation_mode(&cs, &cfg), vec![0, 1]);
    cfg.click_activation_mode = ClickActivationMode::CtrlClick;
    assert_eq!(filter_clicks_by_activation_mode(&cs, &cfg), vec![1]);
    // A single click never activates the multi-click rule.
    let lone = clicks(&[(1_000, false)]);
    assert!(filter_clicks_by_activation_mode(&lone, &ClickActivationConfig::default()).is_empty());
}

#[test]
fn activation_window_keeps_the_click_before_a_rapid_activation() {
    assert_eq!(filter_clicks_by_activation_window(&vec![1_000, 1_200, 5_000], 3_000, 2, 300), vec![0, 1]);
    assert_eq!(filter_clicks_by_activation_window(&vec![1_000, 5_000], 3_000, 2, 300), Vec::<usize>::new());
    assert_eq!(filter_clicks_by_activation_window(&vec![1_000, 1_100, 1_200], 3_000, 3, 50), vec![2]);
}

#[test]
fn clusters_split_at_large_gaps() {
    assert_eq!(cluster_click_times(&vec![100, 200, 700, 750, 2_000], 300), vec![(0, 2), (2, 4), (4, 5)]);
    assert_eq!(cluster_click_times(&vec![], 300), Vec::<(usize, usize)>::new());
    assert_eq!(cluster_click_times(&vec![5], 1), vec![(0, 1)]);
}

#[test]
fn preroll_starts_where_the_cursor_slows_down() {
    let samples = vec![(500, true), (700, true), (800, false), (900, false)];
    assert_eq!(choose_preroll_start(1_000, &samples, 400), 800);
    let fast = vec![(700, false), (950, true)];
    assert_eq!(choose_preroll_start(1_000, &fast, 400), 1_000);
    assert_eq!(choose_preroll_start(1_000, &vec![], 400), 1_000);
    let slow = vec![(700, false), (900, false)];
    assert_eq!(choose_preroll_start(1_000, &slow, 400), 700);
}

#[test]
fn zoom_starts_are_spaced_and_locks_last() {
    let cfg = ClickActivationConfig::default();
    assert_eq!(zoom_transition_timing(900, 1_000, 1_200, 2, Some(0), &cfg), (2_000, 2_000));
    assert_eq!(zoom_transition_timing(900, 1_000, 1_200, 2, None, &cfg), (900, 1_251));
    assert_eq!(zoom_transition_timing(900, 1_000, 1_000, 1, None, &cfg), (900, 1_001));
    assert!(lock_timed_out(4_301, 2_300, &cfg));
    assert!(!lock_timed_out(4_300, 2_300, &cfg));
    assert!(scroll_session_restarts(1_000, None, &cfg));
    assert!(scroll_session_restarts(1_000, Some(600), &cfg));
    assert!(!scroll_session_restarts(1_000, Some(800), &cfg));
}

#[test]
fn simulation_ticks_end_on_the_duration() {
    assert_eq!(camera_tick_times(20, 8), vec![0, 8, 16, 20]);
    assert_eq!(camera_tick_times(16, 8), vec![0, 8, 16]);
    assert_eq!(camera_tick_times(3, 0), vec![0, 1, 2, 3]);
    assert!(camera_tick_times(0, 8).is_empty());
}

#[test]
fn locked_runs_are_maximal() {
    assert_eq!(locked_runs(&vec![false, true, true, false, true]), vec![(1, 3), (4, 5)]);
    assert!(locked_runs(&vec![false, false]).is_empty());
    assert_eq!(locked_runs(&vec![true, true]), vec![(0, 2)]);
}

#[test]
fn segments_keep_spaced_target_points() {
    let (start, end, picked) = locked_segment_plan(&vec![1_000, 1_040, 1_080, 1_100, 1_160, 1_170], 75);
    assert_eq!((start, end), (1_000, 1_170));
    assert_eq!(picked, vec![0, 2, 4, 5]);
    let (start, end, picked) = locked_segment_plan(&vec![500], 75);
    assert_eq!((start, end, picked), (500, 501, vec![0]));
    assert_eq!(segment_sample_step(&ClickActivationConfig::default()), 75);
    assert_eq!(auto_segment_id(0), "auto-1");
    assert_eq!(auto_segment_id(41), "auto-42");
}
