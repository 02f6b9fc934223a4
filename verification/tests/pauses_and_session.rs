use neuroscreencaster::pauses::{
    keep_ranges_after_pauses, normalize_event_times_for_pauses, recorded_duration_ms, total_pause_duration_ms,
};
use neuroscreencaster::ranges::{complement_within, merge_ranges};
use neuroscreencaster::session::{
    begin_recording, pause_recording, resume_recording, stop_recording, RecordingSession, SessionError,
};

#[test]
fn recorded_spans_leave_out_the_pauses() {
    let pauses = vec![(3_000, 4_000), (3_500, 5_000), (8_000, 8_000), (12_000, 13_000)];
    assert_eq!(keep_ranges_after_pauses(1_000, 11_000, &pauses), vec![(0, 2_000), (4_000, 10_000)]);
}

#[test]
fn recorded_spans_edge_cases() {
    assert_eq!(keep_ranges_after_pauses(1_000, 5_000, &vec![]), vec![(0, 4_000)]);
    assert_eq!(keep_ranges_after_pauses(5_000, 5_000, &vec![(1, 2)]), Vec::<(u64, u64)>::new());
    assert_eq!(keep_ranges_after_pauses(5_000, 1_000, &vec![]), Vec::<(u64, u64)>::new());
    // A pause from the very start to past the end leaves nothing.
    assert_eq!(keep_ranges_after_pauses(1_000, 2_000, &vec![(500, 9_000)]), Vec::<(u64, u64)>::new());
    // A pause at the end only shortens the last span.
    assert_eq!(keep_ranges_after_pauses(0, 100, &vec![(90, 100)]), vec![(0, 90)]);
}

#[test]
fn merging_sorts_and_joins_touching_ranges() {
    assert_eq!(merge_ranges(&vec![(5, 7), (1, 3), (3, 4), (10, 10)]), vec![(1, 4), (5, 7)]);
    assert_eq!(merge_ranges(&vec![(4, 2)]), Vec::<(u64, u64)>::new());
    assert_eq!(merge_ranges(&vec![(0, 10), (2, 3)]), vec![(0, 10)]);
}

#[test]
fn pause_totals_and_duration() {
    assert_eq!(total_pause_duration_ms(&vec![(1, 5), (10, 8), (20, 30)]), 14);
    assert_eq!(total_pause_duration_ms(&vec![]), 0);
    assert_eq!(recorded_duration_ms(1_000, 11_000, 3_000), 7_000);
    assert_eq!(recorded_duration_ms(1_000, 2_000, 3_000), 0);
    assert_eq!(recorded_duration_ms(5_000, 1_000, 0), 0);
}

#[test]
fn events_are_sorted_shifted_and_dropped_inside_pauses() {
    let ts = vec![500, 2_500, 1_500, 4_500];
    let pauses = vec![(2_000, 3_000)];
    assert_eq!(normalize_event_times_for_pauses(&ts, 1_000, &pauses), vec![(0, 500), (1, 1_500), (3, 3_500)]);
}

#[test]
fn events_without_pauses_are_kept_as_they_are() {
    let ts = vec![500, 2_500, 1_500];
    assert_eq!(normalize_event_times_for_pauses(&ts, 1_000, &vec![]), vec![(0, 500), (1, 2_500), (2, 1_500)]);
    // Pauses that are all empty still sort the events.
    assert_eq!(normalize_event_times_for_pauses(&ts, 1_000, &vec![(5_000, 4_000)]), vec![(0, 500), (2, 1_500), (1, 2_500)]);
}

#[test]
fn overlapping_pauses_shift_once() {
    let ts = vec![10, 60, 100];
    let pauses = vec![(20, 40), (30, 50)];
    // The merged pause [20, 50) is 30 ms long.
    assert_eq!(normalize_event_times_for_pauses(&ts, 0, &pauses), vec![(0, 10), (1, 30), (2, 70)]);
}

fn session(id: &str) -> RecordingSession {
    RecordingSession::new(id.to_string(), 1_000)
}

#[test]
fn pause_then_resume_records_the_pause() {
    let mut slot = None;
    assert!(begin_recording(&mut slot, session("rec-1")).is_ok());
    assert!(pause_recording(&mut slot, "rec-1", 2_000).is_ok());
    assert_eq!(slot.as_ref().unwrap().pause_started_at_ms, Some(2_000));
    // A second pause does not move the start.
    assert!(pause_recording(&mut slot, "rec-1", 2_500).is_ok());
    assert_eq!(slot.as_ref().unwrap().pause_started_at_ms, Some(2_000));
    assert!(resume_recording(&mut slot, "rec-1", 3_000).is_ok());
    let rec = slot.as_ref().unwrap();
    assert_eq!(rec.pause_started_at_ms, None);
    assert_eq!(rec.pause_ranges_ms, vec![(2_000, 3_000)]);
}

#[test]
fn resume_at_the_pause_time_records_nothing() {
    let mut slot = Some(session("a"));
    pause_recording(&mut slot, "a", 5_000).unwrap();
    resume_recording(&mut slot, "a", 5_000).unwrap();
    assert!(slot.as_ref().unwrap().pause_ranges_ms.is_empty());
    // Resuming when not paused changes nothing.
    resume_recording(&mut slot, "a", 6_000).unwrap();
    assert!(slot.as_ref().unwrap().pause_ranges_ms.is_empty());
}

#[test]
fn stop_closes_an_open_pause() {
    let mut slot = Some(session("a"));
    pause_recording(&mut slot, "a", 4_000).unwrap();
    let rec = stop_recording(&mut slot, "a", 7_000).unwrap();
    assert!(slot.is_none());
    assert_eq!(rec.pause_ranges_ms, vec![(4_000, 7_000)]);
    assert_eq!(rec.pause_started_at_ms, None);
}

#[test]
fn commands_for_another_recording_are_refused() {
    let mut slot = Some(session("a"));
    let err = pause_recording(&mut slot, "b", 2_000).unwrap_err();
    assert_eq!(err.message(), "Recording ID mismatch: active=a, requested=b");
    assert_eq!(slot.as_ref().unwrap().pause_started_at_ms, None);
    let err = stop_recording(&mut slot, "b", 2_000).unwrap_err();
    assert_eq!(err.message(), "Recording ID mismatch: active=a, requested=b");
    assert!(slot.is_some());
    let err = resume_recording(&mut slot, "c", 2_000).unwrap_err();
    assert!(matches!(err, SessionError::IdMismatch { .. }));
}

#[test]
fn commands_without_a_recording_are_refused() {
    let mut slot: Option<RecordingSession> = None;
    assert_eq!(pause_recording(&mut slot, "a", 1).unwrap_err().message(), "No active recording");
    assert_eq!(resume_recording(&mut slot, "a", 1).unwrap_err().message(), "No active recording");
    assert_eq!(stop_recording(&mut slot, "a", 1).unwrap_err().message(), "No active recording");
    let mut busy = Some(session("a"));
    assert_eq!(begin_recording(&mut busy, session("b")).unwrap_err().message(), "Recording already in progress");
    assert_eq!(busy.as_ref().unwrap().recording_id, "a");
}

#[test]
fn merging_a_merged_list_changes_nothing() {
    let merged = merge_ranges(&vec![(40, 45), (5, 9), (1, 3), (8, 12), (3, 4)]);
    assert_eq!(merged, vec![(1, 4), (5, 12), (40, 45)]);
    assert_eq!(merge_ranges(&merged), merged);
}

#[test]
fn complement_of_the_complement_is_the_cut() {
    let cut = vec![(0, 2), (5, 9), (12, 20)];
    let kept = complement_within(&cut, 20);
    assert_eq!(kept, vec![(2, 5), (9, 12)]);
    assert_eq!(complement_within(&kept, 20), cut);
    assert_eq!(complement_within(&vec![], 7), vec![(0, 7)]);
    assert_eq!(complement_within(&vec![(0, 7)], 7), Vec::<(u64, u64)>::new());
}

#[test]
fn recorded_spans_last_as_long_as_the_video() {
    let (start, end) = (10_000u64, 25_000u64);
    let pauses = vec![(11_000, 12_500), (12_500, 13_000), (20_000, 20_000), (24_000, 25_000)];
    let keep = keep_ranges_after_pauses(start, end, &pauses);
    let kept: u64 = keep.iter().map(|(s, e)| e - s).sum();
    let video = recorded_duration_ms(start, end, total_pause_duration_ms(&pauses));
    assert_eq!(kept, video);
    assert_eq!(video, 12_000);
}

#[test]
fn a_session_driven_in_clock_order_keeps_its_pauses_in_sequence() {
    let mut slot = Some(session("s"));
    pause_recording(&mut slot, "s", 2_000).unwrap();
    resume_recording(&mut slot, "s", 3_000).unwrap();
    pause_recording(&mut slot, "s", 3_000).unwrap();
    resume_recording(&mut slot, "s", 3_000).unwrap();
    pause_recording(&mut slot, "s", 5_000).unwrap();
    let rec = stop_recording(&mut slot, "s", 6_000).unwrap();
    assert_eq!(rec.pause_ranges_ms, vec![(2_000, 3_000), (5_000, 6_000)]);
    assert!(rec.pause_ranges_ms.windows(2).all(|w| w[0].1 <= w[1].0));
    let keep = keep_ranges_after_pauses(rec.start_ms, 6_000, &rec.pause_ranges_ms);
    let kept: u64 = keep.iter().map(|(s, e)| e - s).sum();
    assert_eq!(kept, recorded_duration_ms(rec.start_ms, 6_000, total_pause_duration_ms(&rec.pause_ranges_ms)));
}
