//! The constant-frame-rate muxer of the screen capture.
//!
//! The capture delivers frames whenever the screen changes; the encoder wants
//! one frame per tick. The muxer encodes, on every tick, the newest frame, or
//! the previous one again when nothing new arrived, and stamps each with the
//! tick's presentation time. While the recording is paused no tick passes;
//! after a pause the ticks restart from the current time.
//!
//! The thread that runs the muxer does the waiting, the locking and the
//! encoding; the decisions and the counters are kept here.

use vstd::prelude::*;
use crate::recording::RecordingQuality;

verus! {

/// Hundred-nanosecond units per second, the unit of presentation times.
pub const HNS_PER_SECOND: i64 = 10_000_000;

/// What the capture encodes to.
#[derive(Clone, Debug)]
pub struct CaptureEncoderSettings {
    pub output_path: String,
    pub width: u32,
    pub height: u32,
    pub target_fps: u32,
    pub quality: RecordingQuality,
}

/// The signals of a running capture, read at one moment, and its encoder
/// settings.
#[derive(Clone, Debug)]
pub struct CaptureFlags {
    pub stop_requested: bool,
    pub pause_requested: bool,
    pub encoder: CaptureEncoderSettings,
}

/// Encoder settings of a capture; the frame rate is at least 1.
pub fn capture_encoder_settings(output_path: String, width: u32, height: u32, target_fps: u32, quality: RecordingQuality) -> (s: CaptureEncoderSettings)
    ensures
        s.output_path == output_path,
        s.width == width && s.height == height && s.quality == quality,
        s.target_fps == (if target_fps > 1 { target_fps } else { 1 }),
{
    CaptureEncoderSettings {
        output_path,
        width,
        height,
        target_fps: if target_fps > 1 { target_fps } else { 1 },
        quality,
    }
}

/// Length of a tick in presentation-time units, at least 1.
pub fn frame_interval_hns(target_fps: u32) -> (i: i64)
    ensures
        i == ({
            let q = 10_000_000int / (if target_fps > 1 { target_fps as int } else { 1int });
            if q > 1 { q } else { 1 }
        }),
{
    let fps: i64 = if target_fps > 1 { target_fps as i64 } else { 1 };
    let q = HNS_PER_SECOND / fps;
    if q > 1 { q } else { 1 }
}

/// Length of a tick in nanoseconds, at least 1.
pub fn frame_interval_ns(target_fps: u32) -> (i: u64)
    ensures
        i == ({
            let q = 1_000_000_000int / (if target_fps > 1 { target_fps as int } else { 1int });
            if q > 1 { q } else { 1 }
        }),
{
    let fps: u64 = if target_fps > 1 { target_fps as u64 } else { 1 };
    let q = 1_000_000_000u64 / fps;
    if q > 1 { q } else { 1 }
}

/// The product of two presentation-time values, saturating at the `i64`
/// bounds.
pub open spec fn saturating_mul_i64(a: i64, b: i64) -> i64 {
    if a * b > i64::MAX { i64::MAX } else if a * b < i64::MIN { i64::MIN } else { (a * b) as i64 }
}

/// The first tick after `now_ns`: the earliest `deadline + k * interval`,
/// `k >= 1`, that lies after `now_ns`.
pub open spec fn next_tick_spec(deadline: u64, interval: u64, now: u64) -> int {
    if now < deadline + interval {
        deadline + interval
    } else {
        deadline + ((now - deadline) / (interval as int) + 1) * interval
    }
}

pub fn next_tick_after(deadline_ns: u64, interval_ns: u64, now_ns: u64) -> (t: u64)
    requires
        interval_ns > 0,
        deadline_ns + interval_ns <= u64::MAX,
        now_ns + interval_ns <= u64::MAX,
    ensures
        t == next_tick_spec(deadline_ns, interval_ns, now_ns),
        t > now_ns,
        t > deadline_ns,
{
    let first = deadline_ns + interval_ns;
    if now_ns < first {
        return first;
    }
    let k = (now_ns - deadline_ns) / interval_ns + 1;
    assert(k * interval_ns <= now_ns - deadline_ns + interval_ns) by (nonlinear_arith)
        requires
            k == (now_ns - deadline_ns) / (interval_ns as int) + 1,
            interval_ns > 0,
            now_ns >= deadline_ns,
    ;
    assert(k * interval_ns > now_ns - deadline_ns) by (nonlinear_arith)
        requires
            k == (now_ns - deadline_ns) / (interval_ns as int) + 1,
            interval_ns > 0,
            now_ns >= deadline_ns,
    ;
    deadline_ns + k * interval_ns
}

/// The counters and the frame bookkeeping of the muxer.
#[derive(Clone, Copy, Debug, PartialEq, Eq, Structural)]
pub struct MuxerState {
    /// Sequence number of the frame being encoded; `None` before the first.
    pub active_sequence: Option<u64>,
    pub last_sequence: u64,
    pub frame_index: i64,
    pub encoded_frames: u64,
    pub duplicated_frames: u64,
    pub was_paused: bool,
}

/// What the muxer does next.
#[derive(Clone, Copy, Debug, PartialEq, Eq, Structural)]
pub enum MuxerAction {
    /// Finish the encoder and end.
    Finish,
    /// Sleep a while and look again (paused).
    SleepPaused,
    /// Wait for the first frame.
    AwaitFirstFrame,
    /// Wait for the next tick.
    AwaitTick,
}

impl MuxerState {
    pub fn new() -> (s: MuxerState)
        ensures
            s == (MuxerState {
                active_sequence: None,
                last_sequence: 0,
                frame_index: 0,
                encoded_frames: 0,
                duplicated_frames: 0,
                was_paused: false,
            }),
    {
        MuxerState {
            active_sequence: None,
            last_sequence: 0,
            frame_index: 0,
            encoded_frames: 0,
            duplicated_frames: 0,
            was_paused: false,
        }
    }

    /// What to do when the stop and pause signals read as given. Returns
    /// whether the ticks must restart from now (the first look after a
    /// pause).
    pub fn poll(&mut self, stop: bool, paused: bool) -> (r: (MuxerAction, bool))
        ensures
            stop ==> r == (MuxerAction::Finish, false) && *final(self) == *old(self),
            !stop && paused ==> r == (MuxerAction::SleepPaused, false)
                && *final(self) == (MuxerState { was_paused: true, ..*old(self) }),
            !stop && !paused ==> r.1 == old(self).was_paused && !final(self).was_paused
                && *final(self) == (MuxerState { was_paused: false, ..*old(self) })
                && r.0 == (if old(self).active_sequence is None { MuxerAction::AwaitFirstFrame } else { MuxerAction::AwaitTick }),
    {
        if stop {
            return (MuxerAction::Finish, false);
        }
        if paused {
            self.was_paused = true;
            return (MuxerAction::SleepPaused, false);
        }
        let restart = self.was_paused;
        self.was_paused = false;
        let action = if self.active_sequence.is_none() { MuxerAction::AwaitFirstFrame } else { MuxerAction::AwaitTick };
        (action, restart)
    }

    /// Takes the newest frame as the first one, if one has arrived; returns
    /// whether it did (the ticks then start from now).
    pub fn adopt_first_frame(&mut self, latest_sequence: Option<u64>) -> (adopted: bool)
        ensures
            adopted == latest_sequence is Some,
            match latest_sequence {
                Some(s) => *final(self) == (MuxerState { active_sequence: Some(s), last_sequence: s, ..*old(self) }),
                None => *final(self) == *old(self),
            },
    {
        match latest_sequence {
            Some(s) => {
                self.last_sequence = s;
                self.active_sequence = Some(s);
                true
            },
            None => false,
        }
    }

    /// On a tick: takes the newest frame if it is new, or counts the tick as
    /// a repeat of the previous frame (once encoding has begun).
    pub fn refresh_on_tick(&mut self, latest_sequence: Option<u64>)
        ensures
            match latest_sequence {
                Some(s) if s != old(self).last_sequence => *final(self) == (MuxerState {
                    active_sequence: Some(s),
                    last_sequence: s,
                    ..*old(self)
                }),
                _ => *final(self) == (MuxerState {
                    duplicated_frames: if old(self).encoded_frames > 0 {
                        old(self).duplicated_frames.saturating_add(1)
                    } else {
                        old(self).duplicated_frames
                    },
                    ..*old(self)
                }),
            },
    {
        match latest_sequence {
            Some(s) => {
                if s != self.last_sequence {
                    self.last_sequence = s;
                    self.active_sequence = Some(s);
                    return;
                }
            },
            None => {},
        }
        if self.encoded_frames > 0 {
            self.duplicated_frames = self.duplicated_frames.saturating_add(1);
        }
    }

    /// Counts an encoded frame and returns its presentation time, the
    /// frame's index times the tick length (saturating).
    pub fn record_encoded(&mut self, interval_hns: i64) -> (pts: i64)
        ensures
            pts == saturating_mul_i64(old(self).frame_index, interval_hns),
            final(self).frame_index == (if old(self).frame_index == i64::MAX { i64::MAX as int } else { old(self).frame_index + 1 }),
            final(self).encoded_frames == old(self).encoded_frames.saturating_add(1),
            final(self).active_sequence == old(self).active_sequence,
            final(self).last_sequence == old(self).last_sequence,
            final(self).duplicated_frames == old(self).duplicated_frames,
            final(self).was_paused == old(self).was_paused,
    {
        let a = self.frame_index as i128;
        let b = interval_hns as i128;
        assert(-85070591730234615865843651857942052864int <= a * b <= 85070591730234615865843651857942052864int) by (nonlinear_arith)
            requires -9223372036854775808int <= a <= 9223372036854775807int, -9223372036854775808int <= b <= 9223372036854775807int;
        let p = a * b;
        let pts: i64 = if p > i64::MAX as i128 { i64::MAX } else if p < i64::MIN as i128 { i64::MIN } else { p as i64 };
        self.frame_index = if self.frame_index == i64::MAX { i64::MAX } else { self.frame_index + 1 };
        self.encoded_frames = self.encoded_frames.saturating_add(1);
        pts
    }
}

} // verus!
