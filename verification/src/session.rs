//! The pause bookkeeping of the active recording.
//!
//! At most one recording is active. Commands name the recording they act on;
//! a command for another recording is refused and leaves the state as it was.
//! Pausing opens a pause at the current time; resuming closes it, and the
//! closed pause is kept as a range of wall-clock milliseconds. Stopping closes
//! a pause that is still open and hands the session back.

use vstd::prelude::*;
use crate::pauses::pauses_in_sequence;
use crate::text::{push_str, string_from_chars};

verus! {

broadcast use vstd::string::group_string_axioms;

/// Bookkeeping of the active recording.
#[derive(Debug)]
pub struct RecordingSession {
    pub recording_id: String,
    /// Wall-clock milliseconds at which the recording started.
    pub start_ms: u64,
    /// Start of the pause in progress, if the recording is paused.
    pub pause_started_at_ms: Option<u64>,
    /// Closed pauses, in wall-clock milliseconds.
    pub pause_ranges_ms: Vec<(u64, u64)>,
}

/// What a `RecordingSession` holds, as plain values.
pub ghost struct SessionView {
    pub id: Seq<char>,
    pub start_ms: u64,
    pub paused_at: Option<u64>,
    pub ranges: Seq<(u64, u64)>,
}

impl View for RecordingSession {
    type V = SessionView;

    open spec fn view(&self) -> SessionView {
        SessionView {
            id: self.recording_id@,
            start_ms: self.start_ms,
            paused_at: self.pause_started_at_ms,
            ranges: self.pause_ranges_ms@,
        }
    }
}

/// Why a command on the active recording was refused.
#[derive(Debug, PartialEq, Eq)]
pub enum SessionError {
    /// No recording is active.
    NoActiveRecording,
    /// A recording is active already.
    AlreadyRecording,
    /// The command names another recording than the active one.
    IdMismatch { active: String, requested: String },
}

impl SessionError {
    /// The message shown to the user.
    pub fn message(&self) -> (m: String)
        ensures
            m@ == error_text(*self),
    {
        match self {
            SessionError::NoActiveRecording => "No active recording".to_string(),
            SessionError::AlreadyRecording => "Recording already in progress".to_string(),
            SessionError::IdMismatch { active, requested } => {
                let mut out: Vec<char> = Vec::new();
                push_str(&mut out, "Recording ID mismatch: active=");
                push_str(&mut out, active.as_str());
                push_str(&mut out, ", requested=");
                push_str(&mut out, requested.as_str());
                string_from_chars(out.as_slice())
            },
        }
    }
}

pub open spec fn error_text(e: SessionError) -> Seq<char> {
    match e {
        SessionError::NoActiveRecording => "No active recording"@,
        SessionError::AlreadyRecording => "Recording already in progress"@,
        SessionError::IdMismatch { active, requested } => "Recording ID mismatch: active="@ + active@
            + ", requested="@ + requested@,
    }
}

// ---------------------------------------------------------------------------
// Transitions over the view
// ---------------------------------------------------------------------------

/// The session after a pause request at `now_ms`: a pause opens unless one is
/// open already.
pub open spec fn paused(s: SessionView, now_ms: u64) -> SessionView {
    if s.paused_at is Some {
        s
    } else {
        SessionView { paused_at: Some(now_ms), ..s }
    }
}

/// The session after a resume request at `now_ms`: the open pause closes, and
/// is recorded if it lasted at least a millisecond.
pub open spec fn resumed(s: SessionView, now_ms: u64) -> SessionView {
    match s.paused_at {
        None => s,
        Some(p) => SessionView {
            paused_at: None,
            ranges: if now_ms > p { s.ranges.push((p, now_ms)) } else { s.ranges },
            ..s
        },
    }
}

/// The session as stopped at `end_ms`: an open pause is closed at `end_ms`.
pub open spec fn stopped(s: SessionView, end_ms: u64) -> SessionView {
    match s.paused_at {
        None => s,
        Some(p) => SessionView { paused_at: None, ranges: s.ranges.push((p, end_ms)), ..s },
    }
}

pub open spec fn mismatch(active: Seq<char>, requested: Seq<char>, e: SessionError) -> bool {
    e matches SessionError::IdMismatch { active: a, requested: r } && a@ == active && r@ == requested
}

impl RecordingSession {
    /// A fresh, unpaused session.
    pub fn new(recording_id: String, start_ms: u64) -> (s: RecordingSession)
        ensures
            s@ == (SessionView { id: recording_id@, start_ms, paused_at: None, ranges: seq![] }),
    {
        RecordingSession { recording_id, start_ms, pause_started_at_ms: None, pause_ranges_ms: Vec::new() }
    }
}

/// Checks that `slot` holds the recording `recording_id`.
fn check_active(slot: &Option<RecordingSession>, recording_id: &str) -> (r: Result<(), SessionError>)
    ensures
        slot is None ==> r == Err::<(), SessionError>(SessionError::NoActiveRecording),
        slot is Some && slot->0@.id == recording_id@ ==> r is Ok,
        slot is Some && slot->0@.id != recording_id@ ==> r is Err && mismatch(slot->0@.id, recording_id@, r->Err_0),
{
    match slot {
        None => Err(SessionError::NoActiveRecording),
        Some(rec) => {
            let requested = recording_id.to_string();
            if rec.recording_id == requested {
                Ok(())
            } else {
                Err(SessionError::IdMismatch { active: rec.recording_id.clone(), requested })
            }
        },
    }
}

/// Makes `session` the active recording, unless one is active already.
pub fn begin_recording(slot: &mut Option<RecordingSession>, session: RecordingSession) -> (r: Result<(), SessionError>)
    ensures
        old(slot).is_some() ==> r == Err::<(), SessionError>(SessionError::AlreadyRecording) && *final(slot) == *old(slot),
        old(slot).is_none() ==> r is Ok && *final(slot) == Some(session),
{
    if slot.is_some() {
        return Err(SessionError::AlreadyRecording);
    }
    *slot = Some(session);
    Ok(())
}

/// Pauses the active recording at `now_ms`.
///
/// Refused, with the state unchanged, when no recording is active or another
/// one is; pausing a paused recording changes nothing.
pub fn pause_recording(slot: &mut Option<RecordingSession>, recording_id: &str, now_ms: u64) -> (r: Result<(), SessionError>)
    ensures
        old(slot).is_none() ==> r == Err::<(), SessionError>(SessionError::NoActiveRecording) && *final(slot) == *old(slot),
        old(slot).is_some() && old(slot).unwrap()@.id != recording_id@ ==> r is Err
            && mismatch(old(slot).unwrap()@.id, recording_id@, r->Err_0) && *final(slot) == *old(slot),
        old(slot).is_some() && old(slot).unwrap()@.id == recording_id@ ==> r is Ok && final(slot).is_some()
            && final(slot).unwrap()@ == paused(old(slot).unwrap()@, now_ms),
{
    let checked = check_active(slot, recording_id);
    if let Err(e) = checked {
        return Err(e);
    }
    match slot {
        Some(rec) => {
            if rec.pause_started_at_ms.is_none() {
                rec.pause_started_at_ms = Some(now_ms);
            }
            Ok(())
        },
        None => Ok(()),
    }
}

/// Resumes the active recording at `now_ms`, recording the pause that ends.
///
/// Refused, with the state unchanged, when no recording is active or another
/// one is; resuming a recording that is not paused changes nothing.
pub fn resume_recording(slot: &mut Option<RecordingSession>, recording_id: &str, now_ms: u64) -> (r: Result<(), SessionError>)
    ensures
        old(slot).is_none() ==> r == Err::<(), SessionError>(SessionError::NoActiveRecording) && *final(slot) == *old(slot),
        old(slot).is_some() && old(slot).unwrap()@.id != recording_id@ ==> r is Err
            && mismatch(old(slot).unwrap()@.id, recording_id@, r->Err_0) && *final(slot) == *old(slot),
        old(slot).is_some() && old(slot).unwrap()@.id == recording_id@ ==> r is Ok && final(slot).is_some()
            && final(slot).unwrap()@ == resumed(old(slot).unwrap()@, now_ms),
{
    let checked = check_active(slot, recording_id);
    if let Err(e) = checked {
        return Err(e);
    }
    match slot {
        Some(rec) => {
            match rec.pause_started_at_ms {
                Some(paused_at_ms) => {
                    if now_ms > paused_at_ms {
                        rec.pause_ranges_ms.push((paused_at_ms, now_ms));
                    }
                    rec.pause_started_at_ms = None;
                },
                None => {},
            }
            Ok(())
        },
        None => Ok(()),
    }
}

/// Stops the active recording at `end_ms` and hands it back, with a pause
/// still open closed at `end_ms`.
///
/// Refused when no recording is active or another one is; then the active
/// recording, if any, stays active.
pub fn stop_recording(slot: &mut Option<RecordingSession>, recording_id: &str, end_ms: u64) -> (r: Result<RecordingSession, SessionError>)
    ensures
        old(slot).is_none() ==> r == Err::<RecordingSession, SessionError>(SessionError::NoActiveRecording)
            && *final(slot) == *old(slot),
        old(slot).is_some() && old(slot).unwrap()@.id != recording_id@ ==> r is Err
            && mismatch(old(slot).unwrap()@.id, recording_id@, r->Err_0) && *final(slot) == *old(slot),
        old(slot).is_some() && old(slot).unwrap()@.id == recording_id@ ==> r is Ok && final(slot).is_none()
            && r->Ok_0@ == stopped(old(slot).unwrap()@, end_ms),
{
    let checked = check_active(slot, recording_id);
    if let Err(e) = checked {
        return Err(e);
    }
    match slot.take() {
        Some(mut rec) => {
            match rec.pause_started_at_ms {
                Some(p) => {
                    rec.pause_ranges_ms.push((p, end_ms));
                    rec.pause_started_at_ms = None;
                },
                None => {},
            }
            Ok(rec)
        },
        None => Err(SessionError::NoActiveRecording),
    }
}

// ---------------------------------------------------------------------------
// Laws
// ---------------------------------------------------------------------------

/// A pause at `t1` followed by a resume at a later `t2` records exactly the
/// range `(t1, t2)` and leaves the recording unpaused.
pub proof fn law_pause_then_resume_records_range(s: SessionView, t1: u64, t2: u64)
    requires
        s.paused_at is None,
        t1 < t2,
    ensures
        resumed(paused(s, t1), t2) == (SessionView { paused_at: None, ranges: s.ranges.push((t1, t2)), ..s }),
{
}

/// A second pause request does not move the start of the open pause.
pub proof fn law_pause_is_idempotent(s: SessionView, t1: u64, t2: u64)
    ensures
        paused(paused(s, t1), t2) == paused(s, t1),
{
}

/// Resuming a recording that is not paused changes nothing.
pub proof fn law_resume_without_pause_is_noop(s: SessionView, t: u64)
    requires
        s.paused_at is None,
    ensures
        resumed(s, t) == s,
{
}

/// The recording's identity and start never change under pause, resume or
/// stop, and recorded pauses are never forgotten.
pub proof fn law_transitions_keep_identity_and_history(s: SessionView, t: u64)
    ensures
        paused(s, t).id == s.id && paused(s, t).start_ms == s.start_ms && paused(s, t).ranges == s.ranges,
        resumed(s, t).id == s.id && resumed(s, t).start_ms == s.start_ms,
        resumed(s, t).ranges.subrange(0, s.ranges.len() as int) == s.ranges,
        stopped(s, t).id == s.id && stopped(s, t).start_ms == s.start_ms,
        stopped(s, t).ranges.subrange(0, s.ranges.len() as int) == s.ranges,
        stopped(s, t).paused_at is None,
{
    assert(s.ranges.subrange(0, s.ranges.len() as int) =~= s.ranges);
    match s.paused_at {
        Some(p) => {
            assert(s.ranges.push((p, t)).subrange(0, s.ranges.len() as int) =~= s.ranges);
        },
        None => {},
    }
}

/// A session as the recorder leaves it by `now`: its closed pauses come one
/// after another between its start and `now`, and an open pause started
/// after the last closed one and by `now`.
pub open spec fn in_order_by(s: SessionView, now: u64) -> bool {
    &&& s.start_ms <= now
    &&& pauses_in_sequence(s.ranges, s.start_ms, now)
    &&& match s.paused_at {
        Some(p) => s.start_ms <= p <= now && (s.ranges.len() > 0 ==> s.ranges.last().1 <= p),
        None => true,
    }
}

proof fn lemma_sequence_later(r: Seq<(u64, u64)>, start: u64, t1: u64, t2: u64)
    requires
        pauses_in_sequence(r, start, t1),
        t1 <= t2,
    ensures
        pauses_in_sequence(r, start, t2),
{
}

proof fn lemma_sequence_push(r: Seq<(u64, u64)>, start: u64, now: u64, p: (u64, u64))
    requires
        pauses_in_sequence(r, start, now),
        start <= p.0 <= p.1 <= now,
        r.len() > 0 ==> r.last().1 <= p.0,
    ensures
        pauses_in_sequence(r.push(p), start, now),
{
    let q = r.push(p);
    assert forall|i: int, j: int| 0 <= i < j < q.len() implies #[trigger] q[i].1 <= #[trigger] q[j].0 by {
        if j == r.len() {
            assert(q[i] == r[i]);
            assert(r[i].1 <= r[r.len() - 1].0 || i == r.len() - 1);
        } else {
            assert(q[i] == r[i] && q[j] == r[j]);
        }
    }
}

/// Driven with a clock that never runs back, pause, resume and stop keep a
/// session's pauses one after another inside it; so a stopped session's
/// pauses are in the order that the recorded-length law asks for.
pub proof fn law_clock_order_keeps_pauses_in_sequence(s: SessionView, t1: u64, t2: u64)
    requires
        in_order_by(s, t1),
        t1 <= t2,
    ensures
        in_order_by(paused(s, t2), t2),
        in_order_by(resumed(s, t2), t2),
        pauses_in_sequence(stopped(s, t2).ranges, s.start_ms, t2),
{
    lemma_sequence_later(s.ranges, s.start_ms, t1, t2);
    match s.paused_at {
        Some(p) => {
            assert(paused(s, t2) == s);
            lemma_sequence_push(s.ranges, s.start_ms, t2, (p, t2));
        },
        None => {
            if s.ranges.len() > 0 {
                let k = s.ranges.len() - 1;
                assert(s.ranges.last() == s.ranges[k]);
                assert(s.start_ms <= s.ranges[k].0 <= s.ranges[k].1 <= t1);
            }
        },
    }
}

/// A new session is in order from its start on.
pub proof fn law_new_session_is_in_order(id: Seq<char>, start_ms: u64)
    ensures
        in_order_by(SessionView { id, start_ms, paused_at: None, ranges: seq![] }, start_ms),
{
}

} // verus!
