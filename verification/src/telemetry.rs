//! Decisions of the global input hook that records mouse and keyboard
//! events during a recording.

use vstd::prelude::*;

verus! {

/// How a key event changes the Ctrl state.
#[derive(Clone, Copy, Debug, PartialEq, Eq, Structural)]
pub enum CtrlTransition {
    Pressed,
    Released,
    Unchanged,
}

/// The Ctrl state after a key event.
pub fn next_ctrl_state(current: bool, transition: CtrlTransition) -> (b: bool)
    ensures
        b == match transition {
            CtrlTransition::Pressed => true,
            CtrlTransition::Released => false,
            CtrlTransition::Unchanged => current,
        },
{
    match transition {
        CtrlTransition::Pressed => true,
        CtrlTransition::Released => false,
        CtrlTransition::Unchanged => current,
    }
}

/// An input event is recorded only while a session runs and is not paused.
pub fn should_record_event(paused: bool, session_active: bool) -> (b: bool)
    ensures
        b == (!paused && session_active),
{
    !paused && session_active
}

/// Milliseconds of an event since the recording started (zero for events
/// stamped before it).
pub fn event_offset_ms(ts_abs: u64, start_ms: u64) -> (t: u64)
    ensures
        t == ts_abs.saturating_sub(start_ms),
{
    ts_abs.saturating_sub(start_ms)
}

/// Whether Ctrl is held: the operating system's answer where it gives one,
/// else the state the hook has seen.
pub fn ctrl_pressed_state(os_state: Option<bool>, hook_state: bool) -> (b: bool)
    ensures
        b == match os_state { Some(s) => s, None => hook_state },
{
    match os_state {
        Some(s) => s,
        None => hook_state,
    }
}

} // verus!
