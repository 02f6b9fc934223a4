//! The data of a project and of its recorded input events that the library
//! works with.

use vstd::prelude::*;

verus! {

broadcast use vstd::string::group_string_axioms;

/// Version of the `project.json` schema.
pub const PROJECT_SCHEMA_VERSION: u32 = 1;

/// Version of the `events.json` schema.
pub const EVENTS_SCHEMA_VERSION: u32 = 1;

/// Bounds of a UI element in screen pixels.
#[derive(Clone, Copy, Debug, PartialEq, Eq, Structural)]
pub struct BoundingRect {
    pub x: i32,
    pub y: i32,
    pub width: u32,
    pub height: u32,
}

/// The UI element under a click.
#[derive(Clone, Debug)]
pub struct UiContext {
    pub app_name: Option<String>,
    pub control_name: Option<String>,
    pub bounding_rect: Option<BoundingRect>,
}

/// A mouse button.
#[derive(Clone, Copy, Debug, PartialEq, Eq, Structural)]
pub enum MouseButton {
    Left,
    Right,
    Middle,
}

/// How a zoom segment frames its target.
#[derive(Clone, Copy, Debug, PartialEq, Eq, Structural)]
pub enum ZoomMode {
    Fixed,
    FollowCursor,
}

impl Default for ZoomMode {
    fn default() -> (m: Self)
        ensures
            m == ZoomMode::Fixed,
    {
        ZoomMode::Fixed
    }
}

/// What created a zoom segment.
#[derive(Clone, Copy, Debug, PartialEq, Eq, Structural)]
pub enum ZoomTrigger {
    AutoClick,
    AutoScroll,
    Manual,
}

impl Default for ZoomTrigger {
    fn default() -> (t: Self)
        ensures
            t == ZoomTrigger::Manual,
    {
        ZoomTrigger::Manual
    }
}

/// The background behind the framed video.
#[derive(Clone, Debug)]
pub enum Background {
    Solid { color: String },
    Gradient { from: String, to: String, direction: String },
}

impl Default for Background {
    fn default() -> (b: Self)
        ensures
            b matches Background::Solid { color } && color@ == "#1a1a2e"@,
    {
        Background::Solid { color: "#1a1a2e".to_string() }
    }
}

/// Export settings of a project.
#[derive(Clone, Debug)]
pub struct ExportSettings {
    pub width: u32,
    pub height: u32,
    pub fps: u32,
    pub codec: String,
}

impl Default for ExportSettings {
    fn default() -> (s: Self)
        ensures
            s.width == 1920 && s.height == 1080 && s.fps == 30 && s.codec@ == "h264"@,
    {
        ExportSettings { width: 1920, height: 1080, fps: 30, codec: "h264".to_string() }
    }
}

/// The bounds of a UI element from its edges; an inverted extent counts as
/// zero.
pub fn bounding_rect_from_edges(left: i32, top: i32, right: i32, bottom: i32) -> (r: BoundingRect)
    ensures
        r.x == left && r.y == top,
        r.width == (if right - left > 0 { right - left } else { 0 }),
        r.height == (if bottom - top > 0 { bottom - top } else { 0 }),
{
    let w: i64 = right as i64 - left as i64;
    let h: i64 = bottom as i64 - top as i64;
    BoundingRect {
        x: left,
        y: top,
        width: if w > 0 { w as u32 } else { 0 },
        height: if h > 0 { h as u32 } else { 0 },
    }
}

} // verus!
