//! The live preview of a monitor: throttling, frame numbering, and the JPEG
//! data URL the user interface shows.

use vstd::prelude::*;
use base64::Engine;
use crate::text::{push_str, string_from_chars};

verus! {

broadcast use vstd::string::group_string_axioms;

/// Frames per second the preview aims at.
pub const PREVIEW_TARGET_FPS: u32 = 12;

/// Least time between two preview frames, in milliseconds (1000 / 12).
pub const PREVIEW_MIN_INTERVAL_MS: u64 = 83;

/// Previews wider than this are scaled down.
pub const PREVIEW_MAX_WIDTH: u32 = 1280;

/// One frame of the preview.
#[derive(Clone, Debug)]
pub struct NativePreviewFrame {
    pub data_url: String,
    pub width: u32,
    pub height: u32,
    pub sequence: u64,
}

/// The standard (RFC 4648, padded) base64 text of `bytes`, as the `base64`
/// crate's `STANDARD` engine encodes it.
pub uninterp spec fn base64_standard(bytes: Seq<u8>) -> Seq<char>;

/// Encodes with `base64::engine::general_purpose::STANDARD.encode`.
///
/// The contract names the result and states its length, four characters
/// for every started group of three bytes, as the crate's `encoded_len`
/// computes it with padding. The crate panics when that length overflows
/// `usize`, which the precondition rules out.
#[verifier::external_body]
fn base64_encode(bytes: &Vec<u8>) -> (s: String)
    requires
        bytes@.len() / 3 * 4 + 4 <= usize::MAX,
    ensures
        s@ == base64_standard(bytes@),
        s@.len() == (bytes@.len() + 2) / 3 * 4,
{
    base64::engine::general_purpose::STANDARD.encode(bytes)
}

/// The data URL of a JPEG image.
pub fn jpeg_data_url(jpeg: &Vec<u8>) -> (url: String)
    requires
        jpeg@.len() / 3 * 4 + 4 <= usize::MAX,
    ensures
        url@ == "data:image/jpeg;base64,"@ + base64_standard(jpeg@),
{
    let encoded = base64_encode(jpeg);
    let mut out: Vec<char> = Vec::new();
    push_str(&mut out, "data:image/jpeg;base64,");
    push_str(&mut out, encoded.as_str());
    string_from_chars(out.as_slice())
}

/// The preview frame that follows frame `previous_sequence`, holding the
/// JPEG `jpeg` of the given size.
pub fn preview_frame(jpeg: &Vec<u8>, width: u32, height: u32, previous_sequence: u64) -> (f: NativePreviewFrame)
    requires
        jpeg@.len() / 3 * 4 + 4 <= usize::MAX,
    ensures
        f.data_url@ == "data:image/jpeg;base64,"@ + base64_standard(jpeg@),
        f.width == width && f.height == height,
        f.sequence == previous_sequence.saturating_add(1),
{
    NativePreviewFrame {
        data_url: jpeg_data_url(jpeg),
        width,
        height,
        sequence: previous_sequence.saturating_add(1),
    }
}

/// A frame is encoded unless the previous one was encoded less than the
/// least interval ago.
pub fn should_encode_preview(elapsed_since_last_ns: Option<u128>, min_interval_ns: u128) -> (b: bool)
    ensures
        b == match elapsed_since_last_ns {
            None => true,
            Some(e) => e >= min_interval_ns,
        },
{
    match elapsed_since_last_ns {
        None => true,
        Some(e) => e >= min_interval_ns,
    }
}

/// The preview stops once the monitor reports an empty frame.
pub fn preview_should_stop(width: u32, height: u32) -> (b: bool)
    ensures
        b == (width == 0 || height == 0),
{
    width == 0 || height == 0
}

/// What a request to preview a monitor does.
#[derive(Clone, Copy, Debug, PartialEq, Eq, Structural)]
pub enum PreviewSessionAction {
    /// The monitor is previewed already.
    KeepRunning,
    /// Stop the preview running (if any) and start one on the monitor.
    Restart,
}

pub fn preview_session_action(current_monitor: Option<u32>, requested_monitor: u32) -> (a: PreviewSessionAction)
    ensures
        a == (if current_monitor == Some(requested_monitor) {
            PreviewSessionAction::KeepRunning
        } else {
            PreviewSessionAction::Restart
        }),
{
    match current_monitor {
        Some(m) => if m == requested_monitor { PreviewSessionAction::KeepRunning } else { PreviewSessionAction::Restart },
        None => PreviewSessionAction::Restart,
    }
}

} // verus!
