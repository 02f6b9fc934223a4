//! Verified core of a screen-recording and auto-zoom editor.

pub mod text;
pub mod ffmpeg;
pub mod order;
pub mod ranges;
pub mod pauses;
pub mod session;
pub mod camera;
pub mod recording;
pub mod audio_devices;
pub mod cursor_asset;
pub mod export_filters;
pub mod models;
pub mod export_job;
pub mod wav;
pub mod muxer;
pub mod frames;
pub mod preview;
pub mod project;
pub mod timeline;
pub mod telemetry;
