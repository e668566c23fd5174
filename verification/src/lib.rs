//! Lossless splitting and joining of videos with FFmpeg: the decisions.

pub mod cli;
pub mod concat;
pub mod error;
pub mod ffmpeg;
pub mod probe;
pub mod size;
pub mod split;
pub mod text;
pub mod time;
pub mod video;
