//! Media-library maintenance logic: stream classification, conversion
//! planning, input scanning and log formatting for a video re-muxer that
//! downmixes 5.1 audio to 4.1 and normalises containers to MP4.

pub mod text;
pub mod paths;
pub mod logger;
pub mod ffprobe;
pub mod ffmpeg;
pub mod scanner;
pub mod cli;
