//! Subtitle synchronisation: SubRip text, timing signals, release checks and
//! the state of the desktop window.

pub mod alignment;
pub mod app_laws;
pub mod engine;
pub mod engine_laws;
pub mod numbers;
pub mod signal;
pub mod srt_laws;
pub mod subtitle;
pub mod subtitle_laws;
pub mod text;
pub mod text_facts;
pub mod text_laws;
pub mod updater;
pub mod window;
