//! Where a transcription goes: it is typed, and offered as the primary
//! selection.

pub mod clipboard;
pub mod injector;
