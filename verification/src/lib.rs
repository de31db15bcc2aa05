//! Voice dictation for Wayland: what is said is transcribed while it is spoken,
//! and typed where the cursor is.

pub mod config;
pub mod daemon;
pub mod output;
pub mod text;
pub mod text_laws;
