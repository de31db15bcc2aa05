//! The dictation daemon.

pub mod audio;
pub mod ipc;
pub mod notifications;
pub mod state_machine;
pub mod transcriber;
