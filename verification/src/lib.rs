//! Hands-free voice command triggering: voice-activity gating, command
//! matching, macro dispatch planning and audio feedback queueing.

pub mod audio;
pub mod command;
pub mod config;
pub mod keypress;
pub mod speaker;
pub mod matcher;
pub mod utils;
pub mod keys;

pub use keys::LocalKey;
