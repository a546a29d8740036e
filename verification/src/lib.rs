//! Verified core of a small web tutor for conversational language practice.

pub mod text;
pub mod args;
pub mod config;
pub mod grammar;
pub mod stream;
pub mod prompt;
pub mod persist;
