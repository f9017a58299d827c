//! Backend library for a desktop terminal-session manager: a verified
//! pseudo-terminal session multiplexer (UTF-8-safe output streaming, a
//! session registry with never-reused identifiers), together with the
//! string and decision logic of the surrounding session-history and
//! project-setup features.

pub mod commands;
pub mod context;
pub mod pty;
pub mod pty_raw;
pub mod sessions;
pub mod setup;
pub mod stream;
pub mod strutil;
pub mod text;

pub use text::find_utf8_boundary;
