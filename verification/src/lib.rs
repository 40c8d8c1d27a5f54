//! Verified core of a desktop assistant's tool layer.
//!
//! The centrepiece is a unified-diff patch engine: it parses a diff payload
//! and replays its hunks against a file's lines, reporting how many lines
//! were added and removed.  Around it stand the session-state manager used
//! by the assistant, a file-content checker, and the small pure validators
//! behind the command, fetch and search tools.  All file, process and
//! network I/O stays with the callers; this crate works on in-memory text.

pub mod agent;
pub mod command;
pub mod diff;
pub mod fetch;
pub mod file_check;
pub mod search;
pub mod text;
