//! rs-top: a read-only monitor of remote Linux hosts over SSH.
//!
//! The library holds what the dashboard decides and computes, each with a
//! verified contract: the statistics command and the parsers of its output
//! (`stats`, on top of the character-level `text`), the derived settings of
//! a configured host (`config`), the dashboard state and its reaction to
//! events (`app`), the numbers and text its panels show (`format`,
//! `widgets`). The terminal front end, the SSH sessions and the event loop
//! live in the program under `app/`.
pub mod app;
pub mod config;
pub mod format;
pub mod stats;
pub mod text;
pub mod widgets;
