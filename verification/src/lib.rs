//! File-lock inspection library: which processes hold a file, and the
//! rules for releasing it safely.
pub mod text;
pub mod bytes;
pub mod error;
pub mod detect;
pub mod winutil;
pub mod kill;
pub mod handle_scan;
pub mod engines;
pub mod updater;
pub mod state;
pub mod file_actions;
pub mod diagnostics;
pub mod logs;
