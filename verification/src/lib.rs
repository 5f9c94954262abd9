//! Core of a number-guessing game: difficulty resolution, per-guess session
//! transitions, aggregate statistics with derived metrics, and a textual
//! persistence format with a verified renderer and parser.

pub mod audio;
pub mod difficulty;
pub mod digits;
pub mod session;
pub mod stats;
pub mod storage;
