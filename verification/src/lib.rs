//! A small verified parser for shell-like command strings.
//!
//! An input string is scanned into positional arguments, `--name value`
//! keyword pairs, and `-abc` short-flag clusters with per-character
//! occurrence counts.  The scanner and the parser are specified over
//! `Seq<char>` models and proved to follow those specifications exactly.

pub mod args;
pub mod laws;
pub mod model;
pub mod scan;
pub mod table;

pub use crate::args::Args;
