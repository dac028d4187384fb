//! Composes shader source files, written in two dialects, into one unified
//! module in the canonical dialect. A source file may pull other files in
//! through directive lines; the composer resolves them depth-first, so that
//! a file's declarations always follow those of the files it pulls in.
//!
//! Two consequences of composing through accumulated canonical text, since
//! the toolkit's parsers take whole sources rather than a seed module: a
//! C-style file is parsed on its own, so it cannot refer to declarations
//! of files composed before it; and a canonical-dialect parse failure is
//! rendered against the accumulated concatenation, so its line numbers are
//! offsets into that concatenation, not into the failing file alone.
pub mod scan;
pub mod dialect;
pub mod error;
pub mod toolkit;
pub mod compose;
pub mod laws;
