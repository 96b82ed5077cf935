//! A library for selecting a sub-sequence of tokens (lines, delimited
//! segments, or single bytes) out of a byte stream, using a compact
//! `start:end:step` slice notation.
//!
//! The pieces, from the bottom up:
//! - [`tokens`] is the mathematical model: how bytes split into tokens and
//!   which token indices a slice keeps;
//! - [`range`] parses the slice notation into a [`range::SliceRange`];
//! - [`segment`] produces tokens from bytes, one at a time;
//! - [`engine`] applies a slice to a token stream, lazily;
//! - [`modes`] ties segmenter and engine together for each mode and drives
//!   several targets in a row;
//! - [`stream`] slices a stream that arrives chunk by chunk, holding only
//!   the bytes since the last token boundary;
//! - [`bufsize`] validates a human-readable I/O buffer size.

pub mod bufsize;
pub mod engine;
pub mod modes;
pub mod range;
pub mod segment;
pub mod stream;
pub mod tokens;
